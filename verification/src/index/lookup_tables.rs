//! Name-keyed lookup tables: a unique map for classes and one multimap per
//! method kind plus one for properties.  The tables are association
//! vectors with unique keys; their mathematical readings are maps from
//! names to references (classes) or to sets of references (multimaps).

use vstd::prelude::*;

use crate::index::index_symbol::{IndexSymbolRef, MethodKind, RefView, SymbolName, SymbolPath};

verus! {

/// The set of references held by a bucket.
pub open spec fn refs_set(rs: Seq<IndexSymbolRef>) -> Set<RefView> {
    Set::new(|r: RefView| exists|i: int| 0 <= i < rs.len() && rs[i]@ == r)
}

/// Pushing a reference adds its reading to the bucket's set.
pub proof fn lemma_refs_set_push(rs: Seq<IndexSymbolRef>, x: IndexSymbolRef)
    ensures
        refs_set(rs.push(x)) == refs_set(rs).insert(x@),
{
    assert forall|r: RefView| refs_set(rs.push(x)).contains(r) implies refs_set(rs).insert(
        x@,
    ).contains(r) by {
        let i = choose|i: int| 0 <= i < rs.push(x).len() && rs.push(x)[i]@ == r;
        if i < rs.len() {
            assert(rs[i]@ == r);
        }
    }
    assert forall|r: RefView| refs_set(rs).insert(x@).contains(r) implies refs_set(
        rs.push(x),
    ).contains(r) by {
        if r == x@ {
            assert(rs.push(x)[rs.len() as int]@ == r);
        } else {
            let i = choose|i: int| 0 <= i < rs.len() && rs[i]@ == r;
            assert(rs.push(x)[i]@ == r);
        }
    }
    assert(refs_set(rs.push(x)) =~= refs_set(rs).insert(x@));
}

/// An empty bucket reads as the empty set.
pub proof fn lemma_refs_set_empty(rs: Seq<IndexSymbolRef>)
    requires
        rs.len() == 0,
    ensures
        refs_set(rs) == Set::<RefView>::empty(),
{
    assert(refs_set(rs) =~= Set::<RefView>::empty());
}

/// The map read off a class table.
pub open spec fn class_map(es: Seq<(SymbolName, IndexSymbolRef)>) -> Map<Seq<char>, RefView>
    decreases es.len(),
{
    if es.len() == 0 {
        Map::empty()
    } else {
        class_map(es.drop_last()).insert(es.last().0@, es.last().1@)
    }
}

/// The map read off a multimap table.
pub open spec fn bucket_map(es: Seq<(SymbolName, Vec<IndexSymbolRef>)>) -> Map<
    Seq<char>,
    Set<RefView>,
>
    decreases es.len(),
{
    if es.len() == 0 {
        Map::empty()
    } else {
        bucket_map(es.drop_last()).insert(es.last().0@, refs_set(es.last().1@))
    }
}

/// No two entries share a key.
pub open spec fn unique_class_keys(es: Seq<(SymbolName, IndexSymbolRef)>) -> bool {
    forall|i: int, j: int|
        0 <= i < j < es.len() ==> (#[trigger] es[i].0@) != (#[trigger] es[j].0@)
}

pub open spec fn unique_bucket_keys(es: Seq<(SymbolName, Vec<IndexSymbolRef>)>) -> bool {
    forall|i: int, j: int|
        0 <= i < j < es.len() ==> (#[trigger] es[i].0@) != (#[trigger] es[j].0@)
}

/// Every bucket holds at least one reference.
pub open spec fn buckets_nonempty(es: Seq<(SymbolName, Vec<IndexSymbolRef>)>) -> bool {
    forall|i: int| 0 <= i < es.len() ==> (#[trigger] es[i].1@).len() > 0
}

/// A key is in the class map exactly when an entry spells it.
pub proof fn lemma_class_map_contains(es: Seq<(SymbolName, IndexSymbolRef)>, k: Seq<char>)
    ensures
        class_map(es).contains_key(k) <==> exists|i: int|
            0 <= i < es.len() && (#[trigger] es[i].0@) == k,
    decreases es.len(),
{
    if es.len() > 0 {
        lemma_class_map_contains(es.drop_last(), k);
        assert(forall|i: int| 0 <= i < es.len() - 1 ==> es.drop_last()[i] == es[i]);
        if class_map(es).contains_key(k) && es.last().0@ != k {
            let i = choose|i: int| 0 <= i < es.drop_last().len() && (#[trigger] es.drop_last()[i].0@)
                == k;
            assert(es[i].0@ == k);
        }
    }
}

/// With unique keys, the value under an entry's key is that entry's value.
pub proof fn lemma_class_map_value(es: Seq<(SymbolName, IndexSymbolRef)>, i: int)
    requires
        unique_class_keys(es),
        0 <= i < es.len(),
    ensures
        class_map(es).contains_key(es[i].0@),
        class_map(es)[es[i].0@] == es[i].1@,
    decreases es.len(),
{
    if i == es.len() - 1 {
    } else {
        assert(forall|a: int| 0 <= a < es.len() - 1 ==> es.drop_last()[a] == es[a]);
        lemma_class_map_value(es.drop_last(), i);
        assert(es.last().0@ != es[i].0@);
    }
}

/// Bucket-table analogues of the two lemmas above.
pub proof fn lemma_bucket_map_contains(es: Seq<(SymbolName, Vec<IndexSymbolRef>)>, k: Seq<char>)
    ensures
        bucket_map(es).contains_key(k) <==> exists|i: int|
            0 <= i < es.len() && (#[trigger] es[i].0@) == k,
    decreases es.len(),
{
    if es.len() > 0 {
        lemma_bucket_map_contains(es.drop_last(), k);
        assert(forall|i: int| 0 <= i < es.len() - 1 ==> es.drop_last()[i] == es[i]);
        if bucket_map(es).contains_key(k) && es.last().0@ != k {
            let i = choose|i: int| 0 <= i < es.drop_last().len() && (#[trigger] es.drop_last()[i].0@)
                == k;
            assert(es[i].0@ == k);
        }
    }
}

pub proof fn lemma_bucket_map_value(es: Seq<(SymbolName, Vec<IndexSymbolRef>)>, i: int)
    requires
        unique_bucket_keys(es),
        0 <= i < es.len(),
    ensures
        bucket_map(es).contains_key(es[i].0@),
        bucket_map(es)[es[i].0@] == refs_set(es[i].1@),
    decreases es.len(),
{
    if i == es.len() - 1 {
    } else {
        assert(forall|a: int| 0 <= a < es.len() - 1 ==> es.drop_last()[a] == es[a]);
        lemma_bucket_map_value(es.drop_last(), i);
        assert(es.last().0@ != es[i].0@);
    }
}

/// Removing the entry at `i` removes exactly its key from the reading.
pub proof fn lemma_class_map_remove(es: Seq<(SymbolName, IndexSymbolRef)>, i: int)
    requires
        unique_class_keys(es),
        0 <= i < es.len(),
    ensures
        class_map(es.subrange(0, i) + es.subrange(i + 1, es.len() as int)) == class_map(es).remove(
            es[i].0@,
        ),
        unique_class_keys(es.subrange(0, i) + es.subrange(i + 1, es.len() as int)),
{
    let es2 = es.subrange(0, i) + es.subrange(i + 1, es.len() as int);
    let k = es[i].0@;
    assert(unique_class_keys(es2)) by {
        assert(forall|a: int|
            0 <= a < es2.len() ==> #[trigger] es2[a] == (if a < i {
                es[a]
            } else {
                es[a + 1]
            }));
    }
    assert forall|k2: Seq<char>| #[trigger] class_map(es2).dom().contains(k2) implies class_map(
        es,
    ).remove(k).dom().contains(k2) && class_map(es2)[k2] == class_map(es).remove(k)[k2] by {
        lemma_class_map_contains(es2, k2);
        let a = choose|a: int| 0 <= a < es2.len() && (#[trigger] es2[a].0@) == k2;
        let b: int = if a < i {
            a
        } else {
            a + 1
        };
        assert(es[b] == es2[a]);
        assert(k2 != k);
        lemma_class_map_value(es2, a);
        lemma_class_map_value(es, b);
    }
    assert forall|k2: Seq<char>| #[trigger] class_map(es).remove(k).dom().contains(
        k2,
    ) implies class_map(es2).dom().contains(k2) by {
        lemma_class_map_contains(es, k2);
        lemma_class_map_contains(es2, k2);
        let b = choose|b: int| 0 <= b < es.len() && (#[trigger] es[b].0@) == k2;
        let a: int = if b < i {
            b
        } else {
            b - 1
        };
        assert(es2[a] == es[b]);
    }
    assert(class_map(es2) =~= class_map(es).remove(k));
}

pub proof fn lemma_bucket_map_remove(es: Seq<(SymbolName, Vec<IndexSymbolRef>)>, i: int)
    requires
        unique_bucket_keys(es),
        0 <= i < es.len(),
    ensures
        bucket_map(es.subrange(0, i) + es.subrange(i + 1, es.len() as int)) == bucket_map(
            es,
        ).remove(es[i].0@),
        unique_bucket_keys(es.subrange(0, i) + es.subrange(i + 1, es.len() as int)),
{
    let es2 = es.subrange(0, i) + es.subrange(i + 1, es.len() as int);
    let k = es[i].0@;
    assert(unique_bucket_keys(es2)) by {
        assert(forall|a: int|
            0 <= a < es2.len() ==> #[trigger] es2[a] == (if a < i {
                es[a]
            } else {
                es[a + 1]
            }));
    }
    assert forall|k2: Seq<char>| #[trigger] bucket_map(es2).dom().contains(k2) implies bucket_map(
        es,
    ).remove(k).dom().contains(k2) && bucket_map(es2)[k2] == bucket_map(es).remove(k)[k2] by {
        lemma_bucket_map_contains(es2, k2);
        let a = choose|a: int| 0 <= a < es2.len() && (#[trigger] es2[a].0@) == k2;
        let b: int = if a < i {
            a
        } else {
            a + 1
        };
        assert(es[b] == es2[a]);
        assert(k2 != k);
        lemma_bucket_map_value(es2, a);
        lemma_bucket_map_value(es, b);
    }
    assert forall|k2: Seq<char>| #[trigger] bucket_map(es).remove(k).dom().contains(
        k2,
    ) implies bucket_map(es2).dom().contains(k2) by {
        lemma_bucket_map_contains(es, k2);
        lemma_bucket_map_contains(es2, k2);
        let b = choose|b: int| 0 <= b < es.len() && (#[trigger] es[b].0@) == k2;
        let a: int = if b < i {
            b
        } else {
            b - 1
        };
        assert(es2[a] == es[b]);
    }
    assert(bucket_map(es2) =~= bucket_map(es).remove(k));
}

/// Find the entry carrying a key.
fn find_class_entry(es: &Vec<(SymbolName, IndexSymbolRef)>, name: &SymbolName) -> (r: Option<
    usize,
>)
    ensures
        match r {
            Some(i) => i < es@.len() && es@[i as int].0@ == name@,
            None => forall|i: int| 0 <= i < es@.len() ==> (#[trigger] es@[i].0@) != name@,
        },
{
    let mut i: usize = 0;
    while i < es.len()
        invariant
            i <= es@.len(),
            forall|j: int| 0 <= j < i ==> (#[trigger] es@[j].0@) != name@,
        decreases es@.len() - i,
    {
        if &es[i].0 == name {
            return Some(i);
        }
        i += 1;
    }
    None
}

fn find_bucket_entry(es: &Vec<(SymbolName, Vec<IndexSymbolRef>)>, name: &SymbolName) -> (r: Option<
    usize,
>)
    ensures
        match r {
            Some(i) => i < es@.len() && es@[i as int].0@ == name@,
            None => forall|i: int| 0 <= i < es@.len() ==> (#[trigger] es@[i].0@) != name@,
        },
{
    let mut i: usize = 0;
    while i < es.len()
        invariant
            i <= es@.len(),
            forall|j: int| 0 <= j < i ==> (#[trigger] es@[j].0@) != name@,
        decreases es@.len() - i,
    {
        if &es[i].0 == name {
            return Some(i);
        }
        i += 1;
    }
    None
}

/// Remove the entry under a key, if present.
fn class_table_remove(es: &mut Vec<(SymbolName, IndexSymbolRef)>, name: &SymbolName)
    requires
        unique_class_keys(old(es)@),
    ensures
        unique_class_keys(final(es)@),
        class_map(final(es)@) == class_map(old(es)@).remove(name@),
{
    match find_class_entry(es, name) {
        Some(i) => {
            proof {
                lemma_class_map_remove(es@, i as int);
            }
            es.remove(i);
        },
        None => {
            proof {
                lemma_class_map_contains(es@, name@);
                assert(class_map(es@) =~= class_map(es@).remove(name@));
            }
        },
    }
}

#[verifier::rlimit(60)]
fn bucket_table_remove(es: &mut Vec<(SymbolName, Vec<IndexSymbolRef>)>, name: &SymbolName)
    requires
        unique_bucket_keys(old(es)@),
    ensures
        unique_bucket_keys(final(es)@),
        bucket_map(final(es)@) == bucket_map(old(es)@).remove(name@),
        buckets_nonempty(old(es)@) ==> buckets_nonempty(final(es)@),
{
    match find_bucket_entry(es, name) {
        Some(i) => {
            proof {
                lemma_bucket_map_remove(es@, i as int);
            }
            es.remove(i);
            proof {
                assert(forall|a: int|
                    0 <= a < es@.len() ==> #[trigger] es@[a] == (if a < i {
                        old(es)@[a]
                    } else {
                        old(es)@[a + 1]
                    }));
            }
        },
        None => {
            proof {
                lemma_bucket_map_contains(es@, name@);
                assert(bucket_map(es@) =~= bucket_map(es@).remove(name@));
            }
        },
    }
}

/// The set of references once those carrying `path` are gone.
pub open spec fn without_path(s: Set<RefView>, path: Seq<Seq<char>>) -> Set<RefView> {
    Set::new(|r: RefView| s.contains(r) && r.path != path)
}

/// A multimap after inserting one reference under a name.
pub open spec fn bucket_insert_spec(
    m: Map<Seq<char>, Set<RefView>>,
    k: Seq<char>,
    r: RefView,
) -> Map<Seq<char>, Set<RefView>> {
    m.insert(
        k,
        if m.contains_key(k) {
            m[k].insert(r)
        } else {
            Set::empty().insert(r)
        },
    )
}

/// A multimap after dropping every reference with the given path from the
/// bucket under a name; an emptied bucket is erased.
pub open spec fn bucket_remove_path_spec(
    m: Map<Seq<char>, Set<RefView>>,
    k: Seq<char>,
    path: Seq<Seq<char>>,
) -> Map<Seq<char>, Set<RefView>> {
    if !m.contains_key(k) {
        m
    } else {
        let s2 = without_path(m[k], path);
        if s2 == Set::<RefView>::empty() {
            m.remove(k)
        } else {
            m.insert(k, s2)
        }
    }
}

/// Insert a reference into a multimap bucket.
#[verifier::rlimit(60)]
fn bucket_table_insert(
    es: &mut Vec<(SymbolName, Vec<IndexSymbolRef>)>,
    name: &SymbolName,
    re: IndexSymbolRef,
)
    requires
        unique_bucket_keys(old(es)@),
        buckets_nonempty(old(es)@),
    ensures
        unique_bucket_keys(final(es)@),
        buckets_nonempty(final(es)@),
        bucket_map(final(es)@) == bucket_insert_spec(bucket_map(old(es)@), name@, re@),
{
    let ghost m0 = bucket_map(es@);
    match find_bucket_entry(es, name) {
        Some(i) => {
            proof {
                lemma_bucket_map_value(es@, i as int);
                lemma_bucket_map_remove(es@, i as int);
            }
            let ghost before = es@;
            let mut entry = es.remove(i);
            entry.1.push(re);
            let ghost entry_snapshot = entry;
            es.push(entry);
            proof {
                assert(es@.drop_last() =~= before.subrange(0, i as int) + before.subrange(
                    i as int + 1,
                    before.len() as int,
                ));
                lemma_refs_set_push(before[i as int].1@, entry_snapshot.1@[entry_snapshot.1@.len()
                    - 1]);
                assert(entry_snapshot.1@ == before[i as int].1@.push(entry_snapshot.1@[
                entry_snapshot.1@.len() - 1]));
                assert(bucket_map(es@) == bucket_map(es@.drop_last()).insert(
                    es@.last().0@,
                    refs_set(es@.last().1@),
                ));
                assert(bucket_map(es@) =~= bucket_insert_spec(m0, name@, re@));
                assert(unique_bucket_keys(es@)) by {
                    lemma_bucket_map_contains(es@.drop_last(), name@);
                }
                assert(forall|a: int|
                    0 <= a < es@.len() - 1 ==> #[trigger] es@[a] == (if a < i {
                        before[a]
                    } else {
                        before[a + 1]
                    }));
            }
        },
        None => {
            let mut bucket: Vec<IndexSymbolRef> = Vec::new();
            bucket.push(re);
            let ghost bucket_snapshot = bucket;
            es.push((name.clone(), bucket));
            proof {
                assert(es@.drop_last() =~= old(es)@);
                lemma_bucket_map_contains(old(es)@, name@);
                assert(bucket_snapshot@ =~= Seq::<IndexSymbolRef>::empty().push(bucket_snapshot@[
                0]));
                lemma_refs_set_empty(Seq::<IndexSymbolRef>::empty());
                lemma_refs_set_push(Seq::<IndexSymbolRef>::empty(), bucket_snapshot@[0]);
                assert(es@.last().0@ == name@);
                assert(refs_set(es@.last().1@) == Set::<RefView>::empty().insert(re@));
                assert(bucket_map(es@) =~= bucket_insert_spec(m0, name@, re@));
            }
        },
    }
}

/// Drop every reference carrying `path` from the bucket under a name.
#[verifier::rlimit(60)]
fn bucket_table_remove_path(
    es: &mut Vec<(SymbolName, Vec<IndexSymbolRef>)>,
    name: &SymbolName,
    path: &SymbolPath,
)
    requires
        unique_bucket_keys(old(es)@),
        buckets_nonempty(old(es)@),
    ensures
        unique_bucket_keys(final(es)@),
        buckets_nonempty(final(es)@),
        bucket_map(final(es)@) == bucket_remove_path_spec(bucket_map(old(es)@), name@, path@),
{
    let ghost m0 = bucket_map(es@);
    match find_bucket_entry(es, name) {
        Some(i) => {
            proof {
                lemma_bucket_map_value(es@, i as int);
                lemma_bucket_map_remove(es@, i as int);
            }
            let ghost before = es@;
            let entry = es.remove(i);
            let mut kept: Vec<IndexSymbolRef> = Vec::new();
            let mut j: usize = 0;
            while j < entry.1.len()
                invariant
                    j <= entry.1@.len(),
                    refs_set(kept@) == without_path(refs_set(entry.1@.take(j as int)), path@),
                decreases entry.1@.len() - j,
            {
                let keep = !entry.1[j].symbol_path.matches(path);
                if keep {
                    let ghost kept_before = kept@;
                    let re = entry.1[j].clone();
                    let ghost re_snapshot = re;
                    kept.push(re);
                    proof {
                        assert(re_snapshot@ == entry.1@[j as int]@);
                        lemma_refs_set_push(kept_before, re_snapshot);
                        assert(entry.1@.take(j as int + 1) =~= entry.1@.take(j as int).push(
                            entry.1@[j as int],
                        ));
                        lemma_refs_set_push(entry.1@.take(j as int), entry.1@[j as int]);
                        assert(refs_set(kept@) =~= without_path(
                            refs_set(entry.1@.take(j as int + 1)),
                            path@,
                        ));
                    }
                } else {
                    proof {
                        assert(entry.1@.take(j as int + 1) =~= entry.1@.take(j as int).push(
                            entry.1@[j as int],
                        ));
                        lemma_refs_set_push(entry.1@.take(j as int), entry.1@[j as int]);
                        assert(refs_set(kept@) =~= without_path(
                            refs_set(entry.1@.take(j as int + 1)),
                            path@,
                        ));
                    }
                }
                j += 1;
            }
            proof {
                assert(entry.1@.take(entry.1@.len() as int) =~= entry.1@);
            }
            if kept.len() > 0 {
                let ghost kept_snapshot = kept@;
                es.push((entry.0, kept));
                proof {
                    assert(es@.drop_last() =~= before.subrange(0, i as int) + before.subrange(
                        i as int + 1,
                        before.len() as int,
                    ));
                    lemma_bucket_map_contains(es@.drop_last(), name@);
                    assert(refs_set(kept_snapshot).contains(kept_snapshot[0]@));
                    assert(without_path(m0[name@], path@) != Set::<RefView>::empty()) by {
                        assert(without_path(m0[name@], path@).contains(kept_snapshot[0]@));
                    }
                    assert(bucket_map(es@) =~= bucket_remove_path_spec(m0, name@, path@));
                    assert(forall|a: int|
                        0 <= a < es@.len() - 1 ==> #[trigger] es@[a] == (if a < i {
                            before[a]
                        } else {
                            before[a + 1]
                        }));
                }
            } else {
                proof {
                    assert(without_path(m0[name@], path@) =~= Set::<RefView>::empty());
                    assert(bucket_map(es@) =~= bucket_remove_path_spec(m0, name@, path@));
                    assert(forall|a: int|
                        0 <= a < es@.len() ==> #[trigger] es@[a] == (if a < i {
                            before[a]
                        } else {
                            before[a + 1]
                        }));
                }
            }
        },
        None => {
            proof {
                lemma_bucket_map_contains(es@, name@);
            }
        },
    }
}

/// The reading of the whole table set.
#[verifier::ext_equal]
pub struct TablesView {
    pub classes: Map<Seq<char>, RefView>,
    pub procedures: Map<Seq<char>, Set<RefView>>,
    pub functions: Map<Seq<char>, Set<RefView>>,
    pub setters: Map<Seq<char>, Set<RefView>>,
    pub properties: Map<Seq<char>, Set<RefView>>,
}

impl TablesView {
    /// The method table of one kind.
    pub open spec fn methods(self, kind: MethodKind) -> Map<Seq<char>, Set<RefView>> {
        match kind {
            MethodKind::Procedure => self.procedures,
            MethodKind::Function => self.functions,
            MethodKind::Setter => self.setters,
        }
    }

    /// Replace the method table of one kind.
    pub open spec fn with_methods(self, kind: MethodKind, m: Map<Seq<char>, Set<RefView>>)
        -> TablesView {
        match kind {
            MethodKind::Procedure => TablesView { procedures: m, ..self },
            MethodKind::Function => TablesView { functions: m, ..self },
            MethodKind::Setter => TablesView { setters: m, ..self },
        }
    }

    /// All tables empty.
    pub open spec fn empty() -> TablesView {
        TablesView {
            classes: Map::empty(),
            procedures: Map::empty(),
            functions: Map::empty(),
            setters: Map::empty(),
            properties: Map::empty(),
        }
    }
}

/// The lookup tables: class names to references, and method and property
/// names to all the references that share them.
#[derive(Debug)]
pub struct LookupTables {
    class_lookup_table: Vec<(SymbolName, IndexSymbolRef)>,
    procedure_lookup_table: Vec<(SymbolName, Vec<IndexSymbolRef>)>,
    function_lookup_table: Vec<(SymbolName, Vec<IndexSymbolRef>)>,
    setter_lookup_table: Vec<(SymbolName, Vec<IndexSymbolRef>)>,
    property_lookup_table: Vec<(SymbolName, Vec<IndexSymbolRef>)>,
}

impl View for LookupTables {
    type V = TablesView;

    closed spec fn view(&self) -> TablesView {
        TablesView {
            classes: class_map(self.class_lookup_table@),
            procedures: bucket_map(self.procedure_lookup_table@),
            functions: bucket_map(self.function_lookup_table@),
            setters: bucket_map(self.setter_lookup_table@),
            properties: bucket_map(self.property_lookup_table@),
        }
    }
}

impl LookupTables {
    /// Key uniqueness and bucket non-emptiness across all tables.
    pub closed spec fn wf(&self) -> bool {
        &&& unique_class_keys(self.class_lookup_table@)
        &&& unique_bucket_keys(self.procedure_lookup_table@)
        &&& unique_bucket_keys(self.function_lookup_table@)
        &&& unique_bucket_keys(self.setter_lookup_table@)
        &&& unique_bucket_keys(self.property_lookup_table@)
        &&& buckets_nonempty(self.procedure_lookup_table@)
        &&& buckets_nonempty(self.function_lookup_table@)
        &&& buckets_nonempty(self.setter_lookup_table@)
        &&& buckets_nonempty(self.property_lookup_table@)
    }

    /// Empty tables.
    pub fn new() -> (r: LookupTables)
        ensures
            r.wf(),
            r@ == TablesView::empty(),
    {
        let r = LookupTables {
            class_lookup_table: Vec::new(),
            procedure_lookup_table: Vec::new(),
            function_lookup_table: Vec::new(),
            setter_lookup_table: Vec::new(),
            property_lookup_table: Vec::new(),
        };
        proof {
            assert(r@ =~~= TablesView::empty());
        }
        r
    }

    /// The class table entries.
    pub fn class_lookup_table(&self) -> (r: &Vec<(SymbolName, IndexSymbolRef)>)
        ensures
            class_map(r@) == self@.classes,
            unique_class_keys(r@) == unique_class_keys(self.spec_class_entries()),
    {
        &self.class_lookup_table
    }

    pub closed spec fn spec_class_entries(&self) -> Seq<(SymbolName, IndexSymbolRef)> {
        self.class_lookup_table@
    }

    /// The class table entries, for direct mutation.  A caller that
    /// mutates through this handle leaves well-formedness behind; the
    /// querying operations all require it.
    pub fn class_lookup_table_mut(&mut self) -> (r: &mut Vec<(SymbolName, IndexSymbolRef)>)
        ensures
            class_map((*r)@) == old(self)@.classes,
            final(self)@.classes == class_map((*final(r))@),
            final(self)@.procedures == old(self)@.procedures,
            final(self)@.functions == old(self)@.functions,
            final(self)@.setters == old(self)@.setters,
            final(self)@.properties == old(self)@.properties,
    {
        &mut self.class_lookup_table
    }

    /// The method table entries of one kind, for direct mutation.
    pub fn method_lookup_table_mut(&mut self, kind: MethodKind) -> (r: &mut Vec<(
        SymbolName,
        Vec<IndexSymbolRef>,
    )>)
        ensures
            bucket_map((*r)@) == old(self)@.methods(kind),
            final(self)@.methods(kind) == bucket_map((*final(r))@),
            final(self)@.classes == old(self)@.classes,
            final(self)@.properties == old(self)@.properties,
    {
        match kind {
            MethodKind::Procedure => &mut self.procedure_lookup_table,
            MethodKind::Function => &mut self.function_lookup_table,
            MethodKind::Setter => &mut self.setter_lookup_table,
        }
    }

    /// The method table entries of one kind.
    pub fn method_lookup_table(&self, kind: MethodKind) -> (r: &Vec<(
        SymbolName,
        Vec<IndexSymbolRef>,
    )>)
        ensures
            bucket_map(r@) == self@.methods(kind),
    {
        match kind {
            MethodKind::Procedure => &self.procedure_lookup_table,
            MethodKind::Function => &self.function_lookup_table,
            MethodKind::Setter => &self.setter_lookup_table,
        }
    }

    /// The property table entries.
    pub fn property_lookup_table(&self) -> (r: &Vec<(SymbolName, Vec<IndexSymbolRef>)>)
        ensures
            bucket_map(r@) == self@.properties,
    {
        &self.property_lookup_table
    }

    /// The reference recorded for a class name.
    pub fn class_ref(&self, name: &SymbolName) -> (r: Option<&IndexSymbolRef>)
        requires
            self.wf(),
        ensures
            r is Some <==> self@.classes.contains_key(name@),
            r matches Some(x) ==> x@ == self@.classes[name@],
    {
        proof {
            lemma_class_map_contains(self.class_lookup_table@, name@);
        }
        match find_class_entry(&self.class_lookup_table, name) {
            Some(i) => {
                proof {
                    lemma_class_map_value(self.class_lookup_table@, i as int);
                }
                Some(&self.class_lookup_table[i].1)
            },
            None => None,
        }
    }

    /// The first reference recorded under a method name of one kind.
    pub fn method_ref(&self, kind: MethodKind, name: &SymbolName) -> (r: Option<&IndexSymbolRef>)
        requires
            self.wf(),
        ensures
            r is Some <==> self@.methods(kind).contains_key(name@),
            r matches Some(x) ==> self@.methods(kind)[name@].contains(x@),
    {
        let table = match kind {
            MethodKind::Procedure => &self.procedure_lookup_table,
            MethodKind::Function => &self.function_lookup_table,
            MethodKind::Setter => &self.setter_lookup_table,
        };
        proof {
            lemma_bucket_map_contains(table@, name@);
        }
        match find_bucket_entry(table, name) {
            Some(i) => {
                proof {
                    lemma_bucket_map_value(table@, i as int);
                    assert(refs_set(table@[i as int].1@).contains(table@[i as int].1@[0]@));
                }
                Some(&table[i].1[0])
            },
            None => None,
        }
    }

    /// The first reference recorded under a property name.
    pub fn property_ref(&self, name: &SymbolName) -> (r: Option<&IndexSymbolRef>)
        requires
            self.wf(),
        ensures
            r is Some <==> self@.properties.contains_key(name@),
            r matches Some(x) ==> self@.properties[name@].contains(x@),
    {
        proof {
            lemma_bucket_map_contains(self.property_lookup_table@, name@);
        }
        match find_bucket_entry(&self.property_lookup_table, name) {
            Some(i) => {
                proof {
                    lemma_bucket_map_value(self.property_lookup_table@, i as int);
                    assert(refs_set(self.property_lookup_table@[i as int].1@).contains(
                        self.property_lookup_table@[i as int].1@[0]@,
                    ));
                }
                Some(&self.property_lookup_table[i].1[0])
            },
            None => None,
        }
    }

    /// All references recorded under a method name of one kind.
    pub fn method_refs(&self, kind: MethodKind, name: &SymbolName) -> (r: Option<&Vec<
        IndexSymbolRef,
    >>)
        requires
            self.wf(),
        ensures
            r is Some <==> self@.methods(kind).contains_key(name@),
            r matches Some(v) ==> refs_set(v@) == self@.methods(kind)[name@],
    {
        let table = match kind {
            MethodKind::Procedure => &self.procedure_lookup_table,
            MethodKind::Function => &self.function_lookup_table,
            MethodKind::Setter => &self.setter_lookup_table,
        };
        proof {
            lemma_bucket_map_contains(table@, name@);
        }
        match find_bucket_entry(table, name) {
            Some(i) => {
                proof {
                    lemma_bucket_map_value(table@, i as int);
                }
                Some(&table[i].1)
            },
            None => None,
        }
    }

    /// All references recorded under a property name.
    pub fn property_refs(&self, name: &SymbolName) -> (r: Option<&Vec<IndexSymbolRef>>)
        requires
            self.wf(),
        ensures
            r is Some <==> self@.properties.contains_key(name@),
            r matches Some(v) ==> refs_set(v@) == self@.properties[name@],
    {
        proof {
            lemma_bucket_map_contains(self.property_lookup_table@, name@);
        }
        match find_bucket_entry(&self.property_lookup_table, name) {
            Some(i) => {
                proof {
                    lemma_bucket_map_value(self.property_lookup_table@, i as int);
                }
                Some(&self.property_lookup_table[i].1)
            },
            None => None,
        }
    }

    /// The names keyed by the class table.
    pub fn class_names(&self) -> (r: Vec<SymbolName>)
        requires
            self.wf(),
        ensures
            forall|i: int| 0 <= i < r@.len() ==> self@.classes.contains_key(#[trigger] r@[i]@),
            forall|k: Seq<char>|
                self@.classes.contains_key(k) ==> exists|i: int| 0 <= i < r@.len() && (#[trigger]
                r@[i]@) == k,
    {
        let mut r: Vec<SymbolName> = Vec::new();
        let mut i: usize = 0;
        while i < self.class_lookup_table.len()
            invariant
                i <= self.class_lookup_table@.len(),
                r@.len() == i,
                forall|j: int| 0 <= j < i ==> (#[trigger] r@[j]@) == self.class_lookup_table@[j].0@,
            decreases self.class_lookup_table@.len() - i,
        {
            r.push(self.class_lookup_table[i].0.clone());
            i += 1;
        }
        proof {
            assert forall|j: int| 0 <= j < r@.len() implies self@.classes.contains_key(
                #[trigger] r@[j]@,
            ) by {
                lemma_class_map_value(self.class_lookup_table@, j);
            }
            assert forall|k: Seq<char>| self@.classes.contains_key(k) implies exists|j: int|
                0 <= j < r@.len() && (#[trigger] r@[j]@) == k by {
                lemma_class_map_contains(self.class_lookup_table@, k);
                let j = choose|j: int|
                    0 <= j < self.class_lookup_table@.len() && (#[trigger] self.class_lookup_table@[
                    j].0@) == k;
                assert(r@[j]@ == k);
            }
        }
        r
    }

    /// The names keyed by the method table of one kind.
    pub fn method_names(&self, kind: MethodKind) -> (r: Vec<SymbolName>)
        requires
            self.wf(),
        ensures
            forall|i: int|
                0 <= i < r@.len() ==> self@.methods(kind).contains_key(#[trigger] r@[i]@),
            forall|k: Seq<char>|
                self@.methods(kind).contains_key(k) ==> exists|i: int|
                    0 <= i < r@.len() && (#[trigger] r@[i]@) == k,
    {
        let table = match kind {
            MethodKind::Procedure => &self.procedure_lookup_table,
            MethodKind::Function => &self.function_lookup_table,
            MethodKind::Setter => &self.setter_lookup_table,
        };
        bucket_names(table)
    }

    /// The names keyed by the property table.
    pub fn property_names(&self) -> (r: Vec<SymbolName>)
        requires
            self.wf(),
        ensures
            forall|i: int| 0 <= i < r@.len() ==> self@.properties.contains_key(#[trigger] r@[i]@),
            forall|k: Seq<char>|
                self@.properties.contains_key(k) ==> exists|i: int|
                    0 <= i < r@.len() && (#[trigger] r@[i]@) == k,
    {
        bucket_names(&self.property_lookup_table)
    }

    /// Record a class reference under its name, displacing any prior one.
    pub fn insert_class(&mut self, name: &SymbolName, re: IndexSymbolRef)
        requires
            old(self).wf(),
        ensures
            final(self).wf(),
            final(self)@ == (TablesView { classes: old(self)@.classes.insert(name@, re@), ..old(
                self,
            )@ }),
    {
        class_table_remove(&mut self.class_lookup_table, name);
        let ghost mid = self.class_lookup_table@;
        self.class_lookup_table.push((name.clone(), re));
        proof {
            assert(self.class_lookup_table@.drop_last() =~= mid);
            assert(unique_class_keys(self.class_lookup_table@)) by {
                lemma_class_map_contains(mid, name@);
            }
            assert(class_map(self.class_lookup_table@) =~= old(self)@.classes.insert(name@, re@));
            assert(final(self)@ =~~= (TablesView {
                classes: old(self)@.classes.insert(name@, re@),
                ..old(self)@
            }));
        }
    }

    /// Drop the class entry under a name.
    pub fn remove_class(&mut self, name: &SymbolName)
        requires
            old(self).wf(),
        ensures
            final(self).wf(),
            final(self)@ == (TablesView { classes: old(self)@.classes.remove(name@), ..old(
                self,
            )@ }),
    {
        class_table_remove(&mut self.class_lookup_table, name);
        proof {
            assert(final(self)@ =~~= (TablesView {
                classes: old(self)@.classes.remove(name@),
                ..old(self)@
            }));
        }
    }

    /// Record a method reference under its unqualified name.
    pub fn insert_method(&mut self, kind: MethodKind, name: &SymbolName, re: IndexSymbolRef)
        requires
            old(self).wf(),
        ensures
            final(self).wf(),
            final(self)@ == old(self)@.with_methods(
                kind,
                bucket_insert_spec(old(self)@.methods(kind), name@, re@),
            ),
    {
        match kind {
            MethodKind::Procedure => bucket_table_insert(&mut self.procedure_lookup_table, name, re),
            MethodKind::Function => bucket_table_insert(&mut self.function_lookup_table, name, re),
            MethodKind::Setter => bucket_table_insert(&mut self.setter_lookup_table, name, re),
        }
        proof {
            assert(final(self)@ =~~= old(self)@.with_methods(
                kind,
                bucket_insert_spec(old(self)@.methods(kind), name@, re@),
            ));
        }
    }

    /// Drop every method reference with the given path from the bucket
    /// under a name, erasing the bucket when it empties.
    pub fn remove_method_path(&mut self, kind: MethodKind, name: &SymbolName, path: &SymbolPath)
        requires
            old(self).wf(),
        ensures
            final(self).wf(),
            final(self)@ == old(self)@.with_methods(
                kind,
                bucket_remove_path_spec(old(self)@.methods(kind), name@, path@),
            ),
    {
        match kind {
            MethodKind::Procedure => bucket_table_remove_path(
                &mut self.procedure_lookup_table,
                name,
                path,
            ),
            MethodKind::Function => bucket_table_remove_path(
                &mut self.function_lookup_table,
                name,
                path,
            ),
            MethodKind::Setter => bucket_table_remove_path(
                &mut self.setter_lookup_table,
                name,
                path,
            ),
        }
        proof {
            assert(final(self)@ =~~= old(self)@.with_methods(
                kind,
                bucket_remove_path_spec(old(self)@.methods(kind), name@, path@),
            ));
        }
    }

    /// Record a property reference under its unqualified name.
    pub fn insert_property(&mut self, name: &SymbolName, re: IndexSymbolRef)
        requires
            old(self).wf(),
        ensures
            final(self).wf(),
            final(self)@ == (TablesView {
                properties: bucket_insert_spec(old(self)@.properties, name@, re@),
                ..old(self)@
            }),
    {
        bucket_table_insert(&mut self.property_lookup_table, name, re);
        proof {
            assert(final(self)@ =~~= (TablesView {
                properties: bucket_insert_spec(old(self)@.properties, name@, re@),
                ..old(self)@
            }));
        }
    }

    /// Drop every property reference with the given path from the bucket
    /// under a name, erasing the bucket when it empties.
    pub fn remove_property_path(&mut self, name: &SymbolName, path: &SymbolPath)
        requires
            old(self).wf(),
        ensures
            final(self).wf(),
            final(self)@ == (TablesView {
                properties: bucket_remove_path_spec(old(self)@.properties, name@, path@),
                ..old(self)@
            }),
    {
        bucket_table_remove_path(&mut self.property_lookup_table, name, path);
        proof {
            assert(final(self)@ =~~= (TablesView {
                properties: bucket_remove_path_spec(old(self)@.properties, name@, path@),
                ..old(self)@
            }));
        }
    }
}

/// The names keyed by a multimap table.
fn bucket_names(table: &Vec<(SymbolName, Vec<IndexSymbolRef>)>) -> (r: Vec<SymbolName>)
    ensures
        forall|i: int| 0 <= i < r@.len() ==> bucket_map(table@).contains_key(#[trigger] r@[i]@),
        forall|k: Seq<char>|
            bucket_map(table@).contains_key(k) ==> exists|i: int|
                0 <= i < r@.len() && (#[trigger] r@[i]@) == k,
{
    let mut r: Vec<SymbolName> = Vec::new();
    let mut i: usize = 0;
    while i < table.len()
        invariant
            i <= table@.len(),
            r@.len() == i,
            forall|j: int| 0 <= j < i ==> (#[trigger] r@[j]@) == table@[j].0@,
        decreases table@.len() - i,
    {
        r.push(table[i].0.clone());
        i += 1;
    }
    proof {
        assert forall|j: int| 0 <= j < r@.len() implies bucket_map(table@).contains_key(
            #[trigger] r@[j]@,
        ) by {
            lemma_bucket_map_contains(table@, r@[j]@);
        }
        assert forall|k: Seq<char>| bucket_map(table@).contains_key(k) implies exists|j: int|
            0 <= j < r@.len() && (#[trigger] r@[j]@) == k by {
            lemma_bucket_map_contains(table@, k);
            let j = choose|j: int| 0 <= j < table@.len() && (#[trigger] table@[j].0@) == k;
            assert(r@[j]@ == k);
        }
    }
    r
}

} // verus!
