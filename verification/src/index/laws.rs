//! Laws of the table-update pipeline.
//!
//! The central statement: for a file holding only well-formed,
//! uniquely-named classes, applying the diff-driven table update to a
//! class table that canonically describes the file's old contents yields
//! the canonical class table of the new contents.  Updating a fresh
//! index with a sequence of snapshots of one file therefore leaves the
//! class table that rebuilding from the last snapshot alone would give,
//! and every entry of that table resolves to a class the file declares.

use vstd::prelude::*;

use crate::index::index_symbol::{MethodKind, RefView, SymView};
use crate::index::lookup_tables::TablesView;
use crate::index::symbols_diff::{
    added_members, added_symbols, find_named, lemma_find_named, lemma_find_named_at,
    removed_members, removed_symbols,
};
use crate::index::{
    add_all, add_member, add_members, add_one, strip_all, strip_member, strip_members, strip_one,
    table_update,
};

verus! {

/// A per-file symbol list fit for the canonical reading: every symbol is
/// a well-formed class, and no two share a name.
pub open spec fn class_only_wf(ss: Seq<SymView>) -> bool {
    &&& forall|i: int| 0 <= i < ss.len() ==> (#[trigger] ss[i]) is Class && ss[i].wf()
    &&& forall|i: int, j: int|
        0 <= i < j < ss.len() ==> (#[trigger] ss[i]).name() != (#[trigger] ss[j]).name()
}

/// The list declares a class with this name.
pub open spec fn has_class(ss: Seq<SymView>, n: Seq<char>) -> bool {
    exists|i: int| 0 <= i < ss.len() && (#[trigger] ss[i]) is Class && ss[i].name() == n
}

/// The canonical class table of one file: its class names, each mapped
/// to a reference into that file with the single-component path.
pub open spec fn canon_classes(ss: Seq<SymView>, fr: Seq<char>) -> Map<Seq<char>, RefView> {
    Map::new(|n: Seq<char>| has_class(ss, n), |n: Seq<char>| RefView { file: fr, path: seq![n] })
}

/// A diff list carries a class with this name.
pub open spec fn class_in(ss: Seq<SymView>, n: Seq<char>) -> bool {
    exists|i: int| 0 <= i < ss.len() && (#[trigger] ss[i]) is Class && ss[i].name() == n
}

/// Stripping a member symbol never touches the class table.
proof fn lemma_strip_member_classes(t: TablesView, m: SymView)
    ensures
        strip_member(t, m).classes == t.classes,
{
}

/// Stripping any member list never touches the class table.
proof fn lemma_strip_members_classes(t: TablesView, ms: Seq<SymView>)
    ensures
        strip_members(t, ms).classes == t.classes,
    decreases ms.len(),
{
    if ms.len() > 0 {
        lemma_strip_members_classes(t, ms.drop_last());
        lemma_strip_member_classes(strip_members(t, ms.drop_last()), ms.last());
    }
}

/// Adding a member symbol never touches the class table.
proof fn lemma_add_member_classes(t: TablesView, m: SymView, fr: Seq<char>)
    ensures
        add_member(t, m, fr).classes == t.classes,
{
}

proof fn lemma_add_members_classes(t: TablesView, ms: Seq<SymView>, fr: Seq<char>)
    ensures
        add_members(t, ms, fr).classes == t.classes,
    decreases ms.len(),
{
    if ms.len() > 0 {
        lemma_add_members_classes(t, ms.drop_last(), fr);
        lemma_add_member_classes(add_members(t, ms.drop_last(), fr), ms.last(), fr);
    }
}

/// The class table after a strip pass: the old table with the keys of
/// every stripped class removed.
proof fn lemma_strip_all_classes(t: TablesView, rs: Seq<SymView>)
    ensures
        strip_all(t, rs).classes == Map::new(
            |n: Seq<char>| t.classes.contains_key(n) && !class_in(rs, n),
            |n: Seq<char>| t.classes[n],
        ),
    decreases rs.len(),
{
    let goal = Map::new(
        |n: Seq<char>| t.classes.contains_key(n) && !class_in(rs, n),
        |n: Seq<char>| t.classes[n],
    );
    if rs.len() == 0 {
        assert forall|n: Seq<char>| true implies !class_in(rs, n) by {
            if class_in(rs, n) {
                let i = choose|i: int|
                    0 <= i < rs.len() && (#[trigger] rs[i]) is Class && rs[i].name() == n;
            }
        }
        assert(strip_all(t, rs).classes =~= goal);
    } else {
        let rs0 = rs.drop_last();
        let last = rs.last();
        lemma_strip_all_classes(t, rs0);
        let mid = strip_all(t, rs0);
        assert forall|n: Seq<char>| #![auto] class_in(rs0, n) || (last is Class && last.name()
            == n) implies class_in(rs, n) by {
            if class_in(rs0, n) {
                let i = choose|i: int|
                    0 <= i < rs0.len() && (#[trigger] rs0[i]) is Class && rs0[i].name() == n;
                assert(rs[i] == rs0[i]);
            } else {
                assert(rs[rs.len() - 1] == last);
            }
        }
        assert forall|n: Seq<char>| #![auto] class_in(rs, n) implies class_in(rs0, n) || (last
            is Class && last.name() == n) by {
            let i = choose|i: int|
                0 <= i < rs.len() && (#[trigger] rs[i]) is Class && rs[i].name() == n;
            if i < rs.len() - 1 {
                assert(rs0[i] == rs[i]);
            }
        }
        match last {
            SymView::Class(c) => {
                lemma_strip_members_classes(mid, c.members);
                assert(strip_all(t, rs).classes =~= goal);
            },
            _ => {
                lemma_strip_member_classes(mid, last);
                assert(strip_all(t, rs).classes =~= goal);
            },
        }
    }
}

/// The class table after an add pass: every added class name maps to the
/// file reference with its single-component path; other keys keep their
/// old entries.
proof fn lemma_add_all_classes(t: TablesView, added: Seq<SymView>, fr: Seq<char>)
    ensures
        add_all(t, added, fr).classes == Map::new(
            |n: Seq<char>| t.classes.contains_key(n) || class_in(added, n),
            |n: Seq<char>|
                if class_in(added, n) {
                    RefView { file: fr, path: seq![n] }
                } else {
                    t.classes[n]
                },
        ),
    decreases added.len(),
{
    let goal = Map::new(
        |n: Seq<char>| t.classes.contains_key(n) || class_in(added, n),
        |n: Seq<char>|
            if class_in(added, n) {
                RefView { file: fr, path: seq![n] }
            } else {
                t.classes[n]
            },
    );
    if added.len() == 0 {
        assert forall|n: Seq<char>| true implies !class_in(added, n) by {
            if class_in(added, n) {
                let i = choose|i: int|
                    0 <= i < added.len() && (#[trigger] added[i]) is Class && added[i].name() == n;
            }
        }
        assert(add_all(t, added, fr).classes =~= goal);
    } else {
        let a0 = added.drop_last();
        let last = added.last();
        lemma_add_all_classes(t, a0, fr);
        let mid = add_all(t, a0, fr);
        assert forall|n: Seq<char>| #![auto] class_in(a0, n) || (last is Class && last.name()
            == n) implies class_in(added, n) by {
            if class_in(a0, n) {
                let i = choose|i: int|
                    0 <= i < a0.len() && (#[trigger] a0[i]) is Class && a0[i].name() == n;
                assert(added[i] == a0[i]);
            } else {
                assert(added[added.len() - 1] == last);
            }
        }
        assert forall|n: Seq<char>| #![auto] class_in(added, n) implies class_in(a0, n) || (last
            is Class && last.name() == n) by {
            let i = choose|i: int|
                0 <= i < added.len() && (#[trigger] added[i]) is Class && added[i].name() == n;
            if i < added.len() - 1 {
                assert(a0[i] == added[i]);
            }
        }
        match last {
            SymView::Class(c) => {
                let with_class = TablesView {
                    classes: mid.classes.insert(c.name, RefView { file: fr, path: seq![c.name] }),
                    ..mid
                };
                lemma_add_members_classes(with_class, c.members, fr);
                assert(last.name() == c.name);
                assert(add_all(t, added, fr).classes =~= goal);
            },
            _ => {
                lemma_add_member_classes(mid, last, fr);
                assert(add_all(t, added, fr).classes =~= goal);
            },
        }
    }
}

/// Every symbol of a member diff comes from the old member list.
proof fn lemma_removed_members_from_old(ma: Seq<SymView>, mb: Seq<SymView>, i: int)
    requires
        0 <= i < removed_members(ma, mb).len(),
    ensures
        exists|j: int| 0 <= j < ma.len() && (#[trigger] ma[j]) == removed_members(ma, mb)[i],
    decreases ma.len(),
{
    let r = removed_members(ma, mb);
    let r0 = removed_members(ma.drop_last(), mb);
    if i < r0.len() {
        lemma_removed_members_from_old(ma.drop_last(), mb, i);
        let j = choose|j: int|
            0 <= j < ma.drop_last().len() && (#[trigger] ma.drop_last()[j]) == r0[i];
        assert(ma[j] == r[i]);
    } else {
        assert(r[i] == ma.last());
        assert(ma[ma.len() - 1] == r[i]);
    }
}

proof fn lemma_added_members_from_new(ma: Seq<SymView>, mb: Seq<SymView>, i: int)
    requires
        0 <= i < added_members(ma, mb).len(),
    ensures
        exists|j: int| 0 <= j < mb.len() && (#[trigger] mb[j]) == added_members(ma, mb)[i],
    decreases mb.len(),
{
    let r = added_members(ma, mb);
    let r0 = added_members(ma, mb.drop_last());
    if i < r0.len() {
        lemma_added_members_from_new(ma, mb.drop_last(), i);
        let j = choose|j: int|
            0 <= j < mb.drop_last().len() && (#[trigger] mb.drop_last()[j]) == r0[i];
        assert(mb[j] == r[i]);
    } else {
        assert(r[i] == mb.last());
        assert(mb[mb.len() - 1] == r[i]);
    }
}

/// The classes in the removed diff of two class-only files are exactly
/// the old names that the new file no longer declares.
proof fn lemma_removed_classes_exact(a: Seq<SymView>, b: Seq<SymView>, n: Seq<char>)
    requires
        class_only_wf(a),
        class_only_wf(b),
    ensures
        class_in(removed_symbols(a, b), n) <==> (has_class(a, n) && !has_class(b, n)),
    decreases a.len(),
{
    if a.len() == 0 {
        assert(!class_in(removed_symbols(a, b), n));
        assert(!has_class(a, n));
    } else {
        let a0 = a.drop_last();
        let o = a.last();
        assert(class_only_wf(a0)) by {
            assert(forall|i: int| 0 <= i < a0.len() ==> a0[i] == a[i]);
        }
        lemma_removed_classes_exact(a0, b, n);
        let prefix = removed_symbols(a0, b);
        let r = removed_symbols(a, b);
        assert(o is Class);
        lemma_find_named(b, o.name());
        match find_named(b, o.name()) {
            None => {
                // The class is gone from the new file: it is recorded.
                assert(r == prefix.push(o));
                assert forall|m: Seq<char>| #![auto] class_in(r, m) implies class_in(prefix, m)
                    || (o.name() == m) by {
                    let i = choose|i: int|
                        0 <= i < r.len() && (#[trigger] r[i]) is Class && r[i].name() == m;
                    if i < prefix.len() {
                        assert(prefix[i] == r[i]);
                    }
                }
                assert forall|m: Seq<char>| #![auto] class_in(prefix, m) implies class_in(
                    r,
                    m,
                ) by {
                    let i = choose|i: int|
                        0 <= i < prefix.len() && (#[trigger] prefix[i]) is Class && prefix[i].name()
                            == m;
                    assert(r[i] == prefix[i]);
                }
                if o.name() == n {
                    assert(r[r.len() - 1] == o);
                    assert(class_in(r, n));
                    assert(has_class(a, n)) by {
                        assert(a[a.len() - 1] == o);
                    }
                    assert(!has_class(b, n)) by {
                        if has_class(b, n) {
                            let i = choose|i: int|
                                0 <= i < b.len() && (#[trigger] b[i]) is Class && b[i].name() == n;
                        }
                    }
                } else {
                    assert(class_in(r, n) <==> class_in(prefix, n));
                    assert(has_class(a, n) <==> has_class(a0, n)) by {
                        if has_class(a, n) {
                            let i = choose|i: int|
                                0 <= i < a.len() && (#[trigger] a[i]) is Class && a[i].name() == n;
                            assert(i < a.len() - 1);
                            assert(a0[i] == a[i]);
                        } else {
                            if has_class(a0, n) {
                                let i = choose|i: int|
                                    0 <= i < a0.len() && (#[trigger] a0[i]) is Class && a0[i].name()
                                        == n;
                                assert(a[i] == a0[i]);
                            }
                        }
                    }
                }
            },
            Some(j) => {
                // The name survives; for classes the match always holds,
                // and only members are diffed further.
                assert(0 <= j < b.len() && b[j].name() == o.name());
                assert(b[j] is Class);
                assert(o.matching(b[j]));
                let inner = removed_members(o->Class_0.members, b[j]->Class_0.members);
                assert(r == prefix + inner);
                assert forall|i: int| 0 <= i < inner.len() implies !((#[trigger] inner[i])
                    is Class) by {
                    lemma_removed_members_from_old(
                        o->Class_0.members,
                        b[j]->Class_0.members,
                        i,
                    );
                    let jj = choose|jj: int|
                        0 <= jj < o->Class_0.members.len() && (#[trigger] o->Class_0.members[jj])
                            == inner[i];
                    assert(o->Class_0.members[jj].member_wf(o->Class_0.name));
                }
                assert forall|m: Seq<char>| #![auto] class_in(r, m) implies class_in(prefix, m) by {
                    let i = choose|i: int|
                        0 <= i < r.len() && (#[trigger] r[i]) is Class && r[i].name() == m;
                    if i < prefix.len() {
                        assert(prefix[i] == r[i]);
                    } else {
                        assert(r[i] == inner[i - prefix.len()]);
                    }
                }
                assert forall|m: Seq<char>| #![auto] class_in(prefix, m) implies class_in(r, m) by {
                    let i = choose|i: int|
                        0 <= i < prefix.len() && (#[trigger] prefix[i]) is Class && prefix[i].name()
                            == m;
                    assert(r[i] == prefix[i]);
                }
                if o.name() == n {
                    // Present on both sides: not removed.
                    assert(has_class(b, n)) by {
                        assert(b[j] is Class && b[j].name() == n);
                    }
                    assert(!class_in(r, n)) by {
                        if class_in(prefix, n) {
                            assert(has_class(a0, n));
                            let i = choose|i: int|
                                0 <= i < a0.len() && (#[trigger] a0[i]) is Class && a0[i].name()
                                    == n;
                            assert(a[i].name() == a[a.len() - 1].name());
                        }
                    }
                } else {
                    assert(class_in(r, n) <==> class_in(prefix, n));
                    assert(has_class(a, n) <==> has_class(a0, n)) by {
                        if has_class(a, n) {
                            let i = choose|i: int|
                                0 <= i < a.len() && (#[trigger] a[i]) is Class && a[i].name() == n;
                            assert(i < a.len() - 1);
                            assert(a0[i] == a[i]);
                        } else {
                            if has_class(a0, n) {
                                let i = choose|i: int|
                                    0 <= i < a0.len() && (#[trigger] a0[i]) is Class && a0[i].name()
                                        == n;
                                assert(a[i] == a0[i]);
                            }
                        }
                    }
                }
            },
        }
    }
}

/// The classes in the added diff of two class-only files are exactly the
/// new names that the old file did not declare.
proof fn lemma_added_classes_exact(a: Seq<SymView>, b: Seq<SymView>, n: Seq<char>)
    requires
        class_only_wf(a),
        class_only_wf(b),
    ensures
        class_in(added_symbols(a, b), n) <==> (has_class(b, n) && !has_class(a, n)),
    decreases b.len(),
{
    if b.len() == 0 {
        assert(!class_in(added_symbols(a, b), n));
        assert(!has_class(b, n));
    } else {
        let b0 = b.drop_last();
        let x = b.last();
        assert(class_only_wf(b0)) by {
            assert(forall|i: int| 0 <= i < b0.len() ==> b0[i] == b[i]);
        }
        lemma_added_classes_exact(a, b0, n);
        let prefix = added_symbols(a, b0);
        let r = added_symbols(a, b);
        assert(x is Class);
        lemma_find_named(a, x.name());
        match find_named(a, x.name()) {
            None => {
                assert(r == prefix.push(x));
                assert forall|m: Seq<char>| #![auto] class_in(r, m) implies class_in(prefix, m)
                    || (x.name() == m) by {
                    let i = choose|i: int|
                        0 <= i < r.len() && (#[trigger] r[i]) is Class && r[i].name() == m;
                    if i < prefix.len() {
                        assert(prefix[i] == r[i]);
                    }
                }
                assert forall|m: Seq<char>| #![auto] class_in(prefix, m) implies class_in(
                    r,
                    m,
                ) by {
                    let i = choose|i: int|
                        0 <= i < prefix.len() && (#[trigger] prefix[i]) is Class && prefix[i].name()
                            == m;
                    assert(r[i] == prefix[i]);
                }
                if x.name() == n {
                    assert(r[r.len() - 1] == x);
                    assert(class_in(r, n));
                    assert(has_class(b, n)) by {
                        assert(b[b.len() - 1] == x);
                    }
                    assert(!has_class(a, n)) by {
                        if has_class(a, n) {
                            let i = choose|i: int|
                                0 <= i < a.len() && (#[trigger] a[i]) is Class && a[i].name() == n;
                        }
                    }
                } else {
                    assert(class_in(r, n) <==> class_in(prefix, n));
                    assert(has_class(b, n) <==> has_class(b0, n)) by {
                        if has_class(b, n) {
                            let i = choose|i: int|
                                0 <= i < b.len() && (#[trigger] b[i]) is Class && b[i].name() == n;
                            assert(i < b.len() - 1);
                            assert(b0[i] == b[i]);
                        } else {
                            if has_class(b0, n) {
                                let i = choose|i: int|
                                    0 <= i < b0.len() && (#[trigger] b0[i]) is Class && b0[i].name()
                                        == n;
                                assert(b[i] == b0[i]);
                            }
                        }
                    }
                }
            },
            Some(j) => {
                assert(0 <= j < a.len() && a[j].name() == x.name());
                assert(a[j] is Class);
                assert(a[j].matching(x));
                let inner = added_members(a[j]->Class_0.members, x->Class_0.members);
                assert(r == prefix + inner);
                assert forall|i: int| 0 <= i < inner.len() implies !((#[trigger] inner[i])
                    is Class) by {
                    lemma_added_members_from_new(a[j]->Class_0.members, x->Class_0.members, i);
                    let jj = choose|jj: int|
                        0 <= jj < x->Class_0.members.len() && (#[trigger] x->Class_0.members[jj])
                            == inner[i];
                    assert(x->Class_0.members[jj].member_wf(x->Class_0.name));
                }
                assert forall|m: Seq<char>| #![auto] class_in(r, m) implies class_in(prefix, m) by {
                    let i = choose|i: int|
                        0 <= i < r.len() && (#[trigger] r[i]) is Class && r[i].name() == m;
                    if i < prefix.len() {
                        assert(prefix[i] == r[i]);
                    } else {
                        assert(r[i] == inner[i - prefix.len()]);
                    }
                }
                assert forall|m: Seq<char>| #![auto] class_in(prefix, m) implies class_in(r, m) by {
                    let i = choose|i: int|
                        0 <= i < prefix.len() && (#[trigger] prefix[i]) is Class && prefix[i].name()
                            == m;
                    assert(r[i] == prefix[i]);
                }
                if x.name() == n {
                    // Present on both sides: not added.
                    assert(has_class(a, n)) by {
                        assert(a[j] is Class && a[j].name() == n);
                    }
                    assert(!class_in(r, n)) by {
                        if class_in(prefix, n) {
                            assert(has_class(b0, n));
                            let i = choose|i: int|
                                0 <= i < b0.len() && (#[trigger] b0[i]) is Class && b0[i].name()
                                    == n;
                            assert(b[i].name() == b[b.len() - 1].name());
                        }
                    }
                    assert(has_class(b, n)) by {
                        assert(b[b.len() - 1] == x);
                    }
                } else {
                    assert(class_in(r, n) <==> class_in(prefix, n));
                    assert(has_class(b, n) <==> has_class(b0, n)) by {
                        if has_class(b, n) {
                            let i = choose|i: int|
                                0 <= i < b.len() && (#[trigger] b[i]) is Class && b[i].name() == n;
                            assert(i < b.len() - 1);
                            assert(b0[i] == b[i]);
                        } else {
                            if has_class(b0, n) {
                                let i = choose|i: int|
                                    0 <= i < b0.len() && (#[trigger] b0[i]) is Class && b0[i].name()
                                        == n;
                                assert(b[i] == b0[i]);
                            }
                        }
                    }
                }
            },
        }
    }
}

/// Rebuild equivalence for the class table.  One diff-driven update
/// takes the canonical class table of the old file contents to the
/// canonical class table of the new contents; by induction over a
/// sequence of snapshots of one file applied to a fresh index, the final
/// class table equals the one rebuilt from the last snapshot alone.
pub proof fn lemma_class_table_rebuild(
    t: TablesView,
    a: Seq<SymView>,
    b: Seq<SymView>,
    fr: Seq<char>,
)
    requires
        class_only_wf(a),
        class_only_wf(b),
        t.classes == canon_classes(a, fr),
    ensures
        table_update(t, a, b, fr).classes == canon_classes(b, fr),
{
    let removed = removed_symbols(a, b);
    let added = added_symbols(a, b);
    lemma_strip_all_classes(t, removed);
    lemma_add_all_classes(strip_all(t, removed), added, fr);
    assert forall|n: Seq<char>| true implies (class_in(removed, n) == (has_class(a, n)
        && !has_class(b, n))) && (class_in(added, n) == (has_class(b, n) && !has_class(
        a,
        n,
    ))) by {
        lemma_removed_classes_exact(a, b, n);
        lemma_added_classes_exact(a, b, n);
    }
    assert(table_update(t, a, b, fr).classes =~= canon_classes(b, fr));
}

/// A fresh index's empty class table is the canonical table of the empty
/// file, so the rebuild law covers the first update too.
pub proof fn lemma_empty_class_table_canonical(fr: Seq<char>)
    ensures
        TablesView::empty().classes == canon_classes(Seq::empty(), fr),
        class_only_wf(Seq::empty()),
{
    assert(TablesView::empty().classes =~= canon_classes(Seq::empty(), fr));
}

/// Every entry of a canonical class table resolves through the file it
/// names: the entry's reference points into that file with the class's
/// single-component path, and the file declares a class with the name.
pub proof fn lemma_class_entries_resolve(ss: Seq<SymView>, fr: Seq<char>)
    ensures
        forall|n: Seq<char>|
            #[trigger] canon_classes(ss, fr).contains_key(n) ==> canon_classes(ss, fr)[n]
                == (RefView { file: fr, path: seq![n] }) && exists|i: int|
                0 <= i < ss.len() && (#[trigger] ss[i]) is Class && ss[i].name() == n,
{
}



/// Unique unqualified names within a symbol list.
pub open spec fn unique_names(ss: Seq<SymView>) -> bool {
    forall|i: int, j: int|
        0 <= i < j < ss.len() ==> (#[trigger] ss[i]).name() != (#[trigger] ss[j]).name()
}

/// Unique member names inside every class of the list.
pub open spec fn unique_member_names(ss: Seq<SymView>) -> bool {
    forall|i: int|
        0 <= i < ss.len() && (#[trigger] ss[i]) is Class ==> unique_names(ss[i]->Class_0.members)
}

/// Shallow matching is reflexive.
proof fn lemma_matching_reflexive(x: SymView)
    ensures
        x.matching(x),
{
    match x {
        SymView::Class(_) => {},
        SymView::Method(_) => {},
        SymView::Property(_) => {},
    }
}

/// Diffing a member list against itself removes nothing.
proof fn lemma_removed_members_self(ms: Seq<SymView>, k: int)
    requires
        unique_names(ms),
        0 <= k <= ms.len(),
    ensures
        removed_members(ms.take(k), ms) == Seq::<SymView>::empty(),
    decreases k,
{
    if k > 0 {
        lemma_removed_members_self(ms, k - 1);
        assert(ms.take(k).drop_last() =~= ms.take(k - 1));
        assert(ms.take(k).last() == ms[k - 1]);
        lemma_find_named_at(ms, ms[k - 1].name(), k - 1);
        lemma_matching_reflexive(ms[k - 1]);
    } else {
        assert(ms.take(0) =~= Seq::<SymView>::empty());
    }
}

/// Diffing a member list against itself adds nothing.
proof fn lemma_added_members_self(ms: Seq<SymView>, k: int)
    requires
        unique_names(ms),
        0 <= k <= ms.len(),
    ensures
        added_members(ms, ms.take(k)) == Seq::<SymView>::empty(),
    decreases k,
{
    if k > 0 {
        lemma_added_members_self(ms, k - 1);
        assert(ms.take(k).drop_last() =~= ms.take(k - 1));
        assert(ms.take(k).last() == ms[k - 1]);
        lemma_find_named_at(ms, ms[k - 1].name(), k - 1);
        lemma_matching_reflexive(ms[k - 1]);
    } else {
        assert(ms.take(0) =~= Seq::<SymView>::empty());
    }
}

/// Diffing a file against itself removes nothing.
proof fn lemma_removed_symbols_self(ss: Seq<SymView>, k: int)
    requires
        unique_names(ss),
        unique_member_names(ss),
        0 <= k <= ss.len(),
    ensures
        removed_symbols(ss.take(k), ss) == Seq::<SymView>::empty(),
    decreases k,
{
    if k > 0 {
        lemma_removed_symbols_self(ss, k - 1);
        assert(ss.take(k).drop_last() =~= ss.take(k - 1));
        assert(ss.take(k).last() == ss[k - 1]);
        lemma_find_named_at(ss, ss[k - 1].name(), k - 1);
        lemma_matching_reflexive(ss[k - 1]);
        if ss[k - 1] is Class {
            let ms = ss[k - 1]->Class_0.members;
            lemma_removed_members_self(ms, ms.len() as int);
            assert(ms.take(ms.len() as int) =~= ms);
            assert(removed_symbols(ss.take(k - 1), ss) + removed_members(ms, ms)
                =~= Seq::<SymView>::empty());
        }
    } else {
        assert(ss.take(0) =~= Seq::<SymView>::empty());
    }
}

/// Diffing a file against itself adds nothing.
proof fn lemma_added_symbols_self(ss: Seq<SymView>, k: int)
    requires
        unique_names(ss),
        unique_member_names(ss),
        0 <= k <= ss.len(),
    ensures
        added_symbols(ss, ss.take(k)) == Seq::<SymView>::empty(),
    decreases k,
{
    if k > 0 {
        lemma_added_symbols_self(ss, k - 1);
        assert(ss.take(k).drop_last() =~= ss.take(k - 1));
        assert(ss.take(k).last() == ss[k - 1]);
        lemma_find_named_at(ss, ss[k - 1].name(), k - 1);
        lemma_matching_reflexive(ss[k - 1]);
        if ss[k - 1] is Class {
            let ms = ss[k - 1]->Class_0.members;
            lemma_added_members_self(ms, ms.len() as int);
            assert(ms.take(ms.len() as int) =~= ms);
            assert(added_symbols(ss, ss.take(k - 1)) + added_members(ms, ms)
                =~= Seq::<SymView>::empty());
        }
    } else {
        assert(ss.take(0) =~= Seq::<SymView>::empty());
    }
}

/// Updates are idempotent: applying a file whose contents the index
/// already holds diffs to nothing and leaves every lookup table exactly
/// as it was.  This holds whenever names are unique within the file and
/// within each class, and for any starting tables whatsoever.
pub proof fn lemma_update_idempotent(t: TablesView, x: Seq<SymView>, fr: Seq<char>)
    requires
        unique_names(x),
        unique_member_names(x),
    ensures
        table_update(t, x, x, fr) == t,
{
    lemma_removed_symbols_self(x, x.len() as int);
    lemma_added_symbols_self(x, x.len() as int);
    assert(x.take(x.len() as int) =~= x);
}


/// The four member tables, named uniformly.
pub enum MemberSlot {
    Procedure,
    Function,
    Setter,
    Property,
}

pub open spec fn slot_of_kind(k: MethodKind) -> MemberSlot {
    match k {
        MethodKind::Procedure => MemberSlot::Procedure,
        MethodKind::Function => MemberSlot::Function,
        MethodKind::Setter => MemberSlot::Setter,
    }
}

/// The bucket table a slot names.
pub open spec fn slot_table(t: TablesView, s: MemberSlot) -> Map<Seq<char>, Set<RefView>> {
    match s {
        MemberSlot::Procedure => t.procedures,
        MemberSlot::Function => t.functions,
        MemberSlot::Setter => t.setters,
        MemberSlot::Property => t.properties,
    }
}

/// The slot a member symbol belongs to, if it is a member.
pub open spec fn member_slot(m: SymView) -> Option<MemberSlot> {
    match m {
        SymView::Method(mm) => Some(slot_of_kind(mm.kind)),
        SymView::Property(_) => Some(MemberSlot::Property),
        SymView::Class(_) => None,
    }
}

/// The scope path a member symbol carries.
pub open spec fn member_path(m: SymView) -> Seq<Seq<char>> {
    match m {
        SymView::Method(mm) => mm.path,
        SymView::Property(p) => p.path,
        SymView::Class(_) => Seq::empty(),
    }
}

/// The paths, ending in name `n`, of the slot-`s` members of a member
/// list.
pub open spec fn member_paths(ms: Seq<SymView>, s: MemberSlot, n: Seq<char>) -> Set<
    Seq<Seq<char>>,
> {
    Set::new(
        |p: Seq<Seq<char>>|
            p.len() > 0 && p.last() == n && exists|i: int|
                0 <= i < ms.len() && member_slot(#[trigger] ms[i]) == Some(s) && member_path(
                    ms[i],
                ) == p,
    )
}

/// What remains of a bucket after a set of paths is stripped from it.
pub open spec fn bucket_minus(b: Set<RefView>, ps: Set<Seq<Seq<char>>>) -> Set<RefView> {
    Set::new(|r: RefView| b.contains(r) && !ps.contains(r.path))
}

/// A bucket joined with one reference per path of a set, all into one
/// file.
pub open spec fn bucket_plus(b: Set<RefView>, ps: Set<Seq<Seq<char>>>, fr: Seq<char>) -> Set<
    RefView,
> {
    Set::new(|r: RefView| b.contains(r) || (r.file == fr && ps.contains(r.path)))
}

/// A bucket map whose present buckets all hold something.
pub open spec fn nonempty_buckets(m: Map<Seq<char>, Set<RefView>>) -> bool {
    forall|k: Seq<char>| #[trigger] m.contains_key(k) ==> m[k] != Set::<RefView>::empty()
}

/// Stripping one member symbol, seen at one bucket key: the bucket under
/// the member's own name loses the member's path (and disappears when
/// emptied); every other bucket is untouched.
proof fn lemma_strip_member_slot(t: TablesView, m: SymView, s: MemberSlot, n: Seq<char>)
    requires
        member_slot(m) is Some,
        member_path(m).len() > 0,
    ensures
        ({
            let hit = member_slot(m) == Some(s) && member_path(m).last() == n;
            let b0 = slot_table(t, s);
            let b1 = slot_table(strip_member(t, m), s);
            if hit {
                &&& b1.contains_key(n) == (b0.contains_key(n)
                    && crate::index::lookup_tables::without_path(b0[n], member_path(m))
                    != Set::<RefView>::empty())
                &&& (b1.contains_key(n) ==> b1[n] == crate::index::lookup_tables::without_path(
                    b0[n],
                    member_path(m),
                ))
            } else {
                &&& b1.contains_key(n) == b0.contains_key(n)
                &&& (b1.contains_key(n) ==> b1[n] == b0[n])
            }
        }),
{
    match m {
        SymView::Method(mm) => {
            match (mm.kind, s) {
                (MethodKind::Procedure, MemberSlot::Procedure) => {},
                (MethodKind::Procedure, MemberSlot::Function) => {},
                (MethodKind::Procedure, MemberSlot::Setter) => {},
                (MethodKind::Procedure, MemberSlot::Property) => {},
                (MethodKind::Function, MemberSlot::Procedure) => {},
                (MethodKind::Function, MemberSlot::Function) => {},
                (MethodKind::Function, MemberSlot::Setter) => {},
                (MethodKind::Function, MemberSlot::Property) => {},
                (MethodKind::Setter, MemberSlot::Procedure) => {},
                (MethodKind::Setter, MemberSlot::Function) => {},
                (MethodKind::Setter, MemberSlot::Setter) => {},
                (MethodKind::Setter, MemberSlot::Property) => {},
            }
        },
        SymView::Property(_) => {
            match s {
                MemberSlot::Procedure => {},
                MemberSlot::Function => {},
                MemberSlot::Setter => {},
                MemberSlot::Property => {},
            }
        },
        SymView::Class(_) => {},
    }
}

/// Adding one member symbol, seen at one bucket key.
proof fn lemma_add_member_slot(
    t: TablesView,
    m: SymView,
    fr: Seq<char>,
    s: MemberSlot,
    n: Seq<char>,
)
    requires
        member_slot(m) is Some,
        member_path(m).len() > 0,
    ensures
        ({
            let hit = member_slot(m) == Some(s) && member_path(m).last() == n;
            let b0 = slot_table(t, s);
            let b1 = slot_table(add_member(t, m, fr), s);
            if hit {
                &&& b1.contains_key(n)
                &&& b1[n] == (if b0.contains_key(n) {
                    b0[n]
                } else {
                    Set::<RefView>::empty()
                }).insert(RefView { file: fr, path: member_path(m) })
            } else {
                &&& b1.contains_key(n) == b0.contains_key(n)
                &&& (b1.contains_key(n) ==> b1[n] == b0[n])
            }
        }),
{
    match m {
        SymView::Method(mm) => {
            match (mm.kind, s) {
                (MethodKind::Procedure, MemberSlot::Procedure) => {},
                (MethodKind::Procedure, MemberSlot::Function) => {},
                (MethodKind::Procedure, MemberSlot::Setter) => {},
                (MethodKind::Procedure, MemberSlot::Property) => {},
                (MethodKind::Function, MemberSlot::Procedure) => {},
                (MethodKind::Function, MemberSlot::Function) => {},
                (MethodKind::Function, MemberSlot::Setter) => {},
                (MethodKind::Function, MemberSlot::Property) => {},
                (MethodKind::Setter, MemberSlot::Procedure) => {},
                (MethodKind::Setter, MemberSlot::Function) => {},
                (MethodKind::Setter, MemberSlot::Setter) => {},
                (MethodKind::Setter, MemberSlot::Property) => {},
            }
        },
        SymView::Property(_) => {
            match s {
                MemberSlot::Procedure => {},
                MemberSlot::Function => {},
                MemberSlot::Setter => {},
                MemberSlot::Property => {},
            }
        },
        SymView::Class(_) => {},
    }
}


/// Every element is a member with a non-empty path.
pub open spec fn members_form(ms: Seq<SymView>) -> bool {
    forall|i: int|
        0 <= i < ms.len() ==> (member_slot(#[trigger] ms[i]) is Some && member_path(ms[i]).len()
            > 0)
}

/// Stripping a member list, seen at one bucket key: the bucket loses
/// exactly the listed paths that end in its name, and disappears when
/// that empties it.
proof fn lemma_strip_members_bucket(t: TablesView, ms: Seq<SymView>, s: MemberSlot, n: Seq<char>)
    requires
        members_form(ms),
        nonempty_buckets(slot_table(t, s)),
    ensures
        ({
            let b0 = slot_table(t, s);
            let b1 = slot_table(strip_members(t, ms), s);
            let ps = member_paths(ms, s, n);
            &&& b1.contains_key(n) == (b0.contains_key(n) && bucket_minus(b0[n], ps)
                != Set::<RefView>::empty())
            &&& (b1.contains_key(n) ==> b1[n] == bucket_minus(b0[n], ps))
            &&& nonempty_buckets(b1)
        }),
    decreases ms.len(),
{
    let b0 = slot_table(t, s);
    let ps = member_paths(ms, s, n);
    if ms.len() == 0 {
        assert forall|p: Seq<Seq<char>>| true implies !ps.contains(p) by {
            if ps.contains(p) {
                let i = choose|i: int|
                    0 <= i < ms.len() && member_slot(#[trigger] ms[i]) == Some(s) && member_path(
                        ms[i],
                    ) == p;
            }
        }
        if b0.contains_key(n) {
            assert(bucket_minus(b0[n], ps) =~= b0[n]);
        }
    } else {
        let ms0 = ms.drop_last();
        let last = ms.last();
        assert(members_form(ms0)) by {
            assert(forall|i: int| 0 <= i < ms0.len() ==> ms0[i] == ms[i]);
        }
        lemma_strip_members_bucket(t, ms0, s, n);
        let mid = strip_members(t, ms0);
        let ps0 = member_paths(ms0, s, n);
        lemma_strip_member_slot(mid, last, s, n);
        lemma_strip_member_nonempty(mid, last, s);
        let b1 = slot_table(mid, s);
        let b2 = slot_table(strip_members(t, ms), s);
        let hit = member_slot(last) == Some(s) && member_path(last).last() == n;
        if hit {
            let pl = member_path(last);
            assert(ps =~= ps0.insert(pl)) by {
                assert forall|p: Seq<Seq<char>>| #[trigger] ps.contains(p) implies ps0.insert(
                    pl,
                ).contains(p) by {
                    let i = choose|i: int|
                        0 <= i < ms.len() && member_slot(#[trigger] ms[i]) == Some(s)
                            && member_path(ms[i]) == p;
                    if i < ms.len() - 1 {
                        assert(ms0[i] == ms[i]);
                    }
                }
                assert forall|p: Seq<Seq<char>>| #[trigger] ps0.insert(pl).contains(p) implies
                    ps.contains(p) by {
                    if p == pl {
                        assert(ms[ms.len() - 1] == last);
                    } else {
                        let i = choose|i: int|
                            0 <= i < ms0.len() && member_slot(#[trigger] ms0[i]) == Some(s)
                                && member_path(ms0[i]) == p;
                        assert(ms[i] == ms0[i]);
                    }
                }
            }
            if b0.contains_key(n) {
                assert(crate::index::lookup_tables::without_path(
                    bucket_minus(b0[n], ps0),
                    pl,
                ) =~= bucket_minus(b0[n], ps));
                if bucket_minus(b0[n], ps0) == Set::<RefView>::empty() {
                    assert(bucket_minus(b0[n], ps) =~= Set::<RefView>::empty());
                }
            }
        } else {
            assert(ps =~= ps0) by {
                assert forall|p: Seq<Seq<char>>| #[trigger] ps.contains(p) implies ps0.contains(
                    p,
                ) by {
                    let i = choose|i: int|
                        0 <= i < ms.len() && member_slot(#[trigger] ms[i]) == Some(s)
                            && member_path(ms[i]) == p;
                    if i == ms.len() - 1 {
                        assert(ms[i] == last);
                        assert(p.last() == n);
                    } else {
                        assert(ms0[i] == ms[i]);
                    }
                }
                assert forall|p: Seq<Seq<char>>| #[trigger] ps0.contains(p) implies ps.contains(
                    p,
                ) by {
                    let i = choose|i: int|
                        0 <= i < ms0.len() && member_slot(#[trigger] ms0[i]) == Some(s)
                            && member_path(ms0[i]) == p;
                    assert(ms[i] == ms0[i]);
                }
            }
        }
    }
}


/// Adding a member list, seen at one bucket key: the bucket gains one
/// file-qualified reference per listed path ending in its name.
proof fn lemma_add_members_bucket(
    t: TablesView,
    ms: Seq<SymView>,
    fr: Seq<char>,
    s: MemberSlot,
    n: Seq<char>,
)
    requires
        members_form(ms),
    ensures
        ({
            let b0 = slot_table(t, s);
            let b1 = slot_table(add_members(t, ms, fr), s);
            let ps = member_paths(ms, s, n);
            &&& b1.contains_key(n) == (b0.contains_key(n) || ps != Set::<Seq<Seq<char>>>::empty())
            &&& (b1.contains_key(n) ==> b1[n] == bucket_plus(
                if b0.contains_key(n) {
                    b0[n]
                } else {
                    Set::<RefView>::empty()
                },
                ps,
                fr,
            ))
            &&& (nonempty_buckets(b0) ==> nonempty_buckets(b1))
        }),
    decreases ms.len(),
{
    let b0 = slot_table(t, s);
    let ps = member_paths(ms, s, n);
    let base = if b0.contains_key(n) {
        b0[n]
    } else {
        Set::<RefView>::empty()
    };
    if ms.len() == 0 {
        assert forall|p: Seq<Seq<char>>| true implies !ps.contains(p) by {
            if ps.contains(p) {
                let i = choose|i: int|
                    0 <= i < ms.len() && member_slot(#[trigger] ms[i]) == Some(s) && member_path(
                        ms[i],
                    ) == p;
            }
        }
        assert(ps =~= Set::<Seq<Seq<char>>>::empty());
        if b0.contains_key(n) {
            assert(bucket_plus(base, ps, fr) =~= b0[n]);
        }
    } else {
        let ms0 = ms.drop_last();
        let last = ms.last();
        assert(members_form(ms0)) by {
            assert(forall|i: int| 0 <= i < ms0.len() ==> ms0[i] == ms[i]);
        }
        lemma_add_members_bucket(t, ms0, fr, s, n);
        let mid = add_members(t, ms0, fr);
        let ps0 = member_paths(ms0, s, n);
        lemma_add_member_slot(mid, last, fr, s, n);
        if nonempty_buckets(slot_table(t, s)) {
            lemma_add_member_nonempty(mid, last, fr, s);
        }
        let b1 = slot_table(mid, s);
        let b2 = slot_table(add_members(t, ms, fr), s);
        let hit = member_slot(last) == Some(s) && member_path(last).last() == n;
        if hit {
            let pl = member_path(last);
            assert(ps =~= ps0.insert(pl)) by {
                assert forall|p: Seq<Seq<char>>| #[trigger] ps.contains(p) implies ps0.insert(
                    pl,
                ).contains(p) by {
                    let i = choose|i: int|
                        0 <= i < ms.len() && member_slot(#[trigger] ms[i]) == Some(s)
                            && member_path(ms[i]) == p;
                    if i < ms.len() - 1 {
                        assert(ms0[i] == ms[i]);
                    }
                }
                assert forall|p: Seq<Seq<char>>| #[trigger] ps0.insert(pl).contains(p) implies
                    ps.contains(p) by {
                    if p == pl {
                        assert(ms[ms.len() - 1] == last);
                    } else {
                        let i = choose|i: int|
                            0 <= i < ms0.len() && member_slot(#[trigger] ms0[i]) == Some(s)
                                && member_path(ms0[i]) == p;
                        assert(ms[i] == ms0[i]);
                    }
                }
            }
            assert(ms[ms.len() - 1] == last);
            assert(ps.contains(pl));
            assert(ps != Set::<Seq<Seq<char>>>::empty());
            let prev = if b1.contains_key(n) {
                b1[n]
            } else {
                Set::<RefView>::empty()
            };
            assert(b2[n] == prev.insert(RefView { file: fr, path: pl }));
            if b1.contains_key(n) {
                assert(prev.insert(RefView { file: fr, path: pl }) =~= bucket_plus(
                    base,
                    ps,
                    fr,
                )) by {
                    assert forall|r: RefView| #[trigger] bucket_plus(base, ps, fr).contains(
                        r,
                    ) implies prev.insert(RefView { file: fr, path: pl }).contains(r) by {
                        if base.contains(r) || (r.file == fr && ps0.contains(r.path)) {
                            assert(bucket_plus(base, ps0, fr).contains(r));
                        } else {
                            assert(r.file == fr && r.path == pl);
                            assert(r == RefView { file: fr, path: pl });
                        }
                    }
                }
            } else {
                assert(!b0.contains_key(n) && ps0 == Set::<Seq<Seq<char>>>::empty());
                assert(prev.insert(RefView { file: fr, path: pl }) =~= bucket_plus(
                    base,
                    ps,
                    fr,
                )) by {
                    assert forall|r: RefView| #[trigger] bucket_plus(base, ps, fr).contains(
                        r,
                    ) implies prev.insert(RefView { file: fr, path: pl }).contains(r) by {
                        assert(r.file == fr && r.path == pl);
                        assert(r == RefView { file: fr, path: pl });
                    }
                }
            }
        } else {
            assert(ps =~= ps0) by {
                assert forall|p: Seq<Seq<char>>| #[trigger] ps.contains(p) implies ps0.contains(
                    p,
                ) by {
                    let i = choose|i: int|
                        0 <= i < ms.len() && member_slot(#[trigger] ms[i]) == Some(s)
                            && member_path(ms[i]) == p;
                    if i == ms.len() - 1 {
                        assert(ms[i] == last);
                        assert(p.last() == n);
                    } else {
                        assert(ms0[i] == ms[i]);
                    }
                }
                assert forall|p: Seq<Seq<char>>| #[trigger] ps0.contains(p) implies ps.contains(
                    p,
                ) by {
                    let i = choose|i: int|
                        0 <= i < ms0.len() && member_slot(#[trigger] ms0[i]) == Some(s)
                            && member_path(ms0[i]) == p;
                    assert(ms[i] == ms0[i]);
                }
            }
        }
    }
}


/// Stripping and adding preserve bucket non-emptiness.
proof fn lemma_remove_path_nonempty(m: Map<Seq<char>, Set<RefView>>, k: Seq<char>, p: Seq<Seq<char>>)
    requires
        nonempty_buckets(m),
    ensures
        nonempty_buckets(crate::index::lookup_tables::bucket_remove_path_spec(m, k, p)),
{
}

proof fn lemma_insert_ref_nonempty(m: Map<Seq<char>, Set<RefView>>, k: Seq<char>, r: RefView)
    requires
        nonempty_buckets(m),
    ensures
        nonempty_buckets(crate::index::lookup_tables::bucket_insert_spec(m, k, r)),
{
    let m2 = crate::index::lookup_tables::bucket_insert_spec(m, k, r);
    assert forall|k2: Seq<char>| #[trigger] m2.contains_key(k2) implies m2[k2]
        != Set::<RefView>::empty() by {
        if k2 == k {
            assert(m2[k2].contains(r));
            if m2[k2] == Set::<RefView>::empty() {
                assert(!m2[k2].contains(r));
            }
        }
    }
}

proof fn lemma_strip_member_nonempty(t: TablesView, m: SymView, s: MemberSlot)
    requires
        member_slot(m) is Some,
        member_path(m).len() > 0,
        nonempty_buckets(slot_table(t, s)),
    ensures
        nonempty_buckets(slot_table(strip_member(t, m), s)),
{
    match m {
        SymView::Method(mm) => {
            match (mm.kind, s) {
                (MethodKind::Procedure, MemberSlot::Procedure) => {
                    lemma_remove_path_nonempty(t.procedures, mm.path.last(), mm.path);
                },
                (MethodKind::Procedure, MemberSlot::Function) => {},
                (MethodKind::Procedure, MemberSlot::Setter) => {},
                (MethodKind::Procedure, MemberSlot::Property) => {},
                (MethodKind::Function, MemberSlot::Procedure) => {},
                (MethodKind::Function, MemberSlot::Function) => {
                    lemma_remove_path_nonempty(t.functions, mm.path.last(), mm.path);
                },
                (MethodKind::Function, MemberSlot::Setter) => {},
                (MethodKind::Function, MemberSlot::Property) => {},
                (MethodKind::Setter, MemberSlot::Procedure) => {},
                (MethodKind::Setter, MemberSlot::Function) => {},
                (MethodKind::Setter, MemberSlot::Setter) => {
                    lemma_remove_path_nonempty(t.setters, mm.path.last(), mm.path);
                },
                (MethodKind::Setter, MemberSlot::Property) => {},
            }
        },
        SymView::Property(p) => {
            match s {
                MemberSlot::Procedure => {},
                MemberSlot::Function => {},
                MemberSlot::Setter => {},
                MemberSlot::Property => {
                    lemma_remove_path_nonempty(t.properties, p.path.last(), p.path);
                },
            }
        },
        SymView::Class(_) => {},
    }
}

proof fn lemma_add_member_nonempty(t: TablesView, m: SymView, fr: Seq<char>, s: MemberSlot)
    requires
        member_slot(m) is Some,
        member_path(m).len() > 0,
        nonempty_buckets(slot_table(t, s)),
    ensures
        nonempty_buckets(slot_table(add_member(t, m, fr), s)),
{
    match m {
        SymView::Method(mm) => {
            match (mm.kind, s) {
                (MethodKind::Procedure, MemberSlot::Procedure) => {
                    lemma_insert_ref_nonempty(
                        t.procedures,
                        mm.path.last(),
                        RefView { file: fr, path: mm.path },
                    );
                },
                (MethodKind::Procedure, MemberSlot::Function) => {},
                (MethodKind::Procedure, MemberSlot::Setter) => {},
                (MethodKind::Procedure, MemberSlot::Property) => {},
                (MethodKind::Function, MemberSlot::Procedure) => {},
                (MethodKind::Function, MemberSlot::Function) => {
                    lemma_insert_ref_nonempty(
                        t.functions,
                        mm.path.last(),
                        RefView { file: fr, path: mm.path },
                    );
                },
                (MethodKind::Function, MemberSlot::Setter) => {},
                (MethodKind::Function, MemberSlot::Property) => {},
                (MethodKind::Setter, MemberSlot::Procedure) => {},
                (MethodKind::Setter, MemberSlot::Function) => {},
                (MethodKind::Setter, MemberSlot::Setter) => {
                    lemma_insert_ref_nonempty(
                        t.setters,
                        mm.path.last(),
                        RefView { file: fr, path: mm.path },
                    );
                },
                (MethodKind::Setter, MemberSlot::Property) => {},
            }
        },
        SymView::Property(p) => {
            match s {
                MemberSlot::Procedure => {},
                MemberSlot::Function => {},
                MemberSlot::Setter => {},
                MemberSlot::Property => {
                    lemma_insert_ref_nonempty(
                        t.properties,
                        p.path.last(),
                        RefView { file: fr, path: p.path },
                    );
                },
            }
        },
        SymView::Class(_) => {},
    }
}


/// A class view has a member with the given slot and path.
pub open spec fn class_member_with(c: SymView, s: MemberSlot, p: Seq<Seq<char>>) -> bool {
    exists|j: int|
        0 <= j < c->Class_0.members.len() && member_slot(#[trigger] c->Class_0.members[j])
            == Some(s) && member_path(c->Class_0.members[j]) == p
}

/// The member paths ending in `n` that a diff list touches in slot `s`:
/// the paths of listed member symbols, and of the members of listed
/// classes.
pub open spec fn diff_paths(rs: Seq<SymView>, s: MemberSlot, n: Seq<char>) -> Set<Seq<Seq<char>>> {
    Set::new(
        |p: Seq<Seq<char>>|
            p.len() > 0 && p.last() == n && exists|i: int|
                0 <= i < rs.len() && ((member_slot(#[trigger] rs[i]) == Some(s) && member_path(
                    rs[i],
                ) == p) || (rs[i] is Class && class_member_with(rs[i], s, p))),
    )
}

/// A diff list is in shape: classes with well-formed member lists, or
/// members with non-empty paths.
pub open spec fn diff_form(rs: Seq<SymView>) -> bool {
    forall|i: int|
        0 <= i < rs.len() ==> (((#[trigger] rs[i]) is Class && members_form(
            rs[i]->Class_0.members,
        )) || (member_slot(rs[i]) is Some && member_path(rs[i]).len() > 0))
}

/// Stripping a whole diff list, seen at one bucket key.
proof fn lemma_strip_all_bucket(t: TablesView, rs: Seq<SymView>, s: MemberSlot, n: Seq<char>)
    requires
        diff_form(rs),
        nonempty_buckets(slot_table(t, s)),
    ensures
        ({
            let b0 = slot_table(t, s);
            let b1 = slot_table(strip_all(t, rs), s);
            let ps = diff_paths(rs, s, n);
            &&& b1.contains_key(n) == (b0.contains_key(n) && bucket_minus(b0[n], ps)
                != Set::<RefView>::empty())
            &&& (b1.contains_key(n) ==> b1[n] == bucket_minus(b0[n], ps))
            &&& nonempty_buckets(b1)
        }),
    decreases rs.len(),
{
    let b0 = slot_table(t, s);
    let ps = diff_paths(rs, s, n);
    if rs.len() == 0 {
        assert forall|p: Seq<Seq<char>>| true implies !ps.contains(p) by {
            if ps.contains(p) {
                let i = choose|i: int|
                    0 <= i < rs.len() && ((member_slot(#[trigger] rs[i]) == Some(s)
                        && member_path(rs[i]) == p) || (rs[i] is Class && class_member_with(
                        rs[i],
                        s,
                        p,
                    )));
            }
        }
        if b0.contains_key(n) {
            assert(bucket_minus(b0[n], ps) =~= b0[n]);
        }
    } else {
        let rs0 = rs.drop_last();
        let last = rs.last();
        assert(diff_form(rs0)) by {
            assert(forall|i: int| 0 <= i < rs0.len() ==> rs0[i] == rs[i]);
        }
        lemma_strip_all_bucket(t, rs0, s, n);
        let mid = strip_all(t, rs0);
        let ps0 = diff_paths(rs0, s, n);
        let b1 = slot_table(mid, s);
        let b2 = slot_table(strip_all(t, rs), s);
        if last is Class {
            let ms = last->Class_0.members;
            assert(members_form(ms));
            lemma_strip_members_bucket(mid, ms, s, n);
            let psm = member_paths(ms, s, n);
            // Removing the class entry afterwards does not touch buckets.
            assert(slot_table(strip_one(mid, last), s) == slot_table(strip_members(mid, ms), s))
                by {
                match s {
                    MemberSlot::Procedure => {},
                    MemberSlot::Function => {},
                    MemberSlot::Setter => {},
                    MemberSlot::Property => {},
                }
            }
            assert(ps =~= ps0.union(psm)) by {
                assert forall|p: Seq<Seq<char>>| #[trigger] ps.contains(p) implies ps0.union(
                    psm,
                ).contains(p) by {
                    let i = choose|i: int|
                        0 <= i < rs.len() && ((member_slot(#[trigger] rs[i]) == Some(s)
                            && member_path(rs[i]) == p) || (rs[i] is Class && class_member_with(
                            rs[i],
                            s,
                            p,
                        )));
                    if i < rs.len() - 1 {
                        assert(rs0[i] == rs[i]);
                    } else {
                        assert(rs[i] == last);
                        let j = choose|j: int|
                            0 <= j < ms.len() && member_slot(#[trigger] ms[j]) == Some(s)
                                && member_path(ms[j]) == p;
                        assert(psm.contains(p));
                    }
                }
                assert forall|p: Seq<Seq<char>>| #[trigger] ps0.union(psm).contains(p) implies
                    ps.contains(p) by {
                    if ps0.contains(p) {
                        let i = choose|i: int|
                            0 <= i < rs0.len() && ((member_slot(#[trigger] rs0[i]) == Some(s)
                                && member_path(rs0[i]) == p) || (rs0[i] is Class
                                && class_member_with(rs0[i], s, p)));
                        assert(rs[i] == rs0[i]);
                    } else {
                        assert(rs[rs.len() - 1] == last);
                    }
                }
            }
            if b0.contains_key(n) {
                assert(bucket_minus(bucket_minus(b0[n], ps0), psm) =~= bucket_minus(b0[n], ps));
                if bucket_minus(b0[n], ps0) == Set::<RefView>::empty() {
                    assert(bucket_minus(b0[n], ps) =~= Set::<RefView>::empty());
                }
            }
        } else {
            assert(member_slot(last) is Some && member_path(last).len() > 0);
            lemma_strip_member_slot(mid, last, s, n);
            lemma_strip_member_nonempty(mid, last, s);
            let hit = member_slot(last) == Some(s) && member_path(last).last() == n;
            if hit {
                let pl = member_path(last);
                assert(ps =~= ps0.insert(pl)) by {
                    assert forall|p: Seq<Seq<char>>| #[trigger] ps.contains(p) implies ps0.insert(
                        pl,
                    ).contains(p) by {
                        let i = choose|i: int|
                            0 <= i < rs.len() && ((member_slot(#[trigger] rs[i]) == Some(s)
                                && member_path(rs[i]) == p) || (rs[i] is Class
                                && class_member_with(rs[i], s, p)));
                        if i < rs.len() - 1 {
                            assert(rs0[i] == rs[i]);
                        }
                    }
                    assert forall|p: Seq<Seq<char>>| #[trigger] ps0.insert(pl).contains(
                        p,
                    ) implies ps.contains(p) by {
                        if p == pl {
                            assert(rs[rs.len() - 1] == last);
                        } else {
                            let i = choose|i: int|
                                0 <= i < rs0.len() && ((member_slot(#[trigger] rs0[i]) == Some(s)
                                    && member_path(rs0[i]) == p) || (rs0[i] is Class
                                    && class_member_with(rs0[i], s, p)));
                            assert(rs[i] == rs0[i]);
                        }
                    }
                }
                if b0.contains_key(n) {
                    assert(crate::index::lookup_tables::without_path(
                        bucket_minus(b0[n], ps0),
                        pl,
                    ) =~= bucket_minus(b0[n], ps));
                    if bucket_minus(b0[n], ps0) == Set::<RefView>::empty() {
                        assert(bucket_minus(b0[n], ps) =~= Set::<RefView>::empty());
                    }
                }
            } else {
                assert(ps =~= ps0) by {
                    assert forall|p: Seq<Seq<char>>| #[trigger] ps.contains(p) implies
                        ps0.contains(p) by {
                        let i = choose|i: int|
                            0 <= i < rs.len() && ((member_slot(#[trigger] rs[i]) == Some(s)
                                && member_path(rs[i]) == p) || (rs[i] is Class
                                && class_member_with(rs[i], s, p)));
                        if i == rs.len() - 1 {
                            assert(rs[i] == last);
                            assert(p.last() == n);
                        } else {
                            assert(rs0[i] == rs[i]);
                        }
                    }
                    assert forall|p: Seq<Seq<char>>| #[trigger] ps0.contains(p) implies
                        ps.contains(p) by {
                        let i = choose|i: int|
                            0 <= i < rs0.len() && ((member_slot(#[trigger] rs0[i]) == Some(s)
                                && member_path(rs0[i]) == p) || (rs0[i] is Class
                                && class_member_with(rs0[i], s, p)));
                        assert(rs[i] == rs0[i]);
                    }
                }
            }
        }
    }
}


/// Adding a whole diff list, seen at one bucket key.
proof fn lemma_add_all_bucket(
    t: TablesView,
    rs: Seq<SymView>,
    fr: Seq<char>,
    s: MemberSlot,
    n: Seq<char>,
)
    requires
        diff_form(rs),
    ensures
        ({
            let b0 = slot_table(t, s);
            let b1 = slot_table(add_all(t, rs, fr), s);
            let ps = diff_paths(rs, s, n);
            &&& b1.contains_key(n) == (b0.contains_key(n) || ps != Set::<Seq<Seq<char>>>::empty())
            &&& (b1.contains_key(n) ==> b1[n] == bucket_plus(
                if b0.contains_key(n) {
                    b0[n]
                } else {
                    Set::<RefView>::empty()
                },
                ps,
                fr,
            ))
            &&& (nonempty_buckets(b0) ==> nonempty_buckets(b1))
        }),
    decreases rs.len(),
{
    let b0 = slot_table(t, s);
    let ps = diff_paths(rs, s, n);
    let base = if b0.contains_key(n) {
        b0[n]
    } else {
        Set::<RefView>::empty()
    };
    if rs.len() == 0 {
        assert forall|p: Seq<Seq<char>>| true implies !ps.contains(p) by {
            if ps.contains(p) {
                let i = choose|i: int|
                    0 <= i < rs.len() && ((member_slot(#[trigger] rs[i]) == Some(s)
                        && member_path(rs[i]) == p) || (rs[i] is Class && class_member_with(
                        rs[i],
                        s,
                        p,
                    )));
            }
        }
        assert(ps =~= Set::<Seq<Seq<char>>>::empty());
        if b0.contains_key(n) {
            assert(bucket_plus(base, ps, fr) =~= b0[n]);
        }
    } else {
        let rs0 = rs.drop_last();
        let last = rs.last();
        assert(diff_form(rs0)) by {
            assert(forall|i: int| 0 <= i < rs0.len() ==> rs0[i] == rs[i]);
        }
        lemma_add_all_bucket(t, rs0, fr, s, n);
        let mid = add_all(t, rs0, fr);
        let ps0 = diff_paths(rs0, s, n);
        let b1 = slot_table(mid, s);
        let b2 = slot_table(add_all(t, rs, fr), s);
        if last is Class {
            let c_name = last->Class_0.name;
            let ms = last->Class_0.members;
            assert(members_form(ms));
            let with_class = TablesView {
                classes: mid.classes.insert(c_name, RefView { file: fr, path: seq![c_name] }),
                ..mid
            };
            // Recording the class entry does not touch buckets.
            assert(slot_table(with_class, s) == slot_table(mid, s)) by {
                match s {
                    MemberSlot::Procedure => {},
                    MemberSlot::Function => {},
                    MemberSlot::Setter => {},
                    MemberSlot::Property => {},
                }
            }
            lemma_add_members_bucket(with_class, ms, fr, s, n);
            let psm = member_paths(ms, s, n);
            assert(ps =~= ps0.union(psm)) by {
                assert forall|p: Seq<Seq<char>>| #[trigger] ps.contains(p) implies ps0.union(
                    psm,
                ).contains(p) by {
                    let i = choose|i: int|
                        0 <= i < rs.len() && ((member_slot(#[trigger] rs[i]) == Some(s)
                            && member_path(rs[i]) == p) || (rs[i] is Class && class_member_with(
                            rs[i],
                            s,
                            p,
                        )));
                    if i < rs.len() - 1 {
                        assert(rs0[i] == rs[i]);
                    } else {
                        assert(rs[i] == last);
                        let j = choose|j: int|
                            0 <= j < ms.len() && member_slot(#[trigger] ms[j]) == Some(s)
                                && member_path(ms[j]) == p;
                        assert(psm.contains(p));
                    }
                }
                assert forall|p: Seq<Seq<char>>| #[trigger] ps0.union(psm).contains(p) implies
                    ps.contains(p) by {
                    if ps0.contains(p) {
                        let i = choose|i: int|
                            0 <= i < rs0.len() && ((member_slot(#[trigger] rs0[i]) == Some(s)
                                && member_path(rs0[i]) == p) || (rs0[i] is Class
                                && class_member_with(rs0[i], s, p)));
                        assert(rs[i] == rs0[i]);
                    } else {
                        assert(rs[rs.len() - 1] == last);
                    }
                }
            }
            if ps != Set::<Seq<Seq<char>>>::empty() {
                if ps0 == Set::<Seq<Seq<char>>>::empty() && psm == Set::<Seq<Seq<char>>>::empty() {
                    assert(ps =~= Set::<Seq<Seq<char>>>::empty());
                }
            }
            if ps0 != Set::<Seq<Seq<char>>>::empty() || psm != Set::<Seq<Seq<char>>>::empty() {
                if ps == Set::<Seq<Seq<char>>>::empty() {
                    if ps0 != Set::<Seq<Seq<char>>>::empty() {
                        assert(ps0 =~= Set::<Seq<Seq<char>>>::empty());
                    } else {
                        assert(psm =~= Set::<Seq<Seq<char>>>::empty());
                    }
                }
            }
            let mid_base = if b1.contains_key(n) {
                b1[n]
            } else {
                Set::<RefView>::empty()
            };
            assert(bucket_plus(mid_base, psm, fr) =~= bucket_plus(base, ps, fr)) by {
                if b1.contains_key(n) {
                } else {
                    assert(!b0.contains_key(n) && ps0 == Set::<Seq<Seq<char>>>::empty());
                }
            }
        } else {
            assert(member_slot(last) is Some && member_path(last).len() > 0);
            lemma_add_member_slot(mid, last, fr, s, n);
            if nonempty_buckets(b0) {
                lemma_add_member_nonempty(mid, last, fr, s);
            }
            let hit = member_slot(last) == Some(s) && member_path(last).last() == n;
            if hit {
                let pl = member_path(last);
                assert(ps =~= ps0.insert(pl)) by {
                    assert forall|p: Seq<Seq<char>>| #[trigger] ps.contains(p) implies ps0.insert(
                        pl,
                    ).contains(p) by {
                        let i = choose|i: int|
                            0 <= i < rs.len() && ((member_slot(#[trigger] rs[i]) == Some(s)
                                && member_path(rs[i]) == p) || (rs[i] is Class
                                && class_member_with(rs[i], s, p)));
                        if i < rs.len() - 1 {
                            assert(rs0[i] == rs[i]);
                        }
                    }
                    assert forall|p: Seq<Seq<char>>| #[trigger] ps0.insert(pl).contains(
                        p,
                    ) implies ps.contains(p) by {
                        if p == pl {
                            assert(rs[rs.len() - 1] == last);
                        } else {
                            let i = choose|i: int|
                                0 <= i < rs0.len() && ((member_slot(#[trigger] rs0[i]) == Some(s)
                                    && member_path(rs0[i]) == p) || (rs0[i] is Class
                                    && class_member_with(rs0[i], s, p)));
                            assert(rs[i] == rs0[i]);
                        }
                    }
                }
                assert(rs[rs.len() - 1] == last);
                assert(ps.contains(pl));
                assert(ps != Set::<Seq<Seq<char>>>::empty());
                let prev = if b1.contains_key(n) {
                    b1[n]
                } else {
                    Set::<RefView>::empty()
                };
                assert(b2[n] == prev.insert(RefView { file: fr, path: pl }));
                if b1.contains_key(n) {
                    assert(prev.insert(RefView { file: fr, path: pl }) =~= bucket_plus(
                        base,
                        ps,
                        fr,
                    )) by {
                        assert forall|r: RefView| #[trigger] bucket_plus(base, ps, fr).contains(
                            r,
                        ) implies prev.insert(RefView { file: fr, path: pl }).contains(r) by {
                            if base.contains(r) || (r.file == fr && ps0.contains(r.path)) {
                                assert(bucket_plus(base, ps0, fr).contains(r));
                            } else {
                                assert(r.file == fr && r.path == pl);
                                assert(r == RefView { file: fr, path: pl });
                            }
                        }
                    }
                } else {
                    assert(!b0.contains_key(n) && ps0 == Set::<Seq<Seq<char>>>::empty());
                    assert(prev.insert(RefView { file: fr, path: pl }) =~= bucket_plus(
                        base,
                        ps,
                        fr,
                    )) by {
                        assert forall|r: RefView| #[trigger] bucket_plus(base, ps, fr).contains(
                            r,
                        ) implies prev.insert(RefView { file: fr, path: pl }).contains(r) by {
                            assert(r.file == fr && r.path == pl);
                            assert(r == RefView { file: fr, path: pl });
                        }
                    }
                }
            } else {
                assert(ps =~= ps0) by {
                    assert forall|p: Seq<Seq<char>>| #[trigger] ps.contains(p) implies
                        ps0.contains(p) by {
                        let i = choose|i: int|
                            0 <= i < rs.len() && ((member_slot(#[trigger] rs[i]) == Some(s)
                                && member_path(rs[i]) == p) || (rs[i] is Class
                                && class_member_with(rs[i], s, p)));
                        if i == rs.len() - 1 {
                            assert(rs[i] == last);
                            assert(p.last() == n);
                        } else {
                            assert(rs0[i] == rs[i]);
                        }
                    }
                    assert forall|p: Seq<Seq<char>>| #[trigger] ps0.contains(p) implies
                        ps.contains(p) by {
                        let i = choose|i: int|
                            0 <= i < rs0.len() && ((member_slot(#[trigger] rs0[i]) == Some(s)
                                && member_path(rs0[i]) == p) || (rs0[i] is Class
                                && class_member_with(rs0[i], s, p)));
                        assert(rs[i] == rs0[i]);
                    }
                }
            }
        }
    }
}


/// Every symbol of a list is well-formed.
pub open spec fn wf_views(ss: Seq<SymView>) -> bool {
    forall|i: int| 0 <= i < ss.len() ==> (#[trigger] ss[i]).wf()
}

/// A well-formed class's members are members with non-empty paths.
proof fn lemma_wf_members_form(c: SymView)
    requires
        c is Class,
        c.wf(),
    ensures
        members_form(c->Class_0.members),
{
    let ms = c->Class_0.members;
    assert forall|i: int| 0 <= i < ms.len() implies (member_slot(#[trigger] ms[i]) is Some
        && member_path(ms[i]).len() > 0) by {
        assert(ms[i].member_wf(c->Class_0.name));
    }
}

/// The removed diff of well-formed files is in diff shape.
proof fn lemma_removed_form(a: Seq<SymView>, b: Seq<SymView>)
    requires
        wf_views(a),
    ensures
        diff_form(removed_symbols(a, b)),
    decreases a.len(),
{
    if a.len() > 0 {
        let a0 = a.drop_last();
        let o = a.last();
        assert(wf_views(a0)) by {
            assert(forall|i: int| 0 <= i < a0.len() ==> a0[i] == a[i]);
        }
        lemma_removed_form(a0, b);
        let prefix = removed_symbols(a0, b);
        let r = removed_symbols(a, b);
        assert(a[a.len() - 1] == o);
        assert(o.wf());
        assert forall|i: int| 0 <= i < r.len() implies (((#[trigger] r[i]) is Class
            && members_form(r[i]->Class_0.members)) || (member_slot(r[i]) is Some && member_path(
            r[i],
        ).len() > 0)) by {
            if i < prefix.len() {
                assert(r[i] == prefix[i]);
            } else {
                // The tail either pushes the old symbol itself or appends
                // members of the old class.
                match find_named(b, o.name()) {
                    None => {
                        assert(r[i] == o);
                        if o is Class {
                            lemma_wf_members_form(o);
                        }
                    },
                    Some(j) => {
                        if o.matching(b[j]) && o is Class && b[j] is Class {
                            let inner = removed_members(
                                o->Class_0.members,
                                b[j]->Class_0.members,
                            );
                            assert(r[i] == inner[i - prefix.len()]);
                            lemma_removed_members_from_old(
                                o->Class_0.members,
                                b[j]->Class_0.members,
                                i - prefix.len(),
                            );
                            let jj = choose|jj: int|
                                0 <= jj < o->Class_0.members.len() && (#[trigger] o
                                    ->Class_0.members[jj]) == inner[i - prefix.len()];
                            assert(o->Class_0.members[jj].member_wf(o->Class_0.name));
                        } else {
                            assert(r[i] == o);
                            if o is Class {
                                lemma_wf_members_form(o);
                            }
                        }
                    },
                }
            }
        }
    }
}

/// The added diff of well-formed files is in diff shape.
proof fn lemma_added_form(a: Seq<SymView>, b: Seq<SymView>)
    requires
        wf_views(b),
    ensures
        diff_form(added_symbols(a, b)),
    decreases b.len(),
{
    if b.len() > 0 {
        let b0 = b.drop_last();
        let x = b.last();
        assert(wf_views(b0)) by {
            assert(forall|i: int| 0 <= i < b0.len() ==> b0[i] == b[i]);
        }
        lemma_added_form(a, b0);
        let prefix = added_symbols(a, b0);
        let r = added_symbols(a, b);
        assert(b[b.len() - 1] == x);
        assert(x.wf());
        assert forall|i: int| 0 <= i < r.len() implies (((#[trigger] r[i]) is Class
            && members_form(r[i]->Class_0.members)) || (member_slot(r[i]) is Some && member_path(
            r[i],
        ).len() > 0)) by {
            if i < prefix.len() {
                assert(r[i] == prefix[i]);
            } else {
                match find_named(a, x.name()) {
                    None => {
                        assert(r[i] == x);
                        if x is Class {
                            lemma_wf_members_form(x);
                        }
                    },
                    Some(j) => {
                        if a[j].matching(x) && a[j] is Class && x is Class {
                            let inner = added_members(a[j]->Class_0.members, x->Class_0.members);
                            assert(r[i] == inner[i - prefix.len()]);
                            lemma_added_members_from_new(
                                a[j]->Class_0.members,
                                x->Class_0.members,
                                i - prefix.len(),
                            );
                            let jj = choose|jj: int|
                                0 <= jj < x->Class_0.members.len() && (#[trigger] x
                                    ->Class_0.members[jj]) == inner[i - prefix.len()];
                            assert(x->Class_0.members[jj].member_wf(x->Class_0.name));
                        } else {
                            assert(r[i] == x);
                            if x is Class {
                                lemma_wf_members_form(x);
                            }
                        }
                    },
                }
            }
        }
    }
}

/// Rebuild step for the member tables, one bucket at a time: a
/// diff-driven update takes the bucket of slot `s` under name `n` to the
/// old bucket minus every path the diff removed, joined with one
/// file-qualified reference per path the diff added, the bucket erased
/// exactly when that leaves nothing.  With the class-table law this pins
/// every lookup table across an update.
pub proof fn lemma_update_bucket_effect(
    t: TablesView,
    a: Seq<SymView>,
    b: Seq<SymView>,
    fr: Seq<char>,
    s: MemberSlot,
    n: Seq<char>,
)
    requires
        wf_views(a),
        wf_views(b),
        nonempty_buckets(slot_table(t, s)),
    ensures
        ({
            let removed_ps = diff_paths(removed_symbols(a, b), s, n);
            let added_ps = diff_paths(added_symbols(a, b), s, n);
            let b0 = slot_table(t, s);
            let base = if b0.contains_key(n) {
                b0[n]
            } else {
                Set::<RefView>::empty()
            };
            let result = bucket_plus(bucket_minus(base, removed_ps), added_ps, fr);
            let bn = slot_table(table_update(t, a, b, fr), s);
            &&& bn.contains_key(n) == (result != Set::<RefView>::empty())
            &&& (bn.contains_key(n) ==> bn[n] == result)
        }),
{
    let removed = removed_symbols(a, b);
    let added = added_symbols(a, b);
    let removed_ps = diff_paths(removed, s, n);
    let added_ps = diff_paths(added, s, n);
    let b0 = slot_table(t, s);
    let base = if b0.contains_key(n) {
        b0[n]
    } else {
        Set::<RefView>::empty()
    };
    lemma_removed_form(a, b);
    lemma_added_form(a, b);
    lemma_strip_all_bucket(t, removed, s, n);
    let mid = strip_all(t, removed);
    let b1 = slot_table(mid, s);
    lemma_add_all_bucket(mid, added, fr, s, n);
    let stripped = bucket_minus(base, removed_ps);
    let mid_base = if b1.contains_key(n) {
        b1[n]
    } else {
        Set::<RefView>::empty()
    };
    let result = bucket_plus(stripped, added_ps, fr);
    assert(mid_base =~= stripped) by {
        if b1.contains_key(n) {
        } else {
            if b0.contains_key(n) {
                assert(bucket_minus(b0[n], removed_ps) == Set::<RefView>::empty());
            } else {
                assert(stripped =~= Set::<RefView>::empty());
            }
        }
    }
    let bn = slot_table(table_update(t, a, b, fr), s);
    assert(bn.contains_key(n) == (b1.contains_key(n) || added_ps
        != Set::<Seq<Seq<char>>>::empty()));
    if result == Set::<RefView>::empty() {
        assert(stripped =~= Set::<RefView>::empty()) by {
            assert forall|r: RefView| #[trigger] stripped.contains(r) implies false by {
                assert(result.contains(r));
            }
        }
        assert(added_ps =~= Set::<Seq<Seq<char>>>::empty()) by {
            assert forall|p: Seq<Seq<char>>| #[trigger] added_ps.contains(p) implies false by {
                assert(result.contains(RefView { file: fr, path: p }));
            }
        }
        assert(!b1.contains_key(n));
    } else {
        if !b1.contains_key(n) && added_ps == Set::<Seq<Seq<char>>>::empty() {
            assert(result =~= Set::<RefView>::empty());
        }
    }
}

} // verus!
