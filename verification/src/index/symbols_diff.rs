//! Structural diff between two per-file symbol lists: which symbols were
//! added and which were removed, member by member for classes that stay.

use vstd::prelude::*;

use crate::index::index_file::IndexFile;
use crate::index::index_symbol::{
    lemma_syms_view_index, lemma_syms_view_len, lemma_syms_view_push, sym_view, syms_view,
    IndexSymbol, SymView, SymbolName,
};

verus! {

/// The index of the first symbol with the given unqualified name.
pub open spec fn find_named(ss: Seq<SymView>, n: Seq<char>) -> Option<int>
    decreases ss.len(),
{
    if ss.len() == 0 {
        None
    } else if ss[0].name() == n {
        Some(0int)
    } else {
        match find_named(ss.skip(1), n) {
            Some(i) => Some(i + 1),
            None => None,
        }
    }
}

/// What a found index means.
pub proof fn lemma_find_named(ss: Seq<SymView>, n: Seq<char>)
    ensures
        match find_named(ss, n) {
            Some(i) => 0 <= i < ss.len() && ss[i].name() == n,
            None => forall|i: int| 0 <= i < ss.len() ==> (#[trigger] ss[i]).name() != n,
        },
    decreases ss.len(),
{
    if ss.len() > 0 && ss[0].name() != n {
        lemma_find_named(ss.skip(1), n);
        assert forall|i: int| 1 <= i < ss.len() implies (#[trigger] ss[i]).name() != n || (
        find_named(ss, n) matches Some(j) && 0 <= j < ss.len() && ss[j].name() == n) by {
            assert(ss.skip(1)[i - 1] == ss[i]);
        }
    }
}

/// If everything before `i` misses and `i` hits (or the list is spent),
/// the search result is pinned.
pub proof fn lemma_find_named_at(ss: Seq<SymView>, n: Seq<char>, i: int)
    requires
        0 <= i <= ss.len(),
        forall|k: int| 0 <= k < i ==> (#[trigger] ss[k]).name() != n,
        i < ss.len() ==> ss[i].name() == n,
    ensures
        i < ss.len() ==> find_named(ss, n) == Some(i),
        i == ss.len() ==> find_named(ss, n) is None,
    decreases i,
{
    if i == 0 {
        if ss.len() == 0 {
        }
    } else {
        assert(ss[0].name() != n);
        lemma_find_named_at(ss.skip(1), n, i - 1);
        assert(forall|k: int| 0 <= k < i - 1 ==> ss.skip(1)[k] == ss[k + 1]);
        assert(i - 1 < ss.skip(1).len() ==> ss.skip(1)[i - 1] == ss[i]);
    }
}

/// Members of an old class that do not survive into the new class: those
/// whose name is gone, and those whose name now denotes a different
/// variant or path.
pub open spec fn removed_members(oldm: Seq<SymView>, newm: Seq<SymView>) -> Seq<SymView>
    decreases oldm.len(),
{
    if oldm.len() == 0 {
        Seq::empty()
    } else {
        let prefix = removed_members(oldm.drop_last(), newm);
        let o = oldm.last();
        match find_named(newm, o.name()) {
            None => prefix.push(o),
            Some(j) => if o.matching(newm[j]) {
                prefix
            } else {
                prefix.push(o)
            },
        }
    }
}

/// Members of the new class that were not in the old one.
pub open spec fn added_members(oldm: Seq<SymView>, newm: Seq<SymView>) -> Seq<SymView>
    decreases newm.len(),
{
    if newm.len() == 0 {
        Seq::empty()
    } else {
        let prefix = added_members(oldm, newm.drop_last());
        let n = newm.last();
        match find_named(oldm, n.name()) {
            None => prefix.push(n),
            Some(j) => if oldm[j].matching(n) {
                prefix
            } else {
                prefix.push(n)
            },
        }
    }
}

/// Top-level symbols removed between two files: old symbols whose name is
/// gone or reused for a different shape, plus, for classes that stay, the
/// members removed inside them.
pub open spec fn removed_symbols(old: Seq<SymView>, new: Seq<SymView>) -> Seq<SymView>
    decreases old.len(),
{
    if old.len() == 0 {
        Seq::empty()
    } else {
        let prefix = removed_symbols(old.drop_last(), new);
        let o = old.last();
        match find_named(new, o.name()) {
            None => prefix.push(o),
            Some(j) => if o.matching(new[j]) {
                if o is Class && new[j] is Class {
                    prefix + removed_members(o->Class_0.members, new[j]->Class_0.members)
                } else {
                    prefix
                }
            } else {
                prefix.push(o)
            },
        }
    }
}

/// Top-level symbols added between two files, with the members added
/// inside classes that stay.
pub open spec fn added_symbols(old: Seq<SymView>, new: Seq<SymView>) -> Seq<SymView>
    decreases new.len(),
{
    if new.len() == 0 {
        Seq::empty()
    } else {
        let prefix = added_symbols(old, new.drop_last());
        let n = new.last();
        match find_named(old, n.name()) {
            None => prefix.push(n),
            Some(j) => if old[j].matching(n) {
                if old[j] is Class && n is Class {
                    prefix + added_members(old[j]->Class_0.members, n->Class_0.members)
                } else {
                    prefix
                }
            } else {
                prefix.push(n)
            },
        }
    }
}

/// The difference between two symbol lists.
pub struct SymbolsDiff {
    pub added_symbols: Vec<IndexSymbol>,
    pub removed_symbols: Vec<IndexSymbol>,
}

impl SymbolsDiff {
    /// Diff two optional index files; an absent side counts as empty, so
    /// the same operation serves file creation and deletion.
    pub fn diff_index_files(
        old_index_file: Option<&IndexFile>,
        new_index_file: Option<&IndexFile>,
    ) -> (r: SymbolsDiff)
        requires
            old_index_file matches Some(f) ==> f.wf(),
            new_index_file matches Some(f) ==> f.wf(),
        ensures
            syms_view(r.removed_symbols@) == removed_symbols(
                match old_index_file {
                    Some(f) => syms_view(f.symbols@),
                    None => Seq::empty(),
                },
                match new_index_file {
                    Some(f) => syms_view(f.symbols@),
                    None => Seq::empty(),
                },
            ),
            syms_view(r.added_symbols@) == added_symbols(
                match old_index_file {
                    Some(f) => syms_view(f.symbols@),
                    None => Seq::empty(),
                },
                match new_index_file {
                    Some(f) => syms_view(f.symbols@),
                    None => Seq::empty(),
                },
            ),
            forall|i: int|
                0 <= i < r.removed_symbols@.len() ==> (#[trigger] sym_view(
                    r.removed_symbols@[i],
                )).wf(),
            forall|i: int|
                0 <= i < r.added_symbols@.len() ==> (#[trigger] sym_view(r.added_symbols@[i])).wf(),
    {
        let empty_old: Vec<IndexSymbol> = Vec::new();
        let empty_new: Vec<IndexSymbol> = Vec::new();
        let r = match (old_index_file, new_index_file) {
            (Some(old_file), Some(new_file)) => diff_symbols(&old_file.symbols, &new_file.symbols),
            (Some(old_file), None) => diff_symbols(&old_file.symbols, &empty_new),
            (None, Some(new_file)) => diff_symbols(&empty_old, &new_file.symbols),
            (None, None) => diff_symbols(&empty_old, &empty_new),
        };
        r
    }
}

/// The first symbol whose unqualified name equals `name`'s view.
fn find_symbol_named(symbols: &Vec<IndexSymbol>, name: &SymbolName) -> (r: Option<usize>)
    requires
        forall|i: int| 0 <= i < symbols@.len() ==> (#[trigger] sym_view(symbols@[i])).wf(),
    ensures
        match r {
            Some(i) => Some(i as int) == find_named(syms_view(symbols@), name@),
            None => find_named(syms_view(symbols@), name@) is None,
        },
{
    let ghost sv = syms_view(symbols@);
    proof {
        lemma_syms_view_len(symbols@);
    }
    let mut i: usize = 0;
    while i < symbols.len()
        invariant
            i <= symbols@.len(),
            sv == syms_view(symbols@),
            sv.len() == symbols@.len(),
            forall|k: int| 0 <= k < symbols@.len() ==> (#[trigger] sym_view(symbols@[k])).wf(),
            forall|k: int| 0 <= k < i ==> (#[trigger] sv[k]).name() != name@,
        decreases symbols@.len() - i,
    {
        proof {
            lemma_syms_view_index(symbols@, i as int);
        }
        let n = symbols[i].name();
        if n == name {
            proof {
                lemma_find_named_at(sv, name@, i as int);
            }
            return Some(i);
        }
        i += 1;
    }
    proof {
        lemma_find_named_at(sv, name@, sv.len() as int);
    }
    None
}

/// Clone a symbol onto the end of a list.
fn push_clone(dst: &mut Vec<IndexSymbol>, s: &IndexSymbol)
    ensures
        syms_view(final(dst)@) == syms_view(old(dst)@).push(sym_view(*s)),
        final(dst)@.len() == old(dst)@.len() + 1,
        forall|i: int|
            0 <= i < final(dst)@.len() ==> #[trigger] sym_view(final(dst)@[i]) == (if i < old(
                dst,
            )@.len() {
                sym_view(old(dst)@[i])
            } else {
                sym_view(*s)
            }),
{
    let ghost prev = dst@;
    let c = s.clone();
    let ghost gc = c;
    dst.push(c);
    proof {
        lemma_syms_view_push(prev, gc);
        lemma_syms_view_len(prev);
        lemma_syms_view_len(dst@);
        assert forall|i: int| 0 <= i < dst@.len() implies #[trigger] sym_view(dst@[i]) == (if i
            < prev.len() {
            sym_view(prev[i])
        } else {
            sym_view(*s)
        }) by {
            lemma_syms_view_index(dst@, i);
            if i < prev.len() {
                lemma_syms_view_index(prev, i);
            }
        }
    }
}

/// Diff two symbol lists.  Symbols are compared by unqualified name, then
/// by shallow matching; classes present on both sides are compared member
/// by member.
pub fn diff_symbols(old_symbols: &Vec<IndexSymbol>, new_symbols: &Vec<IndexSymbol>) -> (r:
    SymbolsDiff)
    requires
        forall|i: int| 0 <= i < old_symbols@.len() ==> (#[trigger] sym_view(old_symbols@[i])).wf(),
        forall|i: int| 0 <= i < new_symbols@.len() ==> (#[trigger] sym_view(new_symbols@[i])).wf(),
    ensures
        syms_view(r.removed_symbols@) == removed_symbols(
            syms_view(old_symbols@),
            syms_view(new_symbols@),
        ),
        syms_view(r.added_symbols@) == added_symbols(
            syms_view(old_symbols@),
            syms_view(new_symbols@),
        ),
        forall|i: int|
            0 <= i < r.removed_symbols@.len() ==> (#[trigger] sym_view(r.removed_symbols@[i])).wf(),
        forall|i: int|
            0 <= i < r.added_symbols@.len() ==> (#[trigger] sym_view(r.added_symbols@[i])).wf(),
{
    let ghost oldv = syms_view(old_symbols@);
    let ghost newv = syms_view(new_symbols@);
    proof {
        lemma_syms_view_len(old_symbols@);
        lemma_syms_view_len(new_symbols@);
    }
    let mut removed: Vec<IndexSymbol> = Vec::new();
    let mut added: Vec<IndexSymbol> = Vec::new();

    let mut i: usize = 0;
    proof {
        assert(oldv.take(0) =~= Seq::<SymView>::empty());
        assert(removed_symbols(oldv.take(0), newv) =~= Seq::<SymView>::empty());
        assert(syms_view(removed@) =~= removed_symbols(oldv.take(0), newv));
    }
    while i < old_symbols.len()
        invariant
            i <= old_symbols@.len(),
            oldv == syms_view(old_symbols@),
            newv == syms_view(new_symbols@),
            oldv.len() == old_symbols@.len(),
            newv.len() == new_symbols@.len(),
            forall|k: int|
                0 <= k < old_symbols@.len() ==> (#[trigger] sym_view(old_symbols@[k])).wf(),
            forall|k: int|
                0 <= k < new_symbols@.len() ==> (#[trigger] sym_view(new_symbols@[k])).wf(),
            syms_view(removed@) == removed_symbols(oldv.take(i as int), newv),
            forall|t: int| 0 <= t < removed@.len() ==> (#[trigger] sym_view(removed@[t])).wf(),
            added@.len() == 0,
        decreases old_symbols@.len() - i,
    {
        proof {
            lemma_syms_view_index(old_symbols@, i as int);
            assert(oldv.take(i as int + 1).drop_last() =~= oldv.take(i as int));
            assert(oldv.take(i as int + 1).last() == oldv[i as int]);
        }
        let o = &old_symbols[i];
        let oname = o.name();
        match find_symbol_named(new_symbols, oname) {
            None => {
                push_clone(&mut removed, o);
                proof {
                    assert(syms_view(removed@) == removed_symbols(oldv.take(i as int + 1), newv));
                }
            },
            Some(j) => {
                proof {
                    lemma_find_named(newv, oname@);
                    lemma_syms_view_index(new_symbols@, j as int);
                }
                let n = &new_symbols[j];
                if o.is_matching(n) {
                    match (o, n) {
                        (IndexSymbol::Class(old_class), IndexSymbol::Class(new_class)) => {
                            let ghost omv = syms_view(old_class.members@);
                            let ghost nmv = syms_view(new_class.members@);
                            proof {
                                lemma_syms_view_len(old_class.members@);
                                lemma_syms_view_len(new_class.members@);
                                assert(*o == IndexSymbol::Class(*old_class));
                                assert(*n == IndexSymbol::Class(*new_class));
                                assert(oldv[i as int]->Class_0.members == omv);
                                assert(newv[j as int]->Class_0.members == nmv);
                                assert forall|t: int| 0 <= t < old_class.members@.len() implies (
                                #[trigger] sym_view(old_class.members@[t])).wf() by {
                                    lemma_syms_view_index(old_class.members@, t);
                                    assert(omv[t].member_wf(oldv[i as int]->Class_0.name));
                                }
                                assert forall|t: int| 0 <= t < new_class.members@.len() implies (
                                #[trigger] sym_view(new_class.members@[t])).wf() by {
                                    lemma_syms_view_index(new_class.members@, t);
                                    assert(nmv[t].member_wf(newv[j as int]->Class_0.name));
                                }
                                assert(omv.take(0) =~= Seq::<SymView>::empty());
                                assert(removed_members(omv.take(0), nmv)
                                    =~= Seq::<SymView>::empty());
                                assert(syms_view(removed@) + removed_members(omv.take(0), nmv)
                                    =~= syms_view(removed@));
                            }
                            let mut k: usize = 0;
                            while k < old_class.members.len()
                                invariant
                                    k <= old_class.members@.len(),
                                    omv == syms_view(old_class.members@),
                                    nmv == syms_view(new_class.members@),
                                    omv.len() == old_class.members@.len(),
                                    nmv.len() == new_class.members@.len(),
                                    oldv == syms_view(old_symbols@),
                                    newv == syms_view(new_symbols@),
                                    forall|t: int|
                                        0 <= t < old_class.members@.len() ==> (#[trigger] sym_view(
                                            old_class.members@[t],
                                        )).wf(),
                                    forall|t: int|
                                        0 <= t < new_class.members@.len() ==> (#[trigger] sym_view(
                                            new_class.members@[t],
                                        )).wf(),
                                    syms_view(removed@) == removed_symbols(oldv.take(i as int), newv)
                                        + removed_members(omv.take(k as int), nmv),
                                    forall|t: int|
                                        0 <= t < removed@.len() ==> (#[trigger] sym_view(
                                            removed@[t],
                                        )).wf(),
                                decreases old_class.members@.len() - k,
                            {
                                proof {
                                    lemma_syms_view_index(old_class.members@, k as int);
                                    assert(omv.take(k as int + 1).drop_last() =~= omv.take(
                                        k as int,
                                    ));
                                    assert(omv.take(k as int + 1).last() == omv[k as int]);
                                }
                                let m = &old_class.members[k];
                                let mname = m.name();
                                match find_symbol_named(&new_class.members, mname) {
                                    None => {
                                        push_clone(&mut removed, m);
                                        proof {
                                            assert(removed_members(omv.take(k as int + 1), nmv)
                                                == removed_members(omv.take(k as int), nmv).push(
                                                omv[k as int],
                                            ));
                                            assert(removed_symbols(oldv.take(i as int), newv)
                                                + removed_members(omv.take(k as int), nmv).push(
                                                omv[k as int],
                                            ) =~= (removed_symbols(oldv.take(i as int), newv)
                                                + removed_members(omv.take(k as int), nmv)).push(
                                                omv[k as int],
                                            ));
                                        }
                                    },
                                    Some(t) => {
                                        proof {
                                            lemma_find_named(nmv, sym_view(
                                                old_class.members@[k as int],
                                            ).name());
                                            lemma_syms_view_index(new_class.members@, t as int);
                                        }
                                        let nm = &new_class.members[t];
                                        if m.is_matching(nm) {
                                            proof {
                                                assert(removed_members(omv.take(k as int + 1), nmv)
                                                    == removed_members(omv.take(k as int), nmv));
                                            }
                                        } else {
                                            push_clone(&mut removed, m);
                                            proof {
                                                assert(removed_members(omv.take(k as int + 1), nmv)
                                                    == removed_members(omv.take(k as int), nmv)
                                                    .push(omv[k as int]));
                                                assert(removed_symbols(oldv.take(i as int), newv)
                                                    + removed_members(omv.take(k as int), nmv)
                                                    .push(omv[k as int]) =~= (removed_symbols(
                                                    oldv.take(i as int),
                                                    newv,
                                                ) + removed_members(omv.take(k as int), nmv)).push(
                                                    omv[k as int],
                                                ));
                                            }
                                        }
                                    },
                                }
                                k += 1;
                            }
                            proof {
                                assert(omv.take(omv.len() as int) =~= omv);
                                assert(syms_view(removed@) == removed_symbols(
                                    oldv.take(i as int + 1),
                                    newv,
                                ));
                            }
                        },
                        _ => {
                            proof {
                                assert(syms_view(removed@) == removed_symbols(
                                    oldv.take(i as int + 1),
                                    newv,
                                ));
                            }
                        },
                    }
                } else {
                    push_clone(&mut removed, o);
                    proof {
                        assert(syms_view(removed@) == removed_symbols(
                            oldv.take(i as int + 1),
                            newv,
                        ));
                    }
                }
            },
        }
        i += 1;
    }
    proof {
        assert(oldv.take(oldv.len() as int) =~= oldv);
    }

    let mut i2: usize = 0;
    proof {
        assert(newv.take(0) =~= Seq::<SymView>::empty());
        assert(added_symbols(oldv, newv.take(0)) =~= Seq::<SymView>::empty());
        assert(syms_view(added@) =~= added_symbols(oldv, newv.take(0)));
    }
    while i2 < new_symbols.len()
        invariant
            i2 <= new_symbols@.len(),
            oldv == syms_view(old_symbols@),
            newv == syms_view(new_symbols@),
            oldv.len() == old_symbols@.len(),
            newv.len() == new_symbols@.len(),
            forall|k: int|
                0 <= k < old_symbols@.len() ==> (#[trigger] sym_view(old_symbols@[k])).wf(),
            forall|k: int|
                0 <= k < new_symbols@.len() ==> (#[trigger] sym_view(new_symbols@[k])).wf(),
            syms_view(removed@) == removed_symbols(oldv, newv),
            syms_view(added@) == added_symbols(oldv, newv.take(i2 as int)),
            forall|t: int| 0 <= t < removed@.len() ==> (#[trigger] sym_view(removed@[t])).wf(),
            forall|t: int| 0 <= t < added@.len() ==> (#[trigger] sym_view(added@[t])).wf(),
        decreases new_symbols@.len() - i2,
    {
        proof {
            lemma_syms_view_index(new_symbols@, i2 as int);
            assert(newv.take(i2 as int + 1).drop_last() =~= newv.take(i2 as int));
            assert(newv.take(i2 as int + 1).last() == newv[i2 as int]);
        }
        let n = &new_symbols[i2];
        let nname = n.name();
        match find_symbol_named(old_symbols, nname) {
            None => {
                push_clone(&mut added, n);
                proof {
                    assert(syms_view(added@) == added_symbols(oldv, newv.take(i2 as int + 1)));
                }
            },
            Some(j) => {
                proof {
                    lemma_find_named(oldv, nname@);
                    lemma_syms_view_index(old_symbols@, j as int);
                }
                let o = &old_symbols[j];
                if o.is_matching(n) {
                    match (o, n) {
                        (IndexSymbol::Class(old_class), IndexSymbol::Class(new_class)) => {
                            let ghost omv = syms_view(old_class.members@);
                            let ghost nmv = syms_view(new_class.members@);
                            proof {
                                lemma_syms_view_len(old_class.members@);
                                lemma_syms_view_len(new_class.members@);
                                assert(*o == IndexSymbol::Class(*old_class));
                                assert(*n == IndexSymbol::Class(*new_class));
                                assert(oldv[j as int]->Class_0.members == omv);
                                assert(newv[i2 as int]->Class_0.members == nmv);
                                assert forall|t: int| 0 <= t < old_class.members@.len() implies (
                                #[trigger] sym_view(old_class.members@[t])).wf() by {
                                    lemma_syms_view_index(old_class.members@, t);
                                    assert(omv[t].member_wf(oldv[j as int]->Class_0.name));
                                }
                                assert forall|t: int| 0 <= t < new_class.members@.len() implies (
                                #[trigger] sym_view(new_class.members@[t])).wf() by {
                                    lemma_syms_view_index(new_class.members@, t);
                                    assert(nmv[t].member_wf(newv[i2 as int]->Class_0.name));
                                }
                                assert(nmv.take(0) =~= Seq::<SymView>::empty());
                                assert(added_members(omv, nmv.take(0)) =~= Seq::<SymView>::empty());
                                assert(syms_view(added@) + added_members(omv, nmv.take(0))
                                    =~= syms_view(added@));
                            }
                            let mut k: usize = 0;
                            while k < new_class.members.len()
                                invariant
                                    k <= new_class.members@.len(),
                                    omv == syms_view(old_class.members@),
                                    nmv == syms_view(new_class.members@),
                                    omv.len() == old_class.members@.len(),
                                    nmv.len() == new_class.members@.len(),
                                    oldv == syms_view(old_symbols@),
                                    newv == syms_view(new_symbols@),
                                    forall|t: int|
                                        0 <= t < old_class.members@.len() ==> (#[trigger] sym_view(
                                            old_class.members@[t],
                                        )).wf(),
                                    forall|t: int|
                                        0 <= t < new_class.members@.len() ==> (#[trigger] sym_view(
                                            new_class.members@[t],
                                        )).wf(),
                                    syms_view(added@) == added_symbols(oldv, newv.take(i2 as int))
                                        + added_members(omv, nmv.take(k as int)),
                                    forall|t: int|
                                        0 <= t < added@.len() ==> (#[trigger] sym_view(
                                            added@[t],
                                        )).wf(),
                                decreases new_class.members@.len() - k,
                            {
                                proof {
                                    lemma_syms_view_index(new_class.members@, k as int);
                                    assert(nmv.take(k as int + 1).drop_last() =~= nmv.take(
                                        k as int,
                                    ));
                                    assert(nmv.take(k as int + 1).last() == nmv[k as int]);
                                }
                                let m = &new_class.members[k];
                                let mname = m.name();
                                match find_symbol_named(&old_class.members, mname) {
                                    None => {
                                        push_clone(&mut added, m);
                                        proof {
                                            assert(added_members(omv, nmv.take(k as int + 1))
                                                == added_members(omv, nmv.take(k as int)).push(
                                                nmv[k as int],
                                            ));
                                            assert(added_symbols(oldv, newv.take(i2 as int))
                                                + added_members(omv, nmv.take(k as int)).push(
                                                nmv[k as int],
                                            ) =~= (added_symbols(oldv, newv.take(i2 as int))
                                                + added_members(omv, nmv.take(k as int))).push(
                                                nmv[k as int],
                                            ));
                                        }
                                    },
                                    Some(t) => {
                                        proof {
                                            lemma_find_named(omv, sym_view(
                                                new_class.members@[k as int],
                                            ).name());
                                            lemma_syms_view_index(old_class.members@, t as int);
                                        }
                                        let om = &old_class.members[t];
                                        if om.is_matching(m) {
                                            proof {
                                                assert(added_members(omv, nmv.take(k as int + 1))
                                                    == added_members(omv, nmv.take(k as int)));
                                            }
                                        } else {
                                            push_clone(&mut added, m);
                                            proof {
                                                assert(added_members(omv, nmv.take(k as int + 1))
                                                    == added_members(omv, nmv.take(k as int)).push(
                                                    nmv[k as int],
                                                ));
                                                assert(added_symbols(oldv, newv.take(i2 as int))
                                                    + added_members(omv, nmv.take(k as int)).push(
                                                    nmv[k as int],
                                                ) =~= (added_symbols(oldv, newv.take(i2 as int))
                                                    + added_members(omv, nmv.take(k as int))).push(
                                                    nmv[k as int],
                                                ));
                                            }
                                        }
                                    },
                                }
                                k += 1;
                            }
                            proof {
                                assert(nmv.take(nmv.len() as int) =~= nmv);
                                assert(syms_view(added@) == added_symbols(
                                    oldv,
                                    newv.take(i2 as int + 1),
                                ));
                            }
                        },
                        _ => {
                            proof {
                                assert(syms_view(added@) == added_symbols(
                                    oldv,
                                    newv.take(i2 as int + 1),
                                ));
                            }
                        },
                    }
                } else {
                    push_clone(&mut added, n);
                    proof {
                        assert(syms_view(added@) == added_symbols(oldv, newv.take(i2 as int + 1)));
                    }
                }
            },
        }
        i2 += 1;
    }
    proof {
        assert(newv.take(newv.len() as int) =~= newv);
    }

    SymbolsDiff { added_symbols: added, removed_symbols: removed }
}

} // verus!
