//! Laws of the diff engine, proved once and for all against the same
//! specification its contract speaks of.

use vstd::prelude::*;

use crate::diff::diff_at;
use crate::diff::name_lt;
use crate::diff::pjoin;
use crate::diff::side_changes;
use crate::diff::pair_changes;
use crate::diff::ChangeV;
use crate::diff::DiffRes;
use crate::tree::EntryMode;
use crate::tree::EntryV;

verus! {

/// The path a change reports.
pub open spec fn change_path(c: ChangeV) -> Seq<u8> {
    match c {
        ChangeV::Addition { path, .. } => path,
        ChangeV::Deletion { path, .. } => path,
        ChangeV::Modification { path, .. } => path,
    }
}

/// Whether `s` begins with `p`.
pub open spec fn starts_with(s: Seq<u8>, p: Seq<u8>) -> bool {
    s.len() >= p.len() && s.take(p.len() as int) == p
}

/// Every change of a completed one-sided addition walk is an addition.
proof fn lemma_side_add_only(
    prefix: Seq<u8>,
    e: EntryV,
    trees: Map<Seq<u8>, Seq<EntryV>>,
    fuel: nat,
    cs: Seq<ChangeV>,
)
    requires
        side_changes(prefix, e, trees, fuel, false) == DiffRes::Done(cs),
    ensures
        forall|i: int| 0 <= i < cs.len() ==> cs[i] is Addition,
    decreases fuel, 0nat,
{
    if e.mode is Tree {
        let path = pjoin(prefix, e.name);
        let sub = diff_at(path, Seq::empty(), trees[e.oid], trees, (fuel - 1) as nat);
        match sub {
            DiffRes::Done(t) => {
                lemma_additions_from_empty(path, trees[e.oid], trees, (fuel - 1) as nat, t);
            },
            _ => {},
        }
    }
}

/// Diffing a snapshot against the empty tree yields one addition per entry
/// transitively contained — additions only, never a deletion or a
/// modification.
pub proof fn lemma_additions_from_empty(
    prefix: Seq<u8>,
    new: Seq<EntryV>,
    trees: Map<Seq<u8>, Seq<EntryV>>,
    fuel: nat,
    cs: Seq<ChangeV>,
)
    requires
        diff_at(prefix, Seq::empty(), new, trees, fuel) == DiffRes::Done(cs),
    ensures
        forall|i: int| 0 <= i < cs.len() ==> cs[i] is Addition,
    decreases fuel, new.len() + 1,
{
    if new.len() != 0 {
        let head = side_changes(prefix, new[0], trees, fuel, false);
        let rest = diff_at(prefix, Seq::empty(), new.drop_first(), trees, fuel);
        match head {
            DiffRes::Done(h) => {
                lemma_side_add_only(prefix, new[0], trees, fuel, h);
                match rest {
                    DiffRes::Done(t) => {
                        lemma_additions_from_empty(
                            prefix,
                            new.drop_first(),
                            trees,
                            fuel,
                            t,
                        );
                        assert(cs == h + t);
                    },
                    _ => {},
                }
            },
            _ => {},
        }
    }
}


/// The lexicographic order is transitive.
pub proof fn lemma_name_lt_trans(a: Seq<u8>, b: Seq<u8>, c: Seq<u8>)
    requires
        name_lt(a, b),
        name_lt(b, c),
    ensures
        name_lt(a, c),
    decreases a.len(),
{
    if a.len() != 0 && b.len() != 0 && c.len() != 0 {
        if a[0] == b[0] && b[0] == c[0] {
            lemma_name_lt_trans(a.drop_first(), b.drop_first(), c.drop_first());
        }
    }
}

/// A name is nonempty and free of slashes: a single path component.
pub open spec fn clean_name(n: Seq<u8>) -> bool {
    n.len() > 0 && forall|i: int| 0 <= i < n.len() ==> #[trigger] n[i] != 47
}

/// Every entry of `es` carries a clean name.
pub open spec fn names_clean(es: Seq<EntryV>) -> bool {
    forall|i: int| 0 <= i < es.len() ==> clean_name((#[trigger] es[i]).name)
}

/// Entries stand in strictly ascending name order.
pub open spec fn sorted_strict(es: Seq<EntryV>) -> bool {
    forall|i: int, j: int|
        0 <= i < j < es.len() ==> name_lt((#[trigger] es[i]).name, (#[trigger] es[j]).name)
}

/// Every entry of `es` carries a nonempty name.
pub open spec fn nonempty_names(es: Seq<EntryV>) -> bool {
    forall|i: int| 0 <= i < es.len() ==> (#[trigger] es[i]).name.len() > 0
}

/// Some entry of `es` carries the name `n`.
pub open spec fn name_in(es: Seq<EntryV>, n: Seq<u8>) -> bool {
    exists|i: int| 0 <= i < es.len() && (#[trigger] es[i]).name == n
}

/// Some entry of `es` is the subtree `(n, tree, h)`.
pub open spec fn entry_in(es: Seq<EntryV>, n: Seq<u8>, h: Seq<u8>) -> bool {
    exists|i: int|
        0 <= i < es.len() && (#[trigger] es[i]).name == n && es[i].mode is Tree && es[i].oid
            == h
}

/// Whether a change path lies at or below the entry `n` under `prefix`.
pub open spec fn under(path: Seq<u8>, prefix: Seq<u8>, n: Seq<u8>) -> bool {
    path == pjoin(prefix, n) || starts_with(path, pjoin(prefix, n) + seq![47u8])
}


/// The byte run every path under `prefix` begins with.
pub open spec fn pref_of(prefix: Seq<u8>) -> Seq<u8> {
    if prefix.len() == 0 {
        Seq::empty()
    } else {
        prefix + seq![47u8]
    }
}

/// Dropping the head keeps names nonempty.
proof fn lemma_nonempty_drop(es: Seq<EntryV>)
    requires
        nonempty_names(es),
        es.len() > 0,
    ensures
        nonempty_names(es.drop_first()),
{
    assert forall|i: int| 0 <= i < es.drop_first().len() implies (
    #[trigger] es.drop_first()[i]).name.len() > 0 by {
        assert(es.drop_first()[i] == es[i + 1]);
    }
}

/// A joined path under a nonempty prefix or with a nonempty name is
/// nonempty.
proof fn proof_path_nonempty(prefix: Seq<u8>, name: Seq<u8>)
    requires
        prefix.len() > 0 || name.len() > 0,
    ensures
        pjoin(prefix, name).len() > 0,
{
}

/// A path at or below an entry begins with the prefix's byte run.
proof fn lemma_under_prefixed(q: Seq<u8>, prefix: Seq<u8>, n: Seq<u8>)
    requires
        under(q, prefix, n),
    ensures
        starts_with(q, pref_of(prefix)),
{
    let b = pjoin(prefix, n);
    let p = pref_of(prefix);
    assert(b.len() >= p.len());
    assert forall|j: int| 0 <= j < p.len() implies b[j] == p[j] by {}
    if q == b {
        assert(q.take(p.len() as int) =~= p);
    } else {
        assert(starts_with(q, b + seq![47u8]));
        assert forall|j: int| 0 <= j < p.len() implies q[j] == p[j] by {
            assert(q[j] == (b + seq![47u8])[j]);
        }
        assert(q.take(p.len() as int) =~= p);
    }
}

/// Every change of a completed one-sided walk lies at or below its entry.
proof fn lemma_side_scoped(
    prefix: Seq<u8>,
    e: EntryV,
    trees: Map<Seq<u8>, Seq<EntryV>>,
    fuel: nat,
    deleting: bool,
    cs: Seq<ChangeV>,
)
    requires
        side_changes(prefix, e, trees, fuel, deleting) == DiffRes::Done(cs),
        prefix.len() > 0 || e.name.len() > 0,
    ensures
        forall|i: int| 0 <= i < cs.len() ==> under(change_path(#[trigger] cs[i]), prefix, e.name),
    decreases fuel, 0nat,
{
    let path = pjoin(prefix, e.name);
    proof_path_nonempty(prefix, e.name);
    if e.mode is Tree {
        let sub = if deleting {
            diff_at(path, trees[e.oid], Seq::empty(), trees, (fuel - 1) as nat)
        } else {
            diff_at(path, Seq::empty(), trees[e.oid], trees, (fuel - 1) as nat)
        };
        match sub {
            DiffRes::Done(t) => {
                if deleting {
                    lemma_diff_prefixed(
                        path,
                        trees[e.oid],
                        Seq::empty(),
                        trees,
                        (fuel - 1) as nat,
                        t,
                    );
                } else {
                    lemma_diff_prefixed(
                        path,
                        Seq::empty(),
                        trees[e.oid],
                        trees,
                        (fuel - 1) as nat,
                        t,
                    );
                }
                assert forall|i: int| 0 <= i < cs.len() implies under(
                    change_path(#[trigger] cs[i]),
                    prefix,
                    e.name,
                ) by {
                    if i > 0 {
                        assert(cs[i] == t[i - 1]);
                        assert(starts_with(change_path(t[i - 1]), pref_of(path)));
                        assert(pref_of(path) =~= path + seq![47u8]);
                    }
                }
            },
            _ => {},
        }
    }
}

/// Every change of a completed pair step lies at or below the shared name.
proof fn lemma_pair_scoped(
    prefix: Seq<u8>,
    p: EntryV,
    n: EntryV,
    trees: Map<Seq<u8>, Seq<EntryV>>,
    fuel: nat,
    cs: Seq<ChangeV>,
)
    requires
        pair_changes(prefix, p, n, trees, fuel) == DiffRes::Done(cs),
        p.name == n.name,
        prefix.len() > 0 || n.name.len() > 0,
    ensures
        forall|i: int| 0 <= i < cs.len() ==> under(change_path(#[trigger] cs[i]), prefix, n.name),
    decreases fuel, 1nat,
{
    let path = pjoin(prefix, n.name);
    proof_path_nonempty(prefix, n.name);
    if p.mode == n.mode && p.oid == n.oid {
    } else if (p.mode is Tree) != (n.mode is Tree) {
        let side = side_changes(prefix, n, trees, fuel, false);
        match side {
            DiffRes::Done(t) => {
                lemma_side_scoped(prefix, n, trees, fuel, false, t);
                assert forall|i: int| 0 <= i < cs.len() implies under(
                    change_path(#[trigger] cs[i]),
                    prefix,
                    n.name,
                ) by {
                    if i > 0 {
                        assert(cs[i] == t[i - 1]);
                    }
                }
            },
            _ => {},
        }
    } else if p.mode is Tree {
        let sub = diff_at(path, trees[p.oid], trees[n.oid], trees, (fuel - 1) as nat);
        match sub {
            DiffRes::Done(t) => {
                lemma_diff_prefixed(
                    path,
                    trees[p.oid],
                    trees[n.oid],
                    trees,
                    (fuel - 1) as nat,
                    t,
                );
                assert forall|i: int| 0 <= i < cs.len() implies under(
                    change_path(#[trigger] cs[i]),
                    prefix,
                    n.name,
                ) by {
                    if i > 0 {
                        assert(cs[i] == t[i - 1]);
                        assert(starts_with(change_path(t[i - 1]), pref_of(path)));
                        assert(pref_of(path) =~= path + seq![47u8]);
                    }
                }
            },
            _ => {},
        }
    }
}

/// Every change of a completed merge begins with the prefix's byte run.
proof fn lemma_diff_prefixed(
    prefix: Seq<u8>,
    prev: Seq<EntryV>,
    new: Seq<EntryV>,
    trees: Map<Seq<u8>, Seq<EntryV>>,
    fuel: nat,
    cs: Seq<ChangeV>,
)
    requires
        diff_at(prefix, prev, new, trees, fuel) == DiffRes::Done(cs),
        prefix.len() > 0,
    ensures
        forall|i: int| 0 <= i < cs.len() ==> starts_with(
            change_path(#[trigger] cs[i]),
            pref_of(prefix),
        ),
    decreases fuel, prev.len() + new.len(), 2nat,
{
    if prev.len() == 0 && new.len() == 0 {
    } else if new.len() == 0 || (prev.len() != 0 && name_lt(prev[0].name, new[0].name)) {
        let head = side_changes(prefix, prev[0], trees, fuel, true);
        let rest = diff_at(prefix, prev.drop_first(), new, trees, fuel);
        match (head, rest) {
            (DiffRes::Done(h), DiffRes::Done(t)) => {
                lemma_side_scoped(prefix, prev[0], trees, fuel, true, h);
                lemma_diff_prefixed(prefix, prev.drop_first(), new, trees, fuel, t);
                assert forall|i: int| 0 <= i < cs.len() implies starts_with(
                    change_path(#[trigger] cs[i]),
                    pref_of(prefix),
                ) by {
                    assert(cs == h + t);
                    if i < h.len() {
                        lemma_under_prefixed(change_path(cs[i]), prefix, prev[0].name);
                    } else {
                        assert(cs[i] == t[i - h.len()]);
                    }
                }
            },
            _ => {},
        }
    } else if prev.len() == 0 || name_lt(new[0].name, prev[0].name) {
        let head = side_changes(prefix, new[0], trees, fuel, false);
        let rest = diff_at(prefix, prev, new.drop_first(), trees, fuel);
        match (head, rest) {
            (DiffRes::Done(h), DiffRes::Done(t)) => {
                lemma_side_scoped(prefix, new[0], trees, fuel, false, h);
                lemma_diff_prefixed(prefix, prev, new.drop_first(), trees, fuel, t);
                assert forall|i: int| 0 <= i < cs.len() implies starts_with(
                    change_path(#[trigger] cs[i]),
                    pref_of(prefix),
                ) by {
                    assert(cs == h + t);
                    if i < h.len() {
                        lemma_under_prefixed(change_path(cs[i]), prefix, new[0].name);
                    } else {
                        assert(cs[i] == t[i - h.len()]);
                    }
                }
            },
            _ => {},
        }
    } else {
        let head = pair_changes(prefix, prev[0], new[0], trees, fuel);
        let rest = diff_at(prefix, prev.drop_first(), new.drop_first(), trees, fuel);
        match (head, rest) {
            (DiffRes::Done(h), DiffRes::Done(t)) => {
                crate::diff::lemma_name_lt_trichotomy(prev[0].name, new[0].name);
                lemma_pair_scoped(prefix, prev[0], new[0], trees, fuel, h);
                lemma_diff_prefixed(
                    prefix,
                    prev.drop_first(),
                    new.drop_first(),
                    trees,
                    fuel,
                    t,
                );
                assert forall|i: int| 0 <= i < cs.len() implies starts_with(
                    change_path(#[trigger] cs[i]),
                    pref_of(prefix),
                ) by {
                    assert(cs == h + t);
                    if i < h.len() {
                        lemma_under_prefixed(change_path(cs[i]), prefix, new[0].name);
                    } else {
                        assert(cs[i] == t[i - h.len()]);
                    }
                }
            },
            _ => {},
        }
    }
}

/// A path at or below one clean name never lies strictly below a different
/// clean name at the same level.
proof fn lemma_not_under(prefix: Seq<u8>, n1: Seq<u8>, n2: Seq<u8>, q: Seq<u8>)
    requires
        clean_name(n1),
        clean_name(n2),
        n1 != n2,
        under(q, prefix, n1),
    ensures
        !starts_with(q, pjoin(prefix, n2) + seq![47u8]),
{
    let p = pref_of(prefix);
    let b1 = pjoin(prefix, n1);
    let b2 = pjoin(prefix, n2);
    assert(b1 =~= p + n1);
    assert(b2 =~= p + n2);
    let t2 = b2 + seq![47u8];
    if starts_with(q, t2) {
        assert forall|j: int| 0 <= j < t2.len() implies q[j] == t2[j] by {
            assert(q.take(t2.len() as int) == t2);
            assert(q.take(t2.len() as int)[j] == q[j]);
        }
        if q == b1 {
            // q = p + n1, t2 = p + n2 + '/': matching would put a slash in n1
            assert(q.len() == p.len() + n1.len());
            assert(t2.len() == p.len() + n2.len() + 1);
            assert(n1.len() >= n2.len() + 1);
            assert(q[p.len() + n2.len() as int] == n1[n2.len() as int]);
            assert(t2[p.len() + n2.len() as int] == 47);
            assert(false);
        } else {
            let t1 = b1 + seq![47u8];
            assert(starts_with(q, t1));
            assert forall|j: int| 0 <= j < t1.len() implies q[j] == t1[j] by {
                assert(q.take(t1.len() as int) == t1);
                assert(q.take(t1.len() as int)[j] == q[j]);
            }
            if n1.len() == n2.len() {
                assert forall|j: int| 0 <= j < n1.len() implies n1[j] == n2[j] by {
                    assert(q[p.len() + j] == t1[p.len() + j]);
                    assert(q[p.len() + j] == t2[p.len() + j]);
                }
                assert(n1 =~= n2);
                assert(false);
            } else if n1.len() < n2.len() {
                assert(q[p.len() + n1.len() as int] == t1[p.len() + n1.len() as int]);
                assert(t1[p.len() + n1.len() as int] == 47);
                assert(q[p.len() + n1.len() as int] == t2[p.len() + n1.len() as int]);
                assert(t2[p.len() + n1.len() as int] == n2[n1.len() as int]);
                assert(false);
            } else {
                assert(q[p.len() + n2.len() as int] == t2[p.len() + n2.len() as int]);
                assert(t2[p.len() + n2.len() as int] == 47);
                assert(q[p.len() + n2.len() as int] == t1[p.len() + n2.len() as int]);
                assert(t1[p.len() + n2.len() as int] == n1[n2.len() as int]);
                assert(false);
            }
        }
    }
}

/// A subtree entry shared by both sides — same name, same identifier — is
/// pruned whole: a completed diff of two sorted snapshots holds no change
/// below that entry's path, even where other siblings differ.
pub proof fn lemma_identity_pruning(
    prefix: Seq<u8>,
    prev: Seq<EntryV>,
    new: Seq<EntryV>,
    trees: Map<Seq<u8>, Seq<EntryV>>,
    fuel: nat,
    cs: Seq<ChangeV>,
    name: Seq<u8>,
    h: Seq<u8>,
)
    requires
        diff_at(prefix, prev, new, trees, fuel) == DiffRes::Done(cs),
        sorted_strict(prev),
        sorted_strict(new),
        names_clean(prev),
        names_clean(new),
        clean_name(name),
        entry_in(prev, name, h) == entry_in(new, name, h),
        entry_in(prev, name, h) || (!name_in(prev, name) && !name_in(new, name)),
    ensures
        forall|i: int|
            0 <= i < cs.len() ==> !starts_with(
                change_path(#[trigger] cs[i]),
                pjoin(prefix, name) + seq![47u8],
            ),
    decreases fuel, prev.len() + new.len(),
{
    if prev.len() == 0 && new.len() == 0 {
    } else if new.len() == 0 || (prev.len() != 0 && name_lt(prev[0].name, new[0].name)) {
        let head = side_changes(prefix, prev[0], trees, fuel, true);
        let rest = diff_at(prefix, prev.drop_first(), new, trees, fuel);
        match (head, rest) {
            (DiffRes::Done(hd), DiffRes::Done(t)) => {
                lemma_head_not_name_prev(prev, new, name, h);
                lemma_side_scoped(prefix, prev[0], trees, fuel, true, hd);
                lemma_tail_keeps_prev(prev, name, h);
                lemma_identity_pruning(
                    prefix,
                    prev.drop_first(),
                    new,
                    trees,
                    fuel,
                    t,
                    name,
                    h,
                );
                assert forall|i: int| 0 <= i < cs.len() implies !starts_with(
                    change_path(#[trigger] cs[i]),
                    pjoin(prefix, name) + seq![47u8],
                ) by {
                    assert(cs == hd + t);
                    if i < hd.len() {
                        lemma_not_under(prefix, prev[0].name, name, change_path(cs[i]));
                    } else {
                        assert(cs[i] == t[i - hd.len()]);
                    }
                }
            },
            _ => {},
        }
    } else if prev.len() == 0 || name_lt(new[0].name, prev[0].name) {
        let head = side_changes(prefix, new[0], trees, fuel, false);
        let rest = diff_at(prefix, prev, new.drop_first(), trees, fuel);
        match (head, rest) {
            (DiffRes::Done(hd), DiffRes::Done(t)) => {
                lemma_head_not_name_new(prev, new, name, h);
                lemma_side_scoped(prefix, new[0], trees, fuel, false, hd);
                lemma_tail_keeps_new(new, name, h);
                lemma_identity_pruning(
                    prefix,
                    prev,
                    new.drop_first(),
                    trees,
                    fuel,
                    t,
                    name,
                    h,
                );
                assert forall|i: int| 0 <= i < cs.len() implies !starts_with(
                    change_path(#[trigger] cs[i]),
                    pjoin(prefix, name) + seq![47u8],
                ) by {
                    assert(cs == hd + t);
                    if i < hd.len() {
                        lemma_not_under(prefix, new[0].name, name, change_path(cs[i]));
                    } else {
                        assert(cs[i] == t[i - hd.len()]);
                    }
                }
            },
            _ => {},
        }
    } else {
        let head = pair_changes(prefix, prev[0], new[0], trees, fuel);
        let rest = diff_at(prefix, prev.drop_first(), new.drop_first(), trees, fuel);
        match (head, rest) {
            (DiffRes::Done(hd), DiffRes::Done(t)) => {
                crate::diff::lemma_name_lt_trichotomy(prev[0].name, new[0].name);
                lemma_tail_keeps_pair(prev, new, name, h);
                lemma_identity_pruning(
                    prefix,
                    prev.drop_first(),
                    new.drop_first(),
                    trees,
                    fuel,
                    t,
                    name,
                    h,
                );
                if prev[0].name == name {
                    // both heads are the shared subtree entry: pruned whole
                    lemma_head_is_entry(prev, name, h);
                    lemma_head_is_entry(new, name, h);
                    assert(prev[0].mode == new[0].mode && prev[0].oid == new[0].oid);
                    assert(hd =~= Seq::<ChangeV>::empty());
                    assert forall|i: int| 0 <= i < cs.len() implies !starts_with(
                        change_path(#[trigger] cs[i]),
                        pjoin(prefix, name) + seq![47u8],
                    ) by {
                        assert(cs == hd + t);
                        assert(cs[i] == t[i]);
                    }
                } else {
                    lemma_pair_scoped(prefix, prev[0], new[0], trees, fuel, hd);
                    assert forall|i: int| 0 <= i < cs.len() implies !starts_with(
                        change_path(#[trigger] cs[i]),
                        pjoin(prefix, name) + seq![47u8],
                    ) by {
                        assert(cs == hd + t);
                        if i < hd.len() {
                            lemma_not_under(prefix, new[0].name, name, change_path(cs[i]));
                        } else {
                            assert(cs[i] == t[i - hd.len()]);
                        }
                    }
                }
            },
            _ => {},
        }
    }
}

/// Where the shared name is (or once was) in both sorted streams, a
/// previous-side head processed alone does not carry it.
proof fn lemma_head_not_name_prev(prev: Seq<EntryV>, new: Seq<EntryV>, name: Seq<u8>, h: Seq<u8>)
    requires
        prev.len() > 0,
        sorted_strict(prev),
        sorted_strict(new),
        new.len() == 0 || name_lt(prev[0].name, new[0].name),
        entry_in(prev, name, h) == entry_in(new, name, h),
        entry_in(prev, name, h) || (!name_in(prev, name) && !name_in(new, name)),
    ensures
        prev[0].name != name,
{
    if prev[0].name == name {
        assert(name_in(prev, name));
        assert(entry_in(prev, name, h));
        assert(entry_in(new, name, h));
        let k = choose|k: int|
            0 <= k < new.len() && (#[trigger] new[k]).name == name && new[k].mode is Tree
                && new[k].oid == h;
        // the new head is at most `name`, yet strictly above it
        if k > 0 {
            assert(name_lt(new[0].name, new[k].name));
            lemma_name_lt_trans(name, new[0].name, name);
            crate::diff::lemma_name_lt_trichotomy(name, name);
        } else {
            crate::diff::lemma_name_lt_trichotomy(prev[0].name, new[0].name);
        }
    }
}

/// Mirror of the previous-side head fact for the new side.
proof fn lemma_head_not_name_new(prev: Seq<EntryV>, new: Seq<EntryV>, name: Seq<u8>, h: Seq<u8>)
    requires
        new.len() > 0,
        sorted_strict(prev),
        sorted_strict(new),
        prev.len() == 0 || name_lt(new[0].name, prev[0].name),
        entry_in(prev, name, h) == entry_in(new, name, h),
        entry_in(prev, name, h) || (!name_in(prev, name) && !name_in(new, name)),
    ensures
        new[0].name != name,
{
    if new[0].name == name {
        assert(name_in(new, name));
        assert(entry_in(new, name, h));
        assert(entry_in(prev, name, h));
        let k = choose|k: int|
            0 <= k < prev.len() && (#[trigger] prev[k]).name == name && prev[k].mode is Tree
                && prev[k].oid == h;
        if k > 0 {
            assert(name_lt(prev[0].name, prev[k].name));
            lemma_name_lt_trans(name, prev[0].name, name);
            crate::diff::lemma_name_lt_trichotomy(name, name);
        } else {
            crate::diff::lemma_name_lt_trichotomy(new[0].name, prev[0].name);
        }
    }
}

/// A sorted stream whose head carries the shared name holds the shared
/// entry at its head.
proof fn lemma_head_is_entry(es: Seq<EntryV>, name: Seq<u8>, h: Seq<u8>)
    requires
        es.len() > 0,
        sorted_strict(es),
        es[0].name == name,
        entry_in(es, name, h),
    ensures
        es[0].mode is Tree,
        es[0].oid == h,
{
    let k = choose|k: int|
        0 <= k < es.len() && (#[trigger] es[k]).name == name && es[k].mode is Tree && es[k].oid
            == h;
    if k > 0 {
        assert(name_lt(es[0].name, es[k].name));
        crate::diff::lemma_name_lt_trichotomy(name, name);
    }
}

/// Dropping a previous-side head that is not the shared name keeps the
/// bookkeeping of the induction: sortedness, cleanliness, and where the
/// shared entry stands.
proof fn lemma_tail_keeps_prev(prev: Seq<EntryV>, name: Seq<u8>, h: Seq<u8>)
    requires
        prev.len() > 0,
        sorted_strict(prev),
        names_clean(prev),
        prev[0].name != name,
    ensures
        sorted_strict(prev.drop_first()),
        names_clean(prev.drop_first()),
        entry_in(prev.drop_first(), name, h) == entry_in(prev, name, h),
        name_in(prev.drop_first(), name) == name_in(prev, name),
{
    let d = prev.drop_first();
    assert forall|i: int, j: int| 0 <= i < j < d.len() implies name_lt(
        (#[trigger] d[i]).name,
        (#[trigger] d[j]).name,
    ) by {
        assert(d[i] == prev[i + 1] && d[j] == prev[j + 1]);
    }
    assert forall|i: int| 0 <= i < d.len() implies clean_name((#[trigger] d[i]).name) by {
        assert(d[i] == prev[i + 1]);
    }
    if entry_in(prev, name, h) {
        let k = choose|k: int|
            0 <= k < prev.len() && (#[trigger] prev[k]).name == name && prev[k].mode is Tree
                && prev[k].oid == h;
        assert(d[k - 1] == prev[k]);
        assert(entry_in(d, name, h));
    }
    if entry_in(d, name, h) {
        let k = choose|k: int|
            0 <= k < d.len() && (#[trigger] d[k]).name == name && d[k].mode is Tree && d[k].oid
                == h;
        assert(prev[k + 1] == d[k]);
        assert(entry_in(prev, name, h));
    }
    if name_in(prev, name) {
        let k = choose|k: int| 0 <= k < prev.len() && (#[trigger] prev[k]).name == name;
        assert(d[k - 1] == prev[k]);
        assert(name_in(d, name));
    }
    if name_in(d, name) {
        let k = choose|k: int| 0 <= k < d.len() && (#[trigger] d[k]).name == name;
        assert(prev[k + 1] == d[k]);
        assert(name_in(prev, name));
    }
}

/// Mirror of the tail bookkeeping for the new side.
proof fn lemma_tail_keeps_new(new: Seq<EntryV>, name: Seq<u8>, h: Seq<u8>)
    requires
        new.len() > 0,
        sorted_strict(new),
        names_clean(new),
        new[0].name != name,
    ensures
        sorted_strict(new.drop_first()),
        names_clean(new.drop_first()),
        entry_in(new.drop_first(), name, h) == entry_in(new, name, h),
        name_in(new.drop_first(), name) == name_in(new, name),
{
    lemma_tail_keeps_prev(new, name, h);
}

/// Dropping equal heads on both sides keeps the bookkeeping, whether the
/// heads were the shared entry or another shared name.
proof fn lemma_tail_keeps_pair(prev: Seq<EntryV>, new: Seq<EntryV>, name: Seq<u8>, h: Seq<u8>)
    requires
        prev.len() > 0,
        new.len() > 0,
        prev[0].name == new[0].name,
        sorted_strict(prev),
        sorted_strict(new),
        names_clean(prev),
        names_clean(new),
        entry_in(prev, name, h) == entry_in(new, name, h),
        entry_in(prev, name, h) || (!name_in(prev, name) && !name_in(new, name)),
    ensures
        sorted_strict(prev.drop_first()),
        sorted_strict(new.drop_first()),
        names_clean(prev.drop_first()),
        names_clean(new.drop_first()),
        entry_in(prev.drop_first(), name, h) == entry_in(new.drop_first(), name, h),
        entry_in(prev.drop_first(), name, h) || (!name_in(prev.drop_first(), name) && !name_in(
            new.drop_first(),
            name,
        )),
{
    if prev[0].name != name {
        lemma_tail_keeps_prev(prev, name, h);
        lemma_tail_keeps_new(new, name, h);
    } else {
        // both heads carry the shared name: it leaves both sides at once
        let dp = prev.drop_first();
        let dn = new.drop_first();
        assert forall|i: int, j: int| 0 <= i < j < dp.len() implies name_lt(
            (#[trigger] dp[i]).name,
            (#[trigger] dp[j]).name,
        ) by {
            assert(dp[i] == prev[i + 1] && dp[j] == prev[j + 1]);
        }
        assert forall|i: int, j: int| 0 <= i < j < dn.len() implies name_lt(
            (#[trigger] dn[i]).name,
            (#[trigger] dn[j]).name,
        ) by {
            assert(dn[i] == new[i + 1] && dn[j] == new[j + 1]);
        }
        assert forall|i: int| 0 <= i < dp.len() implies clean_name((#[trigger] dp[i]).name) by {
            assert(dp[i] == prev[i + 1]);
        }
        assert forall|i: int| 0 <= i < dn.len() implies clean_name((#[trigger] dn[i]).name) by {
            assert(dn[i] == new[i + 1]);
        }
        if name_in(dp, name) {
            let k = choose|k: int| 0 <= k < dp.len() && (#[trigger] dp[k]).name == name;
            assert(dp[k] == prev[k + 1]);
            assert(name_lt(prev[0].name, prev[k + 1].name));
            crate::diff::lemma_name_lt_trichotomy(name, name);
        }
        if name_in(dn, name) {
            let k = choose|k: int| 0 <= k < dn.len() && (#[trigger] dn[k]).name == name;
            assert(dn[k] == new[k + 1]);
            assert(name_lt(new[0].name, new[k + 1].name));
            crate::diff::lemma_name_lt_trichotomy(name, name);
        }
        if entry_in(dp, name, h) {
            let k = choose|k: int|
                0 <= k < dp.len() && (#[trigger] dp[k]).name == name && dp[k].mode is Tree
                    && dp[k].oid == h;
            assert(name_in(dp, name));
        }
        if entry_in(dn, name, h) {
            let k = choose|k: int|
                0 <= k < dn.len() && (#[trigger] dn[k]).name == name && dn[k].mode is Tree
                    && dn[k].oid == h;
            assert(name_in(dn, name));
        }
    }
}


/// Whether every entry of `es` is a leaf (no subtree to descend into).
pub open spec fn all_leaves(es: Seq<EntryV>) -> bool {
    forall|i: int| 0 <= i < es.len() ==> !((#[trigger] es[i]).mode is Tree)
}

/// The flattened state of one entry run: full path to mode and identifier.
pub open spec fn flat_map(prefix: Seq<u8>, es: Seq<EntryV>) -> Map<Seq<u8>, (EntryMode, Seq<u8>)>
    decreases es.len(),
{
    if es.len() == 0 {
        Map::empty()
    } else {
        flat_map(prefix, es.drop_first()).insert(
            pjoin(prefix, es[0].name),
            (es[0].mode, es[0].oid),
        )
    }
}

/// One change applied to a flattened state: additions and modifications
/// replace the entry at their path, a deletion removes its path and
/// everything below it.
pub open spec fn apply_one(
    m: Map<Seq<u8>, (EntryMode, Seq<u8>)>,
    c: ChangeV,
) -> Map<Seq<u8>, (EntryMode, Seq<u8>)> {
    match c {
        ChangeV::Addition { entry_mode, oid, path } => m.insert(path, (entry_mode, oid)),
        ChangeV::Modification { entry_mode, oid, path, .. } => m.insert(
            path,
            (entry_mode, oid),
        ),
        ChangeV::Deletion { path, .. } => Map::new(
            |k: Seq<u8>|
                m.contains_key(k) && k != path && !starts_with(k, path + seq![47u8]),
            |k: Seq<u8>| m[k],
        ),
    }
}

/// A change run applied in emission order.
pub open spec fn apply_all(
    m: Map<Seq<u8>, (EntryMode, Seq<u8>)>,
    cs: Seq<ChangeV>,
) -> Map<Seq<u8>, (EntryMode, Seq<u8>)>
    decreases cs.len(),
{
    if cs.len() == 0 {
        m
    } else {
        apply_all(apply_one(m, cs[0]), cs.drop_first())
    }
}

/// Every key of a flattened state is the join of some entry name.
proof fn lemma_flat_covered(prefix: Seq<u8>, es: Seq<EntryV>, k: Seq<u8>)
    requires
        flat_map(prefix, es).contains_key(k),
    ensures
        exists|i: int| 0 <= i < es.len() && k == pjoin(prefix, (#[trigger] es[i]).name),
    decreases es.len(),
{
    if es.len() > 0 && k != pjoin(prefix, es[0].name) {
        lemma_flat_covered(prefix, es.drop_first(), k);
        let i = choose|i: int|
            0 <= i < es.drop_first().len() && k == pjoin(
                prefix,
                (#[trigger] es.drop_first()[i]).name,
            );
        assert(es[i + 1] == es.drop_first()[i]);
    }
}

/// Joining with the same prefix keeps names apart.
proof fn lemma_pjoin_injective(prefix: Seq<u8>, n1: Seq<u8>, n2: Seq<u8>)
    requires
        pjoin(prefix, n1) == pjoin(prefix, n2),
    ensures
        n1 == n2,
{
    let b1 = pjoin(prefix, n1);
    let p = pref_of(prefix);
    assert(b1 =~= p + n1);
    assert(pjoin(prefix, n2) =~= p + n2);
    assert forall|j: int| 0 <= j < n1.len() implies n1[j] == n2[j] by {
        assert((p + n1)[p.len() + j] == n1[j]);
        assert((p + n2)[p.len() + j] == n2[j]);
    }
    assert(n1 =~= n2);
}

/// Every change of a completed diff of two leaf-only runs sits exactly at
/// the join of a name of one of the runs.
proof fn lemma_flat_paths(
    prefix: Seq<u8>,
    prev: Seq<EntryV>,
    new: Seq<EntryV>,
    trees: Map<Seq<u8>, Seq<EntryV>>,
    fuel: nat,
    cs: Seq<ChangeV>,
)
    requires
        diff_at(prefix, prev, new, trees, fuel) == DiffRes::Done(cs),
        all_leaves(prev),
        all_leaves(new),
    ensures
        forall|i: int|
            0 <= i < cs.len() ==> exists|n: Seq<u8>|
                (name_in(prev, n) || name_in(new, n)) && change_path(#[trigger] cs[i]) == pjoin(
                    prefix,
                    n,
                ),
    decreases prev.len() + new.len(),
{
    if prev.len() == 0 && new.len() == 0 {
    } else if new.len() == 0 || (prev.len() != 0 && name_lt(prev[0].name, new[0].name)) {
        let rest = diff_at(prefix, prev.drop_first(), new, trees, fuel);
        match rest {
            DiffRes::Done(t) => {
                let c0 = ChangeV::Deletion {
                    entry_mode: prev[0].mode,
                    oid: prev[0].oid,
                    path: pjoin(prefix, prev[0].name),
                };
                assert(side_changes(prefix, prev[0], trees, fuel, true) == DiffRes::Done(
                    seq![c0],
                ));
                assert(cs == seq![c0] + t);
                lemma_drop_keeps_leaves(prev);
                lemma_flat_paths(prefix, prev.drop_first(), new, trees, fuel, t);
                assert forall|i: int| 0 <= i < cs.len() implies exists|n: Seq<u8>|
                    (name_in(prev, n) || name_in(new, n)) && change_path(#[trigger] cs[i])
                        == pjoin(prefix, n) by {
                    if i == 0 {
                        assert(name_in(prev, prev[0].name));
                        assert(change_path(cs[0]) == pjoin(prefix, prev[0].name));
                    } else {
                        assert(cs[i] == t[i - 1]);
                        let n = choose|n: Seq<u8>|
                            (name_in(prev.drop_first(), n) || name_in(new, n)) && change_path(
                                t[i - 1],
                            ) == pjoin(prefix, n);
                        if name_in(prev.drop_first(), n) {
                            let k = choose|k: int|
                                0 <= k < prev.drop_first().len() && (#[trigger] prev.drop_first()[k]).name
                                    == n;
                            assert(prev[k + 1].name == n);
                        }
                    }
                }
            },
            _ => {},
        }
    } else if prev.len() == 0 || name_lt(new[0].name, prev[0].name) {
        let rest = diff_at(prefix, prev, new.drop_first(), trees, fuel);
        match rest {
            DiffRes::Done(t) => {
                let c0 = ChangeV::Addition {
                    entry_mode: new[0].mode,
                    oid: new[0].oid,
                    path: pjoin(prefix, new[0].name),
                };
                assert(side_changes(prefix, new[0], trees, fuel, false) == DiffRes::Done(
                    seq![c0],
                ));
                assert(cs == seq![c0] + t);
                lemma_drop_keeps_leaves(new);
                lemma_flat_paths(prefix, prev, new.drop_first(), trees, fuel, t);
                assert forall|i: int| 0 <= i < cs.len() implies exists|n: Seq<u8>|
                    (name_in(prev, n) || name_in(new, n)) && change_path(#[trigger] cs[i])
                        == pjoin(prefix, n) by {
                    if i == 0 {
                        assert(name_in(new, new[0].name));
                        assert(change_path(cs[0]) == pjoin(prefix, new[0].name));
                    } else {
                        assert(cs[i] == t[i - 1]);
                        let n = choose|n: Seq<u8>|
                            (name_in(prev, n) || name_in(new.drop_first(), n)) && change_path(
                                t[i - 1],
                            ) == pjoin(prefix, n);
                        if name_in(new.drop_first(), n) {
                            let k = choose|k: int|
                                0 <= k < new.drop_first().len() && (#[trigger] new.drop_first()[k]).name
                                    == n;
                            assert(new[k + 1].name == n);
                        }
                    }
                }
            },
            _ => {},
        }
    } else {
        let head = pair_changes(prefix, prev[0], new[0], trees, fuel);
        let rest = diff_at(prefix, prev.drop_first(), new.drop_first(), trees, fuel);
        match (head, rest) {
            (DiffRes::Done(h), DiffRes::Done(t)) => {
                crate::diff::lemma_name_lt_trichotomy(prev[0].name, new[0].name);
                if prev[0].mode == new[0].mode && prev[0].oid == new[0].oid {
                    assert(h =~= Seq::<ChangeV>::empty());
                } else {
                    assert(h =~= seq![
                        ChangeV::Modification {
                            previous_entry_mode: prev[0].mode,
                            previous_oid: prev[0].oid,
                            entry_mode: new[0].mode,
                            oid: new[0].oid,
                            path: pjoin(prefix, new[0].name),
                        },
                    ]);
                }
                lemma_drop_keeps_leaves(prev);
                lemma_drop_keeps_leaves(new);
                lemma_flat_paths(
                    prefix,
                    prev.drop_first(),
                    new.drop_first(),
                    trees,
                    fuel,
                    t,
                );
                assert forall|i: int| 0 <= i < cs.len() implies exists|n: Seq<u8>|
                    (name_in(prev, n) || name_in(new, n)) && change_path(#[trigger] cs[i])
                        == pjoin(prefix, n) by {
                    assert(cs == h + t);
                    if i < h.len() {
                        assert(h.len() <= 1);
                        assert(name_in(new, new[0].name));
                        assert(change_path(cs[i]) == pjoin(prefix, new[0].name));
                    } else {
                        assert(cs[i] == t[i - h.len()]);
                        let n = choose|n: Seq<u8>|
                            (name_in(prev.drop_first(), n) || name_in(new.drop_first(), n))
                                && change_path(t[i - h.len()]) == pjoin(prefix, n);
                        if name_in(prev.drop_first(), n) {
                            let k = choose|k: int|
                                0 <= k < prev.drop_first().len() && (#[trigger] prev.drop_first()[k]).name
                                    == n;
                            assert(prev[k + 1].name == n);
                        } else {
                            let k = choose|k: int|
                                0 <= k < new.drop_first().len() && (#[trigger] new.drop_first()[k]).name
                                    == n;
                            assert(new[k + 1].name == n);
                        }
                    }
                }
            },
            _ => {},
        }
    }
}

/// Dropping the head keeps a run leaf-only.
proof fn lemma_drop_keeps_leaves(es: Seq<EntryV>)
    requires
        all_leaves(es),
        es.len() > 0,
    ensures
        all_leaves(es.drop_first()),
{
    assert forall|i: int| 0 <= i < es.drop_first().len() implies !((
    #[trigger] es.drop_first()[i]).mode is Tree) by {
        assert(es.drop_first()[i] == es[i + 1]);
    }
}

/// Changes that never touch the key `k` commute with an insertion at `k`.
proof fn lemma_apply_commutes(
    m: Map<Seq<u8>, (EntryMode, Seq<u8>)>,
    cs: Seq<ChangeV>,
    k: Seq<u8>,
    v: (EntryMode, Seq<u8>),
)
    requires
        forall|i: int|
            0 <= i < cs.len() ==> change_path(#[trigger] cs[i]) != k && !starts_with(
                k,
                change_path(cs[i]) + seq![47u8],
            ),
    ensures
        apply_all(m.insert(k, v), cs) == apply_all(m, cs).insert(k, v),
    decreases cs.len(),
{
    if cs.len() > 0 {
        let c = cs[0];
        let p = change_path(c);
        match c {
            ChangeV::Addition { entry_mode, oid, path } => {
                assert(m.insert(k, v).insert(path, (entry_mode, oid)) =~= m.insert(
                    path,
                    (entry_mode, oid),
                ).insert(k, v));
            },
            ChangeV::Modification { entry_mode, oid, path, .. } => {
                assert(m.insert(k, v).insert(path, (entry_mode, oid)) =~= m.insert(
                    path,
                    (entry_mode, oid),
                ).insert(k, v));
            },
            ChangeV::Deletion { path, .. } => {
                assert(apply_one(m.insert(k, v), c) =~= apply_one(m, c).insert(k, v));
            },
        }
        assert forall|i: int|
            0 <= i < cs.drop_first().len() implies change_path(#[trigger] cs.drop_first()[i])
            != k && !starts_with(k, change_path(cs.drop_first()[i]) + seq![47u8]) by {
            assert(cs.drop_first()[i] == cs[i + 1]);
        }
        lemma_apply_commutes(apply_one(m, c), cs.drop_first(), k, v);
    }
}

/// Applying the emitted change sequence to the flattened previous snapshot
/// reconstructs the flattened new snapshot exactly, shown here for one
/// directory level: two sorted runs of leaf entries.
pub proof fn lemma_round_trip_flat(
    prefix: Seq<u8>,
    prev: Seq<EntryV>,
    new: Seq<EntryV>,
    trees: Map<Seq<u8>, Seq<EntryV>>,
    fuel: nat,
    cs: Seq<ChangeV>,
)
    requires
        diff_at(prefix, prev, new, trees, fuel) == DiffRes::Done(cs),
        sorted_strict(prev),
        sorted_strict(new),
        names_clean(prev),
        names_clean(new),
        all_leaves(prev),
        all_leaves(new),
    ensures
        apply_all(flat_map(prefix, prev), cs) == flat_map(prefix, new),
    decreases prev.len() + new.len(),
{
    if prev.len() == 0 && new.len() == 0 {
    } else if new.len() == 0 || (prev.len() != 0 && name_lt(prev[0].name, new[0].name)) {
        // a deletion: removing the head's path from the flat state is
        // dropping the head
        let rest = diff_at(prefix, prev.drop_first(), new, trees, fuel);
        match rest {
            DiffRes::Done(t) => {
                let c = ChangeV::Deletion {
                    entry_mode: prev[0].mode,
                    oid: prev[0].oid,
                    path: pjoin(prefix, prev[0].name),
                };
                assert(side_changes(prefix, prev[0], trees, fuel, true) == DiffRes::Done(
                    seq![c],
                ));
                assert(cs == seq![c] + t);
                assert(cs[0] == c);
                assert(cs.drop_first() =~= t);
                lemma_tail_keeps_sorted_clean(prev);
                lemma_drop_keeps_leaves(prev);
                lemma_round_trip_flat(prefix, prev.drop_first(), new, trees, fuel, t);
                let k0 = pjoin(prefix, prev[0].name);
                assert(apply_one(flat_map(prefix, prev), c) =~= flat_map(
                    prefix,
                    prev.drop_first(),
                )) by {
                    lemma_flat_no_key_under(prefix, prev, k0, prev[0].name);
                }
            },
            _ => {},
        }
    } else if prev.len() == 0 || name_lt(new[0].name, prev[0].name) {
        // an addition: the inserted key is untouched by the remaining
        // changes, whose names all come later in the order
        let rest = diff_at(prefix, prev, new.drop_first(), trees, fuel);
        match rest {
            DiffRes::Done(t) => {
                let c = ChangeV::Addition {
                    entry_mode: new[0].mode,
                    oid: new[0].oid,
                    path: pjoin(prefix, new[0].name),
                };
                assert(side_changes(prefix, new[0], trees, fuel, false) == DiffRes::Done(
                    seq![c],
                ));
                assert(cs == seq![c] + t);
                assert(cs.drop_first() =~= t);
                lemma_tail_keeps_sorted_clean(new);
                lemma_drop_keeps_leaves(new);
                lemma_round_trip_flat(prefix, prev, new.drop_first(), trees, fuel, t);
                let k0 = pjoin(prefix, new[0].name);
                let v0 = (new[0].mode, new[0].oid);
                assert(clean_name(new[0].name));
                assert forall|i: int| 0 <= i < prev.len() implies (#[trigger] prev[i]).name
                    != new[0].name by {
                    if i == 0 {
                        crate::diff::lemma_name_lt_trichotomy(new[0].name, prev[0].name);
                    } else {
                        assert(name_lt(prev[0].name, prev[i].name));
                        lemma_name_lt_trans(new[0].name, prev[0].name, prev[i].name);
                        crate::diff::lemma_name_lt_trichotomy(new[0].name, prev[i].name);
                    }
                }
                assert forall|i: int|
                    0 <= i < new.drop_first().len() implies (#[trigger] new.drop_first()[i]).name
                    != new[0].name by {
                    assert(new.drop_first()[i] == new[i + 1]);
                    assert(name_lt(new[0].name, new[i + 1].name));
                    crate::diff::lemma_name_lt_trichotomy(new[0].name, new[i + 1].name);
                }
                lemma_rest_avoids(prefix, prev, new.drop_first(), trees, fuel, t, new[0].name);
                lemma_apply_commutes(flat_map(prefix, prev), t, k0, v0);
            },
            _ => {},
        }
    } else {
        let head = pair_changes(prefix, prev[0], new[0], trees, fuel);
        let rest = diff_at(prefix, prev.drop_first(), new.drop_first(), trees, fuel);
        match (head, rest) {
            (DiffRes::Done(h), DiffRes::Done(t)) => {
                crate::diff::lemma_name_lt_trichotomy(prev[0].name, new[0].name);
                lemma_tail_keeps_sorted_clean(prev);
                lemma_tail_keeps_sorted_clean(new);
                lemma_drop_keeps_leaves(prev);
                lemma_drop_keeps_leaves(new);
                lemma_round_trip_flat(
                    prefix,
                    prev.drop_first(),
                    new.drop_first(),
                    trees,
                    fuel,
                    t,
                );
                let k0 = pjoin(prefix, new[0].name);
                let v0 = (new[0].mode, new[0].oid);
                lemma_rest_avoids_both(
                    prefix,
                    prev.drop_first(),
                    new.drop_first(),
                    trees,
                    fuel,
                    t,
                    new[0].name,
                    prev,
                    new,
                );
                if prev[0].mode == new[0].mode && prev[0].oid == new[0].oid {
                    assert(h =~= Seq::<ChangeV>::empty());
                    assert(cs == h + t);
                    assert(cs =~= t);
                    assert(flat_map(prefix, prev) == flat_map(
                        prefix,
                        prev.drop_first(),
                    ).insert(k0, v0));
                    lemma_apply_commutes(flat_map(prefix, prev.drop_first()), t, k0, v0);
                } else {
                    let c = ChangeV::Modification {
                        previous_entry_mode: prev[0].mode,
                        previous_oid: prev[0].oid,
                        entry_mode: new[0].mode,
                        oid: new[0].oid,
                        path: k0,
                    };
                    assert(cs == seq![c] + t);
                    assert(cs[0] == c);
                    assert(cs.drop_first() =~= t);
                    assert(apply_one(flat_map(prefix, prev), c) =~= flat_map(
                        prefix,
                        prev.drop_first(),
                    ).insert(k0, v0));
                    lemma_apply_commutes(flat_map(prefix, prev.drop_first()), t, k0, v0);
                }
            },
            _ => {},
        }
    }
}

/// Dropping the head keeps sortedness and cleanliness.
proof fn lemma_tail_keeps_sorted_clean(es: Seq<EntryV>)
    requires
        es.len() > 0,
        sorted_strict(es),
        names_clean(es),
    ensures
        sorted_strict(es.drop_first()),
        names_clean(es.drop_first()),
{
    let d = es.drop_first();
    assert forall|i: int, j: int| 0 <= i < j < d.len() implies name_lt(
        (#[trigger] d[i]).name,
        (#[trigger] d[j]).name,
    ) by {
        assert(d[i] == es[i + 1] && d[j] == es[j + 1]);
    }
    assert forall|i: int| 0 <= i < d.len() implies clean_name((#[trigger] d[i]).name) by {
        assert(d[i] == es[i + 1]);
    }
}

/// Removing the head's own path and everything below it from the flat
/// state of a sorted, clean, leaf-only run leaves the flat state of the
/// remainder: no other key collides with or sits below a sibling name.
proof fn lemma_flat_no_key_under(prefix: Seq<u8>, es: Seq<EntryV>, k0: Seq<u8>, n0: Seq<u8>)
    requires
        es.len() > 0,
        es[0].name == n0,
        k0 == pjoin(prefix, n0),
        sorted_strict(es),
        names_clean(es),
    ensures
        Map::new(
            |k: Seq<u8>|
                flat_map(prefix, es).contains_key(k) && k != k0 && !starts_with(
                    k,
                    k0 + seq![47u8],
                ),
            |k: Seq<u8>| flat_map(prefix, es)[k],
        ) =~= flat_map(prefix, es.drop_first()),
{
    let d = es.drop_first();
    let m = flat_map(prefix, es);
    let md = flat_map(prefix, d);
    assert(m == md.insert(k0, (es[0].mode, es[0].oid)));
    assert forall|k: Seq<u8>| #[trigger] md.contains_key(k) implies k != k0 && !starts_with(
        k,
        k0 + seq![47u8],
    ) by {
        lemma_flat_covered(prefix, d, k);
        let i = choose|i: int| 0 <= i < d.len() && k == pjoin(prefix, (#[trigger] d[i]).name);
        assert(d[i] == es[i + 1]);
        assert(name_lt(es[0].name, es[i + 1].name));
        crate::diff::lemma_name_lt_trichotomy(es[0].name, es[i + 1].name);
        if k == k0 {
            lemma_pjoin_injective(prefix, d[i].name, n0);
        }
        lemma_not_under(prefix, d[i].name, n0, k);
    }
}

/// Every change of the remaining flat diff avoids the key of a name that
/// comes strictly before every remaining name.
proof fn lemma_rest_avoids(
    prefix: Seq<u8>,
    prev: Seq<EntryV>,
    new: Seq<EntryV>,
    trees: Map<Seq<u8>, Seq<EntryV>>,
    fuel: nat,
    t: Seq<ChangeV>,
    n0: Seq<u8>,
)
    requires
        diff_at(prefix, prev, new, trees, fuel) == DiffRes::Done(t),
        all_leaves(prev),
        all_leaves(new),
        names_clean(prev),
        names_clean(new),
        clean_name(n0),
        forall|i: int| 0 <= i < prev.len() ==> (#[trigger] prev[i]).name != n0,
        forall|i: int| 0 <= i < new.len() ==> (#[trigger] new[i]).name != n0,
    ensures
        forall|i: int|
            0 <= i < t.len() ==> change_path(#[trigger] t[i]) != pjoin(prefix, n0)
                && !starts_with(pjoin(prefix, n0), change_path(t[i]) + seq![47u8]),
{
    lemma_flat_paths(prefix, prev, new, trees, fuel, t);
    assert forall|i: int| 0 <= i < t.len() implies change_path(#[trigger] t[i]) != pjoin(
        prefix,
        n0,
    ) && !starts_with(pjoin(prefix, n0), change_path(t[i]) + seq![47u8]) by {
        let n = choose|n: Seq<u8>|
            (name_in(prev, n) || name_in(new, n)) && change_path(t[i]) == pjoin(prefix, n);
        if name_in(prev, n) {
            let j = choose|j: int| 0 <= j < prev.len() && (#[trigger] prev[j]).name == n;
            assert(clean_name(n));
            assert(n != n0);
        } else {
            let j = choose|j: int| 0 <= j < new.len() && (#[trigger] new[j]).name == n;
            assert(clean_name(n));
            assert(n != n0);
        }
        if change_path(t[i]) == pjoin(prefix, n0) {
            lemma_pjoin_injective(prefix, n, n0);
        }
        lemma_not_under(prefix, n0, n, pjoin(prefix, n0));
    }
}

/// The pair form of the avoidance fact: after equal heads leave both
/// sides, no remaining name collides with theirs.
proof fn lemma_rest_avoids_both(
    prefix: Seq<u8>,
    dprev: Seq<EntryV>,
    dnew: Seq<EntryV>,
    trees: Map<Seq<u8>, Seq<EntryV>>,
    fuel: nat,
    t: Seq<ChangeV>,
    n0: Seq<u8>,
    prev: Seq<EntryV>,
    new: Seq<EntryV>,
)
    requires
        diff_at(prefix, dprev, dnew, trees, fuel) == DiffRes::Done(t),
        dprev == prev.drop_first(),
        dnew == new.drop_first(),
        prev.len() > 0,
        new.len() > 0,
        prev[0].name == n0,
        new[0].name == n0,
        all_leaves(dprev),
        all_leaves(dnew),
        names_clean(prev),
        names_clean(new),
        sorted_strict(prev),
        sorted_strict(new),
    ensures
        forall|i: int|
            0 <= i < t.len() ==> change_path(#[trigger] t[i]) != pjoin(prefix, n0)
                && !starts_with(pjoin(prefix, n0), change_path(t[i]) + seq![47u8]),
{
    lemma_tail_keeps_sorted_clean(prev);
    lemma_tail_keeps_sorted_clean(new);
    assert forall|i: int| 0 <= i < dprev.len() implies (#[trigger] dprev[i]).name != n0 by {
        assert(dprev[i] == prev[i + 1]);
        assert(name_lt(prev[0].name, prev[i + 1].name));
        crate::diff::lemma_name_lt_trichotomy(n0, prev[i + 1].name);
    }
    assert forall|i: int| 0 <= i < dnew.len() implies (#[trigger] dnew[i]).name != n0 by {
        assert(dnew[i] == new[i + 1]);
        assert(name_lt(new[0].name, new[i + 1].name));
        crate::diff::lemma_name_lt_trichotomy(n0, new[i + 1].name);
    }
    lemma_rest_avoids(prefix, dprev, dnew, trees, fuel, t, n0);
}

} // verus!

