//! The tree-diff engine: computes the ordered sequence of structural
//! changes between two directory snapshots.
//!
//! The engine walks two entry streams, each sorted by name, as a linear
//! merge.  An entry present on one side only is an addition or deletion; a
//! name present on both sides with identical mode and identifier is pruned
//! without descending — equal identifiers guarantee equal content
//! transitively; a name whose container-ness flipped (blob to tree or back)
//! is a deletion followed by an addition; anything else is a modification.
//! Subtrees are resolved lazily through a [`Resolver`] capability and walked
//! over an explicit frame stack, not call recursion.  A change is reported
//! before its own subtree is descended into; siblings are reported in
//! ascending name order.

use vstd::prelude::*;

use crate::hash::ObjectId;
use crate::tree::EntryMode;
use crate::tree::EntryV;
use crate::tree::Tree;
use crate::tree::TreeEntry;

verus! {

/// Strict lexicographic order on byte strings.
pub open spec fn name_lt(a: Seq<u8>, b: Seq<u8>) -> bool
    decreases a.len(),
{
    if b.len() == 0 {
        false
    } else if a.len() == 0 {
        true
    } else if a[0] < b[0] {
        true
    } else if a[0] > b[0] {
        false
    } else {
        name_lt(a.drop_first(), b.drop_first())
    }
}

/// Of two byte strings, exactly one of `a < b`, `a == b`, `b < a` holds.
pub proof fn lemma_name_lt_trichotomy(a: Seq<u8>, b: Seq<u8>)
    ensures
        name_lt(a, b) || a == b || name_lt(b, a),
        name_lt(a, b) ==> a != b && !name_lt(b, a),
        a == b ==> !name_lt(a, b) && !name_lt(b, a),
    decreases a.len(),
{
    if a.len() != 0 && b.len() != 0 && a[0] == b[0] {
        lemma_name_lt_trichotomy(a.drop_first(), b.drop_first());
        if a.drop_first() == b.drop_first() && a[0] == b[0] {
            assert forall|i: int| 0 <= i < a.len() implies a[i] == b[i] by {
                if i > 0 {
                    assert(a[i] == a.drop_first()[i - 1]);
                    assert(b[i] == b.drop_first()[i - 1]);
                }
            }
            assert(a =~= b);
        }
    }
    if a == b && a.len() != 0 {
        lemma_name_lt_trichotomy(a.drop_first(), b.drop_first());
    }
}

/// The full path of the entry `name` under `prefix`: slash-joined from the
/// tree root.
pub open spec fn pjoin(prefix: Seq<u8>, name: Seq<u8>) -> Seq<u8> {
    if prefix.len() == 0 {
        name
    } else {
        prefix + seq![47u8] + name
    }
}

/// The mathematical shape of one reported change.
pub ghost enum ChangeV {
    Addition { entry_mode: EntryMode, oid: Seq<u8>, path: Seq<u8> },
    Deletion { entry_mode: EntryMode, oid: Seq<u8>, path: Seq<u8> },
    Modification {
        previous_entry_mode: EntryMode,
        previous_oid: Seq<u8>,
        entry_mode: EntryMode,
        oid: Seq<u8>,
        path: Seq<u8>,
    },
}

/// One reported structural change, carrying the full slash-joined path from
/// the tree root.  Each detected change is emitted exactly once.
#[derive(Clone, Debug)]
pub enum Change {
    Addition { entry_mode: EntryMode, oid: ObjectId, path: Vec<u8> },
    Deletion { entry_mode: EntryMode, oid: ObjectId, path: Vec<u8> },
    Modification {
        previous_entry_mode: EntryMode,
        previous_oid: ObjectId,
        entry_mode: EntryMode,
        oid: ObjectId,
        path: Vec<u8>,
    },
}

impl View for Change {
    type V = ChangeV;

    open spec fn view(&self) -> ChangeV {
        match self {
            Change::Addition { entry_mode, oid, path } => ChangeV::Addition {
                entry_mode: *entry_mode,
                oid: oid@,
                path: path@,
            },
            Change::Deletion { entry_mode, oid, path } => ChangeV::Deletion {
                entry_mode: *entry_mode,
                oid: oid@,
                path: path@,
            },
            Change::Modification { previous_entry_mode, previous_oid, entry_mode, oid, path } => {
                ChangeV::Modification {
                    previous_entry_mode: *previous_entry_mode,
                    previous_oid: previous_oid@,
                    entry_mode: *entry_mode,
                    oid: oid@,
                    path: path@,
                }
            },
        }
    }
}

/// The outcome of one (partial) diff: the changes in emission order, a
/// resolution failure naming the identifier, or an exhausted recursion
/// budget (a device of the specification only — the engine never runs out).
pub ghost enum DiffRes {
    Done(Seq<ChangeV>),
    Fail(Seq<u8>),
    Short,
}

/// Sequential composition: the changes of `a`, then of `b`; the first
/// non-completion wins.
pub open spec fn chain(a: DiffRes, b: DiffRes) -> DiffRes {
    match a {
        DiffRes::Done(x) => match b {
            DiffRes::Done(y) => DiffRes::Done(x + y),
            _ => b,
        },
        _ => a,
    }
}

/// Emits `cs` first, then whatever `r` emits.
pub open spec fn emit_then(cs: Seq<ChangeV>, r: DiffRes) -> DiffRes {
    match r {
        DiffRes::Done(x) => DiffRes::Done(cs + x),
        _ => r,
    }
}

/// The changes that one entry present on a single side contributes: the
/// change itself, then — for a tree — one change per entry transitively
/// contained, via recursion against the empty tree.
pub open spec fn side_changes(
    prefix: Seq<u8>,
    e: EntryV,
    trees: Map<Seq<u8>, Seq<EntryV>>,
    fuel: nat,
    deleting: bool,
) -> DiffRes
    decreases fuel, 0nat, 0nat,
{
    let path = pjoin(prefix, e.name);
    let c = if deleting {
        ChangeV::Deletion { entry_mode: e.mode, oid: e.oid, path }
    } else {
        ChangeV::Addition { entry_mode: e.mode, oid: e.oid, path }
    };
    if !(e.mode is Tree) {
        DiffRes::Done(seq![c])
    } else if fuel == 0 {
        DiffRes::Short
    } else if !trees.contains_key(e.oid) {
        DiffRes::Fail(e.oid)
    } else if deleting {
        emit_then(seq![c], diff_at(path, trees[e.oid], Seq::empty(), trees, (fuel - 1) as nat))
    } else {
        emit_then(seq![c], diff_at(path, Seq::empty(), trees[e.oid], trees, (fuel - 1) as nat))
    }
}

/// The changes that a name present on both sides contributes.
pub open spec fn pair_changes(
    prefix: Seq<u8>,
    p: EntryV,
    n: EntryV,
    trees: Map<Seq<u8>, Seq<EntryV>>,
    fuel: nat,
) -> DiffRes
    decreases fuel, 0nat, 1nat,
{
    let path = pjoin(prefix, n.name);
    if p.mode == n.mode && p.oid == n.oid {
        // identical identifiers guarantee identical content: prune
        DiffRes::Done(Seq::empty())
    } else if (p.mode is Tree) != (n.mode is Tree) {
        // container-ness flipped: deletion then addition, never a
        // modification; only the addition side recurses
        let del = ChangeV::Deletion { entry_mode: p.mode, oid: p.oid, path };
        emit_then(seq![del], side_changes(prefix, n, trees, fuel, false))
    } else if p.mode is Tree {
        let c = ChangeV::Modification {
            previous_entry_mode: p.mode,
            previous_oid: p.oid,
            entry_mode: n.mode,
            oid: n.oid,
            path,
        };
        if fuel == 0 {
            DiffRes::Short
        } else if !trees.contains_key(p.oid) {
            DiffRes::Fail(p.oid)
        } else if !trees.contains_key(n.oid) {
            DiffRes::Fail(n.oid)
        } else {
            emit_then(
                seq![c],
                diff_at(path, trees[p.oid], trees[n.oid], trees, (fuel - 1) as nat),
            )
        }
    } else {
        let c = ChangeV::Modification {
            previous_entry_mode: p.mode,
            previous_oid: p.oid,
            entry_mode: n.mode,
            oid: n.oid,
            path,
        };
        DiffRes::Done(seq![c])
    }
}

/// The ordered changes of diffing the remaining entries `prev` against
/// `new` under `prefix`: a linear merge by name, the lexicographically
/// smaller head first, equal names jointly.
pub open spec fn diff_at(
    prefix: Seq<u8>,
    prev: Seq<EntryV>,
    new: Seq<EntryV>,
    trees: Map<Seq<u8>, Seq<EntryV>>,
    fuel: nat,
) -> DiffRes
    decreases fuel, prev.len() + new.len(), 2nat,
{
    if prev.len() == 0 && new.len() == 0 {
        DiffRes::Done(Seq::empty())
    } else if new.len() == 0 || (prev.len() != 0 && name_lt(prev[0].name, new[0].name)) {
        chain(
            side_changes(prefix, prev[0], trees, fuel, true),
            diff_at(prefix, prev.drop_first(), new, trees, fuel),
        )
    } else if prev.len() == 0 || name_lt(new[0].name, prev[0].name) {
        chain(
            side_changes(prefix, new[0], trees, fuel, false),
            diff_at(prefix, prev, new.drop_first(), trees, fuel),
        )
    } else {
        chain(
            pair_changes(prefix, prev[0], new[0], trees, fuel),
            diff_at(prefix, prev.drop_first(), new.drop_first(), trees, fuel),
        )
    }
}

/// A side contribution that did not run out of budget is unchanged by any
/// larger budget.
pub proof fn lemma_side_mono(
    prefix: Seq<u8>,
    e: EntryV,
    trees: Map<Seq<u8>, Seq<EntryV>>,
    f1: nat,
    f2: nat,
    deleting: bool,
)
    requires
        f1 <= f2,
        !(side_changes(prefix, e, trees, f1, deleting) is Short),
    ensures
        side_changes(prefix, e, trees, f2, deleting) == side_changes(
            prefix,
            e,
            trees,
            f1,
            deleting,
        ),
    decreases f1, 0nat, 0nat,
{
    if e.mode is Tree && trees.contains_key(e.oid) {
        let path = pjoin(prefix, e.name);
        if deleting {
            lemma_diff_at_mono(
                path,
                trees[e.oid],
                Seq::empty(),
                trees,
                (f1 - 1) as nat,
                (f2 - 1) as nat,
            );
        } else {
            lemma_diff_at_mono(
                path,
                Seq::empty(),
                trees[e.oid],
                trees,
                (f1 - 1) as nat,
                (f2 - 1) as nat,
            );
        }
    }
}

/// A pair contribution that did not run out of budget is unchanged by any
/// larger budget.
pub proof fn lemma_pair_mono(
    prefix: Seq<u8>,
    p: EntryV,
    n: EntryV,
    trees: Map<Seq<u8>, Seq<EntryV>>,
    f1: nat,
    f2: nat,
)
    requires
        f1 <= f2,
        !(pair_changes(prefix, p, n, trees, f1) is Short),
    ensures
        pair_changes(prefix, p, n, trees, f2) == pair_changes(prefix, p, n, trees, f1),
    decreases f1, 0nat, 1nat,
{
    let path = pjoin(prefix, n.name);
    if p.mode == n.mode && p.oid == n.oid {
    } else if (p.mode is Tree) != (n.mode is Tree) {
        lemma_side_mono(prefix, n, trees, f1, f2, false);
    } else if p.mode is Tree {
        if trees.contains_key(p.oid) && trees.contains_key(n.oid) {
            lemma_diff_at_mono(
                path,
                trees[p.oid],
                trees[n.oid],
                trees,
                (f1 - 1) as nat,
                (f2 - 1) as nat,
            );
        }
    }
}

/// A diff that did not run out of budget is unchanged by any larger budget:
/// the budget is a device of the specification, not a degree of freedom.
pub proof fn lemma_diff_at_mono(
    prefix: Seq<u8>,
    prev: Seq<EntryV>,
    new: Seq<EntryV>,
    trees: Map<Seq<u8>, Seq<EntryV>>,
    f1: nat,
    f2: nat,
)
    requires
        f1 <= f2,
        !(diff_at(prefix, prev, new, trees, f1) is Short),
    ensures
        diff_at(prefix, prev, new, trees, f2) == diff_at(prefix, prev, new, trees, f1),
    decreases f1, prev.len() + new.len(), 2nat,
{
    if prev.len() == 0 && new.len() == 0 {
    } else if new.len() == 0 || (prev.len() != 0 && name_lt(prev[0].name, new[0].name)) {
        if !(side_changes(prefix, prev[0], trees, f1, true) is Short) {
            lemma_side_mono(prefix, prev[0], trees, f1, f2, true);
            if side_changes(prefix, prev[0], trees, f1, true) is Done {
                lemma_diff_at_mono(prefix, prev.drop_first(), new, trees, f1, f2);
            }
        }
    } else if prev.len() == 0 || name_lt(new[0].name, prev[0].name) {
        if !(side_changes(prefix, new[0], trees, f1, false) is Short) {
            lemma_side_mono(prefix, new[0], trees, f1, f2, false);
            if side_changes(prefix, new[0], trees, f1, false) is Done {
                lemma_diff_at_mono(prefix, prev, new.drop_first(), trees, f1, f2);
            }
        }
    } else {
        if !(pair_changes(prefix, prev[0], new[0], trees, f1) is Short) {
            lemma_pair_mono(prefix, prev[0], new[0], trees, f1, f2);
            if pair_changes(prefix, prev[0], new[0], trees, f1) is Done {
                lemma_diff_at_mono(prefix, prev.drop_first(), new.drop_first(), trees, f1, f2);
            }
        }
    }
}

/// Any two completed diffs of the same inputs agree, whatever budgets they
/// completed under.
pub proof fn lemma_diff_at_fuel_agree(
    prefix: Seq<u8>,
    prev: Seq<EntryV>,
    new: Seq<EntryV>,
    trees: Map<Seq<u8>, Seq<EntryV>>,
    f1: nat,
    f2: nat,
)
    requires
        !(diff_at(prefix, prev, new, trees, f1) is Short),
        !(diff_at(prefix, prev, new, trees, f2) is Short),
    ensures
        diff_at(prefix, prev, new, trees, f1) == diff_at(prefix, prev, new, trees, f2),
{
    if f1 <= f2 {
        lemma_diff_at_mono(prefix, prev, new, trees, f1, f2);
    } else {
        lemma_diff_at_mono(prefix, prev, new, trees, f2, f1);
    }
}

/// One suspended level of the traversal: a path prefix and what remains of
/// the two entry streams at that level.
pub ghost struct FrameV {
    pub prefix: Seq<u8>,
    pub prev: Seq<EntryV>,
    pub new: Seq<EntryV>,
}

/// The changes still owed by a stack of suspended frames, the top frame
/// first, each walked under its own budget.
pub open spec fn diff_frames(
    frames: Seq<FrameV>,
    fuels: Seq<nat>,
    trees: Map<Seq<u8>, Seq<EntryV>>,
) -> DiffRes
    decreases frames.len(),
{
    if frames.len() == 0 {
        DiffRes::Done(Seq::empty())
    } else {
        chain(
            diff_at(
                frames.last().prefix,
                frames.last().prev,
                frames.last().new,
                trees,
                fuels.last(),
            ),
            diff_frames(frames.drop_last(), fuels.drop_last(), trees),
        )
    }
}

/// Whether the changes owed by `frames` under `fuels`, appended to
/// `emitted`, refine the one whole diff of the original inputs.
pub open spec fn refine(
    frames: Seq<FrameV>,
    fuels: Seq<nat>,
    trees: Map<Seq<u8>, Seq<EntryV>>,
    prev0: Seq<EntryV>,
    new0: Seq<EntryV>,
    emitted: Seq<ChangeV>,
) -> bool {
    match diff_frames(frames, fuels, trees) {
        DiffRes::Done(t) => exists|budget: nat|
            diff_at(Seq::empty(), prev0, new0, trees, budget) == DiffRes::Done(emitted + t),
        DiffRes::Fail(o) => exists|budget: nat|
            diff_at(Seq::empty(), prev0, new0, trees, budget) == DiffRes::Fail(o),
        DiffRes::Short => true,
    }
}

/// Whether the stack refines the whole diff under every budget assignment.
pub open spec fn refined(
    frames: Seq<FrameV>,
    trees: Map<Seq<u8>, Seq<EntryV>>,
    prev0: Seq<EntryV>,
    new0: Seq<EntryV>,
    emitted: Seq<ChangeV>,
) -> bool {
    forall|fuels: Seq<nat>|
        fuels.len() == frames.len() ==> #[trigger] refine(
            frames,
            fuels,
            trees,
            prev0,
            new0,
            emitted,
        )
}

/// Emission distributes over sequential composition.
proof fn lemma_chain_emit(cs: Seq<ChangeV>, a: DiffRes, b: DiffRes)
    ensures
        chain(emit_then(cs, a), b) == emit_then(cs, chain(a, b)),
{
    match a {
        DiffRes::Done(x) => match b {
            DiffRes::Done(y) => {
                assert((cs + x) + y =~= cs + (x + y));
            },
            _ => {},
        },
        _ => {},
    }
}

/// A single starting frame refines the whole diff with nothing emitted yet.
pub proof fn lemma_refine_init(
    f0: FrameV,
    trees: Map<Seq<u8>, Seq<EntryV>>,
)
    requires
        f0.prefix == Seq::<u8>::empty(),
    ensures
        refined(seq![f0], trees, f0.prev, f0.new, Seq::empty()),
{
    let frames = seq![f0];
    assert forall|fuels: Seq<nat>| fuels.len() == frames.len() implies #[trigger] refine(
        frames,
        fuels,
        trees,
        f0.prev,
        f0.new,
        Seq::empty(),
    ) by {
        let d = diff_at(f0.prefix, f0.prev, f0.new, trees, fuels.last());
        assert(frames.last() == f0);
        assert(frames.drop_last() =~= Seq::<FrameV>::empty());
        assert(diff_frames(frames.drop_last(), fuels.drop_last(), trees) == DiffRes::Done(
            Seq::<ChangeV>::empty(),
        ));
        assert(diff_frames(frames, fuels, trees) == chain(d, DiffRes::Done(Seq::empty())));
        match d {
            DiffRes::Done(t) => {
                assert(t + Seq::<ChangeV>::empty() =~= t);
                assert(Seq::<ChangeV>::empty() + t =~= t);
                assert(diff_at(Seq::empty(), f0.prev, f0.new, trees, fuels.last())
                    == DiffRes::Done(Seq::<ChangeV>::empty() + t));
            },
            DiffRes::Fail(_) => {},
            DiffRes::Short => {},
        }
    }
}

/// Dropping an exhausted top frame keeps the stack refining.
pub proof fn lemma_refine_pop(
    frames: Seq<FrameV>,
    trees: Map<Seq<u8>, Seq<EntryV>>,
    prev0: Seq<EntryV>,
    new0: Seq<EntryV>,
    emitted: Seq<ChangeV>,
)
    requires
        frames.len() > 0,
        frames.last().prev.len() == 0,
        frames.last().new.len() == 0,
        refined(frames, trees, prev0, new0, emitted),
    ensures
        refined(frames.drop_last(), trees, prev0, new0, emitted),
{
    let rest = frames.drop_last();
    assert forall|fuels2: Seq<nat>| fuels2.len() == rest.len() implies #[trigger] refine(
        rest,
        fuels2,
        trees,
        prev0,
        new0,
        emitted,
    ) by {
        let fuels = fuels2.push(0);
        assert(fuels.drop_last() =~= fuels2);
        assert(fuels.len() == frames.len());
        let top = frames.last();
        assert(diff_at(top.prefix, top.prev, top.new, trees, 0) == DiffRes::Done(
            Seq::<ChangeV>::empty(),
        ));
        let r = diff_frames(rest, fuels2, trees);
        match r {
            DiffRes::Done(y) => {
                assert(Seq::<ChangeV>::empty() + y =~= y);
            },
            _ => {},
        }
        assert(diff_frames(frames, fuels, trees) == r);
        assert(refine(frames, fuels, trees, prev0, new0, emitted));
    }
}

/// Replacing the top frame by its advanced remainder, with the step's own
/// changes emitted first, keeps the stack refining — the step pushed no
/// subtree.
pub proof fn lemma_refine_step_nochild(
    frames: Seq<FrameV>,
    trees: Map<Seq<u8>, Seq<EntryV>>,
    prev0: Seq<EntryV>,
    new0: Seq<EntryV>,
    emitted: Seq<ChangeV>,
    cs: Seq<ChangeV>,
    top2: FrameV,
)
    requires
        frames.len() > 0,
        forall|f: nat| #[trigger] diff_at(
            frames.last().prefix,
            frames.last().prev,
            frames.last().new,
            trees,
            f,
        ) == emit_then(cs, diff_at(top2.prefix, top2.prev, top2.new, trees, f)),
        refined(frames, trees, prev0, new0, emitted),
    ensures
        refined(frames.drop_last().push(top2), trees, prev0, new0, emitted + cs),
{
    let frames2 = frames.drop_last().push(top2);
    assert forall|fuels2: Seq<nat>| fuels2.len() == frames2.len() implies #[trigger] refine(
        frames2,
        fuels2,
        trees,
        prev0,
        new0,
        emitted + cs,
    ) by {
        let phi = fuels2.last();
        let top = frames.last();
        assert(frames2.drop_last() =~= frames.drop_last());
        assert(frames2.last() == top2);
        let lower = diff_frames(frames.drop_last(), fuels2.drop_last(), trees);
        let inner = diff_at(top2.prefix, top2.prev, top2.new, trees, phi);
        assert(diff_frames(frames2, fuels2, trees) == chain(inner, lower));
        assert(diff_at(top.prefix, top.prev, top.new, trees, phi) == emit_then(cs, inner));
        lemma_chain_emit(cs, inner, lower);
        assert(diff_frames(frames, fuels2, trees) == emit_then(cs, chain(inner, lower)));
        assert(refine(frames, fuels2, trees, prev0, new0, emitted));
        match chain(inner, lower) {
            DiffRes::Done(t) => {
                assert(diff_frames(frames, fuels2, trees) == DiffRes::Done(cs + t));
                assert(emitted + (cs + t) =~= (emitted + cs) + t);
            },
            _ => {},
        }
    }
}

/// Replacing the top frame by its advanced remainder and pushing the
/// subtree frame the step descended into, with the step's own changes
/// emitted first, keeps the stack refining.
pub proof fn lemma_refine_step_child(
    frames: Seq<FrameV>,
    trees: Map<Seq<u8>, Seq<EntryV>>,
    prev0: Seq<EntryV>,
    new0: Seq<EntryV>,
    emitted: Seq<ChangeV>,
    cs: Seq<ChangeV>,
    top2: FrameV,
    child: FrameV,
)
    requires
        frames.len() > 0,
        forall|f: nat| f >= 1 ==> #[trigger] diff_at(
            frames.last().prefix,
            frames.last().prev,
            frames.last().new,
            trees,
            f,
        ) == emit_then(
            cs,
            chain(
                diff_at(child.prefix, child.prev, child.new, trees, (f - 1) as nat),
                diff_at(top2.prefix, top2.prev, top2.new, trees, f),
            ),
        ),
        refined(frames, trees, prev0, new0, emitted),
    ensures
        refined(
            frames.drop_last().push(top2).push(child),
            trees,
            prev0,
            new0,
            emitted + cs,
        ),
{
    let frames3 = frames.drop_last().push(top2).push(child);
    assert forall|fuels3: Seq<nat>| fuels3.len() == frames3.len() implies #[trigger] refine(
        frames3,
        fuels3,
        trees,
        prev0,
        new0,
        emitted + cs,
    ) by {
        let top = frames.last();
        let phic = fuels3.last();
        let phip = fuels3.drop_last().last();
        let rest_fuels = fuels3.drop_last().drop_last();
        assert(frames3.last() == child);
        assert(frames3.drop_last() =~= frames.drop_last().push(top2));
        assert(frames3.drop_last().last() == top2);
        assert(frames3.drop_last().drop_last() =~= frames.drop_last());
        let dc = diff_at(child.prefix, child.prev, child.new, trees, phic);
        let dp = diff_at(top2.prefix, top2.prev, top2.new, trees, phip);
        let lower = diff_frames(frames.drop_last(), rest_fuels, trees);
        assert(diff_frames(frames3.drop_last().drop_last(), fuels3.drop_last().drop_last(),
            trees) == lower);
        assert(diff_frames(frames3.drop_last(), fuels3.drop_last(), trees) == chain(dp, lower));
        assert(diff_frames(frames3, fuels3, trees) == chain(dc, chain(dp, lower)));
        let phi = (phic + phip + 1) as nat;
        let fuels = rest_fuels.push(phi);
        assert(fuels.drop_last() =~= rest_fuels);
        assert(fuels.len() == frames.len());
        let dtop = diff_at(top.prefix, top.prev, top.new, trees, phi);
        assert(diff_frames(frames, fuels, trees) == chain(dtop, lower));
        assert(refine(frames, fuels, trees, prev0, new0, emitted));
        let dc_hi = diff_at(child.prefix, child.prev, child.new, trees, (phi - 1) as nat);
        let dp_hi = diff_at(top2.prefix, top2.prev, top2.new, trees, phi);
        assert(dtop == emit_then(cs, chain(dc_hi, dp_hi)));
        match chain(dc, chain(dp, lower)) {
            DiffRes::Done(t) => {
                let t1 = dc->Done_0;
                let t2 = dp->Done_0;
                let t3 = lower->Done_0;
                lemma_diff_at_mono(
                    child.prefix,
                    child.prev,
                    child.new,
                    trees,
                    phic,
                    (phi - 1) as nat,
                );
                lemma_diff_at_mono(top2.prefix, top2.prev, top2.new, trees, phip, phi);
                assert(dtop == DiffRes::Done(cs + (t1 + t2)));
                assert(diff_frames(frames, fuels, trees) == DiffRes::Done((cs + (t1 + t2))
                    + t3));
                assert(emitted + ((cs + (t1 + t2)) + t3) =~= (emitted + cs) + (t1 + (t2
                    + t3)));
                assert(t =~= t1 + (t2 + t3));
            },
            DiffRes::Fail(o) => {
                if dc is Fail {
                    lemma_diff_at_mono(
                        child.prefix,
                        child.prev,
                        child.new,
                        trees,
                        phic,
                        (phi - 1) as nat,
                    );
                    assert(dtop == DiffRes::Fail(o));
                } else if dc is Done {
                    lemma_diff_at_mono(
                        child.prefix,
                        child.prev,
                        child.new,
                        trees,
                        phic,
                        (phi - 1) as nat,
                    );
                    if dp is Fail {
                        lemma_diff_at_mono(top2.prefix, top2.prev, top2.new, trees, phip, phi);
                        assert(dtop == DiffRes::Fail(o));
                    } else {
                        lemma_diff_at_mono(top2.prefix, top2.prev, top2.new, trees, phip, phi);
                        assert(lower == DiffRes::Fail(o));
                    }
                }
                assert(diff_frames(frames, fuels, trees) == DiffRes::Fail(o));
            },
            DiffRes::Short => {},
        }
    }
}

/// A top frame whose next step meets a resolution failure settles the whole
/// diff as failed on that identifier.
pub proof fn lemma_refine_fail(
    frames: Seq<FrameV>,
    trees: Map<Seq<u8>, Seq<EntryV>>,
    prev0: Seq<EntryV>,
    new0: Seq<EntryV>,
    emitted: Seq<ChangeV>,
    oid: Seq<u8>,
    witness: nat,
)
    requires
        frames.len() > 0,
        diff_at(
            frames.last().prefix,
            frames.last().prev,
            frames.last().new,
            trees,
            witness,
        ) == DiffRes::Fail(oid),
        refined(frames, trees, prev0, new0, emitted),
    ensures
        exists|budget: nat|
            diff_at(Seq::empty(), prev0, new0, trees, budget) == DiffRes::Fail(oid),
{
    let rest_fuels = Seq::<nat>::new((frames.len() - 1) as nat, |i: int| 0);
    let fuels = rest_fuels.push(witness);
    assert(fuels.drop_last() =~= rest_fuels);
    assert(fuels.len() == frames.len());
    assert(diff_frames(frames, fuels, trees) == DiffRes::Fail(oid));
    assert(refine(frames, fuels, trees, prev0, new0, emitted));
}


/// A capability receiving each [`Change`] in emission order.  Any consumer
/// can substitute: a collector, a counter, a streaming encoder.
pub trait Record {
    /// The changes received so far, in order.
    spec fn recorded(&self) -> Seq<ChangeV>;

    /// Accepts one change.
    fn record(&mut self, change: Change)
        ensures
            final(self).recorded() == old(self).recorded().push(change@),
    ;
}

/// The trivial visitor: collects every change into an owned sequence.
pub struct Recorder {
    pub records: Vec<Change>,
}

impl Recorder {
    /// An empty recorder.
    pub fn new() -> (r: Recorder)
        ensures
            r.recorded() == Seq::<ChangeV>::empty(),
    {
        let r = Recorder { records: Vec::new() };
        proof {
            assert(r.records@.map_values(|c: Change| c@) =~= Seq::<ChangeV>::empty());
        }
        r
    }
}

impl Record for Recorder {
    open spec fn recorded(&self) -> Seq<ChangeV> {
        self.records@.map_values(|c: Change| c@)
    }

    fn record(&mut self, change: Change) {
        self.records.push(change);
        proof {
            assert(self.records@.map_values(|c: Change| c@) =~= old(
                self,
            ).records@.map_values(|c: Change| c@).push(self.records@.last()@));
        }
    }
}

/// A capability resolving an identifier to a fresh entry stream, supplied by
/// a caller wrapping an object store.  `None` means definitely absent (or
/// not a tree), distinct from a propagated store error only in that the
/// capability itself collapses both — the engine then fails the traversal.
pub trait Resolver {
    /// The trees this capability can produce, by identifier.
    spec fn trees(&self) -> Map<Seq<u8>, Seq<EntryV>>;

    /// What the capability needs of itself between calls.
    spec fn inv(&self) -> bool;

    /// Produces a fresh stream of the entries of the tree `id`, or `None`
    /// where no such tree can be had.
    fn resolve(&mut self, id: &ObjectId) -> (r: Option<Tree>)
        requires
            old(self).inv(),
        ensures
            final(self).inv(),
            final(self).trees() == old(self).trees(),
            match r {
                Some(t) => old(self).trees().contains_key(id@) && t@ == old(self).trees()[id@],
                None => !old(self).trees().contains_key(id@),
            },
    ;
}

/// The traversal failed because an identifier that a change expects to be a
/// tree could not be resolved: a corrupt or incomplete store, never treated
/// as a leaf.
#[derive(Clone, Copy, Debug)]
pub enum Error {
    ResolveFailed { oid: ObjectId },
}

/// How two names compare.
enum ByName {
    Less,
    Equal,
    Greater,
}

/// Equal prefixes do not decide the order.
proof fn lemma_name_lt_skip(a: Seq<u8>, b: Seq<u8>, i: int)
    requires
        0 <= i <= a.len(),
        i <= b.len(),
        forall|j: int| 0 <= j < i ==> a[j] == b[j],
    ensures
        name_lt(a, b) == name_lt(a.skip(i), b.skip(i)),
    decreases i,
{
    if i > 0 {
        assert(a[0] == b[0]);
        lemma_name_lt_skip(a.drop_first(), b.drop_first(), i - 1);
        assert(a.drop_first().skip(i - 1) =~= a.skip(i));
        assert(b.drop_first().skip(i - 1) =~= b.skip(i));
    } else {
        assert(a.skip(0) =~= a);
        assert(b.skip(0) =~= b);
    }
}

/// Compares two names in strict lexicographic byte order.
fn cmp_names(a: &[u8], b: &[u8]) -> (r: ByName)
    ensures
        r is Less <==> name_lt(a@, b@),
        r is Equal <==> a@ == b@,
        r is Greater <==> name_lt(b@, a@),
{
    let n = if a.len() < b.len() {
        a.len()
    } else {
        b.len()
    };
    let mut i: usize = 0;
    while i < n
        invariant
            0 <= i <= n,
            n <= a@.len(),
            n <= b@.len(),
            n == if a@.len() < b@.len() {
                a@.len() as int
            } else {
                b@.len() as int
            },
            forall|j: int| 0 <= j < i ==> a@[j] == b@[j],
        decreases n - i,
    {
        if a[i] < b[i] {
            proof {
                lemma_name_lt_skip(a@, b@, i as int);
                lemma_name_lt_skip(b@, a@, i as int);
                assert(a@.skip(i as int)[0] == a@[i as int]);
                assert(b@.skip(i as int)[0] == b@[i as int]);
            }
            return ByName::Less;
        }
        if a[i] > b[i] {
            proof {
                lemma_name_lt_skip(a@, b@, i as int);
                lemma_name_lt_skip(b@, a@, i as int);
                assert(a@.skip(i as int)[0] == a@[i as int]);
                assert(b@.skip(i as int)[0] == b@[i as int]);
            }
            return ByName::Greater;
        }
        i = i + 1;
    }
    proof {
        lemma_name_lt_skip(a@, b@, i as int);
        lemma_name_lt_skip(b@, a@, i as int);
    }
    if a.len() == b.len() {
        proof {
            assert(a@ =~= b@);
            assert(a@.skip(i as int).len() == 0);
            assert(b@.skip(i as int).len() == 0);
        }
        ByName::Equal
    } else if a.len() < b.len() {
        proof {
            assert(a@.skip(i as int).len() == 0);
            assert(b@.skip(i as int).len() > 0);
        }
        ByName::Less
    } else {
        proof {
            assert(b@.skip(i as int).len() == 0);
            assert(a@.skip(i as int).len() > 0);
        }
        ByName::Greater
    }
}

/// Builds the slash-joined path of `name` under `prefix`.
fn join_path(prefix: &Vec<u8>, name: &Vec<u8>) -> (r: Vec<u8>)
    ensures
        r@ == pjoin(prefix@, name@),
{
    let mut out: Vec<u8> = Vec::new();
    if prefix.len() > 0 {
        let mut i: usize = 0;
        while i < prefix.len()
            invariant
                0 <= i <= prefix@.len(),
                out@ =~= prefix@.take(i as int),
            decreases prefix@.len() - i,
        {
            out.push(prefix[i]);
            i = i + 1;
        }
        proof {
            assert(prefix@.take(prefix@.len() as int) =~= prefix@);
        }
        out.push(47);
    }
    let ghost head = out@;
    let mut j: usize = 0;
    while j < name.len()
        invariant
            0 <= j <= name@.len(),
            out@ =~= head + name@.take(j as int),
        decreases name@.len() - j,
    {
        out.push(name[j]);
        j = j + 1;
    }
    proof {
        assert(name@.take(name@.len() as int) =~= name@);
        assert(out@ =~= pjoin(prefix@, name@));
    }
    out
}

/// Emitting two runs in turn is emitting their concatenation.
proof fn lemma_emit_emit(cs1: Seq<ChangeV>, cs2: Seq<ChangeV>, r: DiffRes)
    ensures
        emit_then(cs1, emit_then(cs2, r)) == emit_then(cs1 + cs2, r),
{
    match r {
        DiffRes::Done(x) => {
            assert(cs1 + (cs2 + x) =~= (cs1 + cs2) + x);
        },
        _ => {},
    }
}

/// One suspended traversal level: the prefix, the two streams, and how far
/// each has been consumed.
struct Frame {
    prefix: Vec<u8>,
    prev: Vec<TreeEntry>,
    pi: usize,
    new: Vec<TreeEntry>,
    ni: usize,
}

/// The entry views of a stream.
spec fn stream_view(v: Seq<TreeEntry>) -> Seq<EntryV> {
    v.map_values(|e: TreeEntry| e@)
}

/// What remains of a frame.
spec fn frame_view(f: Frame) -> FrameV {
    FrameV {
        prefix: f.prefix@,
        prev: stream_view(f.prev@).skip(f.pi as int),
        new: stream_view(f.new@).skip(f.ni as int),
    }
}

/// A frame's positions lie inside its streams.
spec fn frame_ok(f: Frame) -> bool {
    f.pi <= f.prev@.len() && f.ni <= f.new@.len()
}

/// The models of a whole stack.
spec fn stack_view(s: Seq<Frame>) -> Seq<FrameV> {
    s.map_values(|f: Frame| frame_view(f))
}

/// Reusable traversal state: the frame stack, pooled across calls so deep
/// trees cost no call-stack depth and no repeated allocation.
pub struct State {
    frames: Vec<Frame>,
}

impl Default for State {
    /// Fresh traversal state.
    fn default() -> (r: State) {
        State { frames: Vec::new() }
    }
}

/// A diff traversal bound to the previous side: `None` stands for the empty
/// tree, as for a repository's first commit.
pub struct Changes {
    pub previous: Option<Tree>,
}

impl Changes {
    /// The entries of the previous side; the empty sequence where there is
    /// none.
    pub open spec fn prev_view(self) -> Seq<EntryV> {
        match self.previous {
            Some(t) => t@,
            None => Seq::empty(),
        }
    }

    /// Binds a traversal to its previous side.
    pub fn from(previous: Option<Tree>) -> (r: Changes)
        ensures
            r == (Changes { previous }),
    {
        Changes { previous }
    }
}


/// One deletion step of the merge, leaf case: the head of the previous side
/// comes first and is no tree.
proof fn lemma_unfold_del_leaf(
    prefix: Seq<u8>,
    prev: Seq<EntryV>,
    new: Seq<EntryV>,
    trees: Map<Seq<u8>, Seq<EntryV>>,
)
    requires
        prev.len() != 0,
        new.len() == 0 || name_lt(prev[0].name, new[0].name),
        !(prev[0].mode is Tree),
    ensures
        forall|f: nat| #[trigger] diff_at(prefix, prev, new, trees, f) == emit_then(
            seq![
                ChangeV::Deletion {
                    entry_mode: prev[0].mode,
                    oid: prev[0].oid,
                    path: pjoin(prefix, prev[0].name),
                },
            ],
            diff_at(prefix, prev.drop_first(), new, trees, f),
        ),
{
    let c = ChangeV::Deletion {
        entry_mode: prev[0].mode,
        oid: prev[0].oid,
        path: pjoin(prefix, prev[0].name),
    };
    assert forall|f: nat| #[trigger] diff_at(prefix, prev, new, trees, f) == emit_then(
        seq![c],
        diff_at(prefix, prev.drop_first(), new, trees, f),
    ) by {
        assert(side_changes(prefix, prev[0], trees, f, true) == DiffRes::Done(seq![c]));
    }
}

/// One deletion step of the merge, tree case: the whole subtree is
/// enumerated, entry by entry, as its own deletions.
proof fn lemma_unfold_del_tree(
    prefix: Seq<u8>,
    prev: Seq<EntryV>,
    new: Seq<EntryV>,
    trees: Map<Seq<u8>, Seq<EntryV>>,
)
    requires
        prev.len() != 0,
        new.len() == 0 || name_lt(prev[0].name, new[0].name),
        prev[0].mode is Tree,
        trees.contains_key(prev[0].oid),
    ensures
        forall|f: nat| f >= 1 ==> #[trigger] diff_at(prefix, prev, new, trees, f) == emit_then(
            seq![
                ChangeV::Deletion {
                    entry_mode: prev[0].mode,
                    oid: prev[0].oid,
                    path: pjoin(prefix, prev[0].name),
                },
            ],
            chain(
                diff_at(
                    pjoin(prefix, prev[0].name),
                    trees[prev[0].oid],
                    Seq::empty(),
                    trees,
                    (f - 1) as nat,
                ),
                diff_at(prefix, prev.drop_first(), new, trees, f),
            ),
        ),
{
    let c = ChangeV::Deletion {
        entry_mode: prev[0].mode,
        oid: prev[0].oid,
        path: pjoin(prefix, prev[0].name),
    };
    assert forall|f: nat| f >= 1 implies #[trigger] diff_at(prefix, prev, new, trees, f)
        == emit_then(
        seq![c],
        chain(
            diff_at(
                pjoin(prefix, prev[0].name),
                trees[prev[0].oid],
                Seq::empty(),
                trees,
                (f - 1) as nat,
            ),
            diff_at(prefix, prev.drop_first(), new, trees, f),
        ),
    ) by {
        let sub = diff_at(
            pjoin(prefix, prev[0].name),
            trees[prev[0].oid],
            Seq::empty(),
            trees,
            (f - 1) as nat,
        );
        let rest = diff_at(prefix, prev.drop_first(), new, trees, f);
        assert(side_changes(prefix, prev[0], trees, f, true) == emit_then(seq![c], sub));
        lemma_chain_emit(seq![c], sub, rest);
    }
}

/// A deletion step whose subtree cannot be resolved fails the diff.
proof fn lemma_unfold_del_tree_fail(
    prefix: Seq<u8>,
    prev: Seq<EntryV>,
    new: Seq<EntryV>,
    trees: Map<Seq<u8>, Seq<EntryV>>,
)
    requires
        prev.len() != 0,
        new.len() == 0 || name_lt(prev[0].name, new[0].name),
        prev[0].mode is Tree,
        !trees.contains_key(prev[0].oid),
    ensures
        diff_at(prefix, prev, new, trees, 1) == DiffRes::Fail(prev[0].oid),
{
    assert(side_changes(prefix, prev[0], trees, 1, true) == DiffRes::Fail(prev[0].oid));
}

/// One addition step of the merge, leaf case: the head of the new side
/// comes first and is no tree.
proof fn lemma_unfold_add_leaf(
    prefix: Seq<u8>,
    prev: Seq<EntryV>,
    new: Seq<EntryV>,
    trees: Map<Seq<u8>, Seq<EntryV>>,
)
    requires
        new.len() != 0,
        prev.len() == 0 || name_lt(new[0].name, prev[0].name),
        !(new[0].mode is Tree),
    ensures
        forall|f: nat| #[trigger] diff_at(prefix, prev, new, trees, f) == emit_then(
            seq![
                ChangeV::Addition {
                    entry_mode: new[0].mode,
                    oid: new[0].oid,
                    path: pjoin(prefix, new[0].name),
                },
            ],
            diff_at(prefix, prev, new.drop_first(), trees, f),
        ),
{
    if prev.len() != 0 {
        lemma_name_lt_trichotomy(prev[0].name, new[0].name);
    }
    let c = ChangeV::Addition {
        entry_mode: new[0].mode,
        oid: new[0].oid,
        path: pjoin(prefix, new[0].name),
    };
    assert forall|f: nat| #[trigger] diff_at(prefix, prev, new, trees, f) == emit_then(
        seq![c],
        diff_at(prefix, prev, new.drop_first(), trees, f),
    ) by {
        assert(side_changes(prefix, new[0], trees, f, false) == DiffRes::Done(seq![c]));
    }
}

/// One addition step of the merge, tree case: the whole subtree is
/// enumerated, entry by entry, as its own additions.
proof fn lemma_unfold_add_tree(
    prefix: Seq<u8>,
    prev: Seq<EntryV>,
    new: Seq<EntryV>,
    trees: Map<Seq<u8>, Seq<EntryV>>,
)
    requires
        new.len() != 0,
        prev.len() == 0 || name_lt(new[0].name, prev[0].name),
        new[0].mode is Tree,
        trees.contains_key(new[0].oid),
    ensures
        forall|f: nat| f >= 1 ==> #[trigger] diff_at(prefix, prev, new, trees, f) == emit_then(
            seq![
                ChangeV::Addition {
                    entry_mode: new[0].mode,
                    oid: new[0].oid,
                    path: pjoin(prefix, new[0].name),
                },
            ],
            chain(
                diff_at(
                    pjoin(prefix, new[0].name),
                    Seq::empty(),
                    trees[new[0].oid],
                    trees,
                    (f - 1) as nat,
                ),
                diff_at(prefix, prev, new.drop_first(), trees, f),
            ),
        ),
{
    if prev.len() != 0 {
        lemma_name_lt_trichotomy(prev[0].name, new[0].name);
    }
    let c = ChangeV::Addition {
        entry_mode: new[0].mode,
        oid: new[0].oid,
        path: pjoin(prefix, new[0].name),
    };
    assert forall|f: nat| f >= 1 implies #[trigger] diff_at(prefix, prev, new, trees, f)
        == emit_then(
        seq![c],
        chain(
            diff_at(
                pjoin(prefix, new[0].name),
                Seq::empty(),
                trees[new[0].oid],
                trees,
                (f - 1) as nat,
            ),
            diff_at(prefix, prev, new.drop_first(), trees, f),
        ),
    ) by {
        let sub = diff_at(
            pjoin(prefix, new[0].name),
            Seq::empty(),
            trees[new[0].oid],
            trees,
            (f - 1) as nat,
        );
        let rest = diff_at(prefix, prev, new.drop_first(), trees, f);
        assert(side_changes(prefix, new[0], trees, f, false) == emit_then(seq![c], sub));
        lemma_chain_emit(seq![c], sub, rest);
    }
}

/// An addition step whose subtree cannot be resolved fails the diff.
proof fn lemma_unfold_add_tree_fail(
    prefix: Seq<u8>,
    prev: Seq<EntryV>,
    new: Seq<EntryV>,
    trees: Map<Seq<u8>, Seq<EntryV>>,
)
    requires
        new.len() != 0,
        prev.len() == 0 || name_lt(new[0].name, prev[0].name),
        new[0].mode is Tree,
        !trees.contains_key(new[0].oid),
    ensures
        diff_at(prefix, prev, new, trees, 1) == DiffRes::Fail(new[0].oid),
{
    if prev.len() != 0 {
        lemma_name_lt_trichotomy(prev[0].name, new[0].name);
    }
    assert(side_changes(prefix, new[0], trees, 1, false) == DiffRes::Fail(new[0].oid));
}

/// A name on both sides, identical mode and identifier: nothing is emitted
/// and nothing descended into.
proof fn lemma_unfold_pair_same(
    prefix: Seq<u8>,
    prev: Seq<EntryV>,
    new: Seq<EntryV>,
    trees: Map<Seq<u8>, Seq<EntryV>>,
)
    requires
        prev.len() != 0,
        new.len() != 0,
        prev[0].name == new[0].name,
        prev[0].mode == new[0].mode,
        prev[0].oid == new[0].oid,
    ensures
        forall|f: nat| #[trigger] diff_at(prefix, prev, new, trees, f) == emit_then(
            Seq::<ChangeV>::empty(),
            diff_at(prefix, prev.drop_first(), new.drop_first(), trees, f),
        ),
{
    lemma_name_lt_trichotomy(prev[0].name, new[0].name);
    assert forall|f: nat| #[trigger] diff_at(prefix, prev, new, trees, f) == emit_then(
        Seq::<ChangeV>::empty(),
        diff_at(prefix, prev.drop_first(), new.drop_first(), trees, f),
    ) by {
        assert(pair_changes(prefix, prev[0], new[0], trees, f) == DiffRes::Done(
            Seq::<ChangeV>::empty(),
        ));
    }
}

/// A name on both sides, neither a tree, something differs: one
/// modification.
proof fn lemma_unfold_pair_leaf(
    prefix: Seq<u8>,
    prev: Seq<EntryV>,
    new: Seq<EntryV>,
    trees: Map<Seq<u8>, Seq<EntryV>>,
)
    requires
        prev.len() != 0,
        new.len() != 0,
        prev[0].name == new[0].name,
        !(prev[0].mode is Tree),
        !(new[0].mode is Tree),
        prev[0].mode != new[0].mode || prev[0].oid != new[0].oid,
    ensures
        forall|f: nat| #[trigger] diff_at(prefix, prev, new, trees, f) == emit_then(
            seq![
                ChangeV::Modification {
                    previous_entry_mode: prev[0].mode,
                    previous_oid: prev[0].oid,
                    entry_mode: new[0].mode,
                    oid: new[0].oid,
                    path: pjoin(prefix, new[0].name),
                },
            ],
            diff_at(prefix, prev.drop_first(), new.drop_first(), trees, f),
        ),
{
    lemma_name_lt_trichotomy(prev[0].name, new[0].name);
    let c = ChangeV::Modification {
        previous_entry_mode: prev[0].mode,
        previous_oid: prev[0].oid,
        entry_mode: new[0].mode,
        oid: new[0].oid,
        path: pjoin(prefix, new[0].name),
    };
    assert forall|f: nat| #[trigger] diff_at(prefix, prev, new, trees, f) == emit_then(
        seq![c],
        diff_at(prefix, prev.drop_first(), new.drop_first(), trees, f),
    ) by {
        assert(pair_changes(prefix, prev[0], new[0], trees, f) == DiffRes::Done(seq![c]));
    }
}

/// A name whose container-ness flipped, the new side a leaf: a deletion
/// then an addition, nothing descended into.
proof fn lemma_unfold_pair_flip_leaf(
    prefix: Seq<u8>,
    prev: Seq<EntryV>,
    new: Seq<EntryV>,
    trees: Map<Seq<u8>, Seq<EntryV>>,
)
    requires
        prev.len() != 0,
        new.len() != 0,
        prev[0].name == new[0].name,
        (prev[0].mode is Tree) != (new[0].mode is Tree),
        !(new[0].mode is Tree),
    ensures
        forall|f: nat| #[trigger] diff_at(prefix, prev, new, trees, f) == emit_then(
            seq![
                ChangeV::Deletion {
                    entry_mode: prev[0].mode,
                    oid: prev[0].oid,
                    path: pjoin(prefix, new[0].name),
                },
                ChangeV::Addition {
                    entry_mode: new[0].mode,
                    oid: new[0].oid,
                    path: pjoin(prefix, new[0].name),
                },
            ],
            diff_at(prefix, prev.drop_first(), new.drop_first(), trees, f),
        ),
{
    lemma_name_lt_trichotomy(prev[0].name, new[0].name);
    let del = ChangeV::Deletion {
        entry_mode: prev[0].mode,
        oid: prev[0].oid,
        path: pjoin(prefix, new[0].name),
    };
    let add = ChangeV::Addition {
        entry_mode: new[0].mode,
        oid: new[0].oid,
        path: pjoin(prefix, new[0].name),
    };
    assert forall|f: nat| #[trigger] diff_at(prefix, prev, new, trees, f) == emit_then(
        seq![del, add],
        diff_at(prefix, prev.drop_first(), new.drop_first(), trees, f),
    ) by {
        let rest = diff_at(prefix, prev.drop_first(), new.drop_first(), trees, f);
        assert(side_changes(prefix, new[0], trees, f, false) == DiffRes::Done(seq![add]));
        assert(pair_changes(prefix, prev[0], new[0], trees, f) == DiffRes::Done(
            seq![del] + seq![add],
        ));
        assert(seq![del] + seq![add] =~= seq![del, add]);
    }
}

/// A name whose container-ness flipped, the new side a tree: a deletion,
/// an addition, then the new subtree enumerated as additions.
proof fn lemma_unfold_pair_flip_tree(
    prefix: Seq<u8>,
    prev: Seq<EntryV>,
    new: Seq<EntryV>,
    trees: Map<Seq<u8>, Seq<EntryV>>,
)
    requires
        prev.len() != 0,
        new.len() != 0,
        prev[0].name == new[0].name,
        (prev[0].mode is Tree) != (new[0].mode is Tree),
        new[0].mode is Tree,
        trees.contains_key(new[0].oid),
    ensures
        forall|f: nat| f >= 1 ==> #[trigger] diff_at(prefix, prev, new, trees, f) == emit_then(
            seq![
                ChangeV::Deletion {
                    entry_mode: prev[0].mode,
                    oid: prev[0].oid,
                    path: pjoin(prefix, new[0].name),
                },
                ChangeV::Addition {
                    entry_mode: new[0].mode,
                    oid: new[0].oid,
                    path: pjoin(prefix, new[0].name),
                },
            ],
            chain(
                diff_at(
                    pjoin(prefix, new[0].name),
                    Seq::empty(),
                    trees[new[0].oid],
                    trees,
                    (f - 1) as nat,
                ),
                diff_at(prefix, prev.drop_first(), new.drop_first(), trees, f),
            ),
        ),
{
    lemma_name_lt_trichotomy(prev[0].name, new[0].name);
    let del = ChangeV::Deletion {
        entry_mode: prev[0].mode,
        oid: prev[0].oid,
        path: pjoin(prefix, new[0].name),
    };
    let add = ChangeV::Addition {
        entry_mode: new[0].mode,
        oid: new[0].oid,
        path: pjoin(prefix, new[0].name),
    };
    assert forall|f: nat| f >= 1 implies #[trigger] diff_at(prefix, prev, new, trees, f)
        == emit_then(
        seq![del, add],
        chain(
            diff_at(
                pjoin(prefix, new[0].name),
                Seq::empty(),
                trees[new[0].oid],
                trees,
                (f - 1) as nat,
            ),
            diff_at(prefix, prev.drop_first(), new.drop_first(), trees, f),
        ),
    ) by {
        let sub = diff_at(
            pjoin(prefix, new[0].name),
            Seq::empty(),
            trees[new[0].oid],
            trees,
            (f - 1) as nat,
        );
        let rest = diff_at(prefix, prev.drop_first(), new.drop_first(), trees, f);
        assert(side_changes(prefix, new[0], trees, f, false) == emit_then(seq![add], sub));
        lemma_emit_emit(seq![del], seq![add], sub);
        assert(pair_changes(prefix, prev[0], new[0], trees, f) == emit_then(
            seq![del] + seq![add],
            sub,
        ));
        assert(seq![del] + seq![add] =~= seq![del, add]);
        lemma_chain_emit(seq![del, add], sub, rest);
    }
}

/// A flip to an unresolvable tree fails the diff.
proof fn lemma_unfold_pair_flip_tree_fail(
    prefix: Seq<u8>,
    prev: Seq<EntryV>,
    new: Seq<EntryV>,
    trees: Map<Seq<u8>, Seq<EntryV>>,
)
    requires
        prev.len() != 0,
        new.len() != 0,
        prev[0].name == new[0].name,
        (prev[0].mode is Tree) != (new[0].mode is Tree),
        new[0].mode is Tree,
        !trees.contains_key(new[0].oid),
    ensures
        diff_at(prefix, prev, new, trees, 1) == DiffRes::Fail(new[0].oid),
{
    lemma_name_lt_trichotomy(prev[0].name, new[0].name);
    assert(side_changes(prefix, new[0], trees, 1, false) == DiffRes::Fail(new[0].oid));
    assert(pair_changes(prefix, prev[0], new[0], trees, 1) == DiffRes::Fail(new[0].oid));
}

/// A name on both sides, trees on both, something differs: one
/// modification, then the nested changes of the two subtrees.
proof fn lemma_unfold_pair_trees(
    prefix: Seq<u8>,
    prev: Seq<EntryV>,
    new: Seq<EntryV>,
    trees: Map<Seq<u8>, Seq<EntryV>>,
)
    requires
        prev.len() != 0,
        new.len() != 0,
        prev[0].name == new[0].name,
        prev[0].mode is Tree,
        new[0].mode is Tree,
        prev[0].mode != new[0].mode || prev[0].oid != new[0].oid,
        trees.contains_key(prev[0].oid),
        trees.contains_key(new[0].oid),
    ensures
        forall|f: nat| f >= 1 ==> #[trigger] diff_at(prefix, prev, new, trees, f) == emit_then(
            seq![
                ChangeV::Modification {
                    previous_entry_mode: prev[0].mode,
                    previous_oid: prev[0].oid,
                    entry_mode: new[0].mode,
                    oid: new[0].oid,
                    path: pjoin(prefix, new[0].name),
                },
            ],
            chain(
                diff_at(
                    pjoin(prefix, new[0].name),
                    trees[prev[0].oid],
                    trees[new[0].oid],
                    trees,
                    (f - 1) as nat,
                ),
                diff_at(prefix, prev.drop_first(), new.drop_first(), trees, f),
            ),
        ),
{
    lemma_name_lt_trichotomy(prev[0].name, new[0].name);
    let c = ChangeV::Modification {
        previous_entry_mode: prev[0].mode,
        previous_oid: prev[0].oid,
        entry_mode: new[0].mode,
        oid: new[0].oid,
        path: pjoin(prefix, new[0].name),
    };
    assert forall|f: nat| f >= 1 implies #[trigger] diff_at(prefix, prev, new, trees, f)
        == emit_then(
        seq![c],
        chain(
            diff_at(
                pjoin(prefix, new[0].name),
                trees[prev[0].oid],
                trees[new[0].oid],
                trees,
                (f - 1) as nat,
            ),
            diff_at(prefix, prev.drop_first(), new.drop_first(), trees, f),
        ),
    ) by {
        let sub = diff_at(
            pjoin(prefix, new[0].name),
            trees[prev[0].oid],
            trees[new[0].oid],
            trees,
            (f - 1) as nat,
        );
        let rest = diff_at(prefix, prev.drop_first(), new.drop_first(), trees, f);
        assert(pair_changes(prefix, prev[0], new[0], trees, f) == emit_then(seq![c], sub));
        lemma_chain_emit(seq![c], sub, rest);
    }
}

/// A tree-to-tree modification whose previous side cannot be resolved fails
/// the diff — conservatively, just as a failure of the new side does.
proof fn lemma_unfold_pair_trees_fail(
    prefix: Seq<u8>,
    prev: Seq<EntryV>,
    new: Seq<EntryV>,
    trees: Map<Seq<u8>, Seq<EntryV>>,
    oid: Seq<u8>,
)
    requires
        prev.len() != 0,
        new.len() != 0,
        prev[0].name == new[0].name,
        prev[0].mode is Tree,
        new[0].mode is Tree,
        prev[0].mode != new[0].mode || prev[0].oid != new[0].oid,
        if !trees.contains_key(prev[0].oid) {
            oid == prev[0].oid
        } else {
            !trees.contains_key(new[0].oid) && oid == new[0].oid
        },
    ensures
        diff_at(prefix, prev, new, trees, 1) == DiffRes::Fail(oid),
{
    lemma_name_lt_trichotomy(prev[0].name, new[0].name);
    assert(pair_changes(prefix, prev[0], new[0], trees, 1) == DiffRes::Fail(oid));
}


/// Whether some budget completes the diff: true of every acyclic store, as
/// a content-addressed store is.
pub open spec fn diff_terminates(
    prev: Seq<EntryV>,
    new: Seq<EntryV>,
    trees: Map<Seq<u8>, Seq<EntryV>>,
) -> bool {
    exists|budget: nat| !(diff_at(Seq::empty(), prev, new, trees, budget) is Short)
}

/// The work left in one single-side entry.
pub open spec fn cost_side(
    e: EntryV,
    trees: Map<Seq<u8>, Seq<EntryV>>,
    fuel: nat,
    deleting: bool,
) -> nat
    decreases fuel, 0nat, 0nat,
{
    if !(e.mode is Tree) {
        2
    } else if fuel == 0 {
        2
    } else if !trees.contains_key(e.oid) {
        2
    } else if deleting {
        2 + cost_at(trees[e.oid], Seq::empty(), trees, (fuel - 1) as nat)
    } else {
        2 + cost_at(Seq::empty(), trees[e.oid], trees, (fuel - 1) as nat)
    }
}

/// The work left in one name present on both sides.
pub open spec fn cost_pair(
    p: EntryV,
    n: EntryV,
    trees: Map<Seq<u8>, Seq<EntryV>>,
    fuel: nat,
) -> nat
    decreases fuel, 0nat, 1nat,
{
    if p.mode == n.mode && p.oid == n.oid {
        2
    } else if (p.mode is Tree) != (n.mode is Tree) {
        1 + cost_side(n, trees, fuel, false)
    } else if p.mode is Tree {
        if fuel == 0 {
            2
        } else if !trees.contains_key(p.oid) {
            2
        } else if !trees.contains_key(n.oid) {
            2
        } else {
            2 + cost_at(trees[p.oid], trees[n.oid], trees, (fuel - 1) as nat)
        }
    } else {
        2
    }
}

/// The work left in one level of the merge.
pub open spec fn cost_at(
    prev: Seq<EntryV>,
    new: Seq<EntryV>,
    trees: Map<Seq<u8>, Seq<EntryV>>,
    fuel: nat,
) -> nat
    decreases fuel, prev.len() + new.len(), 2nat,
{
    if prev.len() == 0 && new.len() == 0 {
        0
    } else if new.len() == 0 || (prev.len() != 0 && name_lt(prev[0].name, new[0].name)) {
        cost_side(prev[0], trees, fuel, true) + cost_at(prev.drop_first(), new, trees, fuel)
    } else if prev.len() == 0 || name_lt(new[0].name, prev[0].name) {
        cost_side(new[0], trees, fuel, false) + cost_at(prev, new.drop_first(), trees, fuel)
    } else {
        cost_pair(prev[0], new[0], trees, fuel) + cost_at(
            prev.drop_first(),
            new.drop_first(),
            trees,
            fuel,
        )
    }
}

/// The work left in a whole frame stack.
pub open spec fn stack_cost(
    frames: Seq<FrameV>,
    fuels: Seq<nat>,
    trees: Map<Seq<u8>, Seq<EntryV>>,
) -> nat
    decreases frames.len(),
{
    if frames.len() == 0 {
        0
    } else {
        cost_at(frames.last().prev, frames.last().new, trees, fuels.last()) + 1 + stack_cost(
            frames.drop_last(),
            fuels.drop_last(),
            trees,
        )
    }
}

/// Dropping an emitted run cannot make an unexhausted outcome exhausted.
proof fn lemma_short_step_nochild(cs: Seq<ChangeV>, x: DiffRes, r: DiffRes)
    requires
        !(chain(emit_then(cs, x), r) is Short),
    ensures
        !(chain(x, r) is Short),
{
}

/// Splitting a nested composition cannot make an unexhausted outcome
/// exhausted.
proof fn lemma_short_step_child(cs: Seq<ChangeV>, c: DiffRes, x: DiffRes, r: DiffRes)
    requires
        !(chain(emit_then(cs, chain(c, x)), r) is Short),
    ensures
        !(chain(c, chain(x, r)) is Short),
{
}


/// Pushing one frame with its budget adds exactly its own contribution, in
/// front, to what a stack owes and costs.
proof fn lemma_frames_push(
    frames: Seq<FrameV>,
    fuels: Seq<nat>,
    f: FrameV,
    phi: nat,
    trees: Map<Seq<u8>, Seq<EntryV>>,
)
    ensures
        diff_frames(frames.push(f), fuels.push(phi), trees) == chain(
            diff_at(f.prefix, f.prev, f.new, trees, phi),
            diff_frames(frames, fuels, trees),
        ),
        stack_cost(frames.push(f), fuels.push(phi), trees) == cost_at(
            f.prev,
            f.new,
            trees,
            phi,
        ) + 1 + stack_cost(frames, fuels, trees),
{
    assert(frames.push(f).last() == f);
    assert(fuels.push(phi).last() == phi);
    assert(frames.push(f).drop_last() =~= frames);
    assert(fuels.push(phi).drop_last() =~= fuels);
}


impl Changes {
    /// Computes every change needed to obtain `new` from the bound previous
    /// side, reporting each to `delegate` in emission order: at any level a
    /// change is reported before its own subtree is descended into, and
    /// siblings are processed in ascending name order.  Subtrees are fetched
    /// through `resolver`; entries whose mode and identifier agree on both
    /// sides are pruned without resolution.  The traversal runs over the
    /// frame stack pooled in `state`, never over call recursion.
    ///
    /// On success, the changes handed to `delegate` beyond what it already
    /// held are exactly one completed diff of the two snapshots.  Where an
    /// expected tree cannot be resolved the whole traversal fails with
    /// [`Error::ResolveFailed`]; changes already reported remain valid as a
    /// prefix.
    ///
    /// The traversal must terminate, which [`diff_terminates`] states as
    /// the existence of a sufficient recursion budget: true of every store
    /// whose identifiers are content hashes, since such trees cannot
    /// contain themselves.
    #[verifier::rlimit(100)]
    pub fn needed_to_obtain<R: Resolver, V: Record>(
        self,
        new: Tree,
        state: &mut State,
        resolver: &mut R,
        delegate: &mut V,
    ) -> (r: Result<(), Error>)
        requires
            old(resolver).inv(),
            diff_terminates(self.prev_view(), new@, old(resolver).trees()),
        ensures
            final(resolver).inv(),
            final(resolver).trees() == old(resolver).trees(),
            final(delegate).recorded().len() >= old(delegate).recorded().len(),
            final(delegate).recorded().take(old(delegate).recorded().len() as int) == old(
                delegate,
            ).recorded(),
            match r {
                Ok(()) => exists|budget: nat|
                    diff_at(
                        Seq::empty(),
                        self.prev_view(),
                        new@,
                        old(resolver).trees(),
                        budget,
                    ) == DiffRes::Done(
                        final(delegate).recorded().skip(old(delegate).recorded().len() as int),
                    ),
                Err(Error::ResolveFailed { oid }) => exists|budget: nat|
                    diff_at(
                        Seq::empty(),
                        self.prev_view(),
                        new@,
                        old(resolver).trees(),
                        budget,
                    ) == DiffRes::Fail(oid@),
            },
    {
        let ghost trees = old(resolver).trees();
        let ghost prev0 = self.prev_view();
        let ghost new0 = new@;
        let ghost rec0 = old(delegate).recorded();
        let ghost f_init = choose|budget: nat|
            !(diff_at(Seq::<u8>::empty(), prev0, new0, trees, budget) is Short);
        let prev_entries: Vec<TreeEntry> = match self.previous {
            Some(t) => t.entries,
            None => Vec::new(),
        };
        state.frames = Vec::new();
        let f0 = Frame { prefix: Vec::new(), prev: prev_entries, pi: 0, new: new.entries, ni: 0 };
        proof {
            assert(frame_view(f0).prefix =~= Seq::<u8>::empty());
            assert(frame_view(f0).prev =~= prev0);
            assert(frame_view(f0).new =~= new0);
            lemma_refine_init(frame_view(f0), trees);
        }
        state.frames.push(f0);
        let ghost mut fuels: Seq<nat> = seq![f_init];
        proof {
            assert(stack_view(state.frames@) =~= seq![frame_view(f0)]);
            assert(delegate.recorded().skip(rec0.len() as int) =~= Seq::<ChangeV>::empty());
            assert(delegate.recorded().take(rec0.len() as int) =~= rec0);
            assert(seq![frame_view(f0)] =~= Seq::<FrameV>::empty().push(frame_view(f0)));
            assert(seq![f_init] =~= Seq::<nat>::empty().push(f_init));
            lemma_frames_push(
                Seq::<FrameV>::empty(),
                Seq::<nat>::empty(),
                frame_view(f0),
                f_init,
                trees,
            );
            assert(frame_view(f0).prefix == Seq::<u8>::empty() && frame_view(f0).prev == prev0
                && frame_view(f0).new == new0);
            assert(diff_frames(stack_view(state.frames@), fuels, trees) == chain(
                diff_at(Seq::<u8>::empty(), prev0, new0, trees, f_init),
                DiffRes::Done(Seq::<ChangeV>::empty()),
            ));
        }
        while state.frames.len() > 0
            invariant
                trees == old(resolver).trees(),
                rec0 == old(delegate).recorded(),
                prev0 == self.prev_view(),
                new0 == new@,
                resolver.inv(),
                resolver.trees() == trees,
                delegate.recorded().len() >= rec0.len(),
                delegate.recorded().take(rec0.len() as int) == rec0,
                fuels.len() == state.frames@.len(),
                !(diff_frames(stack_view(state.frames@), fuels, trees) is Short),
                forall|i: int|
                    0 <= i < state.frames@.len() ==> frame_ok(#[trigger] state.frames@[i]),
                refined(
                    stack_view(state.frames@),
                    trees,
                    prev0,
                    new0,
                    delegate.recorded().skip(rec0.len() as int),
                ),
            decreases stack_cost(stack_view(state.frames@), fuels, trees),
        {
            let ghost frames_pre = stack_view(state.frames@);
            let ghost fuels_pre = fuels;
            let ghost emitted_pre = delegate.recorded().skip(rec0.len() as int);
            let mut fr = state.frames.pop().unwrap();
            let ghost tv = frame_view(fr);
            let ghost phi = fuels_pre.last();
            let ghost rest_fuels = fuels_pre.drop_last();
            let ghost lower = diff_frames(stack_view(state.frames@), rest_fuels, trees);
            proof {
                assert(frames_pre =~= stack_view(state.frames@).push(tv));
                assert(frames_pre.last() == tv);
                assert(frames_pre.drop_last() =~= stack_view(state.frames@));
                assert(frames_pre.len() > 0);
                assert(fuels_pre =~= rest_fuels.push(phi));
                assert(frames_pre.drop_last().push(tv) =~= frames_pre);
                lemma_frames_push(frames_pre.drop_last(), rest_fuels, tv, phi, trees);
                assert(diff_frames(frames_pre, fuels_pre, trees) == chain(
                    diff_at(tv.prefix, tv.prev, tv.new, trees, phi),
                    lower,
                ));
                assert(!(diff_at(tv.prefix, tv.prev, tv.new, trees, phi) is Short));
                assert(stack_cost(frames_pre, fuels_pre, trees) == cost_at(
                    tv.prev,
                    tv.new,
                    trees,
                    phi,
                ) + 1 + stack_cost(stack_view(state.frames@), rest_fuels, trees));
            }
            if fr.pi == fr.prev.len() && fr.ni == fr.new.len() {
                // this level is finished
                proof {
                    assert(tv.prev =~= Seq::<EntryV>::empty());
                    assert(tv.new =~= Seq::<EntryV>::empty());
                    lemma_refine_pop(frames_pre, trees, prev0, new0, emitted_pre);
                    assert(diff_at(tv.prefix, tv.prev, tv.new, trees, phi) == DiffRes::Done(
                        Seq::<ChangeV>::empty(),
                    ));
                    assert(!(lower is Short));
                    fuels = rest_fuels;
                    assert(cost_at(tv.prev, tv.new, trees, phi) == 0);
                }
            } else {
                let action = if fr.ni == fr.new.len() {
                    ByName::Less
                } else if fr.pi == fr.prev.len() {
                    ByName::Greater
                } else {
                    cmp_names(
                        fr.prev[fr.pi].filename.as_slice(),
                        fr.new[fr.ni].filename.as_slice(),
                    )
                };
                proof {
                    if fr.pi < fr.prev@.len() {
                        assert(tv.prev[0] == stream_view(fr.prev@)[fr.pi as int]);
                        assert(tv.prev[0] == fr.prev@[fr.pi as int]@);
                    }
                    if fr.ni < fr.new@.len() {
                        assert(tv.new[0] == stream_view(fr.new@)[fr.ni as int]);
                        assert(tv.new[0] == fr.new@[fr.ni as int]@);
                    }
                }
                match action {
                    ByName::Less => {
                        // present only in the previous side: a deletion
                        let mode = fr.prev[fr.pi].mode;
                        let eoid = fr.prev[fr.pi].oid;
                        let path = join_path(&fr.prefix, &fr.prev[fr.pi].filename);
                        let ghost cv = ChangeV::Deletion {
                            entry_mode: tv.prev[0].mode,
                            oid: tv.prev[0].oid,
                            path: pjoin(tv.prefix, tv.prev[0].name),
                        };
                        proof {
                            assert(tv.prev.len() != 0);
                            assert(tv.new.len() == 0 || name_lt(tv.prev[0].name, tv.new[0].name));
                        }
                        if mode.is_tree() {
                            let child_prefix = join_path(&fr.prefix, &fr.prev[fr.pi].filename);
                            delegate.record(
                                Change::Deletion { entry_mode: mode, oid: eoid, path },
                            );
                            proof {
                                assert(delegate.recorded().take(rec0.len() as int) =~= rec0);
                                assert(delegate.recorded().skip(rec0.len() as int)
                                    =~= emitted_pre + seq![cv]);
                            }
                            match resolver.resolve(&eoid) {
                                Some(t) => {
                                    fr.pi = fr.pi + 1;
                                    let ghost tv2 = frame_view(fr);
                                    let child = Frame {
                                        prefix: child_prefix,
                                        prev: t.entries,
                                        pi: 0,
                                        new: Vec::new(),
                                        ni: 0,
                                    };
                                    let ghost cw = frame_view(child);
                                    proof {
                                        assert(tv2.prev =~= tv.prev.drop_first());
                                        assert(cw.prev =~= trees[tv.prev[0].oid]);
                                        assert(cw.new =~= Seq::<EntryV>::empty());
                                        assert(cw.prefix == pjoin(tv.prefix, tv.prev[0].name));
                                        if phi == 0 {
                                            assert(side_changes(
                                                tv.prefix,
                                                tv.prev[0],
                                                trees,
                                                0,
                                                true,
                                            ) == DiffRes::Short);
                                            assert(false);
                                        }
                                        lemma_unfold_del_tree(tv.prefix, tv.prev, tv.new, trees);
                                        lemma_refine_step_child(
                                            frames_pre,
                                            trees,
                                            prev0,
                                            new0,
                                            emitted_pre,
                                            seq![cv],
                                            tv2,
                                            cw,
                                        );
                                        lemma_short_step_child(
                                            seq![cv],
                                            diff_at(
                                                cw.prefix,
                                                cw.prev,
                                                cw.new,
                                                trees,
                                                (phi - 1) as nat,
                                            ),
                                            diff_at(tv2.prefix, tv2.prev, tv2.new, trees, phi),
                                            lower,
                                        );
                                        assert(cost_side(tv.prev[0], trees, phi, true) == 2
                                            + cost_at(cw.prev, cw.new, trees, (phi - 1) as nat));
                                        assert(cost_at(tv.prev, tv.new, trees, phi)
                                            == cost_side(tv.prev[0], trees, phi, true) + cost_at(
                                            tv2.prev,
                                            tv2.new,
                                            trees,
                                            phi,
                                        ));
                                    }
                                    state.frames.push(fr);
                                    state.frames.push(child);
                                    proof {
                                        fuels = fuels_pre.push((phi - 1) as nat);
                                        assert(stack_view(state.frames@)
                                            =~= frames_pre.drop_last().push(tv2).push(cw));
                                        lemma_frames_push(
                                            frames_pre.drop_last(),
                                            rest_fuels,
                                            tv2,
                                            phi,
                                            trees,
                                        );
                                        lemma_frames_push(
                                            frames_pre.drop_last().push(tv2),
                                            rest_fuels.push(phi),
                                            cw,
                                            (phi - 1) as nat,
                                            trees,
                                        );
                                        assert(rest_fuels.push(phi).push((phi - 1) as nat)
                                            =~= fuels);
                                        assert(diff_frames(stack_view(state.frames@), fuels, trees)
                                            == chain(
                                            diff_at(
                                                cw.prefix,
                                                cw.prev,
                                                cw.new,
                                                trees,
                                                (phi - 1) as nat,
                                            ),
                                            chain(
                                                diff_at(
                                                    tv2.prefix,
                                                    tv2.prev,
                                                    tv2.new,
                                                    trees,
                                                    phi,
                                                ),
                                                lower,
                                            ),
                                        ));
                                        assert(stack_cost(stack_view(state.frames@), fuels, trees)
                                            < stack_cost(frames_pre, fuels_pre, trees));
                                    }
                                },
                                None => {
                                    proof {
                                        lemma_unfold_del_tree_fail(
                                            tv.prefix,
                                            tv.prev,
                                            tv.new,
                                            trees,
                                        );
                                        lemma_refine_fail(
                                            frames_pre,
                                            trees,
                                            prev0,
                                            new0,
                                            emitted_pre,
                                            tv.prev[0].oid,
                                            1,
                                        );
                                    }
                                    return Err(Error::ResolveFailed { oid: eoid });
                                },
                            }
                        } else {
                            delegate.record(
                                Change::Deletion { entry_mode: mode, oid: eoid, path },
                            );
                            fr.pi = fr.pi + 1;
                            let ghost tv2 = frame_view(fr);
                            proof {
                                assert(delegate.recorded().take(rec0.len() as int) =~= rec0);
                                assert(delegate.recorded().skip(rec0.len() as int)
                                    =~= emitted_pre + seq![cv]);
                                assert(tv2.prev =~= tv.prev.drop_first());
                                lemma_unfold_del_leaf(tv.prefix, tv.prev, tv.new, trees);
                                lemma_refine_step_nochild(
                                    frames_pre,
                                    trees,
                                    prev0,
                                    new0,
                                    emitted_pre,
                                    seq![cv],
                                    tv2,
                                );
                                lemma_short_step_nochild(
                                    seq![cv],
                                    diff_at(tv2.prefix, tv2.prev, tv2.new, trees, phi),
                                    lower,
                                );
                                assert(cost_side(tv.prev[0], trees, phi, true) == 2);
                                assert(cost_at(tv.prev, tv.new, trees, phi) == cost_side(
                                    tv.prev[0],
                                    trees,
                                    phi,
                                    true,
                                ) + cost_at(tv2.prev, tv2.new, trees, phi));
                            }
                            state.frames.push(fr);
                            proof {
                                assert(stack_view(state.frames@)
                                    =~= frames_pre.drop_last().push(tv2));
                                lemma_frames_push(
                                    frames_pre.drop_last(),
                                    rest_fuels,
                                    tv2,
                                    phi,
                                    trees,
                                );
                                assert(diff_frames(stack_view(state.frames@), fuels, trees)
                                    == chain(
                                    diff_at(tv2.prefix, tv2.prev, tv2.new, trees, phi),
                                    lower,
                                ));
                                assert(stack_cost(stack_view(state.frames@), fuels, trees)
                                    < stack_cost(frames_pre, fuels_pre, trees));
                            }
                        }
                    },
                    ByName::Greater => {
                        // present only in the new side: an addition
                        let mode = fr.new[fr.ni].mode;
                        let eoid = fr.new[fr.ni].oid;
                        let path = join_path(&fr.prefix, &fr.new[fr.ni].filename);
                        let ghost cv = ChangeV::Addition {
                            entry_mode: tv.new[0].mode,
                            oid: tv.new[0].oid,
                            path: pjoin(tv.prefix, tv.new[0].name),
                        };
                        proof {
                            assert(tv.new.len() != 0);
                            assert(tv.prev.len() == 0 || name_lt(tv.new[0].name, tv.prev[0].name));
                            if tv.prev.len() != 0 {
                                lemma_name_lt_trichotomy(tv.prev[0].name, tv.new[0].name);
                            }
                        }
                        if mode.is_tree() {
                            let child_prefix = join_path(&fr.prefix, &fr.new[fr.ni].filename);
                            delegate.record(
                                Change::Addition { entry_mode: mode, oid: eoid, path },
                            );
                            proof {
                                assert(delegate.recorded().take(rec0.len() as int) =~= rec0);
                                assert(delegate.recorded().skip(rec0.len() as int)
                                    =~= emitted_pre + seq![cv]);
                            }
                            match resolver.resolve(&eoid) {
                                Some(t) => {
                                    fr.ni = fr.ni + 1;
                                    let ghost tv2 = frame_view(fr);
                                    let child = Frame {
                                        prefix: child_prefix,
                                        prev: Vec::new(),
                                        pi: 0,
                                        new: t.entries,
                                        ni: 0,
                                    };
                                    let ghost cw = frame_view(child);
                                    proof {
                                        assert(tv2.new =~= tv.new.drop_first());
                                        assert(cw.new =~= trees[tv.new[0].oid]);
                                        assert(cw.prev =~= Seq::<EntryV>::empty());
                                        assert(cw.prefix == pjoin(tv.prefix, tv.new[0].name));
                                        if phi == 0 {
                                            assert(side_changes(
                                                tv.prefix,
                                                tv.new[0],
                                                trees,
                                                0,
                                                false,
                                            ) == DiffRes::Short);
                                            assert(false);
                                        }
                                        lemma_unfold_add_tree(tv.prefix, tv.prev, tv.new, trees);
                                        lemma_refine_step_child(
                                            frames_pre,
                                            trees,
                                            prev0,
                                            new0,
                                            emitted_pre,
                                            seq![cv],
                                            tv2,
                                            cw,
                                        );
                                        lemma_short_step_child(
                                            seq![cv],
                                            diff_at(
                                                cw.prefix,
                                                cw.prev,
                                                cw.new,
                                                trees,
                                                (phi - 1) as nat,
                                            ),
                                            diff_at(tv2.prefix, tv2.prev, tv2.new, trees, phi),
                                            lower,
                                        );
                                        assert(cost_side(tv.new[0], trees, phi, false) == 2
                                            + cost_at(cw.prev, cw.new, trees, (phi - 1) as nat));
                                        assert(cost_at(tv.prev, tv.new, trees, phi)
                                            == cost_side(tv.new[0], trees, phi, false) + cost_at(
                                            tv2.prev,
                                            tv2.new,
                                            trees,
                                            phi,
                                        ));
                                    }
                                    state.frames.push(fr);
                                    state.frames.push(child);
                                    proof {
                                        fuels = fuels_pre.push((phi - 1) as nat);
                                        assert(stack_view(state.frames@)
                                            =~= frames_pre.drop_last().push(tv2).push(cw));
                                        lemma_frames_push(
                                            frames_pre.drop_last(),
                                            rest_fuels,
                                            tv2,
                                            phi,
                                            trees,
                                        );
                                        lemma_frames_push(
                                            frames_pre.drop_last().push(tv2),
                                            rest_fuels.push(phi),
                                            cw,
                                            (phi - 1) as nat,
                                            trees,
                                        );
                                        assert(rest_fuels.push(phi).push((phi - 1) as nat)
                                            =~= fuels);
                                        assert(diff_frames(stack_view(state.frames@), fuels, trees)
                                            == chain(
                                            diff_at(
                                                cw.prefix,
                                                cw.prev,
                                                cw.new,
                                                trees,
                                                (phi - 1) as nat,
                                            ),
                                            chain(
                                                diff_at(
                                                    tv2.prefix,
                                                    tv2.prev,
                                                    tv2.new,
                                                    trees,
                                                    phi,
                                                ),
                                                lower,
                                            ),
                                        ));
                                        assert(stack_cost(stack_view(state.frames@), fuels, trees)
                                            < stack_cost(frames_pre, fuels_pre, trees));
                                    }
                                },
                                None => {
                                    proof {
                                        lemma_unfold_add_tree_fail(
                                            tv.prefix,
                                            tv.prev,
                                            tv.new,
                                            trees,
                                        );
                                        lemma_refine_fail(
                                            frames_pre,
                                            trees,
                                            prev0,
                                            new0,
                                            emitted_pre,
                                            tv.new[0].oid,
                                            1,
                                        );
                                    }
                                    return Err(Error::ResolveFailed { oid: eoid });
                                },
                            }
                        } else {
                            delegate.record(
                                Change::Addition { entry_mode: mode, oid: eoid, path },
                            );
                            fr.ni = fr.ni + 1;
                            let ghost tv2 = frame_view(fr);
                            proof {
                                assert(delegate.recorded().take(rec0.len() as int) =~= rec0);
                                assert(delegate.recorded().skip(rec0.len() as int)
                                    =~= emitted_pre + seq![cv]);
                                assert(tv2.new =~= tv.new.drop_first());
                                lemma_unfold_add_leaf(tv.prefix, tv.prev, tv.new, trees);
                                lemma_refine_step_nochild(
                                    frames_pre,
                                    trees,
                                    prev0,
                                    new0,
                                    emitted_pre,
                                    seq![cv],
                                    tv2,
                                );
                                lemma_short_step_nochild(
                                    seq![cv],
                                    diff_at(tv2.prefix, tv2.prev, tv2.new, trees, phi),
                                    lower,
                                );
                                assert(cost_side(tv.new[0], trees, phi, false) == 2);
                                assert(cost_at(tv.prev, tv.new, trees, phi) == cost_side(
                                    tv.new[0],
                                    trees,
                                    phi,
                                    false,
                                ) + cost_at(tv2.prev, tv2.new, trees, phi));
                            }
                            state.frames.push(fr);
                            proof {
                                assert(stack_view(state.frames@)
                                    =~= frames_pre.drop_last().push(tv2));
                                lemma_frames_push(
                                    frames_pre.drop_last(),
                                    rest_fuels,
                                    tv2,
                                    phi,
                                    trees,
                                );
                                assert(diff_frames(stack_view(state.frames@), fuels, trees)
                                    == chain(
                                    diff_at(tv2.prefix, tv2.prev, tv2.new, trees, phi),
                                    lower,
                                ));
                                assert(stack_cost(stack_view(state.frames@), fuels, trees)
                                    < stack_cost(frames_pre, fuels_pre, trees));
                            }
                        }
                    },
                    ByName::Equal => {
                        let res = step_pair(
                            fr,
                            state,
                            resolver,
                            delegate,
                            Ghost(trees),
                            Ghost(prev0),
                            Ghost(new0),
                            Ghost(rec0),
                            Ghost(frames_pre),
                            Ghost(emitted_pre),
                            Ghost(fuels_pre),
                        );
                        match res.0 {
                            Ok(()) => {
                                proof {
                                    fuels = res.1@;
                                }
                            },
                            Err(e) => {
                                return Err(e);
                            },
                        }
                    },
                }
            }
        }
        proof {
            assert(stack_view(state.frames@) =~= Seq::<FrameV>::empty());
            let nofuel = Seq::<nat>::empty();
            assert(diff_frames(Seq::<FrameV>::empty(), nofuel, trees) == DiffRes::Done(
                Seq::<ChangeV>::empty(),
            ));
            assert(refine(
                Seq::<FrameV>::empty(),
                nofuel,
                trees,
                prev0,
                new0,
                delegate.recorded().skip(rec0.len() as int),
            ));
            let emitted = delegate.recorded().skip(rec0.len() as int);
            assert(emitted + Seq::<ChangeV>::empty() =~= emitted);
        }
        Ok(())
    }
}

/// One merge step on a name present on both sides: classifies the pair,
/// reports its changes, advances the frame, and descends where both sides
/// are trees or the new side became one.
#[verifier::rlimit(100)]
fn step_pair<R: Resolver, V: Record>(
    fr: Frame,
    state: &mut State,
    resolver: &mut R,
    delegate: &mut V,
    Ghost(trees): Ghost<Map<Seq<u8>, Seq<EntryV>>>,
    Ghost(prev0): Ghost<Seq<EntryV>>,
    Ghost(new0): Ghost<Seq<EntryV>>,
    Ghost(rec0): Ghost<Seq<ChangeV>>,
    Ghost(frames_pre): Ghost<Seq<FrameV>>,
    Ghost(emitted_pre): Ghost<Seq<ChangeV>>,
    Ghost(fuels_pre): Ghost<Seq<nat>>,
) -> (r: (Result<(), Error>, Ghost<Seq<nat>>))
    requires
        old(resolver).inv(),
        old(resolver).trees() == trees,
        frame_ok(fr),
        fr.pi < fr.prev@.len(),
        fr.ni < fr.new@.len(),
        frame_view(fr).prev[0].name == frame_view(fr).new[0].name,
        frames_pre.len() > 0,
        frames_pre.last() == frame_view(fr),
        frames_pre.drop_last() == stack_view(old(state).frames@),
        forall|i: int|
            0 <= i < old(state).frames@.len() ==> frame_ok(#[trigger] old(state).frames@[i]),
        refined(frames_pre, trees, prev0, new0, emitted_pre),
        old(delegate).recorded().len() >= rec0.len(),
        old(delegate).recorded().take(rec0.len() as int) == rec0,
        emitted_pre == old(delegate).recorded().skip(rec0.len() as int),
        fuels_pre.len() == frames_pre.len(),
        !(diff_frames(frames_pre, fuels_pre, trees) is Short),
    ensures
        final(resolver).inv(),
        final(resolver).trees() == trees,
        final(delegate).recorded().len() >= rec0.len(),
        final(delegate).recorded().take(rec0.len() as int) == rec0,
        match r.0 {
            Ok(()) => {
                &&& forall|i: int|
                    0 <= i < final(state).frames@.len() ==> frame_ok(
                        #[trigger] final(state).frames@[i],
                    )
                &&& refined(
                    stack_view(final(state).frames@),
                    trees,
                    prev0,
                    new0,
                    final(delegate).recorded().skip(rec0.len() as int),
                )
                &&& r.1@.len() == final(state).frames@.len()
                &&& !(diff_frames(stack_view(final(state).frames@), r.1@, trees) is Short)
                &&& stack_cost(stack_view(final(state).frames@), r.1@, trees) < stack_cost(
                    frames_pre,
                    fuels_pre,
                    trees,
                )
            },
            Err(Error::ResolveFailed { oid }) => exists|budget: nat|
                diff_at(Seq::empty(), prev0, new0, trees, budget) == DiffRes::Fail(oid@),
        },
{
    let mut fr = fr;
    let _plen = fr.prev.len();
    let _nlen = fr.new.len();
    let ghost tv = frame_view(fr);
    let ghost phi = fuels_pre.last();
    let ghost rest_fuels = fuels_pre.drop_last();
    let ghost lower = diff_frames(frames_pre.drop_last(), rest_fuels, trees);
    proof {
        assert(tv.prev[0] == stream_view(fr.prev@)[fr.pi as int]);
        assert(tv.prev[0] == fr.prev@[fr.pi as int]@);
        assert(tv.new[0] == stream_view(fr.new@)[fr.ni as int]);
        assert(tv.new[0] == fr.new@[fr.ni as int]@);
        assert(tv.prev.len() != 0 && tv.new.len() != 0);
        assert(fuels_pre =~= rest_fuels.push(phi));
        assert(frames_pre.drop_last().push(tv) =~= frames_pre);
        lemma_frames_push(frames_pre.drop_last(), rest_fuels, tv, phi, trees);
        assert(diff_frames(frames_pre, fuels_pre, trees) == chain(
            diff_at(tv.prefix, tv.prev, tv.new, trees, phi),
            lower,
        ));
        assert(!(diff_at(tv.prefix, tv.prev, tv.new, trees, phi) is Short));
        assert(stack_cost(frames_pre, fuels_pre, trees) == cost_at(tv.prev, tv.new, trees, phi)
            + 1 + stack_cost(frames_pre.drop_last(), rest_fuels, trees));
        lemma_name_lt_trichotomy(tv.prev[0].name, tv.new[0].name);
    }
    let pmode = fr.prev[fr.pi].mode;
    let poid = fr.prev[fr.pi].oid;
    let nmode = fr.new[fr.ni].mode;
    let noid = fr.new[fr.ni].oid;
    if pmode == nmode && poid == noid {
        // identical on both sides: prune the whole subtree
        fr.pi = fr.pi + 1;
        fr.ni = fr.ni + 1;
        let ghost tv2 = frame_view(fr);
        proof {
            assert(tv2.prev =~= tv.prev.drop_first());
            assert(tv2.new =~= tv.new.drop_first());
            lemma_unfold_pair_same(tv.prefix, tv.prev, tv.new, trees);
            lemma_refine_step_nochild(
                frames_pre,
                trees,
                prev0,
                new0,
                emitted_pre,
                Seq::<ChangeV>::empty(),
                tv2,
            );
            assert(emitted_pre + Seq::<ChangeV>::empty() =~= emitted_pre);
            lemma_short_step_nochild(
                Seq::<ChangeV>::empty(),
                diff_at(tv2.prefix, tv2.prev, tv2.new, trees, phi),
                lower,
            );
            assert(cost_pair(tv.prev[0], tv.new[0], trees, phi) == 2);
            assert(cost_at(tv.prev, tv.new, trees, phi) == 2 + cost_at(
                tv2.prev,
                tv2.new,
                trees,
                phi,
            ));
        }
        state.frames.push(fr);
        proof {
            assert(stack_view(state.frames@) =~= frames_pre.drop_last().push(tv2));
            lemma_frames_push(frames_pre.drop_last(), rest_fuels, tv2, phi, trees);
            assert(diff_frames(stack_view(state.frames@), fuels_pre, trees) == chain(
                diff_at(tv2.prefix, tv2.prev, tv2.new, trees, phi),
                lower,
            ));
            assert(stack_cost(stack_view(state.frames@), fuels_pre, trees) < stack_cost(
                frames_pre,
                fuels_pre,
                trees,
            ));
        }
        return (Ok(()), Ghost(fuels_pre));
    }
    let p_tree = pmode.is_tree();
    let n_tree = nmode.is_tree();
    if p_tree != n_tree {
        // container-ness flipped: deletion, addition, then the new subtree
        let path = join_path(&fr.prefix, &fr.new[fr.ni].filename);
        let path2 = join_path(&fr.prefix, &fr.new[fr.ni].filename);
        let ghost dv = ChangeV::Deletion {
            entry_mode: tv.prev[0].mode,
            oid: tv.prev[0].oid,
            path: pjoin(tv.prefix, tv.new[0].name),
        };
        let ghost av = ChangeV::Addition {
            entry_mode: tv.new[0].mode,
            oid: tv.new[0].oid,
            path: pjoin(tv.prefix, tv.new[0].name),
        };
        delegate.record(Change::Deletion { entry_mode: pmode, oid: poid, path });
        delegate.record(Change::Addition { entry_mode: nmode, oid: noid, path: path2 });
        proof {
            assert(delegate.recorded().take(rec0.len() as int) =~= rec0);
            assert(delegate.recorded().skip(rec0.len() as int) =~= emitted_pre + seq![dv, av]);
        }
        if n_tree {
            let child_prefix = join_path(&fr.prefix, &fr.new[fr.ni].filename);
            match resolver.resolve(&noid) {
                Some(t) => {
                    fr.pi = fr.pi + 1;
                    fr.ni = fr.ni + 1;
                    let ghost tv2 = frame_view(fr);
                    let child = Frame {
                        prefix: child_prefix,
                        prev: Vec::new(),
                        pi: 0,
                        new: t.entries,
                        ni: 0,
                    };
                    let ghost cw = frame_view(child);
                    proof {
                        assert(tv2.prev =~= tv.prev.drop_first());
                        assert(tv2.new =~= tv.new.drop_first());
                        assert(cw.new =~= trees[tv.new[0].oid]);
                        assert(cw.prev =~= Seq::<EntryV>::empty());
                        assert(cw.prefix == pjoin(tv.prefix, tv.new[0].name));
                        if phi == 0 {
                            assert(side_changes(tv.prefix, tv.new[0], trees, 0, false)
                                == DiffRes::Short);
                            assert(pair_changes(tv.prefix, tv.prev[0], tv.new[0], trees, 0)
                                == DiffRes::Short);
                            assert(false);
                        }
                        lemma_unfold_pair_flip_tree(tv.prefix, tv.prev, tv.new, trees);
                        lemma_refine_step_child(
                            frames_pre,
                            trees,
                            prev0,
                            new0,
                            emitted_pre,
                            seq![dv, av],
                            tv2,
                            cw,
                        );
                        lemma_short_step_child(
                            seq![dv, av],
                            diff_at(cw.prefix, cw.prev, cw.new, trees, (phi - 1) as nat),
                            diff_at(tv2.prefix, tv2.prev, tv2.new, trees, phi),
                            lower,
                        );
                        assert(cost_side(tv.new[0], trees, phi, false) == 2 + cost_at(
                            cw.prev,
                            cw.new,
                            trees,
                            (phi - 1) as nat,
                        ));
                        assert(cost_pair(tv.prev[0], tv.new[0], trees, phi) == 1 + cost_side(
                            tv.new[0],
                            trees,
                            phi,
                            false,
                        ));
                        assert(cost_at(tv.prev, tv.new, trees, phi) == cost_pair(
                            tv.prev[0],
                            tv.new[0],
                            trees,
                            phi,
                        ) + cost_at(tv2.prev, tv2.new, trees, phi));
                    }
                    state.frames.push(fr);
                    state.frames.push(child);
                    let ghost fuels = fuels_pre.push((phi - 1) as nat);
                    proof {
                        assert(stack_view(state.frames@) =~= frames_pre.drop_last().push(
                            tv2,
                        ).push(cw));
                        lemma_frames_push(frames_pre.drop_last(), rest_fuels, tv2, phi, trees);
                        lemma_frames_push(
                            frames_pre.drop_last().push(tv2),
                            rest_fuels.push(phi),
                            cw,
                            (phi - 1) as nat,
                            trees,
                        );
                        assert(rest_fuels.push(phi).push((phi - 1) as nat) =~= fuels);
                        assert(diff_frames(stack_view(state.frames@), fuels, trees) == chain(
                            diff_at(cw.prefix, cw.prev, cw.new, trees, (phi - 1) as nat),
                            chain(
                                diff_at(tv2.prefix, tv2.prev, tv2.new, trees, phi),
                                lower,
                            ),
                        ));
                        assert(stack_cost(stack_view(state.frames@), fuels, trees) < stack_cost(
                            frames_pre,
                            fuels_pre,
                            trees,
                        ));
                    }
                    (Ok(()), Ghost(fuels))
                },
                None => {
                    proof {
                        lemma_unfold_pair_flip_tree_fail(tv.prefix, tv.prev, tv.new, trees);
                        lemma_refine_fail(
                            frames_pre,
                            trees,
                            prev0,
                            new0,
                            emitted_pre,
                            tv.new[0].oid,
                            1,
                        );
                    }
                    (Err(Error::ResolveFailed { oid: noid }), Ghost(fuels_pre))
                },
            }
        } else {
            fr.pi = fr.pi + 1;
            fr.ni = fr.ni + 1;
            let ghost tv2 = frame_view(fr);
            proof {
                assert(tv2.prev =~= tv.prev.drop_first());
                assert(tv2.new =~= tv.new.drop_first());
                lemma_unfold_pair_flip_leaf(tv.prefix, tv.prev, tv.new, trees);
                lemma_refine_step_nochild(
                    frames_pre,
                    trees,
                    prev0,
                    new0,
                    emitted_pre,
                    seq![dv, av],
                    tv2,
                );
                lemma_short_step_nochild(
                    seq![dv, av],
                    diff_at(tv2.prefix, tv2.prev, tv2.new, trees, phi),
                    lower,
                );
                assert(cost_side(tv.new[0], trees, phi, false) == 2);
                assert(cost_pair(tv.prev[0], tv.new[0], trees, phi) == 3);
                assert(cost_at(tv.prev, tv.new, trees, phi) == 3 + cost_at(
                    tv2.prev,
                    tv2.new,
                    trees,
                    phi,
                ));
            }
            state.frames.push(fr);
            proof {
                assert(stack_view(state.frames@) =~= frames_pre.drop_last().push(tv2));
                lemma_frames_push(frames_pre.drop_last(), rest_fuels, tv2, phi, trees);
                assert(diff_frames(stack_view(state.frames@), fuels_pre, trees) == chain(
                    diff_at(tv2.prefix, tv2.prev, tv2.new, trees, phi),
                    lower,
                ));
                assert(stack_cost(stack_view(state.frames@), fuels_pre, trees) < stack_cost(
                    frames_pre,
                    fuels_pre,
                    trees,
                ));
            }
            (Ok(()), Ghost(fuels_pre))
        }
    } else {
        let path = join_path(&fr.prefix, &fr.new[fr.ni].filename);
        let ghost cv = ChangeV::Modification {
            previous_entry_mode: tv.prev[0].mode,
            previous_oid: tv.prev[0].oid,
            entry_mode: tv.new[0].mode,
            oid: tv.new[0].oid,
            path: pjoin(tv.prefix, tv.new[0].name),
        };
        delegate.record(
            Change::Modification {
                previous_entry_mode: pmode,
                previous_oid: poid,
                entry_mode: nmode,
                oid: noid,
                path,
            },
        );
        proof {
            assert(delegate.recorded().take(rec0.len() as int) =~= rec0);
            assert(delegate.recorded().skip(rec0.len() as int) =~= emitted_pre + seq![cv]);
        }
        if p_tree {
            // both sides are trees: nested changes follow the modification
            let child_prefix = join_path(&fr.prefix, &fr.new[fr.ni].filename);
            let tp = match resolver.resolve(&poid) {
                Some(t) => t,
                None => {
                    proof {
                        lemma_unfold_pair_trees_fail(
                            tv.prefix,
                            tv.prev,
                            tv.new,
                            trees,
                            tv.prev[0].oid,
                        );
                        lemma_refine_fail(
                            frames_pre,
                            trees,
                            prev0,
                            new0,
                            emitted_pre,
                            tv.prev[0].oid,
                            1,
                        );
                    }
                    return (Err(Error::ResolveFailed { oid: poid }), Ghost(fuels_pre));
                },
            };
            let tn = match resolver.resolve(&noid) {
                Some(t) => t,
                None => {
                    proof {
                        lemma_unfold_pair_trees_fail(
                            tv.prefix,
                            tv.prev,
                            tv.new,
                            trees,
                            tv.new[0].oid,
                        );
                        lemma_refine_fail(
                            frames_pre,
                            trees,
                            prev0,
                            new0,
                            emitted_pre,
                            tv.new[0].oid,
                            1,
                        );
                    }
                    return (Err(Error::ResolveFailed { oid: noid }), Ghost(fuels_pre));
                },
            };
            fr.pi = fr.pi + 1;
            fr.ni = fr.ni + 1;
            let ghost tv2 = frame_view(fr);
            let child = Frame {
                prefix: child_prefix,
                prev: tp.entries,
                pi: 0,
                new: tn.entries,
                ni: 0,
            };
            let ghost cw = frame_view(child);
            proof {
                assert(tv2.prev =~= tv.prev.drop_first());
                assert(tv2.new =~= tv.new.drop_first());
                assert(cw.prev =~= trees[tv.prev[0].oid]);
                assert(cw.new =~= trees[tv.new[0].oid]);
                assert(cw.prefix == pjoin(tv.prefix, tv.new[0].name));
                if phi == 0 {
                    assert(pair_changes(tv.prefix, tv.prev[0], tv.new[0], trees, 0)
                        == DiffRes::Short);
                    assert(false);
                }
                lemma_unfold_pair_trees(tv.prefix, tv.prev, tv.new, trees);
                lemma_refine_step_child(
                    frames_pre,
                    trees,
                    prev0,
                    new0,
                    emitted_pre,
                    seq![cv],
                    tv2,
                    cw,
                );
                lemma_short_step_child(
                    seq![cv],
                    diff_at(cw.prefix, cw.prev, cw.new, trees, (phi - 1) as nat),
                    diff_at(tv2.prefix, tv2.prev, tv2.new, trees, phi),
                    lower,
                );
                assert(cost_pair(tv.prev[0], tv.new[0], trees, phi) == 2 + cost_at(
                    cw.prev,
                    cw.new,
                    trees,
                    (phi - 1) as nat,
                ));
                assert(cost_at(tv.prev, tv.new, trees, phi) == cost_pair(
                    tv.prev[0],
                    tv.new[0],
                    trees,
                    phi,
                ) + cost_at(tv2.prev, tv2.new, trees, phi));
            }
            state.frames.push(fr);
            state.frames.push(child);
            let ghost fuels = fuels_pre.push((phi - 1) as nat);
            proof {
                assert(stack_view(state.frames@) =~= frames_pre.drop_last().push(tv2).push(
                    cw,
                ));
                lemma_frames_push(frames_pre.drop_last(), rest_fuels, tv2, phi, trees);
                lemma_frames_push(
                    frames_pre.drop_last().push(tv2),
                    rest_fuels.push(phi),
                    cw,
                    (phi - 1) as nat,
                    trees,
                );
                assert(rest_fuels.push(phi).push((phi - 1) as nat) =~= fuels);
                assert(diff_frames(stack_view(state.frames@), fuels, trees) == chain(
                    diff_at(cw.prefix, cw.prev, cw.new, trees, (phi - 1) as nat),
                    chain(diff_at(tv2.prefix, tv2.prev, tv2.new, trees, phi), lower),
                ));
                assert(stack_cost(stack_view(state.frames@), fuels, trees) < stack_cost(
                    frames_pre,
                    fuels_pre,
                    trees,
                ));
            }
            (Ok(()), Ghost(fuels))
        } else {
            fr.pi = fr.pi + 1;
            fr.ni = fr.ni + 1;
            let ghost tv2 = frame_view(fr);
            proof {
                assert(tv2.prev =~= tv.prev.drop_first());
                assert(tv2.new =~= tv.new.drop_first());
                lemma_unfold_pair_leaf(tv.prefix, tv.prev, tv.new, trees);
                lemma_refine_step_nochild(
                    frames_pre,
                    trees,
                    prev0,
                    new0,
                    emitted_pre,
                    seq![cv],
                    tv2,
                );
                lemma_short_step_nochild(
                    seq![cv],
                    diff_at(tv2.prefix, tv2.prev, tv2.new, trees, phi),
                    lower,
                );
                assert(cost_pair(tv.prev[0], tv.new[0], trees, phi) == 2);
                assert(cost_at(tv.prev, tv.new, trees, phi) == 2 + cost_at(
                    tv2.prev,
                    tv2.new,
                    trees,
                    phi,
                ));
            }
            state.frames.push(fr);
            proof {
                assert(stack_view(state.frames@) =~= frames_pre.drop_last().push(tv2));
                lemma_frames_push(frames_pre.drop_last(), rest_fuels, tv2, phi, trees);
                assert(diff_frames(stack_view(state.frames@), fuels_pre, trees) == chain(
                    diff_at(tv2.prefix, tv2.prev, tv2.new, trees, phi),
                    lower,
                ));
                assert(stack_cost(stack_view(state.frames@), fuels_pre, trees) < stack_cost(
                    frames_pre,
                    fuels_pre,
                    trees,
                ));
            }
            (Ok(()), Ghost(fuels_pre))
        }
    }
}


/// Whether two byte strings hold the same bytes.
fn bytes_eq(a: &[u8], b: &[u8]) -> (r: bool)
    ensures
        r == (a@ == b@),
{
    if a.len() != b.len() {
        return false;
    }
    let mut i: usize = 0;
    while i < a.len()
        invariant
            0 <= i <= a@.len(),
            a@.len() == b@.len(),
            forall|j: int| 0 <= j < i ==> a@[j] == b@[j],
        decreases a@.len() - i,
    {
        if a[i] != b[i] {
            return false;
        }
        i = i + 1;
    }
    proof {
        assert(a@ =~= b@);
    }
    true
}

impl PartialEq for Change {
    fn eq(&self, other: &Change) -> (r: bool) {
        match (self, other) {
            (
                Change::Addition { entry_mode: m1, oid: o1, path: p1 },
                Change::Addition { entry_mode: m2, oid: o2, path: p2 },
            ) => *m1 == *m2 && *o1 == *o2 && bytes_eq(p1.as_slice(), p2.as_slice()),
            (
                Change::Deletion { entry_mode: m1, oid: o1, path: p1 },
                Change::Deletion { entry_mode: m2, oid: o2, path: p2 },
            ) => *m1 == *m2 && *o1 == *o2 && bytes_eq(p1.as_slice(), p2.as_slice()),
            (
                Change::Modification {
                    previous_entry_mode: q1,
                    previous_oid: b1,
                    entry_mode: m1,
                    oid: o1,
                    path: p1,
                },
                Change::Modification {
                    previous_entry_mode: q2,
                    previous_oid: b2,
                    entry_mode: m2,
                    oid: o2,
                    path: p2,
                },
            ) => *q1 == *q2 && *b1 == *b2 && *m1 == *m2 && *o1 == *o2 && bytes_eq(
                p1.as_slice(),
                p2.as_slice(),
            ),
            _ => false,
        }
    }
}

impl vstd::std_specs::cmp::PartialEqSpecImpl for Change {
    open spec fn obeys_eq_spec() -> bool {
        true
    }

    open spec fn eq_spec(&self, other: &Change) -> bool {
        self@ == other@
    }
}

} // verus!
