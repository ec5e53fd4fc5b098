//! The packed backend: an indexed archive whose entries are full objects or
//! deltas against a base entry.
//!
//! A pack's index maps identifiers to byte offsets.  The entry at an offset
//! either holds an object outright or rewrites a base entry — named by
//! offset or by identifier — through a run of copy and insert instructions.
//! Reconstruction walks the transitive base chain, bounded by
//! [`MAX_DELTA_DEPTH`]; exceeding the bound, a base that cannot be found, or
//! a copy outside its base are fatal decode errors, never silent absence.

use vstd::prelude::*;

use crate::cache::DecodeEntry;
use crate::hash::ObjectId;
use crate::object::Kind;

verus! {

/// The deepest delta chain a pack entry may need; one more hop is corruption.
pub const MAX_DELTA_DEPTH: u64 = 64;

/// What can go wrong while resolving an object inside a pack.
#[derive(Clone, Copy, PartialEq, Eq, Structural, Debug)]
pub enum Error {
    /// The index names an offset at which no entry stands.
    MissingEntry,
    /// The delta chain is longer than [`MAX_DELTA_DEPTH`].
    ChainTooDeep,
    /// A delta names a base identifier absent from the index.
    MissingBase,
    /// A copy instruction reaches outside its base object.
    BadCopy,
}

/// One rewriting instruction of a delta.
#[derive(Clone, Debug)]
pub enum DeltaOp {
    /// Copy `len` bytes of the base, starting at `from`.
    Copy { from: usize, len: usize },
    /// Insert the given bytes.
    Insert { data: Vec<u8> },
}

/// One stored pack entry.
#[derive(Clone, Debug)]
pub enum PackEntry {
    /// A full object.
    Base { kind: Kind, data: Vec<u8> },
    /// A delta whose base is the entry at the given offset.
    OfsDelta { base_offset: u64, ops: Vec<DeltaOp> },
    /// A delta whose base is the entry indexed under the given identifier.
    RefDelta { base_id: ObjectId, ops: Vec<DeltaOp> },
}

/// One slot of a pack: an entry at its byte offset.
#[derive(Clone, Debug)]
pub struct PackSlot {
    pub offset: u64,
    pub entry: PackEntry,
}

/// One line of a pack index: an identifier and the offset it maps to.
#[derive(Clone, Debug)]
pub struct IndexEntry {
    pub oid: ObjectId,
    pub offset: u64,
}

/// An indexed archive of full and delta-encoded objects.
#[derive(Clone, Debug)]
pub struct Pack {
    /// Distinguishes this pack in cache keys.
    pub pack_id: u64,
    /// Maps identifiers to entry offsets.
    pub index: Vec<IndexEntry>,
    /// The stored entries.
    pub entries: Vec<PackSlot>,
}

/// The result of rewriting `base` under the instruction run `ops`: `None`
/// where some copy reaches outside the base.
pub open spec fn spec_apply_delta(base: Seq<u8>, ops: Seq<DeltaOp>) -> Option<Seq<u8>>
    decreases ops.len(),
{
    if ops.len() == 0 {
        Some(Seq::empty())
    } else {
        let rest = spec_apply_delta(base, ops.drop_first());
        match ops[0] {
            DeltaOp::Copy { from, len } => {
                if from + len <= base.len() {
                    match rest {
                        Some(t) => Some(base.subrange(from as int, from + len) + t),
                        None => None,
                    }
                } else {
                    None
                }
            },
            DeltaOp::Insert { data } => match rest {
                Some(t) => Some(data@ + t),
                None => None,
            },
        }
    }
}

/// The first slot stored at offset `off`, if any.
pub open spec fn spec_slot_at(slots: Seq<PackSlot>, off: u64) -> Option<PackEntry>
    decreases slots.len(),
{
    if slots.len() == 0 {
        None
    } else if slots[0].offset == off {
        Some(slots[0].entry)
    } else {
        spec_slot_at(slots.drop_first(), off)
    }
}

/// The offset the index maps `id` to, if any (first line wins).
pub open spec fn spec_index_lookup(index: Seq<IndexEntry>, id: Seq<u8>) -> Option<u64>
    decreases index.len(),
{
    if index.len() == 0 {
        None
    } else if index[0].oid@ == id {
        Some(index[0].offset)
    } else {
        spec_index_lookup(index.drop_first(), id)
    }
}

impl Pack {
    /// Whether the index holds `id`.
    pub open spec fn spec_has(self, id: Seq<u8>) -> bool {
        spec_index_lookup(self.index@, id) is Some
    }

    /// The kind and bytes reconstructed for the entry at `off`, walking at
    /// most `fuel` delta hops; or the exact error met.
    pub open spec fn spec_decode(self, off: u64, fuel: nat) -> Result<(Kind, Seq<u8>), Error>
        decreases fuel,
    {
        match spec_slot_at(self.entries@, off) {
            None => Err(Error::MissingEntry),
            Some(entry) => match entry {
                PackEntry::Base { kind, data } => Ok((kind, data@)),
                PackEntry::OfsDelta { base_offset, ops } => {
                    if fuel == 0 {
                        Err(Error::ChainTooDeep)
                    } else {
                        match self.spec_decode(base_offset, (fuel - 1) as nat) {
                            Err(e) => Err(e),
                            Ok((k, base)) => match spec_apply_delta(base, ops@) {
                                Some(d) => Ok((k, d)),
                                None => Err(Error::BadCopy),
                            },
                        }
                    }
                },
                PackEntry::RefDelta { base_id, ops } => {
                    match spec_index_lookup(self.index@, base_id@) {
                        None => Err(Error::MissingBase),
                        Some(boff) => {
                            if fuel == 0 {
                                Err(Error::ChainTooDeep)
                            } else {
                                match self.spec_decode(boff, (fuel - 1) as nat) {
                                    Err(e) => Err(e),
                                    Ok((k, base)) => match spec_apply_delta(base, ops@) {
                                        Some(d) => Ok((k, d)),
                                        None => Err(Error::BadCopy),
                                    },
                                }
                            }
                        },
                    }
                },
            },
        }
    }

    /// Whether every entry the cache holds under this pack's identity is the
    /// true reconstruction at that offset.
    pub open spec fn coherent(self, m: Map<(u64, u64), (Kind, Seq<u8>)>) -> bool {
        forall|k: (u64, u64)|
            #[trigger] m.contains_key(k) && k.0 == self.pack_id ==> self.spec_decode(
                k.1,
                MAX_DELTA_DEPTH as nat,
            ) == Ok::<_, Error>(m[k])
    }

    /// How a decode may change a cache: every entry afterwards is either a
    /// true reconstruction under this pack's identity or was already there.
    pub open spec fn cache_extended(
        self,
        pre: Map<(u64, u64), (Kind, Seq<u8>)>,
        post: Map<(u64, u64), (Kind, Seq<u8>)>,
    ) -> bool {
        forall|k: (u64, u64)|
            #[trigger] post.contains_key(k) ==> ((k.0 == self.pack_id && self.spec_decode(
                k.1,
                MAX_DELTA_DEPTH as nat,
            ) == Ok::<_, Error>(post[k])) || (pre.contains_key(k) && post[k] == pre[k]))
    }

    /// Two admissible cache changes in a row are one admissible change.
    proof fn lemma_cache_extend_trans(
        self,
        a: Map<(u64, u64), (Kind, Seq<u8>)>,
        b: Map<(u64, u64), (Kind, Seq<u8>)>,
        c: Map<(u64, u64), (Kind, Seq<u8>)>,
    )
        requires
            self.cache_extended(a, b),
            self.cache_extended(b, c),
        ensures
            self.cache_extended(a, c),
    {
        assert forall|k: (u64, u64)| #[trigger] c.contains_key(k) implies ((k.0 == self.pack_id
            && self.spec_decode(k.1, MAX_DELTA_DEPTH as nat) == Ok::<_, Error>(c[k])) || (
        a.contains_key(k) && c[k] == a[k])) by {
            if !(k.0 == self.pack_id && self.spec_decode(k.1, MAX_DELTA_DEPTH as nat) == Ok::<
                _,
                Error,
            >(c[k])) {
                assert(b.contains_key(k) && c[k] == b[k]);
                assert(a.contains_key(k) && b[k] == a[k]);
            }
        }
    }

    /// One correct memoization is an admissible cache change.
    proof fn lemma_put_extends(
        self,
        b: Map<(u64, u64), (Kind, Seq<u8>)>,
        c: Map<(u64, u64), (Kind, Seq<u8>)>,
        off: u64,
        kind: Kind,
        d: Seq<u8>,
    )
        requires
            self.spec_decode(off, MAX_DELTA_DEPTH as nat) == Ok::<_, Error>((kind, d)),
            forall|k: (u64, u64)| #[trigger] c.contains_key(k) ==> ((k == (self.pack_id, off)
                && c[k] == (kind, d)) || (b.contains_key(k) && c[k] == b[k])),
        ensures
            self.cache_extended(b, c),
    {
        assert forall|k: (u64, u64)| #[trigger] c.contains_key(k) implies ((k.0 == self.pack_id
            && self.spec_decode(k.1, MAX_DELTA_DEPTH as nat) == Ok::<_, Error>(c[k])) || (
        b.contains_key(k) && c[k] == b[k])) by {
            if k == (self.pack_id, off) && c[k] == (kind, d) {
                assert(k.0 == self.pack_id && k.1 == off);
            } else {
                assert(b.contains_key(k) && c[k] == b[k]);
            }
        }
    }

    /// A reconstruction that succeeds within some fuel budget is unchanged
    /// by any larger budget.
    pub proof fn lemma_decode_fuel_mono(self, off: u64, f1: nat, f2: nat)
        requires
            f1 <= f2,
            self.spec_decode(off, f1) is Ok,
        ensures
            self.spec_decode(off, f2) == self.spec_decode(off, f1),
        decreases f1,
    {
        match spec_slot_at(self.entries@, off) {
            None => {},
            Some(entry) => match entry {
                PackEntry::Base { .. } => {},
                PackEntry::OfsDelta { base_offset, .. } => {
                    self.lemma_decode_fuel_mono(base_offset, (f1 - 1) as nat, (f2 - 1) as nat);
                },
                PackEntry::RefDelta { base_id, .. } => {
                    match spec_index_lookup(self.index@, base_id@) {
                        None => {},
                        Some(boff) => {
                            self.lemma_decode_fuel_mono(boff, (f1 - 1) as nat, (f2 - 1) as nat);
                        },
                    }
                },
            },
        }
    }

    /// Finds the slot stored at `off`.
    fn find_slot(&self, off: u64) -> (r: Option<usize>)
        ensures
            match r {
                Some(i) => 0 <= i < self.entries@.len() && spec_slot_at(self.entries@, off)
                    == Some(self.entries@[i as int].entry),
                None => spec_slot_at(self.entries@, off) is None,
            },
    {
        let mut i: usize = 0;
        proof {
            assert(self.entries@.skip(0) =~= self.entries@);
        }
        while i < self.entries.len()
            invariant
                0 <= i <= self.entries@.len(),
                spec_slot_at(self.entries@, off) == spec_slot_at(
                    self.entries@.skip(i as int),
                    off,
                ),
            decreases self.entries@.len() - i,
        {
            proof {
                assert(self.entries@.skip(i as int)[0] == self.entries@[i as int]);
                assert(self.entries@.skip(i as int).drop_first() =~= self.entries@.skip(
                    i + 1,
                ));
            }
            if self.entries[i].offset == off {
                return Some(i);
            }
            i = i + 1;
        }
        proof {
            assert(self.entries@.skip(i as int).len() == 0);
        }
        None
    }

    /// Finds the offset the index maps `id` to.
    pub(crate) fn lookup_index(&self, id: &ObjectId) -> (r: Option<u64>)
        ensures
            r == spec_index_lookup(self.index@, id@),
    {
        let mut i: usize = 0;
        proof {
            assert(self.index@.skip(0) =~= self.index@);
        }
        while i < self.index.len()
            invariant
                0 <= i <= self.index@.len(),
                spec_index_lookup(self.index@, id@) == spec_index_lookup(
                    self.index@.skip(i as int),
                    id@,
                ),
            decreases self.index@.len() - i,
        {
            proof {
                assert(self.index@.skip(i as int)[0] == self.index@[i as int]);
                assert(self.index@.skip(i as int).drop_first() =~= self.index@.skip(i + 1));
            }
            if self.index[i].oid == *id {
                return Some(self.index[i].offset);
            }
            i = i + 1;
        }
        proof {
            assert(self.index@.skip(i as int).len() == 0);
        }
        None
    }

    /// Reconstructs the entry at `off`, walking at most `fuel` delta hops
    /// and memoizing every object rebuilt along the way.
    fn decode_walk<C: DecodeEntry>(&self, off: u64, fuel: u64, cache: &mut C) -> (r: Result<
        (Kind, Vec<u8>),
        Error,
    >)
        requires
            fuel <= MAX_DELTA_DEPTH,
        ensures
            match r {
                Ok(kd) => self.spec_decode(off, fuel as nat) == Ok::<_, Error>((kd.0, kd.1@)),
                Err(e) => self.spec_decode(off, fuel as nat) == Err::<(Kind, Seq<u8>), _>(e),
            },
            self.cache_extended(old(cache).contents(), final(cache).contents()),
        decreases fuel,
    {
        let i = match self.find_slot(off) {
            Some(i) => i,
            None => {
                return Err(Error::MissingEntry);
            },
        };
        match &self.entries[i].entry {
            PackEntry::Base { kind, data } => {
                let out = copy_bytes(data.as_slice());
                let ghost pre = cache.contents();
                cache.put(self.pack_id, off, *kind, out.as_slice());
                proof {
                    self.lemma_decode_fuel_mono(off, fuel as nat, MAX_DELTA_DEPTH as nat);
                    self.lemma_put_extends(
                        pre,
                        cache.contents(),
                        off,
                        *kind,
                        out@,
                    );
                }
                Ok((*kind, out))
            },
            PackEntry::OfsDelta { base_offset, ops } => {
                if fuel == 0 {
                    return Err(Error::ChainTooDeep);
                }
                let ghost pre = cache.contents();
                let (k, base) = match self.decode_walk(*base_offset, fuel - 1, cache) {
                    Ok(kd) => kd,
                    Err(e) => {
                        return Err(e);
                    },
                };
                proof {
                    self.lemma_decode_fuel_mono(*base_offset, (fuel - 1) as nat, fuel as nat);
                }
                let out = match apply_delta(base.as_slice(), ops.as_slice()) {
                    Some(v) => v,
                    None => {
                        return Err(Error::BadCopy);
                    },
                };
                let ghost mid = cache.contents();
                cache.put(self.pack_id, off, k, out.as_slice());
                proof {
                    self.lemma_decode_fuel_mono(off, fuel as nat, MAX_DELTA_DEPTH as nat);
                    self.lemma_put_extends(mid, cache.contents(), off, k, out@);
                    self.lemma_cache_extend_trans(pre, mid, cache.contents());
                }
                Ok((k, out))
            },
            PackEntry::RefDelta { base_id, ops } => {
                let boff = match self.lookup_index(base_id) {
                    Some(b) => b,
                    None => {
                        return Err(Error::MissingBase);
                    },
                };
                if fuel == 0 {
                    return Err(Error::ChainTooDeep);
                }
                let ghost pre = cache.contents();
                let (k, base) = match self.decode_walk(boff, fuel - 1, cache) {
                    Ok(kd) => kd,
                    Err(e) => {
                        return Err(e);
                    },
                };
                proof {
                    self.lemma_decode_fuel_mono(boff, (fuel - 1) as nat, fuel as nat);
                }
                let out = match apply_delta(base.as_slice(), ops.as_slice()) {
                    Some(v) => v,
                    None => {
                        return Err(Error::BadCopy);
                    },
                };
                let ghost mid = cache.contents();
                cache.put(self.pack_id, off, k, out.as_slice());
                proof {
                    self.lemma_decode_fuel_mono(off, fuel as nat, MAX_DELTA_DEPTH as nat);
                    self.lemma_put_extends(mid, cache.contents(), off, k, out@);
                    self.lemma_cache_extend_trans(pre, mid, cache.contents());
                }
                Ok((k, out))
            },
        }
    }

    /// Reconstructs the entry at `off`, consulting the cache before any
    /// delta-chain walking and updating it after a successful decode.
    pub(crate) fn decode_object<C: DecodeEntry>(&self, off: u64, cache: &mut C) -> (r: Result<
        (Kind, Vec<u8>),
        Error,
    >)
        requires
            self.coherent(old(cache).contents()),
        ensures
            match r {
                Ok(kd) => self.spec_decode(off, MAX_DELTA_DEPTH as nat) == Ok::<_, Error>(
                    (kd.0, kd.1@),
                ),
                Err(e) => self.spec_decode(off, MAX_DELTA_DEPTH as nat) == Err::<
                    (Kind, Seq<u8>),
                    _,
                >(e),
            },
            self.cache_extended(old(cache).contents(), final(cache).contents()),
    {
        match cache.get(self.pack_id, off) {
            Some(kd) => Ok(kd),
            None => self.decode_walk(off, MAX_DELTA_DEPTH, cache),
        }
    }
}

/// Copies a byte slice into an owned vector.
pub(crate) fn copy_bytes(s: &[u8]) -> (r: Vec<u8>)
    ensures
        r@ == s@,
{
    let mut out: Vec<u8> = Vec::new();
    let mut i: usize = 0;
    while i < s.len()
        invariant
            0 <= i <= s@.len(),
            out@ =~= s@.take(i as int),
        decreases s@.len() - i,
    {
        out.push(s[i]);
        i = i + 1;
    }
    proof {
        assert(s@.take(s@.len() as int) =~= s@);
    }
    out
}

/// A run whose suffix fails to apply fails to apply whole.
proof fn lemma_apply_none_prefix(base: Seq<u8>, ops: Seq<DeltaOp>, i: int)
    requires
        0 <= i <= ops.len(),
        spec_apply_delta(base, ops.skip(i)) is None,
    ensures
        spec_apply_delta(base, ops) is None,
    decreases i,
{
    if i > 0 {
        assert(ops.skip(i - 1).drop_first() =~= ops.skip(i));
        assert(spec_apply_delta(base, ops.skip(i - 1)) is None);
        lemma_apply_none_prefix(base, ops, i - 1);
    } else {
        assert(ops.skip(0) =~= ops);
    }
}

/// Rewrites `base` under the instruction run `ops`; `None` exactly where a
/// copy instruction reaches outside the base.
pub fn apply_delta(base: &[u8], ops: &[DeltaOp]) -> (r: Option<Vec<u8>>)
    ensures
        match r {
            Some(v) => spec_apply_delta(base@, ops@) == Some(v@),
            None => spec_apply_delta(base@, ops@) is None,
        },
{
    let mut i: usize = ops.len();
    // build back to front so each step matches one unfolding
    proof {
        assert(ops@.skip(ops@.len() as int) =~= Seq::<DeltaOp>::empty());
    }
    let mut tail: Vec<u8> = Vec::new();
    while i > 0
        invariant
            0 <= i <= ops@.len(),
            spec_apply_delta(base@, ops@.skip(i as int)) == Some(tail@),
        decreases i,
    {
        i = i - 1;
        let ghost sufv = ops@.skip(i as int);
        proof {
            assert(sufv[0] == ops@[i as int]);
            assert(sufv.drop_first() =~= ops@.skip(i + 1));
        }
        match &ops[i] {
            DeltaOp::Copy { from, len } => {
                let f = *from;
                let l = *len;
                if l > base.len() || f > base.len() - l {
                    proof {
                        assert(spec_apply_delta(base@, sufv) is None);
                        lemma_apply_none_prefix(base@, ops@, i as int);
                    }
                    return None;
                }
                proof {
                    assert(base@.len() == base.len() as int);
                }
                let mut piece: Vec<u8> = Vec::new();
                let mut j: usize = 0;
                while j < l
                    invariant
                        0 <= j <= l,
                        f + l <= base@.len(),
                        base@.len() <= usize::MAX,
                        piece@ =~= base@.subrange(f as int, f + j),
                    decreases l - j,
                {
                    piece.push(base[f + j]);
                    j = j + 1;
                }
                let mut next: Vec<u8> = piece;
                let mut q: usize = 0;
                let ghost head = next@;
                while q < tail.len()
                    invariant
                        0 <= q <= tail@.len(),
                        next@ =~= head + tail@.take(q as int),
                    decreases tail@.len() - q,
                {
                    next.push(tail[q]);
                    q = q + 1;
                }
                proof {
                    assert(tail@.take(tail@.len() as int) =~= tail@);
                    assert(next@ =~= base@.subrange(f as int, f + l) + tail@);
                }
                tail = next;
            },
            DeltaOp::Insert { data } => {
                let mut next: Vec<u8> = copy_bytes(data.as_slice());
                let mut q: usize = 0;
                let ghost head = next@;
                while q < tail.len()
                    invariant
                        0 <= q <= tail@.len(),
                        next@ =~= head + tail@.take(q as int),
                    decreases tail@.len() - q,
                {
                    next.push(tail[q]);
                    q = q + 1;
                }
                proof {
                    assert(tail@.take(tail@.len() as int) =~= tail@);
                    assert(next@ =~= data@ + tail@);
                }
                tail = next;
            },
        }
    }
    proof {
        assert(ops@.skip(0) =~= ops@);
    }
    Some(tail)
}

} // verus!
