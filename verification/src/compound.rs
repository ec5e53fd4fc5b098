//! One physical location of objects: a loose database overlaid with any
//! number of packs.
//!
//! A compound database reports, per identifier, one of: found loose, found
//! packed (naming the pack and offset), not found, or a corruption error.
//! It never guesses: decode failures are errors, not absence.

use vstd::prelude::*;

use crate::cache::DecodeEntry;
use crate::hash::ObjectId;
use crate::loose;
use crate::object::spec_decode_loose;
use crate::object::Kind;
use crate::object::decode_loose;
use crate::pack::spec_index_lookup;
use crate::pack::Pack;
use crate::pack::MAX_DELTA_DEPTH;

verus! {

/// A corruption met while resolving one identifier.
#[derive(Clone, Copy, PartialEq, Eq, Structural, Debug)]
pub enum Error {
    /// The stored loose bytes are not a well-formed loose object.
    LooseCorrupt,
    /// A pack could not reconstruct the entry.
    Pack(crate::pack::Error),
}

/// Where a present identifier was found.
pub enum LooseOrPack {
    /// Found loose, already decoded.
    Loose(Kind, Vec<u8>),
    /// Found in the pack with the given position, at the given offset.
    Packed(usize, u64),
}

/// The outcome of resolving one identifier against a store.
pub ghost enum Located {
    /// No backend holds the identifier: a normal, non-error outcome.
    Missing,
    /// The identifier resolves to an object of this kind with these bytes.
    Found(Kind, Seq<u8>),
    /// The identifier is present but its object cannot be reconstructed.
    Corrupt(Error),
}

/// The position of the first pack whose index holds `id`, if any.
pub open spec fn spec_first_pack(packs: Seq<Pack>, id: Seq<u8>) -> Option<int>
    decreases packs.len(),
{
    if packs.len() == 0 {
        None
    } else if packs[0].spec_has(id) {
        Some(0)
    } else {
        match spec_first_pack(packs.drop_first(), id) {
            Some(i) => Some(i + 1),
            None => None,
        }
    }
}

/// A pack that holds `id`, preceded by packs that do not, is the first.
proof fn lemma_first_pack_at(packs: Seq<Pack>, id: Seq<u8>, at: int)
    requires
        0 <= at < packs.len(),
        packs[at].spec_has(id),
        forall|j: int| 0 <= j < at ==> !(#[trigger] packs[j]).spec_has(id),
    ensures
        spec_first_pack(packs, id) == Some(at),
    decreases at,
{
    if at > 0 {
        lemma_first_pack_at(packs.drop_first(), id, at - 1);
    }
}

/// Where no pack holds `id`, none is first.
proof fn lemma_first_pack_none(packs: Seq<Pack>, id: Seq<u8>)
    requires
        forall|j: int| 0 <= j < packs.len() ==> !(#[trigger] packs[j]).spec_has(id),
    ensures
        spec_first_pack(packs, id) is None,
    decreases packs.len(),
{
    if packs.len() > 0 {
        lemma_first_pack_none(packs.drop_first(), id);
    }
}

/// A loose database overlaid with packs: one physical location.
pub struct Db {
    pub loose: loose::Db,
    pub packs: Vec<Pack>,
}

impl Db {
    /// Packs of one location carry pairwise distinct cache identities.
    pub open spec fn wf(self) -> bool {
        forall|a: int, b: int|
            0 <= a < self.packs@.len() && 0 <= b < self.packs@.len() && a != b ==> (
            #[trigger] self.packs@[a]).pack_id != (#[trigger] self.packs@[b]).pack_id
    }

    /// Whether some backend of this location holds `id`.
    pub open spec fn spec_present(self, id: Seq<u8>) -> bool {
        self.loose.spec_find(id) is Some || spec_first_pack(self.packs@, id) is Some
    }

    /// What resolving `id` against this location alone yields: the loose
    /// store shadows the packs; the first pack holding `id` shadows later
    /// ones; decode failures are corruption.
    pub open spec fn spec_locate(self, id: Seq<u8>) -> Located {
        match self.loose.spec_find(id) {
            Some(bytes) => match spec_decode_loose(bytes) {
                Some(kd) => Located::Found(kd.0, kd.1),
                None => Located::Corrupt(Error::LooseCorrupt),
            },
            None => match spec_first_pack(self.packs@, id) {
                None => Located::Missing,
                Some(pi) => match spec_index_lookup(self.packs@[pi].index@, id) {
                    None => Located::Missing,
                    Some(off) => match self.packs@[pi].spec_decode(off, MAX_DELTA_DEPTH as nat) {
                        Ok(kd) => Located::Found(kd.0, kd.1),
                        Err(e) => Located::Corrupt(Error::Pack(e)),
                    },
                },
            },
        }
    }

    /// Whether a cache agrees with every pack of this location.
    pub open spec fn coherent(self, m: Map<(u64, u64), (Kind, Seq<u8>)>) -> bool {
        forall|j: int|
            0 <= j < self.packs@.len() ==> (#[trigger] self.packs@[j]).coherent(m)
    }

    /// Reports where `id` is held in this location, without touching any
    /// pack entry: loose objects are decoded at once, packed ones are named
    /// by pack position and offset.
    pub(crate) fn internal_locate(&self, id: &ObjectId) -> (r: Result<Option<LooseOrPack>, Error>)
        ensures
            match r {
                Ok(Some(LooseOrPack::Loose(k, d))) => self.spec_locate(id@) == Located::Found(
                    k,
                    d@,
                ),
                Ok(Some(LooseOrPack::Packed(pi, off))) => {
                    &&& self.loose.spec_find(id@) is None
                    &&& 0 <= pi < self.packs@.len()
                    &&& spec_first_pack(self.packs@, id@) == Some(pi as int)
                    &&& spec_index_lookup(self.packs@[pi as int].index@, id@) == Some(off)
                },
                Ok(None) => !self.spec_present(id@),
                Err(e) => self.spec_locate(id@) == Located::Corrupt(e),
            },
    {
        match self.loose.lookup(id) {
            Some(bytes) => match decode_loose(bytes.as_slice()) {
                Some(kd) => Ok(Some(LooseOrPack::Loose(kd.0, kd.1))),
                None => Err(Error::LooseCorrupt),
            },
            None => {
                let mut i: usize = 0;
                while i < self.packs.len()
                    invariant
                        0 <= i <= self.packs@.len(),
                        self.loose.spec_find(id@) is None,
                        forall|j: int| 0 <= j < i ==> !(#[trigger] self.packs@[j]).spec_has(
                            id@,
                        ),
                    decreases self.packs@.len() - i,
                {
                    match self.packs[i].lookup_index(id) {
                        Some(off) => {
                            proof {
                                lemma_first_pack_at(self.packs@, id@, i as int);
                            }
                            return Ok(Some(LooseOrPack::Packed(i, off)));
                        },
                        None => {},
                    }
                    i = i + 1;
                }
                proof {
                    lemma_first_pack_none(self.packs@, id@);
                }
                Ok(None)
            },
        }
    }

    /// Reconstructs the object at the given pack position and offset,
    /// consulting and feeding the decode cache.
    pub(crate) fn internal_get_packed_object_by_index<C: DecodeEntry>(
        &self,
        pack_index: usize,
        offset: u64,
        cache: &mut C,
    ) -> (r: Result<(Kind, Vec<u8>), crate::pack::Error>)
        requires
            pack_index < self.packs@.len(),
            self.packs@[pack_index as int].coherent(old(cache).contents()),
        ensures
            match r {
                Ok(kd) => self.packs@[pack_index as int].spec_decode(
                    offset,
                    MAX_DELTA_DEPTH as nat,
                ) == Ok::<_, crate::pack::Error>((kd.0, kd.1@)),
                Err(e) => self.packs@[pack_index as int].spec_decode(
                    offset,
                    MAX_DELTA_DEPTH as nat,
                ) == Err::<(Kind, Seq<u8>), _>(e),
            },
            self.packs@[pack_index as int].cache_extended(
                old(cache).contents(),
                final(cache).contents(),
            ),
    {
        self.packs[pack_index].decode_object(offset, cache)
    }
}

} // verus!
