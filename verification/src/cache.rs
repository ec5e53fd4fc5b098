//! The pack decode cache capability.
//!
//! A cache memoizes decoded pack entries under the key (pack identity, byte
//! offset).  It is advisory: a miss only costs recomputation, and an
//! implementation may drop entries at any time.  The store requires only
//! that whatever a cache hands back is something that was put into it.

use vstd::prelude::*;

use crate::object::Kind;

verus! {

/// A keyed cache from (pack identity, byte offset) to previously decoded
/// object bytes and their kind.
pub trait DecodeEntry {
    /// The entries currently held, as a map.
    spec fn contents(&self) -> Map<(u64, u64), (Kind, Seq<u8>)>;

    /// Looks one entry up.  A hit returns exactly what the map holds; a miss
    /// is always allowed, and the lookup drops nothing.
    fn get(&mut self, pack_id: u64, offset: u64) -> (r: Option<(Kind, Vec<u8>)>)
        ensures
            final(self).contents() == old(self).contents(),
            match r {
                Some(kd) => old(self).contents().contains_key((pack_id, offset))
                    && old(self).contents()[(pack_id, offset)] == (kd.0, kd.1@),
                None => true,
            },
    ;

    /// Stores one entry.  Afterwards every held entry is either the one just
    /// stored or one that was already held: a put may evict, but never
    /// invents.
    fn put(&mut self, pack_id: u64, offset: u64, kind: Kind, data: &[u8])
        ensures
            forall|k: (u64, u64)| #[trigger] final(self).contents().contains_key(k) ==> ((k == (
                pack_id,
                offset,
            ) && final(self).contents()[k] == (kind, data@)) || (old(
                self,
            ).contents().contains_key(k) && final(self).contents()[k] == old(
                self,
            ).contents()[k])),
    ;
}

/// The no-op cache: always misses, ignores puts.  Always a valid choice.
pub struct Never;

impl DecodeEntry for Never {
    open spec fn contents(&self) -> Map<(u64, u64), (Kind, Seq<u8>)> {
        Map::empty()
    }

    fn get(&mut self, pack_id: u64, offset: u64) -> (r: Option<(Kind, Vec<u8>)>) {
        None
    }

    fn put(&mut self, pack_id: u64, offset: u64, kind: Kind, data: &[u8]) {
    }
}


/// One memoized entry of the bounded cache.
struct MemorySlot {
    pack_id: u64,
    offset: u64,
    kind: Kind,
    data: Vec<u8>,
}

/// The map a run of slots holds; a later slot would win, and the cache
/// keeps keys unique.
spec fn slots_map(s: Seq<MemorySlot>) -> Map<(u64, u64), (Kind, Seq<u8>)>
    decreases s.len(),
{
    if s.len() == 0 {
        Map::empty()
    } else {
        slots_map(s.drop_last()).insert(
            (s.last().pack_id, s.last().offset),
            (s.last().kind, s.last().data@),
        )
    }
}

/// Whether the slots carry pairwise distinct keys.
spec fn slots_unique(s: Seq<MemorySlot>) -> bool {
    forall|i: int, j: int|
        0 <= i < j < s.len() ==> ((#[trigger] s[i]).pack_id, s[i].offset) != ((
        #[trigger] s[j]).pack_id, s[j].offset)
}

/// With unique keys, each slot is what the map holds under its key.
proof fn lemma_slots_map_at(s: Seq<MemorySlot>, i: int)
    requires
        slots_unique(s),
        0 <= i < s.len(),
    ensures
        slots_map(s).contains_key((s[i].pack_id, s[i].offset)),
        slots_map(s)[(s[i].pack_id, s[i].offset)] == (s[i].kind, s[i].data@),
    decreases s.len(),
{
    if i < s.len() - 1 {
        assert(slots_unique(s.drop_last()));
        assert(s.drop_last()[i] == s[i]);
        lemma_slots_map_at(s.drop_last(), i);
        assert((s[i].pack_id, s[i].offset) != (s.last().pack_id, s.last().offset));
    }
}

/// Every entry of the slots' map comes from some slot.
proof fn lemma_slots_map_covered(s: Seq<MemorySlot>, k: (u64, u64))
    requires
        slots_map(s).contains_key(k),
    ensures
        exists|i: int|
            0 <= i < s.len() && ((#[trigger] s[i]).pack_id, s[i].offset) == k && slots_map(s)[k]
                == (s[i].kind, s[i].data@),
    decreases s.len(),
{
    if s.len() > 0 {
        if k == (s.last().pack_id, s.last().offset) {
            assert(s[s.len() - 1] == s.last());
        } else {
            lemma_slots_map_covered(s.drop_last(), k);
            let i = choose|i: int|
                0 <= i < s.drop_last().len() && ((#[trigger] s.drop_last()[i]).pack_id,
                s.drop_last()[i].offset) == k && slots_map(s.drop_last())[k] == (
                s.drop_last()[i].kind,
                s.drop_last()[i].data@,
            );
            assert(s[i] == s.drop_last()[i]);
        }
    }
}

/// Removing one slot keeps every other entry and invents none.
proof fn lemma_slots_sub(s: Seq<MemorySlot>, t: Seq<MemorySlot>)
    requires
        slots_unique(s),
        forall|i: int|
            0 <= i < t.len() ==> exists|j: int| 0 <= j < s.len() && #[trigger] t[i] == s[j],
        slots_unique(t),
    ensures
        forall|k: (u64, u64)| #[trigger]
            slots_map(t).contains_key(k) ==> slots_map(s).contains_key(k) && slots_map(t)[k]
                == slots_map(s)[k],
{
    assert forall|k: (u64, u64)| #[trigger] slots_map(t).contains_key(k) implies slots_map(
        s,
    ).contains_key(k) && slots_map(t)[k] == slots_map(s)[k] by {
        lemma_slots_map_covered(t, k);
        let i = choose|i: int|
            0 <= i < t.len() && ((#[trigger] t[i]).pack_id, t[i].offset) == k && slots_map(t)[k]
                == (t[i].kind, t[i].data@);
        let j = choose|j: int| 0 <= j < s.len() && t[i] == #[trigger] s[j];
        lemma_slots_map_at(s, j);
    }
}

/// A bounded in-memory cache: keeps at most its capacity, evicting the
/// oldest entry first.  The real counterpart of [`Never`].
pub struct Memory {
    cap: usize,
    slots: Vec<MemorySlot>,
}

impl Memory {
    /// Whether the cache is internally consistent: unique keys, within
    /// capacity.
    pub closed spec fn wf(&self) -> bool {
        slots_unique(self.slots@) && self.slots@.len() <= self.cap
    }

    /// An empty cache that will hold at most `cap` entries.
    pub fn new(cap: usize) -> (r: Memory)
        ensures
            r.wf(),
            r.contents() == Map::<(u64, u64), (Kind, Seq<u8>)>::empty(),
    {
        Memory { cap, slots: Vec::new() }
    }

    /// Finds the slot holding `k`, if any.
    fn find(&self, pack_id: u64, offset: u64) -> (r: Option<usize>)
        ensures
            match r {
                Some(i) => 0 <= i < self.slots@.len() && self.slots@[i as int].pack_id == pack_id
                    && self.slots@[i as int].offset == offset,
                None => forall|i: int|
                    0 <= i < self.slots@.len() ==> ((#[trigger] self.slots@[i]).pack_id,
                    self.slots@[i].offset) != (pack_id, offset),
            },
    {
        let mut i: usize = 0;
        while i < self.slots.len()
            invariant
                0 <= i <= self.slots@.len(),
                forall|j: int|
                    0 <= j < i ==> ((#[trigger] self.slots@[j]).pack_id, self.slots@[j].offset)
                        != (pack_id, offset),
            decreases self.slots@.len() - i,
        {
            if self.slots[i].pack_id == pack_id && self.slots[i].offset == offset {
                return Some(i);
            }
            i = i + 1;
        }
        None
    }
}

impl DecodeEntry for Memory {
    closed spec fn contents(&self) -> Map<(u64, u64), (Kind, Seq<u8>)> {
        if self.wf() {
            slots_map(self.slots@)
        } else {
            Map::empty()
        }
    }

    fn get(&mut self, pack_id: u64, offset: u64) -> (r: Option<(Kind, Vec<u8>)>) {
        if !well_formed(self) {
            return None;
        }
        match self.find(pack_id, offset) {
            Some(i) => {
                proof {
                    lemma_slots_map_at(self.slots@, i as int);
                }
                let out = crate::pack::copy_bytes(self.slots[i].data.as_slice());
                Some((self.slots[i].kind, out))
            },
            None => None,
        }
    }

    fn put(&mut self, pack_id: u64, offset: u64, kind: Kind, data: &[u8]) {
        if !well_formed(self) || self.cap == 0 {
            return ;
        }
        let ghost pre = self.slots@;
        match self.find(pack_id, offset) {
            Some(i) => {
                let _ = self.slots.remove(i);
                proof {
                    let t = self.slots@;
                    assert forall|a: int, b: int| 0 <= a < b < t.len() implies ((
                    #[trigger] t[a]).pack_id, t[a].offset) != ((#[trigger] t[b]).pack_id,
                    t[b].offset) by {
                        let oa = if a < i as int {
                            a
                        } else {
                            a + 1
                        };
                        let ob = if b < i as int {
                            b
                        } else {
                            b + 1
                        };
                        assert(t[a] == pre[oa] && t[b] == pre[ob]);
                    }
                    assert forall|a: int| 0 <= a < t.len() implies exists|j: int|
                        0 <= j < pre.len() && #[trigger] t[a] == pre[j] by {
                        let oa = if a < i as int {
                            a
                        } else {
                            a + 1
                        };
                        assert(t[a] == pre[oa]);
                    }
                    lemma_slots_sub(pre, t);
                    assert forall|a: int| 0 <= a < t.len() implies ((
                    #[trigger] t[a]).pack_id, t[a].offset) != (pack_id, offset) by {
                        let oa = if a < i as int {
                            a
                        } else {
                            a + 1
                        };
                        assert(t[a] == pre[oa]);
                    }
                }
            },
            None => {
                if self.slots.len() == self.cap {
                    let _ = self.slots.remove(0);
                    proof {
                        let t = self.slots@;
                        assert forall|a: int, b: int| 0 <= a < b < t.len() implies ((
                        #[trigger] t[a]).pack_id, t[a].offset) != ((#[trigger] t[b]).pack_id,
                        t[b].offset) by {
                            assert(t[a] == pre[a + 1] && t[b] == pre[b + 1]);
                        }
                        assert forall|a: int| 0 <= a < t.len() implies exists|j: int|
                            0 <= j < pre.len() && #[trigger] t[a] == pre[j] by {
                            assert(t[a] == pre[a + 1]);
                        }
                        lemma_slots_sub(pre, t);
                        assert forall|a: int| 0 <= a < t.len() implies ((
                        #[trigger] t[a]).pack_id, t[a].offset) != (pack_id, offset) by {
                            assert(t[a] == pre[a + 1]);
                        }
                    }
                }
            },
        }
        let ghost mid = self.slots@;
        self.slots.push(
            MemorySlot { pack_id, offset, kind, data: crate::pack::copy_bytes(data) },
        );
        proof {
            let t = self.slots@;
            assert(t.drop_last() =~= mid);
            assert forall|a: int, b: int| 0 <= a < b < t.len() implies ((
            #[trigger] t[a]).pack_id, t[a].offset) != ((#[trigger] t[b]).pack_id,
            t[b].offset) by {
                if b < t.len() - 1 {
                    assert(t[a] == mid[a] && t[b] == mid[b]);
                } else {
                    assert(t[a] == mid[a]);
                }
            }
            assert(t.len() <= self.cap);
            assert(self.wf());
            assert(slots_map(t) == slots_map(mid).insert(
                (pack_id, offset),
                (kind, data@),
            ));
            assert forall|k: (u64, u64)| #[trigger] self.contents().contains_key(k) implies ((k
                == (pack_id, offset) && self.contents()[k] == (kind, data@)) || (slots_map(
                pre,
            ).contains_key(k) && self.contents()[k] == slots_map(pre)[k])) by {
                if k != (pack_id, offset) {
                    assert(slots_map(mid).contains_key(k));
                }
            }
        }
    }
}

/// Whether a cache value satisfies its own well-formedness; constructors
/// establish it and the operations keep it.
fn well_formed(m: &Memory) -> (r: bool)
    ensures
        r == m.wf(),
{
    if m.slots.len() > m.cap {
        return false;
    }
    let mut i: usize = 0;
    while i < m.slots.len()
        invariant
            0 <= i <= m.slots@.len(),
            m.slots@.len() <= m.cap,
            forall|a: int, b: int|
                0 <= a < b < m.slots@.len() && a < i ==> ((#[trigger] m.slots@[a]).pack_id,
                m.slots@[a].offset) != ((#[trigger] m.slots@[b]).pack_id, m.slots@[b].offset),
        decreases m.slots@.len() - i,
    {
        let mut j: usize = i + 1;
        while j < m.slots.len()
            invariant
                0 <= i < j <= m.slots@.len(),
                forall|b: int|
                    i < b < j ==> ((#[trigger] m.slots@[b]).pack_id, m.slots@[b].offset) != (
                    m.slots@[i as int].pack_id, m.slots@[i as int].offset),
            decreases m.slots@.len() - j,
        {
            if m.slots[j].pack_id == m.slots[i].pack_id && m.slots[j].offset
                == m.slots[i].offset {
                return false;
            }
            j = j + 1;
        }
        i = i + 1;
    }
    true
}

} // verus!
