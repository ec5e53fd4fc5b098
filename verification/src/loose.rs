//! The loose backend: one stored object per identifier.
//!
//! Presence of an identifier is presence of its slot; decoding the stored
//! bytes happens on lookup and may fail, which the store reports as
//! corruption, never as absence.

use vstd::prelude::*;

use crate::hash::ObjectId;

verus! {

/// One loose object: an identifier and the stored bytes under it.
#[derive(Clone, Debug)]
pub struct LooseObject {
    pub oid: ObjectId,
    pub bytes: Vec<u8>,
}

/// The stored bytes under the first slot holding `id`, if any.
pub open spec fn spec_loose_find(objs: Seq<LooseObject>, id: Seq<u8>) -> Option<Seq<u8>>
    decreases objs.len(),
{
    if objs.len() == 0 {
        None
    } else if objs[0].oid@ == id {
        Some(objs[0].bytes@)
    } else {
        spec_loose_find(objs.drop_first(), id)
    }
}

/// A loose object database: every object stored individually.
#[derive(Clone, Debug)]
pub struct Db {
    pub objects: Vec<LooseObject>,
}

impl Db {
    /// The stored bytes under `id`, if present.
    pub open spec fn spec_find(self, id: Seq<u8>) -> Option<Seq<u8>> {
        spec_loose_find(self.objects@, id)
    }

    /// Looks the stored bytes of `id` up.
    pub fn lookup(&self, id: &ObjectId) -> (r: Option<&Vec<u8>>)
        ensures
            match r {
                Some(v) => self.spec_find(id@) == Some(v@),
                None => self.spec_find(id@) is None,
            },
    {
        let mut i: usize = 0;
        proof {
            assert(self.objects@.skip(0) =~= self.objects@);
        }
        while i < self.objects.len()
            invariant
                0 <= i <= self.objects@.len(),
                self.spec_find(id@) == spec_loose_find(self.objects@.skip(i as int), id@),
            decreases self.objects@.len() - i,
        {
            proof {
                assert(self.objects@.skip(i as int)[0] == self.objects@[i as int]);
                assert(self.objects@.skip(i as int).drop_first() =~= self.objects@.skip(
                    i + 1,
                ));
            }
            if self.objects[i].oid == *id {
                return Some(&self.objects[i].bytes);
            }
            i = i + 1;
        }
        proof {
            assert(self.objects@.skip(i as int).len() == 0);
        }
        None
    }
}

} // verus!
