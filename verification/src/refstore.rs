//! The file-backed reference store's pure path arithmetic.
//!
//! Paths are byte strings here; listing directories and reading reference
//! files is I/O that a caller performs, filtering what it finds through
//! [`crate::validate::reference::name`].

use vstd::prelude::*;

verus! {

/// A reference store rooted at a repository's metadata directory.
pub struct Store {
    /// The directory holding `refs`, usually the repository's `.git`.
    pub base: Vec<u8>,
}

impl Store {
    /// The directory all reference files live under: `refs` below the base.
    pub fn refs_dir(&self) -> (r: Vec<u8>)
        ensures
            r@ == self.base@ + seq![47u8, 114u8, 101u8, 102u8, 115u8],
    {
        let mut out: Vec<u8> = Vec::new();
        let mut i: usize = 0;
        while i < self.base.len()
            invariant
                0 <= i <= self.base@.len(),
                out@ =~= self.base@.take(i as int),
            decreases self.base@.len() - i,
        {
            out.push(self.base[i]);
            i = i + 1;
        }
        proof {
            assert(self.base@.take(self.base@.len() as int) =~= self.base@);
        }
        out.push(47);
        out.push(114);
        out.push(101);
        out.push(102);
        out.push(115);
        proof {
            assert(out@ =~= self.base@ + seq![47u8, 114u8, 101u8, 102u8, 115u8]);
        }
        out
    }
}

} // verus!
