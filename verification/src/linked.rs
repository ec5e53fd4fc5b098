//! The linked (overlay) object store: an ordered list of compound databases
//! searched in priority order.
//!
//! The first database reporting presence settles resolution — later ones are
//! never consulted, even if they also hold the identifier (shadowing, not
//! merging).  The first definite error aborts resolution: corruption is
//! never masked as absence.  No database holding the identifier is a normal
//! "not found" outcome.

use vstd::prelude::*;

use crate::cache::DecodeEntry;
use crate::compound;
use crate::diff::Resolver;
use crate::object::Kind;
use crate::tree::parse_tree;
use crate::tree::spec_parse_tree;
use crate::tree::EntryV;
use crate::tree::Tree;
use crate::compound::Located;
use crate::compound::LooseOrPack;
use crate::compound::Error;
use crate::hash::ObjectId;

verus! {

/// The position of the first database holding `id`, if any.
pub open spec fn spec_first_db(dbs: Seq<compound::Db>, id: Seq<u8>) -> Option<int>
    decreases dbs.len(),
{
    if dbs.len() == 0 {
        None
    } else if dbs[0].spec_present(id) {
        Some(0)
    } else {
        match spec_first_db(dbs.drop_first(), id) {
            Some(i) => Some(i + 1),
            None => None,
        }
    }
}

/// A database that holds `id`, preceded by ones that do not, is the first.
pub proof fn lemma_first_db_at(dbs: Seq<compound::Db>, id: Seq<u8>, at: int)
    requires
        0 <= at < dbs.len(),
        dbs[at].spec_present(id),
        forall|j: int| 0 <= j < at ==> !(#[trigger] dbs[j]).spec_present(id),
    ensures
        spec_first_db(dbs, id) == Some(at),
    decreases at,
{
    if at > 0 {
        lemma_first_db_at(dbs.drop_first(), id, at - 1);
    }
}

/// Where no database holds `id`, none is first.
pub proof fn lemma_first_db_none(dbs: Seq<compound::Db>, id: Seq<u8>)
    requires
        forall|j: int| 0 <= j < dbs.len() ==> !(#[trigger] dbs[j]).spec_present(id),
    ensures
        spec_first_db(dbs, id) is None,
    decreases dbs.len(),
{
    if dbs.len() > 0 {
        lemma_first_db_none(dbs.drop_first(), id);
    }
}

/// An ordered list of compound databases; the first registered has the
/// highest priority, modeling alternates.
pub struct Db {
    pub dbs: Vec<compound::Db>,
}

impl Db {
    /// Every pack anywhere in the store carries its own cache identity, and
    /// each location is itself well formed.
    pub open spec fn wf(self) -> bool {
        &&& forall|i: int|
            0 <= i < self.dbs@.len() ==> (#[trigger] self.dbs@[i]).wf()
        &&& forall|a: int, b: int, c: int, d: int|
            0 <= a < self.dbs@.len() && 0 <= b < self.dbs@[a].packs@.len() && 0 <= c
                < self.dbs@.len() && 0 <= d < self.dbs@[c].packs@.len() && (a != c || b != d)
                ==> #[trigger] self.dbs@[a].packs@[b].pack_id != #[trigger] self.dbs@[c].packs@[d].pack_id
    }

    /// Whether a cache agrees with every pack of every database.
    pub open spec fn coherent(self, m: Map<(u64, u64), (Kind, Seq<u8>)>) -> bool {
        forall|i: int|
            0 <= i < self.dbs@.len() ==> (#[trigger] self.dbs@[i]).coherent(m)
    }

    /// What resolving `id` against the whole overlay yields: the first
    /// database holding `id` decides alone.
    pub open spec fn spec_locate(self, id: Seq<u8>) -> Located {
        match spec_first_db(self.dbs@, id) {
            None => Located::Missing,
            Some(i) => self.dbs@[i].spec_locate(id),
        }
    }

    /// One admissible cache change by one pack keeps the whole store
    /// coherent, because every pack owns its identity.
    proof fn lemma_coherent_preserved(
        self,
        dbi: int,
        pj: int,
        pre: Map<(u64, u64), (Kind, Seq<u8>)>,
        post: Map<(u64, u64), (Kind, Seq<u8>)>,
    )
        requires
            self.wf(),
            self.coherent(pre),
            0 <= dbi < self.dbs@.len(),
            0 <= pj < self.dbs@[dbi].packs@.len(),
            self.dbs@[dbi].packs@[pj].cache_extended(pre, post),
        ensures
            self.coherent(post),
    {
        let p = self.dbs@[dbi].packs@[pj];
        assert forall|i: int| 0 <= i < self.dbs@.len() implies (
        #[trigger] self.dbs@[i]).coherent(post) by {
            let db = self.dbs@[i];
            assert forall|j: int| 0 <= j < db.packs@.len() implies (
            #[trigger] db.packs@[j]).coherent(post) by {
                let q = db.packs@[j];
                assert forall|k: (u64, u64)|
                    #[trigger] post.contains_key(k) && k.0 == q.pack_id implies q.spec_decode(
                    k.1,
                    crate::pack::MAX_DELTA_DEPTH as nat,
                ) == Ok::<_, crate::pack::Error>(post[k]) by {
                    if i == dbi && j == pj {
                        if !(k.0 == p.pack_id && p.spec_decode(
                            k.1,
                            crate::pack::MAX_DELTA_DEPTH as nat,
                        ) == Ok::<_, crate::pack::Error>(post[k])) {
                            assert(pre.contains_key(k) && post[k] == pre[k]);
                            assert(q.coherent(pre));
                        }
                    } else {
                        // a different pack: its identity differs from p's
                        assert(q.pack_id != p.pack_id);
                        assert(pre.contains_key(k) && post[k] == pre[k]);
                        assert(q.coherent(pre));
                    }
                }
            }
        }
    }

    /// Finds the object `id` and stores its decoded bytes in full in the
    /// provided `buffer`, searching every contained database in priority
    /// order.  Uses `pack_cache` to cut repeated delta-chain work; the no-op
    /// cache [`crate::cache::Never`] disables caching.
    ///
    /// Returns the kind on success (the bytes stand in `buffer` until its
    /// next reuse), `None` where no database holds `id`, and the corruption
    /// met where one does but cannot decode it.
    pub fn locate<C: DecodeEntry>(
        &self,
        id: &ObjectId,
        buffer: &mut Vec<u8>,
        pack_cache: &mut C,
    ) -> (r: Result<Option<Kind>, Error>)
        requires
            self.wf(),
            self.coherent(old(pack_cache).contents()),
        ensures
            self.coherent(final(pack_cache).contents()),
            match r {
                Ok(None) => self.spec_locate(id@) is Missing,
                Ok(Some(k)) => self.spec_locate(id@) == Located::Found(k, final(buffer)@),
                Err(e) => self.spec_locate(id@) == Located::Corrupt(e),
            },
    {
        let mut i: usize = 0;
        while i < self.dbs.len()
            invariant
                0 <= i <= self.dbs@.len(),
                self.wf(),
                self.coherent(pack_cache.contents()),
                pack_cache.contents() == old(pack_cache).contents(),
                forall|j: int| 0 <= j < i ==> !(#[trigger] self.dbs@[j]).spec_present(id@),
            decreases self.dbs@.len() - i,
        {
            match self.dbs[i].internal_locate(id) {
                Err(e) => {
                    proof {
                        assert(self.dbs@[i as int].spec_present(id@));
                        lemma_first_db_at(self.dbs@, id@, i as int);
                    }
                    return Err(e);
                },
                Ok(Some(LooseOrPack::Loose(k, d))) => {
                    proof {
                        assert(self.dbs@[i as int].spec_present(id@));
                        lemma_first_db_at(self.dbs@, id@, i as int);
                    }
                    *buffer = d;
                    return Ok(Some(k));
                },
                Ok(Some(LooseOrPack::Packed(pi, off))) => {
                    proof {
                        assert(self.dbs@[i as int].spec_present(id@));
                        lemma_first_db_at(self.dbs@, id@, i as int);
                    }
                    let ghost pre = pack_cache.contents();
                    match self.dbs[i].internal_get_packed_object_by_index(pi, off, pack_cache) {
                        Ok(kd) => {
                            proof {
                                self.lemma_coherent_preserved(
                                    i as int,
                                    pi as int,
                                    pre,
                                    pack_cache.contents(),
                                );
                            }
                            let (k, d) = kd;
                            *buffer = d;
                            return Ok(Some(k));
                        },
                        Err(pe) => {
                            proof {
                                self.lemma_coherent_preserved(
                                    i as int,
                                    pi as int,
                                    pre,
                                    pack_cache.contents(),
                                );
                            }
                            return Err(Error::Pack(pe));
                        },
                    }
                },
                Ok(None) => {},
            }
            i = i + 1;
        }
        proof {
            lemma_first_db_none(self.dbs@, id@);
        }
        Ok(None)
    }
}

/// Given an identifier held by the store's first database, resolution
/// completes there with that database's own outcome, whatever any
/// lower-priority database holds: earlier backends shadow later ones.
pub proof fn lemma_locate_shadowing(db: Db, id: Seq<u8>, at: int)
    requires
        0 <= at < db.dbs@.len(),
        db.dbs@[at].spec_present(id),
        forall|j: int| 0 <= j < at ==> !(#[trigger] db.dbs@[j]).spec_present(id),
    ensures
        db.spec_locate(id) == db.dbs@[at].spec_locate(id),
{
    lemma_first_db_at(db.dbs@, id, at);
}

/// Absence is not corruption: an identifier held by no database resolves to
/// "missing", a normal outcome, never an error.
pub proof fn lemma_locate_absent(db: Db, id: Seq<u8>)
    requires
        forall|j: int| 0 <= j < db.dbs@.len() ==> !(#[trigger] db.dbs@[j]).spec_present(id),
    ensures
        db.spec_locate(id) is Missing,
{
    lemma_first_db_none(db.dbs@, id);
}

/// Corruption is not absence: where the deciding database holds `id` but
/// cannot decode it, resolution reports the corruption, never "missing".
pub proof fn lemma_locate_corruption(db: Db, id: Seq<u8>, at: int, e: Error)
    requires
        0 <= at < db.dbs@.len(),
        db.dbs@[at].spec_present(id),
        forall|j: int| 0 <= j < at ==> !(#[trigger] db.dbs@[j]).spec_present(id),
        db.dbs@[at].spec_locate(id) == Located::Corrupt(e),
    ensures
        db.spec_locate(id) == Located::Corrupt(e),
        !(db.spec_locate(id) is Missing),
{
    lemma_first_db_at(db.dbs@, id, at);
}


impl Db {
    /// The trees this store can hand a diff traversal: every identifier
    /// that resolves to a tree object whose payload parses.
    pub open spec fn spec_trees(self) -> Map<Seq<u8>, Seq<EntryV>> {
        Map::new(
            |id: Seq<u8>|
                match self.spec_locate(id) {
                    Located::Found(k, d) => k == Kind::Tree && spec_parse_tree(d) is Some,
                    _ => false,
                },
            |id: Seq<u8>|
                match self.spec_locate(id) {
                    Located::Found(k, d) => match spec_parse_tree(d) {
                        Some(t) => t,
                        None => Seq::empty(),
                    },
                    _ => Seq::empty(),
                },
        )
    }
}

/// The resolve capability of a linked store: fetches subtrees on demand for
/// the diff engine, reusing one scratch buffer and one decode cache across
/// calls.  Absence, a non-tree object, a malformed payload and a store
/// error all come back as `None` — the traversal then fails rather than
/// guess.
pub struct StoreResolver<'a, C: DecodeEntry> {
    pub db: &'a Db,
    pub cache: C,
    pub buf: Vec<u8>,
}

impl<'a, C: DecodeEntry> Resolver for StoreResolver<'a, C> {
    open spec fn trees(&self) -> Map<Seq<u8>, Seq<EntryV>> {
        self.db.spec_trees()
    }

    open spec fn inv(&self) -> bool {
        self.db.wf() && self.db.coherent(self.cache.contents())
    }

    fn resolve(&mut self, id: &ObjectId) -> (r: Option<Tree>) {
        match self.db.locate(id, &mut self.buf, &mut self.cache) {
            Ok(Some(Kind::Tree)) => match parse_tree(self.buf.as_slice()) {
                Some(t) => {
                    proof {
                        assert(self.db.spec_trees().contains_key(id@));
                        assert(self.db.spec_trees()[id@] == t@);
                    }
                    Some(t)
                },
                None => {
                    proof {
                        assert(!self.db.spec_trees().contains_key(id@));
                    }
                    None
                },
            },
            Ok(Some(_)) => {
                proof {
                    assert(!self.db.spec_trees().contains_key(id@));
                }
                None
            },
            Ok(None) => {
                proof {
                    assert(!self.db.spec_trees().contains_key(id@));
                }
                None
            },
            Err(_) => {
                proof {
                    assert(!self.db.spec_trees().contains_key(id@));
                }
                None
            },
        }
    }
}

} // verus!
