//! Decoded tree objects: sorted sequences of named entries.
//!
//! A tree object's payload is a run of entries, each `<mode> <name>\0<id>`,
//! where the mode is an octal token, the name is a nonempty byte string
//! without NUL, and the identifier is twenty raw bytes.  Entries are stored
//! sorted by name; the diff engine relies on that order but does not enforce
//! it.

use vstd::prelude::*;

use crate::hash::ObjectId;
use crate::object::find_byte;
use crate::object::scan_byte;

verus! {

/// The mode of one directory entry: what the named object is.
#[derive(Clone, Copy, PartialEq, Eq, Structural, Debug, Hash)]
pub enum EntryMode {
    Tree,
    Blob,
    BlobExecutable,
    Link,
    Commit,
}

impl EntryMode {
    /// Whether the entry names a subtree (a container of further entries).
    pub open spec fn spec_is_tree(self) -> bool {
        self is Tree
    }

    /// Whether the entry names a subtree.
    pub fn is_tree(&self) -> (r: bool)
        ensures
            r == self.spec_is_tree(),
    {
        match self {
            EntryMode::Tree => true,
            _ => false,
        }
    }
}

/// The octal mode token under which an entry mode is stored.
pub open spec fn spec_mode_token(m: EntryMode) -> Seq<u8> {
    match m {
        EntryMode::Tree => seq![52u8, 48u8, 48u8, 48u8, 48u8],
        EntryMode::Blob => seq![49u8, 48u8, 48u8, 54u8, 52u8, 52u8],
        EntryMode::BlobExecutable => seq![49u8, 48u8, 48u8, 55u8, 53u8, 53u8],
        EntryMode::Link => seq![49u8, 50u8, 48u8, 48u8, 48u8, 48u8],
        EntryMode::Commit => seq![49u8, 54u8, 48u8, 48u8, 48u8, 48u8],
    }
}

/// The entry mode stored under the token `s`, if any.
pub open spec fn spec_mode_of_token(s: Seq<u8>) -> Option<EntryMode> {
    if s == spec_mode_token(EntryMode::Tree) {
        Some(EntryMode::Tree)
    } else if s == spec_mode_token(EntryMode::Blob) {
        Some(EntryMode::Blob)
    } else if s == spec_mode_token(EntryMode::BlobExecutable) {
        Some(EntryMode::BlobExecutable)
    } else if s == spec_mode_token(EntryMode::Link) {
        Some(EntryMode::Link)
    } else if s == spec_mode_token(EntryMode::Commit) {
        Some(EntryMode::Commit)
    } else {
        None
    }
}

/// The mathematical shape of one directory entry.
pub ghost struct EntryV {
    pub mode: EntryMode,
    pub name: Seq<u8>,
    pub oid: Seq<u8>,
}

/// One directory entry: a mode, a name, and the identifier of the named
/// object.  The name is unique within its parent tree.
#[derive(Clone, Debug)]
pub struct TreeEntry {
    pub mode: EntryMode,
    pub filename: Vec<u8>,
    pub oid: ObjectId,
}

impl View for TreeEntry {
    type V = EntryV;

    open spec fn view(&self) -> EntryV {
        EntryV { mode: self.mode, name: self.filename@, oid: self.oid@ }
    }
}

/// Whether an entry can be stored: nonempty name free of NUL bytes.
pub open spec fn entry_storable(e: EntryV) -> bool {
    &&& e.name.len() > 0
    &&& forall|i: int| 0 <= i < e.name.len() ==> #[trigger] e.name[i] != 0
    &&& e.oid.len() == 20
}

/// A decoded tree object: its entries in stored order.
#[derive(Clone, Debug)]
pub struct Tree {
    pub entries: Vec<TreeEntry>,
}

impl View for Tree {
    type V = Seq<EntryV>;

    open spec fn view(&self) -> Seq<EntryV> {
        self.entries@.map_values(|e: TreeEntry| e@)
    }
}

/// The stored form of one entry.
pub open spec fn spec_encode_entry(e: EntryV) -> Seq<u8> {
    spec_mode_token(e.mode) + seq![32u8] + e.name + seq![0u8] + e.oid
}

/// The stored form of a run of entries.
pub open spec fn spec_encode_tree(es: Seq<EntryV>) -> Seq<u8>
    decreases es.len(),
{
    if es.len() == 0 {
        Seq::empty()
    } else {
        spec_encode_entry(es[0]) + spec_encode_tree(es.drop_first())
    }
}

/// The entries read back from a stored tree payload, or `None` where the
/// payload is malformed or truncated.
pub open spec fn spec_parse_tree(s: Seq<u8>) -> Option<Seq<EntryV>>
    decreases s.len() via spec_parse_tree_dec
{
    if s.len() == 0 {
        Some(Seq::empty())
    } else {
        match find_byte(s, 32) {
            None => None,
            Some(sp) => match spec_mode_of_token(s.take(sp)) {
                None => None,
                Some(mode) => match find_byte(s.skip(sp + 1), 0) {
                    None => None,
                    Some(z) => {
                        let name = s.subrange(sp + 1, sp + 1 + z);
                        let rest = s.skip(sp + 1 + z + 1);
                        if name.len() == 0 || rest.len() < 20 {
                            None
                        } else {
                            match spec_parse_tree(rest.skip(20)) {
                                None => None,
                                Some(t) => Some(
                                    seq![EntryV { mode, name, oid: rest.take(20) }] + t,
                                ),
                            }
                        }
                    },
                },
            },
        }
    }
}

#[via_fn]
proof fn spec_parse_tree_dec(s: Seq<u8>) {
    crate::object::lemma_find_byte_some_range(s, 32);
    if s.len() != 0 {
        match find_byte(s, 32) {
            Some(sp) => {
                crate::object::lemma_find_byte_some_range(s.skip(sp + 1), 0);
            },
            None => {},
        }
    }
}

/// Reads the mode whose token stands in `s[from..to]`.
fn parse_mode(s: &[u8], from: usize, to: usize) -> (r: Option<EntryMode>)
    requires
        from <= to <= s@.len(),
    ensures
        r == spec_mode_of_token(s@.subrange(from as int, to as int)),
{
    let n = to - from;
    let ghost part = s@.subrange(from as int, to as int);
    if n == 5 && s[from] == 52 && s[from + 1] == 48 && s[from + 2] == 48 && s[from + 3] == 48
        && s[from + 4] == 48 {
        proof {
            assert(part =~= spec_mode_token(EntryMode::Tree));
        }
        Some(EntryMode::Tree)
    } else if n == 6 && s[from] == 49 && s[from + 1] == 48 && s[from + 2] == 48 && s[from + 3]
        == 54 && s[from + 4] == 52 && s[from + 5] == 52 {
        proof {
            assert(part =~= spec_mode_token(EntryMode::Blob));
        }
        Some(EntryMode::Blob)
    } else if n == 6 && s[from] == 49 && s[from + 1] == 48 && s[from + 2] == 48 && s[from + 3]
        == 55 && s[from + 4] == 53 && s[from + 5] == 53 {
        proof {
            assert(part =~= spec_mode_token(EntryMode::BlobExecutable));
        }
        Some(EntryMode::BlobExecutable)
    } else if n == 6 && s[from] == 49 && s[from + 1] == 50 && s[from + 2] == 48 && s[from + 3]
        == 48 && s[from + 4] == 48 && s[from + 5] == 48 {
        proof {
            assert(part =~= spec_mode_token(EntryMode::Link));
        }
        Some(EntryMode::Link)
    } else if n == 6 && s[from] == 49 && s[from + 1] == 54 && s[from + 2] == 48 && s[from + 3]
        == 48 && s[from + 4] == 48 && s[from + 5] == 48 {
        proof {
            assert(part =~= spec_mode_token(EntryMode::Commit));
        }
        Some(EntryMode::Commit)
    } else {
        proof {
            if part == spec_mode_token(EntryMode::Tree) {
                assert(part.len() == 5 && part[0] == 52 && part[1] == 48 && part[2] == 48
                    && part[3] == 48 && part[4] == 48);
            }
            if part == spec_mode_token(EntryMode::Blob) {
                assert(part.len() == 6 && part[0] == 49 && part[1] == 48 && part[2] == 48
                    && part[3] == 54 && part[4] == 52 && part[5] == 52);
            }
            if part == spec_mode_token(EntryMode::BlobExecutable) {
                assert(part.len() == 6 && part[0] == 49 && part[1] == 48 && part[2] == 48
                    && part[3] == 55 && part[4] == 53 && part[5] == 53);
            }
            if part == spec_mode_token(EntryMode::Link) {
                assert(part.len() == 6 && part[0] == 49 && part[1] == 50 && part[2] == 48
                    && part[3] == 48 && part[4] == 48 && part[5] == 48);
            }
            if part == spec_mode_token(EntryMode::Commit) {
                assert(part.len() == 6 && part[0] == 49 && part[1] == 54 && part[2] == 48
                    && part[3] == 48 && part[4] == 48 && part[5] == 48);
            }
        }
        None
    }
}

/// Reads the entries of a stored tree payload; returns `None` exactly where
/// the payload is not a well-formed run of entries.
#[verifier::rlimit(100)]
pub fn parse_tree(s: &[u8]) -> (r: Option<Tree>)
    ensures
        match r {
            Some(t) => spec_parse_tree(s@) == Some(t@),
            None => spec_parse_tree(s@) is None,
        },
{
    let mut out: Vec<TreeEntry> = Vec::new();
    let mut pos: usize = 0;
    proof {
        assert(s@.skip(0) =~= s@);
        match spec_parse_tree(s@) {
            Some(t) => {
                assert(Seq::<TreeEntry>::empty().map_values(|e: TreeEntry| e@) + t =~= t);
            },
            None => {},
        }
    }
    while pos < s.len()
        invariant
            0 <= pos <= s@.len(),
            match spec_parse_tree(s@.skip(pos as int)) {
                Some(t) => spec_parse_tree(s@) == Some(
                    out@.map_values(|e: TreeEntry| e@) + t,
                ),
                None => spec_parse_tree(s@) is None,
            },
        decreases s@.len() - pos,
    {
        let ghost suf = s@.skip(pos as int);
        let sp = scan_byte(s, pos, 32);
        if sp == s.len() {
            proof {
                assert(spec_parse_tree(suf) is None);
            }
            return None;
        }
        let mode = match parse_mode(s, pos, sp) {
            Some(m) => m,
            None => {
                proof {
                    assert(suf.take(sp - pos) =~= s@.subrange(pos as int, sp as int));
                }
                return None;
            },
        };
        proof {
            assert(suf.take(sp - pos) =~= s@.subrange(pos as int, sp as int));
        }
        let z = scan_byte(s, sp + 1, 0);
        proof {
            assert(suf.skip(sp - pos + 1) =~= s@.skip(sp + 1));
        }
        if z == s.len() {
            return None;
        }
        let ghost zrel = z - (sp + 1);
        let ghost name = suf.subrange(sp - pos + 1, sp - pos + 1 + zrel);
        let ghost rest = suf.skip(sp - pos + 1 + zrel + 1);
        proof {
            assert(name =~= s@.subrange(sp + 1, z as int));
            assert(rest =~= s@.skip(z + 1));
        }
        if z == sp + 1 {
            // empty name
            return None;
        }
        if s.len() - (z + 1) < 20 {
            // truncated identifier
            return None;
        }
        proof {
            assert(s@.len() == s.len() as int);
        }
        let mut id_bytes: [u8; 20] = [0u8; 20];
        let mut k: usize = 0;
        while k < 20
            invariant
                0 <= k <= 20,
                z + 21 <= s@.len(),
                s@.len() <= usize::MAX,
                forall|j: int| 0 <= j < k ==> id_bytes@[j] == s@[z + 1 + j],
            decreases 20 - k,
        {
            id_bytes[k] = s[z + 1 + k];
            k = k + 1;
        }
        let oid = ObjectId::from_bytes(id_bytes);
        proof {
            assert(oid@ =~= rest.take(20));
        }
        let mut fname: Vec<u8> = Vec::new();
        let mut q: usize = sp + 1;
        while q < z
            invariant
                sp + 1 <= q <= z <= s@.len(),
                fname@ =~= s@.subrange(sp + 1, q as int),
            decreases z - q,
        {
            fname.push(s[q]);
            q = q + 1;
        }
        proof {
            assert(fname@ =~= name);
        }
        let entry = TreeEntry { mode, filename: fname, oid };
        let ghost oldout = out@;
        out.push(entry);
        let newpos = z + 1 + 20;
        proof {
            assert(rest.skip(20) =~= s@.skip(newpos as int));
            let e = EntryV { mode, name, oid: rest.take(20) };
            assert(entry@ == e);
            assert(spec_parse_tree(suf) == (match spec_parse_tree(rest.skip(20)) {
                None => None::<Seq<EntryV>>,
                Some(t) => Some(seq![e] + t),
            }));
            match spec_parse_tree(s@.skip(newpos as int)) {
                Some(t) => {
                    assert(spec_parse_tree(suf) == Some(seq![e] + t));
                    assert(oldout.map_values(|x: TreeEntry| x@) + (seq![e] + t)
                        =~= out@.map_values(|x: TreeEntry| x@) + t);
                },
                None => {
                    assert(spec_parse_tree(suf) is None);
                },
            }
        }
        pos = newpos;
    }
    proof {
        assert(s@.skip(pos as int) =~= Seq::<u8>::empty());
        assert(out@.map_values(|e: TreeEntry| e@) + Seq::<EntryV>::empty() =~= out@.map_values(
            |e: TreeEntry| e@,
        ));
    }
    Some(Tree { entries: out })
}

/// Writes the stored form of a run of entries.
pub fn encode_tree(t: &Tree) -> (r: Vec<u8>)
    requires
        forall|i: int| 0 <= i < t@.len() ==> entry_storable(#[trigger] t@[i]),
    ensures
        r@ == spec_encode_tree(t@),
{
    let mut out: Vec<u8> = Vec::new();
    let mut i: usize = 0;
    proof {
        assert(t@.skip(0) =~= t@);
        assert(Seq::<u8>::empty() + spec_encode_tree(t@) =~= spec_encode_tree(t@));
    }
    while i < t.entries.len()
        invariant
            0 <= i <= t.entries@.len(),
            t@.len() == t.entries@.len(),
            spec_encode_tree(t@) == out@ + spec_encode_tree(t@.skip(i as int)),
        decreases t.entries@.len() - i,
    {
        let ghost pre = out@;
        let e = &t.entries[i];
        push_mode_token(e.mode, &mut out);
        out.push(32);
        let mut q: usize = 0;
        let ghost withmode = out@;
        while q < e.filename.len()
            invariant
                0 <= q <= e.filename@.len(),
                out@ == withmode + e.filename@.take(q as int),
            decreases e.filename@.len() - q,
        {
            out.push(e.filename[q]);
            q = q + 1;
            proof {
                assert(withmode + e.filename@.take(q - 1) + seq![e.filename@[q - 1]]
                    =~= withmode + e.filename@.take(q as int));
            }
        }
        proof {
            assert(e.filename@.take(e.filename@.len() as int) =~= e.filename@);
        }
        out.push(0);
        let hx = e.oid.as_bytes();
        let mut w: usize = 0;
        let ghost withname = out@;
        while w < hx.len()
            invariant
                0 <= w <= hx@.len(),
                out@ == withname + hx@.take(w as int),
            decreases hx@.len() - w,
        {
            out.push(hx[w]);
            w = w + 1;
            proof {
                assert(withname + hx@.take(w - 1) + seq![hx@[w - 1]] =~= withname + hx@.take(
                    w as int,
                ));
            }
        }
        proof {
            assert(hx@.take(hx@.len() as int) =~= hx@);
            assert(out@ =~= pre + spec_encode_entry(t@[i as int]));
            assert(t@.skip(i as int).drop_first() =~= t@.skip(i + 1));
            assert(spec_encode_tree(t@.skip(i as int)) == spec_encode_entry(t@[i as int])
                + spec_encode_tree(t@.skip(i + 1)));
            assert(pre + (spec_encode_entry(t@[i as int]) + spec_encode_tree(t@.skip(i + 1)))
                =~= out@ + spec_encode_tree(t@.skip(i + 1)));
        }
        i = i + 1;
    }
    proof {
        assert(t@.skip(t@.len() as int) =~= Seq::<EntryV>::empty());
        assert(out@ + Seq::<u8>::empty() =~= out@);
    }
    out
}

/// Appends the mode token of `m` to `out`.
fn push_mode_token(m: EntryMode, out: &mut Vec<u8>)
    ensures
        final(out)@ == old(out)@ + spec_mode_token(m),
{
    match m {
        EntryMode::Tree => {
            out.push(52);
            out.push(48);
            out.push(48);
            out.push(48);
            out.push(48);
        },
        EntryMode::Blob => {
            out.push(49);
            out.push(48);
            out.push(48);
            out.push(54);
            out.push(52);
            out.push(52);
        },
        EntryMode::BlobExecutable => {
            out.push(49);
            out.push(48);
            out.push(48);
            out.push(55);
            out.push(53);
            out.push(53);
        },
        EntryMode::Link => {
            out.push(49);
            out.push(50);
            out.push(48);
            out.push(48);
            out.push(48);
            out.push(48);
        },
        EntryMode::Commit => {
            out.push(49);
            out.push(54);
            out.push(48);
            out.push(48);
            out.push(48);
            out.push(48);
        },
    }
    proof {
        assert(out@ =~= old(out)@ + spec_mode_token(m));
    }
}

} // verus!
