//! Object kinds and the loose-object encoding.
//!
//! A loose object is stored as a header naming its kind and payload size,
//! a NUL byte, and the payload: `<kind> <decimal size>\0<data>`.  Decoding
//! verifies the header; any malformed or truncated input is rejected, which
//! the store surfaces as corruption rather than absence.

use vstd::prelude::*;

verus! {

/// The kind tag of a decoded object.
#[derive(Clone, Copy, PartialEq, Eq, Structural, Debug, Hash)]
pub enum Kind {
    Tree,
    Blob,
    Commit,
    Tag,
}

/// The header name of an object kind.
pub open spec fn spec_kind_name(k: Kind) -> Seq<u8> {
    match k {
        Kind::Tree => seq![116u8, 114u8, 101u8, 101u8],
        Kind::Blob => seq![98u8, 108u8, 111u8, 98u8],
        Kind::Commit => seq![99u8, 111u8, 109u8, 109u8, 105u8, 116u8],
        Kind::Tag => seq![116u8, 97u8, 103u8],
    }
}

/// The kind whose header name is `s`, if any.
pub open spec fn spec_kind_of_name(s: Seq<u8>) -> Option<Kind> {
    if s == spec_kind_name(Kind::Tree) {
        Some(Kind::Tree)
    } else if s == spec_kind_name(Kind::Blob) {
        Some(Kind::Blob)
    } else if s == spec_kind_name(Kind::Commit) {
        Some(Kind::Commit)
    } else if s == spec_kind_name(Kind::Tag) {
        Some(Kind::Tag)
    } else {
        None
    }
}

/// The shortest decimal spelling of `n`, most significant digit first.
pub open spec fn spec_dec(n: nat) -> Seq<u8>
    decreases n,
{
    if n < 10 {
        seq![(48 + n) as u8]
    } else {
        spec_dec(n / 10).push((48 + n % 10) as u8)
    }
}

/// Whether `s` is a canonical decimal spelling: nonempty, digits only,
/// no superfluous leading zero.
pub open spec fn spec_is_dec(s: Seq<u8>) -> bool {
    &&& s.len() >= 1
    &&& forall|i: int| 0 <= i < s.len() ==> 48 <= #[trigger] s[i] && s[i] <= 57
    &&& (s[0] != 48 || s.len() == 1)
}

/// The number spelled by the digit sequence `s`.
pub open spec fn spec_dec_val(s: Seq<u8>) -> nat
    decreases s.len(),
{
    if s.len() == 0 {
        0
    } else {
        spec_dec_val(s.drop_last()) * 10 + (s.last() - 48) as nat
    }
}

/// The index of the first occurrence of `b` in `s`, if any.
pub open spec fn find_byte(s: Seq<u8>, b: u8) -> Option<int>
    decreases s.len(),
{
    if s.len() == 0 {
        None
    } else if s[0] == b {
        Some(0)
    } else {
        match find_byte(s.drop_first(), b) {
            Some(i) => Some(i + 1),
            None => None,
        }
    }
}

/// The stored form of an object of kind `k` with payload `data`.
pub open spec fn spec_encode_loose(k: Kind, data: Seq<u8>) -> Seq<u8> {
    spec_kind_name(k) + seq![32u8] + spec_dec(data.len()) + seq![0u8] + data
}

/// The kind and payload read back from a stored loose object, or `None`
/// where the header is malformed or the payload truncated or oversized.
pub open spec fn spec_decode_loose(s: Seq<u8>) -> Option<(Kind, Seq<u8>)> {
    match find_byte(s, 32) {
        None => None,
        Some(sp) => match spec_kind_of_name(s.take(sp)) {
            None => None,
            Some(kind) => match find_byte(s.skip(sp + 1), 0) {
                None => None,
                Some(z) => {
                    let digits = s.subrange(sp + 1, sp + 1 + z);
                    let data = s.skip(sp + 1 + z + 1);
                    if spec_is_dec(digits) && spec_dec_val(digits) == data.len() {
                        Some((kind, data))
                    } else {
                        None
                    }
                },
            },
        },
    }
}

/// Appends the decimal spelling of `n` to `out`.
fn push_dec(n: usize, out: &mut Vec<u8>)
    ensures
        final(out)@ == old(out)@ + spec_dec(n as nat),
    decreases n,
{
    if n < 10 {
        out.push(48 + n as u8);
    } else {
        push_dec(n / 10, out);
        out.push(48 + (n % 10) as u8);
    }
}

/// Appends the header name of `k` to `out`.
fn push_kind_name(k: Kind, out: &mut Vec<u8>)
    ensures
        final(out)@ == old(out)@ + spec_kind_name(k),
{
    match k {
        Kind::Tree => {
            out.push(116);
            out.push(114);
            out.push(101);
            out.push(101);
        },
        Kind::Blob => {
            out.push(98);
            out.push(108);
            out.push(111);
            out.push(98);
        },
        Kind::Commit => {
            out.push(99);
            out.push(111);
            out.push(109);
            out.push(109);
            out.push(105);
            out.push(116);
        },
        Kind::Tag => {
            out.push(116);
            out.push(97);
            out.push(103);
        },
    }
    proof {
        assert(out@ =~= old(out)@ + spec_kind_name(k));
    }
}

/// Writes the stored form of an object: kind name, payload size, NUL,
/// payload.
pub fn encode_loose(k: Kind, data: &[u8]) -> (r: Vec<u8>)
    ensures
        r@ == spec_encode_loose(k, data@),
{
    let mut out: Vec<u8> = Vec::new();
    push_kind_name(k, &mut out);
    out.push(32);
    push_dec(data.len(), &mut out);
    out.push(0);
    let mut i: usize = 0;
    let ghost head = out@;
    while i < data.len()
        invariant
            0 <= i <= data@.len(),
            out@ == head + data@.take(i as int),
        decreases data@.len() - i,
    {
        out.push(data[i]);
        i = i + 1;
        proof {
            assert(head + data@.take(i - 1) + seq![data@[i - 1]] =~= head + data@.take(
                i as int,
            ));
        }
    }
    proof {
        assert(data@.take(data@.len() as int) =~= data@);
        assert(out@ =~= spec_encode_loose(k, data@));
    }
    out
}

/// The index of the first occurrence of `b` at or after `from`, or the
/// slice's length if there is none, reported against `find_byte` on the
/// suffix starting at `from`.
pub(crate) fn scan_byte(s: &[u8], from: usize, b: u8) -> (r: usize)
    requires
        from <= s@.len(),
    ensures
        from <= r <= s@.len(),
        r < s@.len() ==> find_byte(s@.skip(from as int), b) == Some(r - from) && s@[r as int]
            == b,
        r == s@.len() ==> find_byte(s@.skip(from as int), b) is None,
{
    let mut i: usize = from;
    while i < s.len()
        invariant
            from <= i <= s@.len(),
            forall|j: int| from <= j < i ==> s@[j] != b,
        decreases s@.len() - i,
    {
        if s[i] == b {
            proof {
                lemma_find_byte_at(s@, from as int, i as int, b);
            }
            return i;
        }
        i = i + 1;
    }
    proof {
        lemma_find_byte_none(s@, from as int, b);
    }
    s.len()
}

/// A found byte lies inside the sequence and matches.
pub proof fn lemma_find_byte_some_range(s: Seq<u8>, b: u8)
    ensures
        match find_byte(s, b) {
            Some(i) => 0 <= i < s.len() && s[i] == b,
            None => true,
        },
    decreases s.len(),
{
    if s.len() != 0 && s[0] != b {
        lemma_find_byte_some_range(s.drop_first(), b);
    }
}

/// `find_byte` finds exactly the first position whose byte matches.
proof fn lemma_find_byte_at(s: Seq<u8>, from: int, at: int, b: u8)
    requires
        0 <= from <= at < s.len(),
        s[at] == b,
        forall|j: int| from <= j < at ==> s[j] != b,
    ensures
        find_byte(s.skip(from), b) == Some(at - from),
    decreases at - from,
{
    let suf = s.skip(from);
    if at == from {
        assert(suf[0] == b);
    } else {
        assert(suf[0] != b);
        lemma_find_byte_at(s, from + 1, at, b);
        assert(suf.drop_first() =~= s.skip(from + 1));
    }
}

/// `find_byte` reports absence exactly where no byte matches.
proof fn lemma_find_byte_none(s: Seq<u8>, from: int, b: u8)
    requires
        0 <= from <= s.len(),
        forall|j: int| from <= j < s.len() ==> s[j] != b,
    ensures
        find_byte(s.skip(from), b) is None,
    decreases s.len() - from,
{
    let suf = s.skip(from);
    if suf.len() != 0 {
        assert(suf[0] != b);
        lemma_find_byte_none(s, from + 1, b);
        assert(suf.drop_first() =~= s.skip(from + 1));
    }
}

/// Reads the kind whose header name stands in `s[from..to]`.
fn parse_kind(s: &[u8], from: usize, to: usize) -> (r: Option<Kind>)
    requires
        from <= to <= s@.len(),
    ensures
        r == spec_kind_of_name(s@.subrange(from as int, to as int)),
{
    let n = to - from;
    let ghost part = s@.subrange(from as int, to as int);
    if n == 4 && s[from] == 116 && s[from + 1] == 114 && s[from + 2] == 101 && s[from + 3]
        == 101 {
        proof {
            assert(part =~= spec_kind_name(Kind::Tree));
        }
        Some(Kind::Tree)
    } else if n == 4 && s[from] == 98 && s[from + 1] == 108 && s[from + 2] == 111 && s[from + 3]
        == 98 {
        proof {
            assert(part =~= spec_kind_name(Kind::Blob));
        }
        Some(Kind::Blob)
    } else if n == 6 && s[from] == 99 && s[from + 1] == 111 && s[from + 2] == 109 && s[from + 3]
        == 109 && s[from + 4] == 105 && s[from + 5] == 116 {
        proof {
            assert(part =~= spec_kind_name(Kind::Commit));
        }
        Some(Kind::Commit)
    } else if n == 3 && s[from] == 116 && s[from + 1] == 97 && s[from + 2] == 103 {
        proof {
            assert(part =~= spec_kind_name(Kind::Tag));
        }
        Some(Kind::Tag)
    } else {
        proof {
            if part == spec_kind_name(Kind::Tree) {
                assert(part.len() == 4 && part[0] == 116 && part[1] == 114 && part[2] == 101
                    && part[3] == 101);
            }
            if part == spec_kind_name(Kind::Blob) {
                assert(part.len() == 4 && part[0] == 98 && part[1] == 108 && part[2] == 111
                    && part[3] == 98);
            }
            if part == spec_kind_name(Kind::Commit) {
                assert(part.len() == 6 && part[0] == 99 && part[1] == 111 && part[2] == 109
                    && part[3] == 109 && part[4] == 105 && part[5] == 116);
            }
            if part == spec_kind_name(Kind::Tag) {
                assert(part.len() == 3 && part[0] == 116 && part[1] == 97 && part[2] == 103);
            }
        }
        None
    }
}

/// Reads back the kind and payload of a stored loose object; returns `None`
/// exactly where the stored bytes are not a well-formed loose object.
#[verifier::rlimit(60)]
pub fn decode_loose(s: &[u8]) -> (r: Option<(Kind, Vec<u8>)>)
    ensures
        match r {
            Some(kd) => spec_decode_loose(s@) == Some((kd.0, kd.1@)),
            None => spec_decode_loose(s@) is None,
        },
{
    let sp = scan_byte(s, 0, 32);
    proof {
        assert(s@.skip(0) =~= s@);
    }
    if sp == s.len() {
        return None;
    }
    let kind = match parse_kind(s, 0, sp) {
        Some(k) => k,
        None => {
            proof {
                assert(s@.subrange(0, sp as int) =~= s@.take(sp as int));
            }
            return None;
        },
    };
    proof {
        assert(s@.subrange(0, sp as int) =~= s@.take(sp as int));
    }
    let z = scan_byte(s, sp + 1, 0);
    if z == s.len() {
        return None;
    }
    // digits stand in s[sp + 1 .. z], payload in s[z + 1 ..]
    let ghost digits = s@.subrange(sp + 1, z as int);
    let ghost data = s@.skip(z + 1);
    proof {
        assert(digits =~= s@.subrange(sp as int + 1, sp as int + 1 + (z - (sp + 1))));
        assert(data =~= s@.skip(sp as int + 1 + (z - (sp + 1)) + 1));
    }
    if z == sp + 1 {
        // empty size field
        return None;
    }
    if s[sp + 1] == 48 && z > sp + 2 {
        // leading zero
        proof {
            assert(digits.len() == z - (sp + 1));
            assert(digits[0] == s@[sp + 1]);
            assert(digits[0] == 48 && digits.len() >= 2);
            assert(!spec_is_dec(digits));
        }
        return None;
    }
    // read the decimal size, watching for overflow
    proof {
        assert(spec_decode_loose(s@) == (if spec_is_dec(digits) && spec_dec_val(digits)
            == data.len() {
            Some((kind, data))
        } else {
            None::<(Kind, Seq<u8>)>
        }));
    }
    let payload_len = s.len() - (z + 1);
    let mut v: usize = 0;
    let mut i: usize = sp + 1;
    let mut over: bool = false;
    while i < z
        invariant
            sp + 1 <= i <= z < s@.len(),
            digits == s@.subrange(sp + 1, z as int),
            data == s@.skip(z + 1),
            payload_len == data.len(),
            spec_decode_loose(s@) == (if spec_is_dec(digits) && spec_dec_val(digits)
                == data.len() {
                Some((kind, data))
            } else {
                None::<(Kind, Seq<u8>)>
            }),
            forall|j: int| sp + 1 <= j < i ==> 48 <= #[trigger] s@[j] && s@[j] <= 57,
            !over ==> v == spec_dec_val(s@.subrange(sp + 1, i as int)),
            over ==> spec_dec_val(s@.subrange(sp + 1, i as int)) > usize::MAX,
        decreases z - i,
    {
        let c = s[i];
        if c < 48 || c > 57 {
            proof {
                assert(digits[i - (sp + 1)] == c);
            }
            return None;
        }
        let ghost pre = s@.subrange(sp + 1, i as int);
        let ghost cur = s@.subrange(sp + 1, i + 1 as int);
        proof {
            assert(cur.drop_last() =~= pre);
            assert(cur.last() == c);
        }
        if over || v > (usize::MAX - (c - 48) as usize) / 10 {
            proof {
                if !over {
                    assert(spec_dec_val(cur) == v * 10 + (c - 48) as nat);
                    assert(v * 10 + (c - 48) as nat > usize::MAX) by (nonlinear_arith)
                        requires
                            v > (usize::MAX - (c - 48) as usize) / 10,
                            48 <= c <= 57,
                    ;
                }
            }
            over = true;
        } else {
            v = v * 10 + (c - 48) as usize;
        }
        i = i + 1;
    }
    proof {
        assert(s@.subrange(sp + 1, z as int) =~= digits);
        assert(spec_is_dec(digits));
    }
    if over {
        proof {
            assert(data.len() <= usize::MAX);
        }
        return None;
    }
    if v != payload_len {
        return None;
    }
    // copy the payload out
    let mut out: Vec<u8> = Vec::new();
    let mut k: usize = z + 1;
    while k < s.len()
        invariant
            z + 1 <= k <= s@.len(),
            out@ =~= s@.subrange(z + 1, k as int),
        decreases s@.len() - k,
    {
        out.push(s[k]);
        k = k + 1;
    }
    proof {
        assert(out@ =~= data);
    }
    Some((kind, out))
}


/// The decimal spelling is canonical and spells its number.
proof fn lemma_dec_canonical(n: nat)
    ensures
        spec_dec(n).len() >= 1,
        forall|i: int|
            0 <= i < spec_dec(n).len() ==> 48 <= #[trigger] spec_dec(n)[i] && spec_dec(n)[i]
                <= 57,
        spec_dec_val(spec_dec(n)) == n,
        n >= 10 ==> spec_dec(n)[0] != 48,
        n < 10 ==> spec_dec(n) == seq![(48 + n) as u8],
        spec_is_dec(spec_dec(n)),
    decreases n,
{
    if n < 10 {
        let d = spec_dec(n);
        assert(d == seq![(48 + n) as u8]);
        assert(d.drop_last() =~= Seq::<u8>::empty());
        assert(spec_dec_val(d) == spec_dec_val(d.drop_last()) * 10 + (d.last() - 48) as nat);
    } else {
        lemma_dec_canonical(n / 10);
        let s = spec_dec(n / 10);
        let d = spec_dec(n);
        assert(d == s.push((48 + n % 10) as u8));
        assert(d.drop_last() =~= s);
        assert(d[0] == s[0]);
        assert(spec_dec_val(d) == spec_dec_val(s) * 10 + (n % 10));
        assert((n / 10) * 10 + n % 10 == n) by {
            assert(n == 10 * (n / 10) + n % 10);
        }
    }
}

/// Storing an object and reading it back gives the object back: the loose
/// encoding loses nothing.
pub proof fn lemma_loose_round_trip(k: Kind, data: Seq<u8>)
    ensures
        spec_decode_loose(spec_encode_loose(k, data)) == Some((k, data)),
{
    let name = spec_kind_name(k);
    let dec = spec_dec(data.len());
    let s = spec_encode_loose(k, data);
    lemma_dec_canonical(data.len());
    // the first space closes the kind name
    assert forall|j: int| 0 <= j < name.len() implies s[j] != 32 by {
        assert(s[j] == name[j]);
    }
    assert(s[name.len() as int] == 32);
    lemma_find_byte_at(s, 0, name.len() as int, 32);
    assert(s.skip(0) =~= s);
    assert(s.take(name.len() as int) =~= name);
    assert(spec_kind_of_name(name) == Some(k)) by {
        match k {
            Kind::Tree => {},
            Kind::Blob => {
                assert(name != spec_kind_name(Kind::Tree));
            },
            Kind::Commit => {
                assert(name.len() != spec_kind_name(Kind::Tree).len());
                assert(name.len() != spec_kind_name(Kind::Blob).len());
            },
            Kind::Tag => {
                assert(name.len() != spec_kind_name(Kind::Tree).len());
                assert(name.len() != spec_kind_name(Kind::Blob).len());
                assert(name.len() != spec_kind_name(Kind::Commit).len());
            },
        }
    }
    // the first NUL closes the size field
    let sp = name.len() as int;
    assert forall|j: int| sp + 1 <= j < sp + 1 + dec.len() implies s[j] != 0 by {
        assert(s[j] == dec[j - (sp + 1)]);
    }
    assert(s[sp + 1 + dec.len()] == 0);
    lemma_find_byte_at(s, sp + 1, sp + 1 + dec.len() as int, 0);
    let z = dec.len() as int;
    assert(s.subrange(sp + 1, sp + 1 + z) =~= dec);
    assert(s.skip(sp + 1 + z + 1) =~= data);
}

} // verus!
