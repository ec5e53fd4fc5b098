//! Fixed-width object identifiers with hexadecimal encoding and decoding.

use vstd::prelude::*;

verus! {

/// Width in bytes of an object identifier.
pub const ID_BYTES: usize = 20;

/// Width in bytes of the hexadecimal form of an object identifier.
pub const ID_HEX_BYTES: usize = 40;

/// A fixed-width content hash identifying one stored object.
///
/// Equal identifiers are taken to denote equal object content; the store and
/// the diff engine both rely on this to prune work.
#[derive(Clone, Copy, Eq, Debug, Hash)]
pub struct ObjectId {
    bytes: [u8; 20],
}

impl View for ObjectId {
    type V = Seq<u8>;

    closed spec fn view(&self) -> Seq<u8> {
        self.bytes@
    }
}

impl PartialEq for ObjectId {
    fn eq(&self, other: &ObjectId) -> (r: bool) {
        let mut i: usize = 0;
        while i < 20
            invariant
                0 <= i <= 20,
                forall|j: int| 0 <= j < i ==> self.bytes@[j] == other.bytes@[j],
            decreases 20 - i,
        {
            if self.bytes[i] != other.bytes[i] {
                return false;
            }
            i = i + 1;
        }
        proof {
            assert(self.bytes@ =~= other.bytes@);
        }
        true
    }
}

impl vstd::std_specs::cmp::PartialEqSpecImpl for ObjectId {
    open spec fn obeys_eq_spec() -> bool {
        true
    }

    open spec fn eq_spec(&self, other: &ObjectId) -> bool {
        self@ == other@
    }
}

/// Whether `c` is an ASCII hexadecimal digit (either case).
pub open spec fn is_hex_digit(c: u8) -> bool {
    (48 <= c && c <= 57) || (97 <= c && c <= 102) || (65 <= c && c <= 70)
}

/// The value of the ASCII hexadecimal digit `c`.
pub open spec fn hex_val(c: u8) -> u8 {
    if 48 <= c && c <= 57 {
        (c - 48) as u8
    } else if 97 <= c && c <= 102 {
        (c - 87) as u8
    } else {
        (c - 55) as u8
    }
}

/// The lowercase ASCII digit for the nibble `n` (which must be below 16).
pub open spec fn hex_digit(n: u8) -> u8 {
    if n < 10 {
        (n + 48) as u8
    } else {
        (n + 87) as u8
    }
}

/// Whether `s` is a well-formed hexadecimal spelling of an identifier.
pub open spec fn spec_hex_ok(s: Seq<u8>) -> bool {
    &&& s.len() == 40
    &&& forall|i: int| 0 <= i < 40 ==> is_hex_digit(#[trigger] s[i])
}

/// The identifier bytes spelled by the hexadecimal sequence `s`.
pub open spec fn spec_hex_decode(s: Seq<u8>) -> Seq<u8> {
    Seq::new(20, |i: int| (hex_val(s[2 * i]) * 16 + hex_val(s[2 * i + 1])) as u8)
}

/// The lowercase hexadecimal spelling of the identifier bytes `b`.
pub open spec fn spec_hex_encode(b: Seq<u8>) -> Seq<u8> {
    Seq::new(40, |i: int| if i % 2 == 0 {
        hex_digit(b[i / 2] / 16)
    } else {
        hex_digit(b[i / 2] % 16)
    })
}

impl ObjectId {
    /// Builds an identifier directly from its twenty raw bytes.
    pub fn from_bytes(bytes: [u8; 20]) -> (r: ObjectId)
        ensures
            r@ == bytes@,
    {
        ObjectId { bytes }
    }

    /// Reads one identifier from its forty-character hexadecimal spelling,
    /// accepting digits of either case; rejects any other input.
    pub fn from_hex(hex: &[u8]) -> (r: Option<ObjectId>)
        ensures
            match r {
                Some(id) => spec_hex_ok(hex@) && id@ == spec_hex_decode(hex@),
                None => !spec_hex_ok(hex@),
            },
    {
        if hex.len() != 40 {
            return None;
        }
        let mut bytes: [u8; 20] = [0u8; 20];
        let mut i: usize = 0;
        while i < 20
            invariant
                hex@.len() == 40,
                0 <= i <= 20,
                forall|j: int| 0 <= j < 2 * i ==> is_hex_digit(#[trigger] hex@[j]),
                forall|j: int| 0 <= j < i ==> bytes@[j] == spec_hex_decode(hex@)[j],
            decreases 20 - i,
        {
            let hi = hex[2 * i];
            let lo = hex[2 * i + 1];
            let hv = match hex_value(hi) {
                Some(v) => v,
                None => {
                    return None;
                },
            };
            let lv = match hex_value(lo) {
                Some(v) => v,
                None => {
                    return None;
                },
            };
            bytes[i] = hv * 16 + lv;
            i = i + 1;
        }
        Some(ObjectId { bytes })
    }

    /// The twenty raw bytes of this identifier.
    pub fn as_bytes(&self) -> (r: &[u8])
        ensures
            r@ == self@,
    {
        self.bytes.as_slice()
    }

    /// Writes the lowercase hexadecimal spelling of this identifier.
    pub fn to_hex(&self) -> (r: Vec<u8>)
        ensures
            r@ == spec_hex_encode(self@),
    {
        let mut out: Vec<u8> = Vec::new();
        let mut i: usize = 0;
        while i < 20
            invariant
                0 <= i <= 20,
                out@.len() == 2 * i,
                forall|j: int| 0 <= j < 2 * i ==> out@[j] == spec_hex_encode(self@)[j],
            decreases 20 - i,
        {
            let b = self.bytes[i];
            out.push(hex_digit_of(b / 16));
            out.push(hex_digit_of(b % 16));
            i = i + 1;
        }
        out
    }
}

/// The value of one hexadecimal digit, or `None` for any other byte.
fn hex_value(c: u8) -> (r: Option<u8>)
    ensures
        match r {
            Some(v) => is_hex_digit(c) && v == hex_val(c) && v < 16,
            None => !is_hex_digit(c),
        },
{
    if 48 <= c && c <= 57 {
        Some(c - 48)
    } else if 97 <= c && c <= 102 {
        Some(c - 87)
    } else if 65 <= c && c <= 70 {
        Some(c - 55)
    } else {
        None
    }
}

/// The lowercase digit of the nibble `n`.
fn hex_digit_of(n: u8) -> (r: u8)
    requires
        n < 16,
    ensures
        r == hex_digit(n),
{
    if n < 10 {
        n + 48
    } else {
        n + 87
    }
}

/// Encoding an identifier and decoding the spelling gives the identifier
/// back: the hexadecimal form loses nothing.
pub proof fn lemma_hex_round_trip(b: Seq<u8>)
    requires
        b.len() == 20,
    ensures
        spec_hex_ok(spec_hex_encode(b)),
        spec_hex_decode(spec_hex_encode(b)) == b,
{
    let e = spec_hex_encode(b);
    assert forall|i: int| 0 <= i < 40 implies is_hex_digit(#[trigger] e[i]) by {
        assert(b[i / 2] / 16 < 16 && b[i / 2] % 16 < 16);
    }
    let d = spec_hex_decode(e);
    assert forall|i: int| 0 <= i < 20 implies d[i] == b[i] by {
        assert(e[2 * i] == hex_digit(b[i] / 16));
        assert(e[2 * i + 1] == hex_digit(b[i] % 16));
        assert(hex_val(hex_digit(b[i] / 16)) == b[i] / 16);
        assert(hex_val(hex_digit(b[i] % 16)) == b[i] % 16);
        assert((b[i] / 16) * 16 + b[i] % 16 == b[i]) by {
            assert(b[i] == 16 * (b[i] / 16) + b[i] % 16);
        }
    }
    assert(d =~= b);
}

} // verus!
