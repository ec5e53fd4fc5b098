//! Tag-name validation: the restrictions every reference name must meet.

use vstd::prelude::*;

use crate::pack::copy_bytes;

verus! {

/// Why a byte sequence is no valid tag name.
pub ghost enum TagIssue {
    InvalidByte,
    DoubleDot,
    LockFileSuffix,
    ReflogPortion,
    Asterisk,
    StartsWithDot,
    EndsWithSlash,
    Empty,
}

/// The reason a name is rejected, carrying the offending name where the
/// original reports it.
#[derive(Clone, Debug)]
pub enum Error {
    /// A ref must not contain invalid bytes or ASCII control characters.
    InvalidByte(Vec<u8>),
    /// A ref must not contain `..` as it may be mistaken for a range.
    DoubleDot,
    /// A ref must not end with `.lock`.
    LockFileSuffix,
    /// A ref must not contain `@{`, which is part of a ref-log.
    ReflogPortion,
    /// A ref must not contain a `*` character.
    Asterisk,
    /// A ref must not start with a `.`.
    StartsWithDot,
    /// A ref must not end with a `/`.
    EndsWithSlash,
    /// A ref must not be empty.
    Empty,
}

/// The issue an error reports.
pub open spec fn issue_of(e: Error) -> TagIssue {
    match e {
        Error::InvalidByte(_) => TagIssue::InvalidByte,
        Error::DoubleDot => TagIssue::DoubleDot,
        Error::LockFileSuffix => TagIssue::LockFileSuffix,
        Error::ReflogPortion => TagIssue::ReflogPortion,
        Error::Asterisk => TagIssue::Asterisk,
        Error::StartsWithDot => TagIssue::StartsWithDot,
        Error::EndsWithSlash => TagIssue::EndsWithSlash,
        Error::Empty => TagIssue::Empty,
    }
}

/// Whether `c` may never occur in a name: separators git reserves and
/// ASCII control characters.
pub open spec fn spec_forbidden(c: u8) -> bool {
    c == 92 || c == 94 || c == 58 || c == 91 || c == 63 || c == 32 || c == 126 || c <= 31
        || c == 127
}

/// The first issue the byte scan meets at or after `i`, with `prev` the
/// byte before position `i`.
pub open spec fn spec_scan(s: Seq<u8>, i: int, prev: u8) -> Option<TagIssue>
    decreases s.len() - i,
{
    if i < 0 || i >= s.len() {
        None
    } else {
        let c = s[i];
        if spec_forbidden(c) {
            Some(TagIssue::InvalidByte)
        } else if c == 42 {
            Some(TagIssue::Asterisk)
        } else if c == 46 && prev == 46 {
            Some(TagIssue::DoubleDot)
        } else if c == 123 && prev == 64 {
            Some(TagIssue::ReflogPortion)
        } else {
            spec_scan(s, i + 1, c)
        }
    }
}

/// Whether `s` ends with the `.lock` suffix.
pub open spec fn spec_ends_lock(s: Seq<u8>) -> bool {
    s.len() >= 5 && s.skip(s.len() - 5) == seq![46u8, 108u8, 111u8, 99u8, 107u8]
}

/// The first reason `s` is no valid tag name, or `None` where it is one:
/// emptiness and a trailing slash first, then the byte scan, then a
/// leading dot, then the lock-file suffix.
pub open spec fn spec_check(s: Seq<u8>) -> Option<TagIssue> {
    if s.len() == 0 {
        Some(TagIssue::Empty)
    } else if s.last() == 47 {
        Some(TagIssue::EndsWithSlash)
    } else {
        match spec_scan(s, 0, 0) {
            Some(k) => Some(k),
            None => {
                if s[0] == 46 {
                    Some(TagIssue::StartsWithDot)
                } else if spec_ends_lock(s) {
                    Some(TagIssue::LockFileSuffix)
                } else {
                    None
                }
            },
        }
    }
}

/// Assures the given `bytes` resemble a valid git ref name, returned
/// unchanged on success; reports the first reason they do not.
pub fn name(bytes: &[u8]) -> (r: Result<&[u8], Error>)
    ensures
        match r {
            Ok(out) => spec_check(bytes@) is None && out@ == bytes@,
            Err(e) => spec_check(bytes@) == Some(issue_of(e)) && (e matches Error::InvalidByte(
                v,
            ) ==> v@ == bytes@),
        },
{
    if bytes.len() == 0 {
        return Err(Error::Empty);
    }
    if bytes[bytes.len() - 1] == 47 {
        return Err(Error::EndsWithSlash);
    }
    let mut prev: u8 = 0;
    let mut i: usize = 0;
    while i < bytes.len()
        invariant
            0 <= i <= bytes@.len(),
            bytes@.len() > 0,
            bytes@.last() != 47,
            spec_scan(bytes@, 0, 0) == spec_scan(bytes@, i as int, prev),
        decreases bytes@.len() - i,
    {
        let c = bytes[i];
        if c == 92 || c == 94 || c == 58 || c == 91 || c == 63 || c == 32 || c == 126 || c <= 31
            || c == 127 {
            return Err(Error::InvalidByte(copy_bytes(bytes)));
        }
        if c == 42 {
            return Err(Error::Asterisk);
        }
        if c == 46 && prev == 46 {
            return Err(Error::DoubleDot);
        }
        if c == 123 && prev == 64 {
            return Err(Error::ReflogPortion);
        }
        prev = c;
        i = i + 1;
    }
    if bytes[0] == 46 {
        return Err(Error::StartsWithDot);
    }
    if bytes.len() >= 5 && bytes[bytes.len() - 5] == 46 && bytes[bytes.len() - 4] == 108
        && bytes[bytes.len() - 3] == 111 && bytes[bytes.len() - 2] == 99 && bytes[bytes.len()
        - 1] == 107 {
        proof {
            assert(bytes@.skip(bytes@.len() - 5) =~= seq![46u8, 108u8, 111u8, 99u8, 107u8]);
        }
        return Err(Error::LockFileSuffix);
    }
    proof {
        if spec_ends_lock(bytes@) {
            let t = bytes@.skip(bytes@.len() - 5);
            assert(bytes@[bytes@.len() - 5] == t[0]);
            assert(bytes@[bytes@.len() - 4] == t[1]);
            assert(bytes@[bytes@.len() - 3] == t[2]);
            assert(bytes@[bytes@.len() - 2] == t[3]);
            assert(bytes@[bytes@.len() - 1] == t[4]);
        }
    }
    Ok(bytes)
}

} // verus!
