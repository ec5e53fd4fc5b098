//! Reference-name validation: every tag-name restriction, and the rules on
//! slashes and on standalone names.

use vstd::prelude::*;

use crate::validate::tag;
use crate::validate::tag::TagIssue;

verus! {

/// Why a byte sequence is no valid reference name.
pub ghost enum RefIssue {
    Tag(TagIssue),
    SomeLowercase,
    StartsWithSlash,
    RepeatedSlash,
    SingleDot,
}

/// The reason a reference name is rejected.
#[derive(Clone, Debug)]
pub enum Error {
    /// A reference must be a valid tag name as well.
    Tag(tag::Error),
    /// Standalone references must be all uppercased, like `HEAD`.
    SomeLowercase,
    /// A reference name must not start with a slash `/`.
    StartsWithSlash,
    /// Multiple slashes in a row are not allowed, as they may change the
    /// reference's meaning.
    RepeatedSlash,
    /// Names must not be a single `.`, but may contain it.
    SingleDot,
}

/// The issue an error reports.
pub open spec fn issue_of(e: Error) -> RefIssue {
    match e {
        Error::Tag(t) => RefIssue::Tag(tag::issue_of(t)),
        Error::SomeLowercase => RefIssue::SomeLowercase,
        Error::StartsWithSlash => RefIssue::StartsWithSlash,
        Error::RepeatedSlash => RefIssue::RepeatedSlash,
        Error::SingleDot => RefIssue::SingleDot,
    }
}

/// The first slash-related issue at or after `i`, with the two preceding
/// bytes carried along.
pub open spec fn spec_slash_scan(s: Seq<u8>, i: int, prev: u8, before_prev: u8) -> Option<
    RefIssue,
>
    decreases s.len() - i,
{
    if i < 0 || i >= s.len() {
        None
    } else {
        let c = s[i];
        if c == 47 && prev == 46 && before_prev == 47 {
            Some(RefIssue::SingleDot)
        } else if c == 47 && prev == 47 {
            Some(RefIssue::RepeatedSlash)
        } else {
            spec_slash_scan(s, i + 1, c, prev)
        }
    }
}

/// Whether `s` holds a slash anywhere.
pub open spec fn spec_has_slash(s: Seq<u8>) -> bool {
    exists|j: int| 0 <= j < s.len() && s[j] == 47
}

/// Whether every byte of `s` is an ASCII uppercase letter.
pub open spec fn spec_all_upper(s: Seq<u8>) -> bool {
    forall|j: int| 0 <= j < s.len() ==> 65 <= #[trigger] s[j] <= 90
}

/// The first reason `s` is no valid reference name, or `None` where it is
/// one: the tag rules first, then a leading slash, then the slash scan,
/// then the all-uppercase rule for standalone names.
pub open spec fn spec_check(s: Seq<u8>) -> Option<RefIssue> {
    match tag::spec_check(s) {
        Some(t) => Some(RefIssue::Tag(t)),
        None => {
            if s[0] == 47 {
                Some(RefIssue::StartsWithSlash)
            } else {
                match spec_slash_scan(s, 0, 0, 0) {
                    Some(k) => Some(k),
                    None => {
                        if !spec_has_slash(s) && !spec_all_upper(s) {
                            Some(RefIssue::SomeLowercase)
                        } else {
                            None
                        }
                    },
                }
            }
        },
    }
}

/// Assures `path` is a valid reference name, returned unchanged on
/// success; reports the first reason it is not.
pub fn name(path: &[u8]) -> (r: Result<&[u8], Error>)
    ensures
        match r {
            Ok(out) => spec_check(path@) is None && out@ == path@,
            Err(e) => spec_check(path@) == Some(issue_of(e)),
        },
{
    match tag::name(path) {
        Ok(_) => {},
        Err(e) => {
            return Err(Error::Tag(e));
        },
    }
    if path[0] == 47 {
        return Err(Error::StartsWithSlash);
    }
    let mut previous: u8 = 0;
    let mut one_before_previous: u8 = 0;
    let mut saw_slash: bool = false;
    let mut i: usize = 0;
    while i < path.len()
        invariant
            0 <= i <= path@.len(),
            tag::spec_check(path@) is None,
            path@.len() > 0,
            path@[0] != 47,
            spec_slash_scan(path@, 0, 0, 0) == spec_slash_scan(
                path@,
                i as int,
                previous,
                one_before_previous,
            ),
            saw_slash == exists|j: int| 0 <= j < i && path@[j] == 47,
        decreases path@.len() - i,
    {
        let c = path[i];
        if c == 47 && previous == 46 && one_before_previous == 47 {
            return Err(Error::SingleDot);
        }
        if c == 47 && previous == 47 {
            return Err(Error::RepeatedSlash);
        }
        if c == 47 {
            saw_slash = true;
        }
        one_before_previous = previous;
        previous = c;
        i = i + 1;
    }
    if !saw_slash {
        let mut k: usize = 0;
        while k < path.len()
            invariant
                0 <= k <= path@.len(),
                forall|j: int| 0 <= j < k ==> 65 <= #[trigger] path@[j] <= 90,
                !spec_has_slash(path@),
                spec_slash_scan(path@, 0, 0, 0) is None,
                tag::spec_check(path@) is None,
                path@.len() > 0,
                path@[0] != 47,
            decreases path@.len() - k,
        {
            let c = path[k];
            if !(65 <= c && c <= 90) {
                return Err(Error::SomeLowercase);
            }
            k = k + 1;
        }
    }
    Ok(path)
}

} // verus!
