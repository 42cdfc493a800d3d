//! Identifier parser: a component identifier carries a fixed-length store
//! prefix, then a package name, then optionally a dash and a version that
//! starts with a digit. The name capture is lazy: the first dash-digit
//! boundary ends the name.

use vstd::prelude::*;
use vstd::string::StrSliceExecFns;

use crate::chars::is_digit_char;

verus! {

/// Characters of the store prefix, dropped unconditionally before parsing.
pub const STORE_PREFIX_LEN: usize = 44;

#[derive(Clone, Copy, Debug, PartialEq, Eq, Structural)]
pub enum ParseError {
    /// The identifier has fewer characters than the store prefix.
    TooShort,
    /// Nothing remains after the prefix, so there is no name to extract.
    Malformed,
}

/// Whether the remainder may split after `i` name characters: either the
/// whole remainder is the name, or a dash followed by a digit starts the
/// version there.
pub open spec fn splits_at(rest: Seq<char>, i: int) -> bool {
    i == rest.len() || (rest[i] == '-' && i + 1 < rest.len() && is_digit_char(rest[i + 1]))
}

/// The first split point at or after `i`: the name is the shortest match.
pub open spec fn split_from(rest: Seq<char>, i: int) -> int
    decreases rest.len() - i,
{
    if i >= rest.len() {
        rest.len() as int
    } else if splits_at(rest, i) {
        i
    } else {
        split_from(rest, i + 1)
    }
}

/// The split point of a non-empty remainder. The name has at least one
/// character, so the search starts at one.
pub open spec fn spec_split(rest: Seq<char>) -> int {
    split_from(rest, 1)
}

pub open spec fn spec_parse_ok(s: Seq<char>) -> bool {
    s.len() > STORE_PREFIX_LEN
}

pub open spec fn spec_rest(s: Seq<char>) -> Seq<char> {
    s.skip(STORE_PREFIX_LEN as int)
}

/// The package name of a parsable identifier.
pub open spec fn spec_name(s: Seq<char>) -> Seq<char> {
    spec_rest(s).take(spec_split(spec_rest(s)))
}

/// The version of a parsable identifier, without the separating dash, or
/// nothing when no dash-digit boundary exists.
pub open spec fn spec_version(s: Seq<char>) -> Option<Seq<char>> {
    let rest = spec_rest(s);
    if spec_split(rest) == rest.len() {
        None
    } else {
        Some(rest.skip(spec_split(rest) + 1))
    }
}

proof fn lemma_split_from_found(rest: Seq<char>, lo: int, i: int)
    requires
        1 <= lo <= i <= rest.len(),
        forall|j: int| lo <= j < i ==> !splits_at(rest, j),
        splits_at(rest, i),
    ensures
        split_from(rest, lo) == i,
    decreases i - lo,
{
    if lo < i {
        lemma_split_from_found(rest, lo + 1, i);
    }
}

/// Bounds of the split point of a non-empty remainder.
pub proof fn lemma_split_bounds(rest: Seq<char>, lo: int)
    requires
        1 <= lo <= rest.len(),
    ensures
        lo <= split_from(rest, lo) <= rest.len(),
        splits_at(rest, split_from(rest, lo)),
    decreases rest.len() - lo,
{
    if lo == rest.len() || splits_at(rest, lo) {
    } else {
        lemma_split_bounds(rest, lo + 1);
    }
}

/// Extracts the package name and optional version from one component
/// identifier. The result is determined by the input text alone: parsing the
/// same identifier twice yields identical slices.
pub fn parse_name_and_version(path: &str) -> (r: Result<(&str, Option<&str>), ParseError>)
    ensures
        match r {
            Ok(p) => {
                &&& spec_parse_ok(path@)
                &&& p.0@ == spec_name(path@)
                &&& match p.1 {
                    Some(v) => spec_version(path@) == Some(v@),
                    None => spec_version(path@) is None,
                }
            },
            Err(ParseError::TooShort) => path@.len() < STORE_PREFIX_LEN,
            Err(ParseError::Malformed) => path@.len() == STORE_PREFIX_LEN,
        },
{
    let total = path.unicode_len();
    if total < STORE_PREFIX_LEN {
        return Err(ParseError::TooShort);
    }
    if total == STORE_PREFIX_LEN {
        return Err(ParseError::Malformed);
    }
    let rest = path.substring_char(STORE_PREFIX_LEN, total);
    let restlen = total - STORE_PREFIX_LEN;
    assert(rest@ =~= spec_rest(path@));
    let mut i: usize = 1;
    let mut found = false;
    while i < restlen && !found
        invariant
            1 <= i <= restlen,
            restlen == rest@.len(),
            forall|j: int| 1 <= j < i ==> !splits_at(rest@, j),
            found ==> i < restlen && splits_at(rest@, i as int),
        decreases restlen - i + (if found { 0int } else { 1int }),
    {
        let c = rest.get_char(i);
        let mut split_here = false;
        if c == '-' && i + 1 < restlen {
            let d = rest.get_char(i + 1);
            if 48 <= d as u32 && d as u32 <= 57 {
                split_here = true;
            }
        }
        if split_here {
            found = true;
        } else {
            assert(!splits_at(rest@, i as int));
            i = i + 1;
        }
    }
    proof {
        assert(splits_at(rest@, i as int));
        lemma_split_from_found(rest@, 1, i as int);
    }
    let name = rest.substring_char(0, i);
    assert(name@ =~= spec_name(path@));
    if i == restlen {
        Ok((name, None))
    } else {
        let version = rest.substring_char(i + 1, restlen);
        assert(version@ =~= spec_rest(path@).skip(spec_split(spec_rest(path@)) + 1));
        Ok((name, Some(version)))
    }
}

} // verus!
