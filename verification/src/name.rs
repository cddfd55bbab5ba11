//! Partition (boundary) name validation.
//!
//! A partition name is valid iff it is non-empty, its first character is `_`
//! or an ASCII letter, and every later character is `_`, `-`, or ASCII
//! alphanumeric.

use crate::error::{empty_part_name_desc, invalid_char_desc, invalid_start_desc, Category, Error};
use vstd::prelude::*;

verus! {

/// A valid first character of a partition name: `_` or an ASCII letter.
pub open spec fn valid_first_char(c: char) -> bool {
    c == '_' || ('a' <= c && c <= 'z') || ('A' <= c && c <= 'Z')
}

/// A valid later character of a partition name: `_`, `-`, or ASCII
/// alphanumeric.
pub open spec fn valid_rest_char(c: char) -> bool {
    valid_first_char(c) || c == '-' || ('0' <= c && c <= '9')
}

/// A valid partition name.
pub open spec fn valid_part_name(s: Seq<char>) -> bool {
    &&& s.len() > 0
    &&& valid_first_char(s[0])
    &&& forall|i: int| 1 <= i < s.len() ==> valid_rest_char(#[trigger] s[i])
}

fn is_valid_first_char(c: char) -> (r: bool)
    ensures
        r == valid_first_char(c),
{
    c == '_' || ('a' <= c && c <= 'z') || ('A' <= c && c <= 'Z')
}

fn is_valid_rest_char(c: char) -> (r: bool)
    ensures
        r == valid_rest_char(c),
{
    is_valid_first_char(c) || c == '-' || ('0' <= c && c <= '9')
}

/// The error that a given invalid partition name deserves: empty name,
/// invalid first character, or invalid later character — each naming the
/// offending string verbatim.
pub open spec fn name_error_spec(e: Error, name: Seq<char>) -> bool {
    &&& e.cat == Category::Definitions
    &&& e.help_msg is None
    &&& !e.hard
    &&& e.desc@ == if name.len() == 0 {
        empty_part_name_desc()
    } else if !valid_first_char(name[0]) {
        invalid_start_desc(name)
    } else {
        invalid_char_desc(name)
    }
}

/// Check a partition name, returning the diagnostic the name deserves.
pub fn is_valid_part_name(name: &str) -> (r: Result<(), Error>)
    ensures
        r is Ok <==> valid_part_name(name@),
        r is Err ==> name_error_spec(r->Err_0, name@),
{
    let len = name.unicode_len();
    if len == 0 {
        return Err(Error::empty_part_name());
    }
    if !is_valid_first_char(name.get_char(0)) {
        return Err(Error::invalid_part_name_start(name));
    }
    let mut i: usize = 1;
    while i < len
        invariant
            len == name@.len(),
            1 <= i <= len,
            valid_first_char(name@[0]),
            forall|j: int| 1 <= j < i ==> valid_rest_char(#[trigger] name@[j]),
        decreases len - i,
    {
        if !is_valid_rest_char(name.get_char(i)) {
            return Err(Error::invalid_part_name_char(name));
        }
        i += 1;
    }
    Ok(())
}

} // verus!
