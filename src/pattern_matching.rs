//! Small decisions on the shape of their input: vectors of strings, tuples and results.
use vstd::prelude::*;

verus! {

/// `s` starts with the three letters `PBA`.
pub open spec fn starts_pba(s: Seq<char>) -> bool {
    s.len() >= 3 && s[0] == 'P' && s[1] == 'B' && s[2] == 'A'
}

fn starts_with_pba(s: &String) -> (r: bool)
    ensures
        r == starts_pba(s@),
{
    let t = s.as_str();
    t.unicode_len() >= 3 && t.get_char(0) == 'P' && t.get_char(1) == 'B' && t.get_char(2) == 'A'
}

/// Returns true if the last two strings in the vector start with `PBA`.
pub fn match_1(input: Vec<String>) -> (r: bool)
    ensures
        r == (input@.len() >= 2 && starts_pba(input@[input@.len() - 2]@) && starts_pba(input@[input@.len() - 1]@)),
{
    let n = input.len();
    if n < 2 {
        return false;
    }
    starts_with_pba(&input[n - 1]) && starts_with_pba(&input[n - 2])
}

/// Returns true if the first and last strings in the vector (at least two of
/// them) start with `PBA`.
pub fn match_2(input: Vec<String>) -> (r: bool)
    ensures
        r == (input@.len() >= 2 && starts_pba(input@[0]@) && starts_pba(input@[input@.len() - 1]@)),
{
    let n = input.len();
    if n < 2 {
        return false;
    }
    starts_with_pba(&input[0]) && starts_with_pba(&input[n - 1])
}

/// Returns true if the first item in `input` is true.
pub fn match_3(input: (bool, bool, bool)) -> (r: bool)
    ensures
        r == input.0,
{
    match input {
        (true, _, _) => true,
        _ => false,
    }
}

/// Returns true if the input is `Ok(x)` of some even `x`.
pub fn match_4(input: Result<u32, &'static str>) -> (r: bool)
    ensures
        r == (input matches Ok(x) && x % 2 == 0),
{
    match input {
        Ok(x) => x % 2 == 0,
        Err(_) => false,
    }
}

} // verus!
