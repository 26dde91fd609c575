//! What a run of the selector comes to.

use vstd::prelude::*;

verus! {

/// Whether `c` is white space, as Unicode defines it: the characters with the
/// property White_Space.
pub open spec fn is_white_space(c: char) -> bool {
    let n = c as u32;
    ||| 0x09 <= n <= 0x0d
    ||| n == 0x20
    ||| n == 0x85
    ||| n == 0xa0
    ||| n == 0x1680
    ||| 0x2000 <= n <= 0x200a
    ||| n == 0x2028
    ||| n == 0x2029
    ||| n == 0x202f
    ||| n == 0x205f
    ||| n == 0x3000
}

/// `s` without the white space at its start.
pub open spec fn trimmed_start(s: Seq<char>) -> Seq<char>
    decreases s.len(),
{
    if s.len() > 0 && is_white_space(s[0]) {
        trimmed_start(s.drop_first())
    } else {
        s
    }
}

/// `s` without the white space at its end.
pub open spec fn trimmed_end(s: Seq<char>) -> Seq<char>
    decreases s.len(),
{
    if s.len() > 0 && is_white_space(s.last()) {
        trimmed_end(s.drop_last())
    } else {
        s
    }
}

/// `s` without the white space at its two ends.
pub open spec fn trimmed(s: Seq<char>) -> Seq<char> {
    trimmed_end(trimmed_start(s))
}

/// Calls `str::trim`, which gives the text without the white space at its
/// two ends, white space being what Unicode gives the property White_Space.
#[verifier::external_body]
fn trim(s: &str) -> (r: String)
    ensures
        r@ == trimmed(s@),
{
    s.trim().to_string()
}

/// The choice that a run of the selector comes to, `chosen` being what it
/// printed, white space at the ends taken off: nothing where the selector
/// failed, and nothing where it printed nothing.
pub fn selection(success: bool, chosen: String) -> (r: Option<String>)
    ensures
        r == if success && chosen@.len() > 0 {
            Some(chosen)
        } else {
            None
        },
{
    if !success {
        return None;
    }
    if chosen.as_str().is_empty() {
        None
    } else {
        Some(chosen)
    }
}

/// The choice that a run of the selector comes to, `output` being what it
/// printed.
pub fn selected_directory(success: bool, output: &str) -> (r: Option<String>)
    ensures
        match r {
            Some(chosen) => success && chosen@ == trimmed(output@) && chosen@.len() > 0,
            None => !success || trimmed(output@).len() == 0,
        },
{
    selection(success, trim(output))
}

} // verus!
