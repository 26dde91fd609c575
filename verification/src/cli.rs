//! The arguments of the command line.

use vstd::prelude::*;
use vstd::string::StringExecFns;
use crate::text::{chars_of, find, first_at, string_from};

verus! {

/// The arguments of the command line.
#[derive(Debug, PartialEq, Eq)]
pub struct Cli {
    /// The overrides, each a key and a value, in the order in which they
    /// were given.
    pub conf: Vec<(String, String)>,
}

/// The key and the value that the argument `s` holds, cut at its first `=`;
/// `None` where it holds no `=`.
pub open spec fn key_val(s: Seq<char>) -> Option<(Seq<char>, Seq<char>)> {
    let at = first_at(s, seq!['='], 0);
    if at < s.len() {
        Some((s.take(at), s.skip(at + 1)))
    } else {
        None
    }
}

/// Cuts a `KEY=VALUE` argument at its first `=`.
pub fn parse_key_val(s: &str) -> (r: Result<(String, String), String>)
    ensures
        match r {
            Ok((key, value)) => key_val(s@) == Some((key@, value@)),
            Err(message) => key_val(s@) is None && message@ == "Expected KEY=VALUE"@,
        },
{
    let chars = chars_of(s);
    let mut pat: Vec<char> = Vec::new();
    pat.push('=');
    assert(pat@ =~= seq!['=']);
    let at = find(&chars, &pat, 0);
    if at < chars.len() {
        let key = string_from(&chars, 0, at);
        let value = string_from(&chars, at + 1, chars.len());
        assert(key@ =~= s@.take(at as int));
        assert(value@ =~= s@.skip(at + 1));
        Ok((key, value))
    } else {
        Err(String::from_str("Expected KEY=VALUE"))
    }
}

} // verus!
