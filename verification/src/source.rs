//! The sources of overrides: the environment and the command line.

use vstd::prelude::*;
use vstd::string::StringExecFns;
use crate::merge::{overrides_of, Path};
use crate::text::{chars_of, lemma_pieces_nonempty, pieces, split, string_from, texts};

verus! {

/// What `str::to_lowercase` gives for `s`.
pub uninterp spec fn lowercase(s: Seq<char>) -> Seq<char>;

/// Calls `str::to_lowercase`: the text in lower case, as Unicode defines it.
/// The contract only gives the result its name.
#[verifier::external_body]
fn to_lowercase(s: &str) -> (r: String)
    ensures
        r@ == lowercase(s@),
{
    s.to_lowercase()
}

/// `c` in upper case where it is one of the letters `a` to `z`, and `c`
/// itself where it is not.
pub open spec fn ascii_upper(c: char) -> char {
    if 'a' <= c <= 'z' {
        ((c as int) - 32) as char
    } else {
        c
    }
}

/// `char::to_ascii_uppercase` maps the letters `a` to `z` to `A` to `Z` and
/// leaves every other character as it is.
pub assume_specification[ char::to_ascii_uppercase ](c: &char) -> (r: char)
    ensures
        r == ascii_upper(*c),
;

/// `word` with its first character in upper case.
pub open spec fn capitalized(word: Seq<char>) -> Seq<char> {
    if word.len() == 0 {
        word
    } else {
        seq![ascii_upper(word[0])] + word.skip(1)
    }
}

/// The words of `words`, each capitalized, in one text.
pub open spec fn capitalized_all(words: Seq<Seq<char>>) -> Seq<char>
    decreases words.len(),
{
    if words.len() == 0 {
        Seq::empty()
    } else {
        capitalized_all(words.drop_last()) + capitalized(words.last())
    }
}

/// The camel-case name for a name in lower snake case: its words, cut at
/// each underscore, with the first as it is and the others capitalized.
pub open spec fn camel(lower: Seq<char>) -> Seq<char> {
    let words = pieces(lower, seq!['_']);
    words[0] + capitalized_all(words.skip(1))
}

/// The path that the name `name` of an environment variable addresses, the
/// prefix taken off: its pieces between double underscores, each in camel
/// case.
pub open spec fn env_path(name: Seq<char>) -> Path {
    let parts = pieces(name, seq!['_', '_']);
    Seq::new(parts.len(), |i: int| camel(lowercase(parts[i])))
}

/// Whether `s` begins with `prefix`.
pub open spec fn begins_with(s: Seq<char>, prefix: Seq<char>) -> bool {
    prefix.len() <= s.len() && s.take(prefix.len() as int) == prefix
}

/// The overrides that the variables `vars` hold under `prefix`: for each
/// variable whose name begins with the prefix, in order, the path of the
/// rest of its name, and its value as it stands.
pub open spec fn env_overrides(prefix: Seq<char>, vars: Seq<(Seq<char>, Seq<char>)>) -> Seq<
    (Path, Seq<char>),
>
    decreases vars.len(),
{
    if vars.len() == 0 {
        Seq::empty()
    } else {
        let front = env_overrides(prefix, vars.drop_last());
        let (name, value) = vars.last();
        if begins_with(name, prefix) {
            front.push((env_path(name.skip(prefix.len() as int)), value))
        } else {
            front
        }
    }
}

/// The overrides that the pairs `pairs` of the command line stand for: for
/// each, in order, the key cut at its dots, and the value as it stands.
pub open spec fn explicit_overrides_of(pairs: Seq<(Seq<char>, Seq<char>)>) -> Seq<
    (Path, Seq<char>),
> {
    Seq::new(pairs.len(), |i: int| (pieces(pairs[i].0, seq!['.']), pairs[i].1))
}

/// The models of a list of pairs of strings.
pub open spec fn pairs_of(pairs: Seq<(String, String)>) -> Seq<(Seq<char>, Seq<char>)> {
    Seq::new(pairs.len(), |i: int| (pairs[i].0@, pairs[i].1@))
}

/// The camel-case name for a name that is already in lower snake case.
pub fn camel_case(lower: &str) -> (r: String)
    ensures
        r@ == camel(lower@),
{
    let words = split(lower, "_");
    proof {
        reveal_strlit("_");
        assert("_"@ =~= seq!['_']);
        lemma_pieces_nonempty(lower@, seq!['_']);
    }
    let mut out = words[0].clone();
    let mut i: usize = 1;
    let ghost all = texts(words@);
    assert(all.skip(1).take(0) =~= Seq::<Seq<char>>::empty());
    while i < words.len()
        invariant
            1 <= i <= words@.len(),
            all == texts(words@),
            out@ == all[0] + capitalized_all(all.skip(1).take(i - 1)),
        decreases words@.len() - i,
    {
        let ghost next = all.skip(1).take(i as int);
        assert(next.drop_last() =~= all.skip(1).take(i - 1));
        assert(next.last() == all[i as int]);
        let word = chars_of(words[i].as_str());
        if word.len() > 0 {
            let first = word[0].to_ascii_uppercase();
            out.push(first);
            let rest = string_from(&word, 1, word.len());
            out.append(rest.as_str());
            assert(seq![first] + rest@ =~= capitalized(word@));
            assert(out@ =~= all[0] + capitalized_all(next));
        } else {
            assert(out@ =~= all[0] + capitalized_all(next));
        }
        i = i + 1;
    }
    assert(all.skip(1).take(i - 1) =~= all.skip(1));
    out
}

/// The camel-case name for a name in upper snake case: `SOURCE_ROOT` gives
/// `sourceRoot`.
pub fn screaming_snake_to_camel(s: &str) -> (r: String)
    ensures
        r@ == camel(lowercase(s@)),
{
    let lower = to_lowercase(s);
    camel_case(lower.as_str())
}

/// The overrides that the variables `vars` hold under `prefix`.
pub fn env_to_config_overrides(prefix: &str, vars: &[(String, String)]) -> (r: Vec<
    (Vec<String>, String),
>)
    ensures
        overrides_of(r@) == env_overrides(prefix@, pairs_of(vars@)),
{
    let lead = chars_of(prefix);
    let mut out: Vec<(Vec<String>, String)> = Vec::new();
    let ghost all = pairs_of(vars@);
    let mut i: usize = 0;
    assert(all.take(0) =~= Seq::<(Seq<char>, Seq<char>)>::empty());
    assert(overrides_of(out@) =~= env_overrides(prefix@, all.take(0)));
    while i < vars.len()
        invariant
            0 <= i <= vars@.len(),
            lead@ == prefix@,
            all == pairs_of(vars@),
            overrides_of(out@) == env_overrides(prefix@, all.take(i as int)),
        decreases vars@.len() - i,
    {
        let ghost next = all.take(i + 1);
        assert(next.drop_last() =~= all.take(i as int));
        assert(next.last() == all[i as int]);
        let name = chars_of(vars[i].0.as_str());
        if starts_with(&name, &lead) {
            let rest = string_from(&name, lead.len(), name.len());
            assert(rest@ =~= name@.skip(lead@.len() as int));
            let parts = split(rest.as_str(), "__");
            proof {
                reveal_strlit("__");
                assert("__"@ =~= seq!['_', '_']);
            }
            let mut path: Vec<String> = Vec::new();
            let mut j: usize = 0;
            while j < parts.len()
                invariant
                    0 <= j <= parts@.len(),
                    path@.len() == j,
                    forall|k: int|
                        0 <= k < j ==> (#[trigger] path@[k])@ == camel(lowercase(parts@[k]@)),
                decreases parts@.len() - j,
            {
                path.push(screaming_snake_to_camel(parts[j].as_str()));
                j = j + 1;
            }
            assert(texts(path@) =~= env_path(rest@));
            let ghost before = out@;
            out.push((path, vars[i].1.clone()));
            assert(overrides_of(out@) =~= overrides_of(before).push(
                (env_path(rest@), vars@[i as int].1@),
            ));
        }
        i = i + 1;
    }
    assert(all.take(i as int) =~= all);
    out
}

/// Whether `s` begins with `prefix`.
fn starts_with(s: &Vec<char>, prefix: &Vec<char>) -> (r: bool)
    ensures
        r == begins_with(s@, prefix@),
{
    if prefix.len() > s.len() {
        return false;
    }
    let mut i: usize = 0;
    while i < prefix.len()
        invariant
            0 <= i <= prefix@.len() <= s@.len(),
            forall|k: int| 0 <= k < i ==> s@[k] == prefix@[k],
        decreases prefix@.len() - i,
    {
        if s[i] != prefix[i] {
            assert(s@.take(prefix@.len() as int)[i as int] == s@[i as int]);
            return false;
        }
        i = i + 1;
    }
    assert(s@.take(prefix@.len() as int) =~= prefix@);
    true
}

/// The prefix of the environment variables that hold overrides.
pub open spec fn env_prefix() -> Seq<char> {
    "CSRC__"@
}

/// The overrides that the environment `vars` holds.
pub fn load_config_from_env(vars: &[(String, String)]) -> (r: Vec<(Vec<String>, String)>)
    ensures
        overrides_of(r@) == env_overrides(env_prefix(), pairs_of(vars@)),
{
    env_to_config_overrides("CSRC__", vars)
}

/// The overrides that the pairs of the command line stand for, in order.
pub fn explicit_overrides(pairs: &[(String, String)]) -> (r: Vec<(Vec<String>, String)>)
    ensures
        overrides_of(r@) == explicit_overrides_of(pairs_of(pairs@)),
{
    let mut out: Vec<(Vec<String>, String)> = Vec::new();
    let mut i: usize = 0;
    while i < pairs.len()
        invariant
            0 <= i <= pairs@.len(),
            out@.len() == i,
            forall|k: int|
                0 <= k < i ==> texts((#[trigger] out@[k]).0@) == pieces(pairs@[k].0@, seq!['.'])
                    && out@[k].1@ == pairs@[k].1@,
        decreases pairs@.len() - i,
    {
        let path = split(pairs[i].0.as_str(), ".");
        proof {
            reveal_strlit(".");
            assert("."@ =~= seq!['.']);
        }
        out.push((path, pairs[i].1.clone()));
        i = i + 1;
    }
    assert(overrides_of(out@) =~= explicit_overrides_of(pairs_of(pairs@)));
    out
}

} // verus!
