//! The path resolver: writing override values into a mapping at the places
//! that their paths address.

use vstd::prelude::*;
use vstd::string::StringExecFns;
use crate::error::{ConfigError, ErrorModel};
use crate::text::{join, joined, texts};
use crate::yaml::{literal_value, parse_value};
use crate::value::{
    entries_wf, get, lemma_find, lemma_mapping_tree, lemma_put_wf, put, tree_wf, ConfigValue,
    Entries, Mapping, Tree,
};

verus! {

/// A path: the keys that lead from the top of a mapping to a place in it.
pub type Path = Seq<Seq<char>>;

/// The entries after `value` is written at `path`, or the value that stands
/// in the way.
///
/// The last key of the path is set to `value`, whatever stood there. The keys
/// before it are walked through: a key that is absent gets a mapping of its
/// own, a key that holds a mapping is entered, and a key that holds anything
/// else stops the walk. The empty path writes nothing.
pub open spec fn merged(entries: Entries, path: Path, value: Tree) -> Result<Entries, Tree>
    decreases path.len(),
{
    if path.len() == 0 {
        Ok(entries)
    } else if path.len() == 1 {
        Ok(put(entries, path[0], value))
    } else {
        let below = match get(entries, path[0]) {
            None => merged(Seq::empty(), path.drop_first(), value),
            Some(Tree::Mapping(child)) => merged(child, path.drop_first(), value),
            Some(existing) => Err(existing),
        };
        match below {
            Ok(child) => Ok(put(entries, path[0], Tree::Mapping(child))),
            Err(existing) => Err(existing),
        }
    }
}

/// The value at `path` below `tree`, if the path leads to one.
pub open spec fn value_at(tree: Tree, path: Path) -> Option<Tree>
    decreases path.len(),
{
    if path.len() == 0 {
        Some(tree)
    } else {
        match tree {
            Tree::Mapping(entries) => match get(entries, path[0]) {
                Some(child) => value_at(child, path.drop_first()),
                None => None,
            },
            _ => None,
        }
    }
}

/// Writing a well-formed value into a well-formed mapping leaves it
/// well-formed.
pub proof fn lemma_merged_wf(entries: Entries, path: Path, value: Tree)
    requires
        entries_wf(entries),
        tree_wf(value),
    ensures
        merged(entries, path, value) matches Ok(after) ==> entries_wf(after),
    decreases path.len(),
{
    if path.len() == 1 {
        lemma_put_wf(entries, path[0], value);
    } else if path.len() > 1 {
        lemma_find(entries, path[0]);
        match get(entries, path[0]) {
            None => {
                lemma_merged_wf(Seq::empty(), path.drop_first(), value);
                if let Ok(child) = merged(Seq::empty(), path.drop_first(), value) {
                    lemma_put_wf(entries, path[0], Tree::Mapping(child));
                }
            },
            Some(Tree::Mapping(child)) => {
                lemma_merged_wf(child, path.drop_first(), value);
                if let Ok(after) = merged(child, path.drop_first(), value) {
                    lemma_put_wf(entries, path[0], Tree::Mapping(after));
                }
            },
            Some(_) => {},
        }
    }
}

/// Writes `value` at `path[from..]` into `map`; where a value stands in the
/// way, leaves `map` as it was and gives a copy of that value.
fn merge_into(map: &mut Mapping, path: &[String], from: usize, value: ConfigValue) -> (r: Result<
    (),
    ConfigValue,
>)
    requires
        from <= path@.len(),
    ensures
        match merged(old(map)@, texts(path@).skip(from as int), value@) {
            Ok(after) => r is Ok && final(map)@ == after,
            Err(existing) => r matches Err(found) && found@ == existing && final(map)@ == old(
                map,
            )@,
        },
    decreases path@.len() - from,
{
    let ghost rest = texts(path@).skip(from as int);
    if from == path.len() {
        return Ok(());
    }
    let key = &path[from];
    assert(rest[0] == key@);
    assert(rest.drop_first() =~= texts(path@).skip(from + 1));
    if path.len() - from == 1 {
        map.insert(key.clone(), value);
        return Ok(());
    }
    match map.position(key.as_str()) {
        None => {
            let mut child = Mapping::new();
            match merge_into(&mut child, path, from + 1, value) {
                Ok(()) => {
                    proof {
                        lemma_mapping_tree(child);
                    }
                    map.insert(key.clone(), ConfigValue::Mapping(child));
                    Ok(())
                },
                Err(existing) => Err(existing),
            }
        },
        Some(i) => {
            proof {
                lemma_find(map@, key@);
            }
            let mut slot = (String::new(), ConfigValue::Null);
            map.entries.set_and_swap(i, &mut slot);
            let (name, current) = slot;
            match current {
                ConfigValue::Mapping(mut child) => {
                    proof {
                        lemma_mapping_tree(child);
                    }
                    let r = merge_into(&mut child, path, from + 1, value);
                    proof {
                        lemma_mapping_tree(child);
                    }
                    let mut entry = (name, ConfigValue::Mapping(child));
                    map.entries.set_and_swap(i, &mut entry);
                    assert(r is Ok ==> map@ =~= put(old(map)@, key@, Tree::Mapping(child@)));
                    assert(r is Err ==> map@ =~= old(map)@);
                    r
                },
                other => {
                    let found = other.clone();
                    let mut entry = (name, other);
                    map.entries.set_and_swap(i, &mut entry);
                    assert(map@ =~= old(map)@);
                    Err(found)
                },
            }
        },
    }
}

/// The error for an override at `path` that `existing` stands in the way of.
pub open spec fn conflict(path: Path, existing: Tree) -> ErrorModel {
    ErrorModel::Conflict { field: joined(path, "."@), existing }
}

/// The error for an override at `path` whose text `raw` is no literal, the
/// reader having said `message`.
pub open spec fn invalid_literal(path: Path, raw: Seq<char>, message: Seq<char>) -> ErrorModel {
    ErrorModel::InvalidValue {
        field: joined(path, "."@),
        value: raw,
        details: "failed to parse override value: "@ + message,
    }
}

/// The entries after the override of `path` by the literal `raw`, or the
/// error that it ends in.
pub open spec fn applied_one(entries: Entries, path: Path, raw: Seq<char>) -> Result<
    Entries,
    ErrorModel,
> {
    match literal_value(raw) {
        Err(message) => Err(invalid_literal(path, raw, message)),
        Ok(value) => match merged(entries, path, value) {
            Ok(after) => Ok(after),
            Err(existing) => Err(conflict(path, existing)),
        },
    }
}

/// The entries after `overrides` are applied in order, up to the first that
/// ends in an error, and that error.
pub open spec fn applied(entries: Entries, overrides: Seq<(Path, Seq<char>)>) -> (
    Entries,
    Option<ErrorModel>,
)
    decreases overrides.len(),
{
    if overrides.len() == 0 {
        (entries, None)
    } else {
        let (before, failure) = applied(entries, overrides.drop_last());
        if failure is Some {
            (before, failure)
        } else {
            match applied_one(before, overrides.last().0, overrides.last().1) {
                Ok(after) => (after, None),
                Err(error) => (before, Some(error)),
            }
        }
    }
}

/// The models of a list of overrides.
pub open spec fn overrides_of(overrides: Seq<(Vec<String>, String)>) -> Seq<(Path, Seq<char>)> {
    Seq::new(overrides.len(), |i: int| (texts(overrides[i].0@), overrides[i].1@))
}

/// Once a prefix of `overrides` has ended in an error, the rest changes
/// nothing.
pub proof fn lemma_applied_stops(entries: Entries, overrides: Seq<(Path, Seq<char>)>, n: int)
    requires
        0 <= n <= overrides.len(),
        applied(entries, overrides.take(n)).1 is Some,
    ensures
        applied(entries, overrides) == applied(entries, overrides.take(n)),
    decreases overrides.len() - n,
{
    if n < overrides.len() {
        assert(overrides.take(n + 1).drop_last() =~= overrides.take(n));
        lemma_applied_stops(entries, overrides, n + 1);
    } else {
        assert(overrides.take(n) =~= overrides);
    }
}

/// Writes `value` into `map` at the place that `path` addresses.
///
/// The last key of the path is set to `value`; the keys before it are entered,
/// and made where they are absent. The empty path writes nothing. Where a key
/// on the way holds a value that is no mapping, nothing is written and the
/// error names the path and that value.
pub fn apply_override(map: &mut Mapping, path: &[String], value: &ConfigValue) -> (r: Result<
    (),
    ConfigError,
>)
    ensures
        match merged(old(map)@, texts(path@), value@) {
            Ok(after) => r is Ok && final(map)@ == after,
            Err(existing) => r matches Err(error) && error@ == conflict(texts(path@), existing)
                && final(map)@ == old(map)@,
        },
        old(map).wf() && tree_wf(value@) ==> final(map).wf(),
{
    proof {
        assert(texts(path@).skip(0) =~= texts(path@));
        if old(map).wf() && tree_wf(value@) {
            lemma_merged_wf(old(map)@, texts(path@), value@);
        }
    }
    match merge_into(map, path, 0, value.clone()) {
        Ok(()) => Ok(()),
        Err(existing) => Err(ConfigError::Conflict { field: join(path, "."), existing }),
    }
}

/// Applies `overrides` to `map` in order, each given as a path and the text
/// of a literal. Stops at the first override whose text is no literal or whose
/// path runs into a value that is no mapping; the overrides before it stay
/// applied.
pub fn apply_overrides(map: &mut Mapping, overrides: &[(Vec<String>, String)]) -> (r: Result<
    (),
    ConfigError,
>)
    ensures
        final(map)@ == applied(old(map)@, overrides_of(overrides@)).0,
        match r {
            Ok(()) => applied(old(map)@, overrides_of(overrides@)).1 is None,
            Err(error) => applied(old(map)@, overrides_of(overrides@)).1 == Some(error@),
        },
        old(map).wf() ==> final(map).wf(),
{
    let ghost all = overrides_of(overrides@);
    let mut i: usize = 0;
    assert(all.take(0) =~= Seq::<(Path, Seq<char>)>::empty());
    while i < overrides.len()
        invariant
            0 <= i <= overrides@.len(),
            all == overrides_of(overrides@),
            applied(old(map)@, all.take(i as int)) == (map@, None::<ErrorModel>),
            old(map).wf() ==> map.wf(),
        decreases overrides@.len() - i,
    {
        let ghost next = all.take(i + 1);
        assert(next.drop_last() =~= all.take(i as int));
        assert(next.last() == all[i as int]);
        let path = &overrides[i].0;
        let raw = &overrides[i].1;
        let ghost before = map@;
        match parse_value(raw.as_str()) {
            Err(message) => {
                let mut details = String::from_str("failed to parse override value: ");
                details.append(message.as_str());
                let error = ConfigError::InvalidValue {
                    field: join(path.as_slice(), "."),
                    value: raw.clone(),
                    details,
                };
                proof {
                    assert(applied(old(map)@, next) == (before, Some(error@)));
                    lemma_applied_stops(old(map)@, all, i + 1);
                }
                return Err(error);
            },
            Ok(value) => {
                match apply_override(map, path.as_slice(), &value) {
                    Ok(()) => {},
                    Err(error) => {
                        proof {
                            assert(applied(old(map)@, next) == (before, Some(error@)));
                            lemma_applied_stops(old(map)@, all, i + 1);
                        }
                        return Err(error);
                    },
                }
            },
        }
        i = i + 1;
    }
    assert(all.take(i as int) =~= all);
    Ok(())
}

} // verus!
