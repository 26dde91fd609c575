//! What holds of the merge whatever the overrides are.

use vstd::prelude::*;
use crate::conf::{
    all_overrides, base_entries, bound, default_cache_location, default_source_root, field_path,
    given_by_override, is_scalar, last_writer, reaches, resolved, schema_error, takes_scalar,
    ConfigModel, Field,
};
use crate::error::ErrorModel;
use crate::merge::{applied, merged, value_at, Path};
use crate::value::{get, lemma_find, lemma_get_put_other, lemma_get_put_same, Entries, Tree};
use crate::yaml::literal_value;

verus! {

/// Two paths part ways: at some depth that both reach, their keys differ.
pub open spec fn diverge(p: Path, q: Path) -> bool {
    exists|k: int| 0 <= k < p.len() && k < q.len() && p[k] != q[k]
}

/// Every one of `overrides` addresses a path that parts ways with `path`.
pub open spec fn apart(overrides: Seq<(Path, Seq<char>)>, path: Path) -> bool {
    forall|i: int| 0 <= i < overrides.len() ==> diverge((#[trigger] overrides[i]).0, path)
}

/// Paths that part ways still do so below a first key that they share.
proof fn lemma_diverge_below(p: Path, q: Path)
    requires
        diverge(p, q),
        p[0] == q[0],
    ensures
        p.len() >= 2,
        q.len() >= 2,
        diverge(p.drop_first(), q.drop_first()),
{
    let k = choose|k: int| 0 <= k < p.len() && k < q.len() && p[k] != q[k];
    assert(k >= 1);
    assert(p.drop_first()[k - 1] == p[k]);
    assert(q.drop_first()[k - 1] == q[k]);
}

/// A value that was written at a path stands at that path.
pub proof fn lemma_written(entries: Entries, path: Path, value: Tree)
    requires
        path.len() > 0,
        merged(entries, path, value) is Ok,
    ensures
        value_at(Tree::Mapping(merged(entries, path, value)->Ok_0), path) == Some(value),
    decreases path.len(),
{
    let after = merged(entries, path, value)->Ok_0;
    let rest = path.drop_first();
    if path.len() == 1 {
        lemma_get_put_same(entries, path[0], value);
        assert(value_at(value, rest) == Some(value));
    } else {
        let start: Entries = match get(entries, path[0]) {
            Some(Tree::Mapping(child)) => child,
            _ => Seq::empty(),
        };
        let child = merged(start, rest, value)->Ok_0;
        lemma_written(start, rest, value);
        lemma_get_put_same(entries, path[0], Tree::Mapping(child));
    }
}

/// *Path isolation.* An override leaves the value at every path that parts
/// ways with its own as it was: writing at `a.b` changes nothing at `a.c`.
pub proof fn law_path_isolation(entries: Entries, path: Path, value: Tree, other: Path)
    requires
        diverge(path, other),
        merged(entries, path, value) is Ok,
    ensures
        value_at(Tree::Mapping(merged(entries, path, value)->Ok_0), other) == value_at(
            Tree::Mapping(entries),
            other,
        ),
    decreases path.len(),
{
    let after = merged(entries, path, value)->Ok_0;
    if path[0] != other[0] {
        if path.len() == 1 {
            lemma_get_put_other(entries, path[0], value, other[0]);
        } else {
            let start: Entries = match get(entries, path[0]) {
                Some(Tree::Mapping(child)) => child,
                _ => Seq::empty(),
            };
            let child = merged(start, path.drop_first(), value)->Ok_0;
            lemma_get_put_other(entries, path[0], Tree::Mapping(child), other[0]);
        }
    } else {
        lemma_diverge_below(path, other);
        let start: Entries = match get(entries, path[0]) {
            Some(Tree::Mapping(child)) => child,
            _ => Seq::empty(),
        };
        let child = merged(start, path.drop_first(), value)->Ok_0;
        law_path_isolation(start, path.drop_first(), value, other.drop_first());
        lemma_get_put_same(entries, path[0], Tree::Mapping(child));
        lemma_find(entries, path[0]);
        assert(value_at(Tree::Mapping(after), other) == value_at(
            Tree::Mapping(child),
            other.drop_first(),
        ));
        assert(value_at(Tree::Mapping(entries), other) == value_at(
            Tree::Mapping(start),
            other.drop_first(),
        ));
    }
}

/// *Path isolation*, for two keys under one parent: an override at the key
/// `key` under `parent` leaves the value at any other key under `parent` as
/// it was.
pub proof fn law_sibling_isolation(
    entries: Entries,
    parent: Path,
    key: Seq<char>,
    sibling: Seq<char>,
    value: Tree,
)
    requires
        key != sibling,
        merged(entries, parent.push(key), value) is Ok,
    ensures
        value_at(Tree::Mapping(merged(entries, parent.push(key), value)->Ok_0), parent.push(sibling))
            == value_at(Tree::Mapping(entries), parent.push(sibling)),
{
    let k = parent.len() as int;
    assert(parent.push(key)[k] != parent.push(sibling)[k]);
    law_path_isolation(entries, parent.push(key), value, parent.push(sibling));
}

/// Applying two lists of overrides one after the other is applying them as
/// one list.
pub proof fn lemma_applied_concat(
    entries: Entries,
    first: Seq<(Path, Seq<char>)>,
    second: Seq<(Path, Seq<char>)>,
)
    ensures
        applied(entries, first + second) == if applied(entries, first).1 is Some {
            applied(entries, first)
        } else {
            applied(applied(entries, first).0, second)
        },
    decreases second.len(),
{
    if second.len() == 0 {
        assert(first + second =~= first);
    } else {
        assert((first + second).drop_last() =~= first + second.drop_last());
        assert((first + second).last() == second.last());
        lemma_applied_concat(entries, first, second.drop_last());
    }
}

/// Overrides that all part ways with a path leave the value at that path as
/// it was.
pub proof fn lemma_untouched(entries: Entries, overrides: Seq<(Path, Seq<char>)>, path: Path)
    requires
        apart(overrides, path),
        applied(entries, overrides).1 is None,
    ensures
        value_at(Tree::Mapping(applied(entries, overrides).0), path) == value_at(
            Tree::Mapping(entries),
            path,
        ),
    decreases overrides.len(),
{
    if overrides.len() > 0 {
        let front = overrides.drop_last();
        let last = overrides.last();
        assert forall|i: int| 0 <= i < front.len() implies diverge(
            (#[trigger] front[i]).0,
            path,
        ) by {
            assert(front[i] == overrides[i]);
        }
        assert(last == overrides[overrides.len() - 1]);
        lemma_untouched(entries, front, path);
        let before = applied(entries, front).0;
        let value = literal_value(last.1)->Ok_0;
        law_path_isolation(before, last.0, value, path);
    }
}

/// The value that the override `overrides[i]` gives stands at its path after
/// all of `overrides`, where every later one parts ways with that path.
pub proof fn lemma_last_wins(entries: Entries, overrides: Seq<(Path, Seq<char>)>, i: int)
    requires
        0 <= i < overrides.len(),
        overrides[i].0.len() > 0,
        apart(overrides.skip(i + 1), overrides[i].0),
        applied(entries, overrides).1 is None,
    ensures
        literal_value(overrides[i].1) is Ok,
        value_at(Tree::Mapping(applied(entries, overrides).0), overrides[i].0) == Some(
            literal_value(overrides[i].1)->Ok_0,
        ),
{
    let path = overrides[i].0;
    let upto = overrides.take(i + 1);
    let rest = overrides.skip(i + 1);
    assert(upto + rest =~= overrides);
    lemma_applied_concat(entries, upto, rest);
    assert(upto.drop_last() =~= overrides.take(i));
    assert(upto.last() == overrides[i]);
    let before = applied(entries, upto.drop_last()).0;
    let value = literal_value(overrides[i].1)->Ok_0;
    lemma_written(before, path, value);
    lemma_untouched(applied(entries, upto).0, rest, path);
}

/// *Precedence*, the command line first. Where the overrides of the command
/// line set a path, the merged mapping holds their value at it, whatever the
/// file and the environment say: the value of an override that addresses the
/// path, with every later override of the command line parting ways with it.
pub proof fn law_explicit_wins(
    base: Entries,
    env: Seq<(Path, Seq<char>)>,
    explicit: Seq<(Path, Seq<char>)>,
    i: int,
)
    requires
        0 <= i < explicit.len(),
        explicit[i].0.len() > 0,
        apart(explicit.skip(i + 1), explicit[i].0),
        applied(base, env + explicit).1 is None,
    ensures
        literal_value(explicit[i].1) is Ok,
        value_at(Tree::Mapping(applied(base, env + explicit).0), explicit[i].0) == Some(
            literal_value(explicit[i].1)->Ok_0,
        ),
{
    let all = env + explicit;
    let at = env.len() + i;
    assert(all[at] == explicit[i]);
    assert(all.skip(at + 1) =~= explicit.skip(i + 1));
    lemma_last_wins(base, all, at);
}

/// *Precedence*, the environment second. Where the command line leaves a
/// path alone and the overrides of the environment set it, the merged mapping
/// holds their value at it, whatever the file says.
pub proof fn law_environment_wins(
    base: Entries,
    env: Seq<(Path, Seq<char>)>,
    explicit: Seq<(Path, Seq<char>)>,
    i: int,
)
    requires
        0 <= i < env.len(),
        env[i].0.len() > 0,
        apart(env.skip(i + 1), env[i].0),
        apart(explicit, env[i].0),
        applied(base, env + explicit).1 is None,
    ensures
        literal_value(env[i].1) is Ok,
        value_at(Tree::Mapping(applied(base, env + explicit).0), env[i].0) == Some(
            literal_value(env[i].1)->Ok_0,
        ),
{
    lemma_applied_concat(base, env, explicit);
    lemma_last_wins(base, env, i);
    lemma_untouched(applied(base, env).0, explicit, env[i].0);
}

/// *Precedence*, the file last. Where the command line and the environment
/// both leave a path alone, the merged mapping holds at it what the file
/// holds there, and nothing where the file holds nothing.
pub proof fn law_file_stays(
    base: Entries,
    env: Seq<(Path, Seq<char>)>,
    explicit: Seq<(Path, Seq<char>)>,
    path: Path,
)
    requires
        apart(env, path),
        apart(explicit, path),
        applied(base, env + explicit).1 is None,
    ensures
        value_at(Tree::Mapping(applied(base, env + explicit).0), path) == value_at(
            Tree::Mapping(base),
            path,
        ),
{
    lemma_applied_concat(base, env, explicit);
    lemma_untouched(base, env, path);
    lemma_untouched(applied(base, env).0, explicit, path);
}

/// The value at a path of one key is the value under that key.
pub proof fn lemma_value_at_key(entries: Entries, key: Seq<char>)
    ensures
        value_at(Tree::Mapping(entries), seq![key]) == get(entries, key),
{
    let path = seq![key];
    assert(path.drop_first() =~= Seq::<Seq<char>>::empty());
    if let Some(child) = get(entries, key) {
        assert(value_at(child, path.drop_first()) == Some(child));
    }
}

/// The value at a path of two keys is the value under the second key in the
/// mapping under the first.
pub proof fn lemma_value_at_keys(entries: Entries, first: Seq<char>, second: Seq<char>)
    ensures
        value_at(Tree::Mapping(entries), seq![first, second]) == match get(entries, first) {
            Some(Tree::Mapping(child)) => get(child, second),
            _ => None,
        },
{
    let path = seq![first, second];
    assert(path.drop_first() =~= seq![second]);
    match get(entries, first) {
        Some(Tree::Mapping(child)) => {
            lemma_value_at_key(child, second);
        },
        Some(other) => {
            assert(value_at(other, seq![second]) is None);
        },
        None => {},
    }
}

/// *Precedence*, the defaults at the end. A configuration that a merged
/// mapping is bound to holds, in each field, the value that the mapping holds
/// at the field's path, and the field's default where it holds none there.
pub proof fn law_bound_values(entries: Entries, cache_home: Option<Seq<char>>)
    requires
        bound(entries, cache_home) is Ok,
    ensures
        bound(entries, cache_home)->Ok_0.source_root == match value_at(
            Tree::Mapping(entries),
            field_path(Field::SourceRoot),
        ) {
            Some(Tree::String(text)) => text,
            _ => default_source_root(),
        },
        bound(entries, cache_home)->Ok_0.cache_enabled == match value_at(
            Tree::Mapping(entries),
            field_path(Field::CacheEnabled),
        ) {
            Some(Tree::Bool(flag)) => flag,
            _ => false,
        },
        bound(entries, cache_home)->Ok_0.cache_location == match value_at(
            Tree::Mapping(entries),
            field_path(Field::CacheLocation),
        ) {
            Some(Tree::String(text)) => text,
            _ => default_cache_location(cache_home),
        },
        value_at(Tree::Mapping(entries), field_path(Field::SourceRoot)) matches Some(other)
            ==> other is String,
        value_at(Tree::Mapping(entries), field_path(Field::CacheEnabled)) matches Some(other)
            ==> other is Bool,
        value_at(Tree::Mapping(entries), field_path(Field::CacheLocation)) matches Some(other)
            ==> other is String,
{
    lemma_value_at_key(entries, "sourceRoot"@);
    lemma_value_at_keys(entries, "cache"@, "enabled"@);
    lemma_value_at_keys(entries, "cache"@, "location"@);
}

/// None of `overrides` writes the place at `path` as a whole: none addresses
/// `path` or a place above it.
pub open spec fn unwritten(overrides: Seq<(Path, Seq<char>)>, path: Path) -> bool {
    forall|i: int| 0 <= i < overrides.len() ==> !reaches((#[trigger] overrides[i]).0, path)
}

/// Whether a value is a mapping.
pub open spec fn is_mapping(value: Option<Tree>) -> bool {
    value matches Some(Tree::Mapping(_))
}

/// A path that neither writes the place at another as a whole nor parts ways
/// with it is empty or leads below that place.
proof fn lemma_leads_below(path: Path, target: Path)
    requires
        !reaches(path, target),
        !diverge(path, target),
        path.len() > 0,
    ensures
        target.len() < path.len(),
        path.take(target.len() as int) == target,
{
    if path.len() <= target.len() {
        assert(target.take(path.len() as int) =~= path);
    }
    assert(path.take(target.len() as int) =~= target);
}

/// A write below a place leaves a mapping at that place.
proof fn lemma_written_below(entries: Entries, path: Path, value: Tree, target: Path)
    requires
        target.len() < path.len(),
        path.take(target.len() as int) == target,
        merged(entries, path, value) is Ok,
    ensures
        is_mapping(value_at(Tree::Mapping(merged(entries, path, value)->Ok_0), target)),
    decreases path.len(),
{
    if target.len() > 0 {
        let start: Entries = match get(entries, path[0]) {
            Some(Tree::Mapping(child)) => child,
            _ => Seq::empty(),
        };
        let child = merged(start, path.drop_first(), value)->Ok_0;
        assert(path.take(target.len() as int)[0] == path[0]);
        assert(path.drop_first().take(target.len() - 1) =~= target.drop_first());
        lemma_written_below(start, path.drop_first(), value, target.drop_first());
        lemma_get_put_same(entries, path[0], Tree::Mapping(child));
    }
}

/// Overrides of which none writes the place at a path as a whole leave the
/// value at that path as it was, or leave a mapping there.
pub proof fn lemma_unwritten(entries: Entries, overrides: Seq<(Path, Seq<char>)>, path: Path)
    requires
        unwritten(overrides, path),
        applied(entries, overrides).1 is None,
    ensures
        value_at(Tree::Mapping(applied(entries, overrides).0), path) == value_at(
            Tree::Mapping(entries),
            path,
        ) || is_mapping(value_at(Tree::Mapping(applied(entries, overrides).0), path)),
    decreases overrides.len(),
{
    if overrides.len() > 0 {
        let front = overrides.drop_last();
        let last = overrides.last();
        assert forall|i: int| 0 <= i < front.len() implies !reaches(
            (#[trigger] front[i]).0,
            path,
        ) by {
            assert(front[i] == overrides[i]);
        }
        assert(last == overrides[overrides.len() - 1]);
        lemma_unwritten(entries, front, path);
        let before = applied(entries, front).0;
        let value = literal_value(last.1)->Ok_0;
        if last.0.len() == 0 {
        } else if diverge(last.0, path) {
            law_path_isolation(before, last.0, value, path);
        } else {
            lemma_leads_below(last.0, path);
            lemma_written_below(before, last.0, value, path);
        }
    }
}

/// After all of `overrides`, the value that the override `overrides[i]` gives
/// stands at its path, or a mapping does, where no later one writes the place
/// at that path as a whole.
pub proof fn lemma_last_writer_wins(entries: Entries, overrides: Seq<(Path, Seq<char>)>, i: int)
    requires
        0 <= i < overrides.len(),
        overrides[i].0.len() > 0,
        unwritten(overrides.skip(i + 1), overrides[i].0),
        applied(entries, overrides).1 is None,
    ensures
        literal_value(overrides[i].1) is Ok,
        value_at(Tree::Mapping(applied(entries, overrides).0), overrides[i].0) == Some(
            literal_value(overrides[i].1)->Ok_0,
        ) || is_mapping(value_at(Tree::Mapping(applied(entries, overrides).0), overrides[i].0)),
{
    let path = overrides[i].0;
    let upto = overrides.take(i + 1);
    let rest = overrides.skip(i + 1);
    assert(upto + rest =~= overrides);
    lemma_applied_concat(entries, upto, rest);
    assert(upto.drop_last() =~= overrides.take(i));
    assert(upto.last() == overrides[i]);
    let before = applied(entries, upto.drop_last()).0;
    let value = literal_value(overrides[i].1)->Ok_0;
    lemma_written(before, path, value);
    lemma_unwritten(applied(entries, upto).0, rest, path);
}

/// The value that a configuration holds in one of the fields that take a
/// plain value.
pub open spec fn field_value(config: ConfigModel, field: Field) -> Tree {
    match field {
        Field::SourceRoot => Tree::String(config.source_root),
        Field::CacheLocation => Tree::String(config.cache_location),
        _ => Tree::Bool(config.cache_enabled),
    }
}

/// The default of one of the fields that take a plain value.
pub open spec fn field_default(field: Field, cache_home: Option<Seq<char>>) -> Tree {
    match field {
        Field::SourceRoot => Tree::String(default_source_root()),
        Field::CacheLocation => Tree::String(default_cache_location(cache_home)),
        _ => Tree::Bool(false),
    }
}

/// *Precedence*, from the sources to the configuration. In a configuration
/// that the sources resolve to, a field that takes a plain value holds
///
/// - what the last override that addresses the field gives, the overrides of
///   the command line coming after those of the environment, where no
///   override after it addresses a place above the field;
/// - what the file holds for the field, where no override addresses the field
///   or a place above it;
/// - the default of the field, where the file holds nothing for it either.
///
/// Overrides of places below the field need not be ruled out: a resolution
/// in which one of them counts does not succeed.
pub proof fn law_precedence(
    contents: Option<Seq<u8>>,
    env: Seq<(Seq<char>, Seq<char>)>,
    cache_home: Option<Seq<char>>,
    pairs: Seq<(Seq<char>, Seq<char>)>,
    field: Field,
)
    requires
        field != Field::Cache,
        resolved(contents, env, cache_home, pairs) is Ok,
    ensures
        forall|i: int|
            0 <= i < all_overrides(env, pairs).len() && (#[trigger] all_overrides(
                env,
                pairs,
            )[i]).0 == field_path(field) && unwritten(
                all_overrides(env, pairs).skip(i + 1),
                field_path(field),
            ) ==> literal_value(all_overrides(env, pairs)[i].1) == Ok::<Tree, Seq<char>>(
                field_value(resolved(contents, env, cache_home, pairs)->Ok_0, field),
            ),
        unwritten(all_overrides(env, pairs), field_path(field)) ==> field_value(
            resolved(contents, env, cache_home, pairs)->Ok_0,
            field,
        ) == match value_at(Tree::Mapping(base_entries(contents)->Ok_0), field_path(field)) {
            Some(value) => value,
            None => field_default(field, cache_home),
        },
{
    let base = base_entries(contents)->Ok_0;
    let all = all_overrides(env, pairs);
    let path = field_path(field);
    let merged = applied(base, all).0;
    law_bound_values(merged, cache_home);
    assert forall|i: int|
        0 <= i < all.len() && (#[trigger] all[i]).0 == path && unwritten(
            all.skip(i + 1),
            path,
        ) implies literal_value(all[i].1) == Ok::<Tree, Seq<char>>(
        field_value(resolved(contents, env, cache_home, pairs)->Ok_0, field),
    ) by {
        lemma_last_writer_wins(base, all, i);
    }
    if unwritten(all, path) {
        lemma_unwritten(base, all, path);
    }
}

/// *Precedence*, the defaults. Where the file holds nothing for a field that
/// takes a plain value, and no override addresses the field or a place above
/// it, a configuration that the sources resolve to holds the field's default.
pub proof fn law_default(
    contents: Option<Seq<u8>>,
    env: Seq<(Seq<char>, Seq<char>)>,
    cache_home: Option<Seq<char>>,
    pairs: Seq<(Seq<char>, Seq<char>)>,
    field: Field,
)
    requires
        field != Field::Cache,
        resolved(contents, env, cache_home, pairs) is Ok,
        value_at(Tree::Mapping(base_entries(contents)->Ok_0), field_path(field)) is None,
        unwritten(all_overrides(env, pairs), field_path(field)),
    ensures
        field_value(resolved(contents, env, cache_home, pairs)->Ok_0, field) == field_default(
            field,
            cache_home,
        ),
{
    law_precedence(contents, env, cache_home, pairs, field);
}

/// A sequence or a mapping that stands for a field that takes a scalar, and
/// whatever stands for the cache and can not be bound, ends the resolution in
/// an error of the schema that names the field and the value, whichever
/// source gave the value.
pub proof fn law_schema_error(
    contents: Option<Seq<u8>>,
    env: Seq<(Seq<char>, Seq<char>)>,
    cache_home: Option<Seq<char>>,
    pairs: Seq<(Seq<char>, Seq<char>)>,
)
    requires
        base_entries(contents) is Ok,
        applied(base_entries(contents)->Ok_0, all_overrides(env, pairs)).1 is None,
        bound(
            applied(base_entries(contents)->Ok_0, all_overrides(env, pairs)).0,
            cache_home,
        ) matches Err((field, found)) && (!is_scalar(found) || !takes_scalar(field)),
    ensures
        bound(
            applied(base_entries(contents)->Ok_0, all_overrides(env, pairs)).0,
            cache_home,
        ) matches Err((field, found)) && resolved(contents, env, cache_home, pairs) == Err::<
            ConfigModel,
            ErrorModel,
        >(schema_error(field, found)),
{
}

/// The value that can not be bound stands at the path of the field that the
/// binding names.
pub proof fn lemma_bound_found(entries: Entries, cache_home: Option<Seq<char>>)
    requires
        bound(entries, cache_home) is Err,
    ensures
        value_at(Tree::Mapping(entries), field_path(bound(entries, cache_home)->Err_0.0)) == Some(
            bound(entries, cache_home)->Err_0.1,
        ),
{
    lemma_value_at_key(entries, "sourceRoot"@);
    lemma_value_at_key(entries, "cache"@);
    lemma_value_at_keys(entries, "cache"@, "enabled"@);
    lemma_value_at_keys(entries, "cache"@, "location"@);
}

/// The place of the last of `overrides` that writes the place at `path` as a
/// whole: none after it does.
pub proof fn lemma_last_writer_at(overrides: Seq<(Path, Seq<char>)>, path: Path) -> (i: int)
    requires
        last_writer(overrides, path) is Some,
    ensures
        0 <= i < overrides.len(),
        overrides[i] == last_writer(overrides, path)->Some_0,
        reaches(overrides[i].0, path),
        unwritten(overrides.skip(i + 1), path),
    decreases overrides.len(),
{
    if reaches(overrides.last().0, path) {
        overrides.len() - 1
    } else {
        let front = overrides.drop_last();
        let i = lemma_last_writer_at(front, path);
        assert forall|j: int| 0 <= j < overrides.skip(i + 1).len() implies !reaches(
            (#[trigger] overrides.skip(i + 1)[j]).0,
            path,
        ) by {
            if i + 1 + j < front.len() {
                assert(overrides.skip(i + 1)[j] == front.skip(i + 1)[j]);
            }
        }
        i
    }
}

/// An invalid value names the text that gave it. Where the binding finds a
/// scalar of the wrong kind for a field, and the last override that writes
/// the field's place as a whole addresses the field itself, the text of that
/// override stands for the value that was found.
pub proof fn law_invalid_value(
    contents: Option<Seq<u8>>,
    env: Seq<(Seq<char>, Seq<char>)>,
    cache_home: Option<Seq<char>>,
    pairs: Seq<(Seq<char>, Seq<char>)>,
)
    requires
        base_entries(contents) is Ok,
        applied(base_entries(contents)->Ok_0, all_overrides(env, pairs)).1 is None,
        bound(
            applied(base_entries(contents)->Ok_0, all_overrides(env, pairs)).0,
            cache_home,
        ) matches Err((field, found)) && is_scalar(found) && given_by_override(
            all_overrides(env, pairs),
            field_path(field),
        ),
    ensures
        bound(
            applied(base_entries(contents)->Ok_0, all_overrides(env, pairs)).0,
            cache_home,
        ) matches Err((field, found)) && literal_value(
            last_writer(all_overrides(env, pairs), field_path(field))->Some_0.1,
        ) == Ok::<Tree, Seq<char>>(found),
{
    let base = base_entries(contents)->Ok_0;
    let all = all_overrides(env, pairs);
    let merged = applied(base, all).0;
    let path = field_path(bound(merged, cache_home)->Err_0.0);
    lemma_bound_found(merged, cache_home);
    let i = lemma_last_writer_at(all, path);
    lemma_last_writer_wins(base, all, i);
}

} // verus!
