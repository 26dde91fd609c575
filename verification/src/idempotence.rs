//! Merging a list of overrides a second time changes nothing.

use vstd::prelude::*;
use crate::merge::{applied, lemma_merged_wf, merged, Path};
use crate::value::{
    entries_wf, get, has_key, lemma_find, lemma_find_unique, lemma_get_put_other,
    lemma_get_put_same, put, tree_wf, Entries, Tree,
};
use crate::yaml::{lemma_literal_wf, literal_value};

verus! {

/// The entries after the values of `writes` are written at their paths in
/// order; `None` where one of them runs into a value that is no mapping.
spec fn folded(entries: Entries, writes: Seq<(Path, Tree)>) -> Option<Entries>
    decreases writes.len(),
{
    if writes.len() == 0 {
        Some(entries)
    } else {
        match folded(entries, writes.drop_last()) {
            Some(before) => match merged(before, writes.last().0, writes.last().1) {
                Ok(after) => Some(after),
                Err(_) => None,
            },
            None => None,
        }
    }
}

/// The overrides `overrides` with the values that their literals stand for.
spec fn parsed(overrides: Seq<(Path, Seq<char>)>) -> Seq<(Path, Tree)> {
    Seq::new(overrides.len(), |i: int| (overrides[i].0, literal_value(overrides[i].1)->Ok_0))
}

/// The keys of all the paths of `writes`, counted.
spec fn weight(writes: Seq<(Path, Tree)>) -> nat
    decreases writes.len(),
{
    if writes.len() == 0 {
        0
    } else {
        weight(writes.drop_last()) + writes.last().0.len()
    }
}

/// Every value of `writes` is well-formed.
spec fn values_wf(writes: Seq<(Path, Tree)>) -> bool {
    forall|i: int| 0 <= i < writes.len() ==> tree_wf((#[trigger] writes[i]).1)
}

/// What stands under a key after `value` is written at `rest` below it,
/// `current` being what stood there; `None` where what stood there is in the
/// way.
spec fn grafted(current: Option<Tree>, rest: Path, value: Tree) -> Option<Tree> {
    if rest.len() == 0 {
        Some(value)
    } else {
        let below = match current {
            None => merged(Seq::empty(), rest, value),
            Some(Tree::Mapping(child)) => merged(child, rest, value),
            Some(existing) => Err(existing),
        };
        match below {
            Ok(child) => Some(Tree::Mapping(child)),
            Err(_) => None,
        }
    }
}

/// What stands under `key` after `writes`, `current` being what stood there
/// before; `None` where one of them runs into a value that is no mapping.
spec fn evolved(current: Option<Tree>, writes: Seq<(Path, Tree)>, key: Seq<char>) -> Option<
    Option<Tree>,
>
    decreases writes.len(),
{
    if writes.len() == 0 {
        Some(current)
    } else {
        match evolved(current, writes.drop_last(), key) {
            None => None,
            Some(before) => {
                let (path, value) = writes.last();
                if path.len() > 0 && path[0] == key {
                    match grafted(before, path.drop_first(), value) {
                        Some(tree) => Some(Some(tree)),
                        None => None,
                    }
                } else {
                    Some(before)
                }
            },
        }
    }
}

/// Those of `writes` that go through `key`, each with the rest of its path.
spec fn below_key(writes: Seq<(Path, Tree)>, key: Seq<char>) -> Seq<(Path, Tree)>
    decreases writes.len(),
{
    if writes.len() == 0 {
        Seq::empty()
    } else {
        let front = below_key(writes.drop_last(), key);
        let (path, value) = writes.last();
        if path.len() > 0 && path[0] == key {
            front.push((path.drop_first(), value))
        } else {
            front
        }
    }
}

/// Whether one of `writes` sets `key` itself.
spec fn sets_key(writes: Seq<(Path, Tree)>, key: Seq<char>) -> bool {
    exists|i: int| 0 <= i < writes.len() && is_set(#[trigger] writes[i], key)
}

/// Whether `write` sets `key` itself.
spec fn is_set(write: (Path, Tree), key: Seq<char>) -> bool {
    write.0.len() == 1 && write.0[0] == key
}

/// What `writes`, none of which sets the key itself, make of what stands
/// under a key, `deep` being those writes with the rest of their paths.
spec fn deepened(current: Option<Tree>, deep: Seq<(Path, Tree)>) -> Option<Option<Tree>> {
    if deep.len() == 0 {
        Some(current)
    } else {
        let below = match current {
            None => folded(Seq::empty(), deep),
            Some(Tree::Mapping(child)) => folded(child, deep),
            Some(_) => None,
        };
        match below {
            Some(child) => Some(Some(Tree::Mapping(child))),
            None => None,
        }
    }
}

/// A write at a path sets the first key of the path to what is grafted
/// under it.
proof fn lemma_merged_graft(entries: Entries, path: Path, value: Tree)
    requires
        path.len() > 0,
    ensures
        match grafted(get(entries, path[0]), path.drop_first(), value) {
            Some(tree) => merged(entries, path, value) == Ok::<Entries, Tree>(
                put(entries, path[0], tree),
            ),
            None => merged(entries, path, value) is Err,
        },
{
}

/// After writes, each key holds what the writes made of what it held.
proof fn lemma_evolved_get(entries: Entries, writes: Seq<(Path, Tree)>, key: Seq<char>)
    requires
        folded(entries, writes) is Some,
    ensures
        evolved(get(entries, key), writes, key) == Some(
            get(folded(entries, writes)->Some_0, key),
        ),
    decreases writes.len(),
{
    if writes.len() > 0 {
        let front = writes.drop_last();
        let (path, value) = writes.last();
        lemma_evolved_get(entries, front, key);
        let before = folded(entries, front)->Some_0;
        if path.len() > 0 {
            lemma_merged_graft(before, path, value);
            let tree = grafted(get(before, path[0]), path.drop_first(), value)->Some_0;
            if path[0] == key {
                lemma_get_put_same(before, key, tree);
            } else {
                lemma_get_put_other(before, path[0], tree, key);
            }
        }
    }
}

/// Writes keep the entries that were there in their places, under their
/// keys, and leave every first key of their paths present.
proof fn lemma_folded_keys(entries: Entries, writes: Seq<(Path, Tree)>)
    requires
        folded(entries, writes) is Some,
    ensures
        entries.len() <= folded(entries, writes)->Some_0.len(),
        forall|i: int|
            0 <= i < entries.len() ==> (#[trigger] folded(entries, writes)->Some_0[i]).0
                == entries[i].0,
        forall|key: Seq<char>|
            has_key(entries, key) ==> #[trigger] has_key(folded(entries, writes)->Some_0, key),
        forall|i: int|
            0 <= i < writes.len() && (#[trigger] writes[i]).0.len() > 0 ==> has_key(
                folded(entries, writes)->Some_0,
                writes[i].0[0],
            ),
    decreases writes.len(),
{
    if writes.len() > 0 {
        let front = writes.drop_last();
        let (path, value) = writes.last();
        lemma_folded_keys(entries, front);
        let before = folded(entries, front)->Some_0;
        let after = folded(entries, writes)->Some_0;
        if path.len() > 0 {
            lemma_merged_graft(before, path, value);
            let tree = grafted(get(before, path[0]), path.drop_first(), value)->Some_0;
            lemma_find(before, path[0]);
            lemma_get_put_same(before, path[0], tree);
            assert forall|key: Seq<char>| has_key(before, key) implies #[trigger] has_key(
                after,
                key,
            ) by {
                if key != path[0] {
                    lemma_get_put_other(before, path[0], tree, key);
                }
            }
        }
        assert forall|i: int| 0 <= i < writes.len() && (#[trigger] writes[i]).0.len()
            > 0 implies has_key(after, writes[i].0[0]) by {
            if i < front.len() {
                assert(front[i] == writes[i]);
            }
        }
    }
}

/// Writes whose first keys are all present change no key and add none.
proof fn lemma_folded_same_keys(entries: Entries, writes: Seq<(Path, Tree)>)
    requires
        folded(entries, writes) is Some,
        forall|i: int|
            0 <= i < writes.len() && (#[trigger] writes[i]).0.len() > 0 ==> has_key(
                entries,
                writes[i].0[0],
            ),
    ensures
        folded(entries, writes)->Some_0.len() == entries.len(),
        forall|i: int|
            0 <= i < entries.len() ==> (#[trigger] folded(entries, writes)->Some_0[i]).0
                == entries[i].0,
    decreases writes.len(),
{
    if writes.len() > 0 {
        let front = writes.drop_last();
        let (path, value) = writes.last();
        assert forall|i: int| 0 <= i < front.len() && (#[trigger] front[i]).0.len()
            > 0 implies has_key(entries, front[i].0[0]) by {
            assert(front[i] == writes[i]);
        }
        lemma_folded_same_keys(entries, front);
        lemma_folded_keys(entries, front);
        let before = folded(entries, front)->Some_0;
        if path.len() > 0 {
            assert(writes[writes.len() - 1] == writes.last());
            lemma_merged_graft(before, path, value);
            lemma_find(before, path[0]);
        }
    }
}

/// Writes of well-formed values leave a well-formed mapping well-formed.
proof fn lemma_folded_wf(entries: Entries, writes: Seq<(Path, Tree)>)
    requires
        entries_wf(entries),
        values_wf(writes),
        folded(entries, writes) is Some,
    ensures
        entries_wf(folded(entries, writes)->Some_0),
    decreases writes.len(),
{
    if writes.len() > 0 {
        let front = writes.drop_last();
        assert forall|i: int| 0 <= i < front.len() implies tree_wf((#[trigger] front[i]).1) by {
            assert(front[i] == writes[i]);
        }
        assert(writes[writes.len() - 1] == writes.last());
        lemma_folded_wf(entries, front);
        lemma_merged_wf(folded(entries, front)->Some_0, writes.last().0, writes.last().1);
    }
}

/// What writes make of a value, taken in two parts.
proof fn lemma_evolved_concat(
    current: Option<Tree>,
    first: Seq<(Path, Tree)>,
    second: Seq<(Path, Tree)>,
    key: Seq<char>,
)
    ensures
        evolved(current, first + second, key) == match evolved(current, first, key) {
            Some(between) => evolved(between, second, key),
            None => None,
        },
    decreases second.len(),
{
    if second.len() == 0 {
        assert(first + second =~= first);
    } else {
        assert((first + second).drop_last() =~= first + second.drop_last());
        assert((first + second).last() == second.last());
        lemma_evolved_concat(current, first, second.drop_last(), key);
    }
}

/// After a write that sets the key itself, what stood under the key before
/// counts for nothing.
proof fn lemma_evolved_after_set(
    current: Option<Tree>,
    writes: Seq<(Path, Tree)>,
    key: Seq<char>,
    at: int,
)
    requires
        0 <= at < writes.len(),
        is_set(writes[at], key),
        evolved(current, writes, key) is Some,
    ensures
        evolved(current, writes, key) == evolved(Some(writes[at].1), writes.skip(at + 1), key),
{
    let upto = writes.take(at + 1);
    let rest = writes.skip(at + 1);
    assert(upto + rest =~= writes);
    lemma_evolved_concat(current, upto, rest, key);
    assert(upto.last() == writes[at]);
    assert(writes[at].0.drop_first().len() == 0);
}

/// What writes that never set the key itself make of the value under it is
/// what they make, with the rest of their paths, of the mapping there.
proof fn lemma_evolved_deep(current: Option<Tree>, writes: Seq<(Path, Tree)>, key: Seq<char>)
    requires
        !sets_key(writes, key),
    ensures
        evolved(current, writes, key) == deepened(current, below_key(writes, key)),
    decreases writes.len(),
{
    if writes.len() > 0 {
        let front = writes.drop_last();
        let (path, value) = writes.last();
        assert(!sets_key(front, key)) by {
            if sets_key(front, key) {
                let i = choose|i: int| 0 <= i < front.len() && is_set(#[trigger] front[i], key);
                assert(front[i] == writes[i]);
                assert(is_set(writes[i], key));
            }
        }
        lemma_evolved_deep(current, front, key);
        let deep_front = below_key(front, key);
        if path.len() > 0 && path[0] == key {
            assert(writes[writes.len() - 1] == writes.last());
            assert(!is_set(writes[writes.len() - 1], key));
            let rest = path.drop_first();
            let deep = deep_front.push((rest, value));
            assert(deep.drop_last() =~= deep_front);
            assert(deep.last() == (rest, value));
            if deep_front.len() == 0 {
                assert(deep_front =~= Seq::<(Path, Tree)>::empty());
            }
        }
    }
}

/// The writes below a key carry fewer keys in their paths, by one for each.
proof fn lemma_weight_below(writes: Seq<(Path, Tree)>, key: Seq<char>)
    ensures
        weight(below_key(writes, key)) + below_key(writes, key).len() <= weight(writes),
    decreases writes.len(),
{
    if writes.len() > 0 {
        lemma_weight_below(writes.drop_last(), key);
        let (path, value) = writes.last();
        if path.len() > 0 && path[0] == key {
            let deep = below_key(writes.drop_last(), key).push((path.drop_first(), value));
            assert(deep.drop_last() =~= below_key(writes.drop_last(), key));
        }
    }
}

/// The writes below a key carry the values of the writes they come from.
proof fn lemma_values_wf_below(writes: Seq<(Path, Tree)>, key: Seq<char>)
    requires
        values_wf(writes),
    ensures
        values_wf(below_key(writes, key)),
    decreases writes.len(),
{
    if writes.len() > 0 {
        let front = writes.drop_last();
        assert forall|i: int| 0 <= i < front.len() implies tree_wf((#[trigger] front[i]).1) by {
            assert(front[i] == writes[i]);
        }
        assert(writes[writes.len() - 1] == writes.last());
        lemma_values_wf_below(front, key);
    }
}

/// What writes make of a value, they make of their own outcome again.
proof fn lemma_evolved_idempotent(
    current: Option<Tree>,
    writes: Seq<(Path, Tree)>,
    key: Seq<char>,
)
    requires
        current matches Some(tree) ==> tree_wf(tree),
        values_wf(writes),
        evolved(current, writes, key) is Some,
        evolved(evolved(current, writes, key)->Some_0, writes, key) is Some,
    ensures
        evolved(evolved(current, writes, key)->Some_0, writes, key) == evolved(
            current,
            writes,
            key,
        ),
    decreases weight(writes), 0nat,
{
    let once = evolved(current, writes, key)->Some_0;
    if sets_key(writes, key) {
        let at = choose|i: int| 0 <= i < writes.len() && is_set(#[trigger] writes[i], key);
        lemma_evolved_after_set(current, writes, key, at);
        lemma_evolved_after_set(once, writes, key, at);
    } else {
        let deep = below_key(writes, key);
        lemma_evolved_deep(current, writes, key);
        lemma_evolved_deep(once, writes, key);
        if deep.len() > 0 {
            let start: Entries = match current {
                Some(Tree::Mapping(child)) => child,
                _ => Seq::empty(),
            };
            lemma_weight_below(writes, key);
            lemma_values_wf_below(writes, key);
            lemma_folded_idempotent(start, deep);
        }
    }
}

/// Writing a list of values a second time changes nothing.
proof fn lemma_folded_idempotent(entries: Entries, writes: Seq<(Path, Tree)>)
    requires
        entries_wf(entries),
        values_wf(writes),
        folded(entries, writes) is Some,
        folded(folded(entries, writes)->Some_0, writes) is Some,
    ensures
        folded(folded(entries, writes)->Some_0, writes) == folded(entries, writes),
    decreases weight(writes), 1nat,
{
    let once = folded(entries, writes)->Some_0;
    let twice = folded(once, writes)->Some_0;
    lemma_folded_keys(entries, writes);
    lemma_folded_same_keys(once, writes);
    lemma_folded_wf(entries, writes);
    lemma_folded_wf(once, writes);
    assert forall|j: int| 0 <= j < once.len() implies twice[j] == once[j] by {
        let key = once[j].0;
        assert(twice[j].0 == key);
        lemma_find_unique(once, key, j);
        lemma_find_unique(twice, key, j);
        lemma_evolved_get(entries, writes, key);
        lemma_evolved_get(once, writes, key);
        lemma_find(entries, key);
        lemma_evolved_idempotent(get(entries, key), writes, key);
    }
    assert(twice =~= once);
}

/// Overrides that all take effect write the values of their literals.
proof fn lemma_applied_folded(entries: Entries, overrides: Seq<(Path, Seq<char>)>)
    requires
        applied(entries, overrides).1 is None,
    ensures
        folded(entries, parsed(overrides)) == Some(applied(entries, overrides).0),
        values_wf(parsed(overrides)),
    decreases overrides.len(),
{
    if overrides.len() > 0 {
        let front = overrides.drop_last();
        lemma_applied_folded(entries, front);
        assert(parsed(overrides).drop_last() =~= parsed(front));
        lemma_literal_wf(overrides.last().1);
        assert forall|i: int| 0 <= i < parsed(overrides).len() implies tree_wf(
            (#[trigger] parsed(overrides)[i]).1,
        ) by {
            if i < front.len() {
                assert(parsed(overrides)[i] == parsed(front)[i]);
            }
        }
    }
}

/// *Idempotence.* Merging an ordered list of overrides into a well-formed
/// mapping, and then the same list again, gives the mapping that merging it
/// once gives, wherever both merges go through.
pub proof fn law_idempotence(entries: Entries, overrides: Seq<(Path, Seq<char>)>)
    requires
        entries_wf(entries),
        applied(entries, overrides).1 is None,
        applied(applied(entries, overrides).0, overrides).1 is None,
    ensures
        applied(applied(entries, overrides).0, overrides).0 == applied(entries, overrides).0,
{
    let once = applied(entries, overrides).0;
    lemma_applied_folded(entries, overrides);
    lemma_applied_folded(once, overrides);
    lemma_folded_idempotent(entries, parsed(overrides));
}

} // verus!
