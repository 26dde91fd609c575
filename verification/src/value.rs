//! The value model: the dynamically typed tree in which raw configuration
//! data is held, whatever source it came from.

use vstd::prelude::*;

verus! {

/// The mathematical model of a [`ConfigValue`]: the same tree, over sequences.
///
/// A number is modelled by its canonical text, which is all this library ever
/// needs of it. A mapping is modelled by its entries in insertion order.
pub enum Tree {
    Null,
    Bool(bool),
    Number(Seq<char>),
    String(Seq<char>),
    Sequence(Seq<Tree>),
    Mapping(Seq<(Seq<char>, Tree)>),
}

/// The entries of a mapping, in insertion order.
pub type Entries = Seq<(Seq<char>, Tree)>;

/// A raw configuration value.
#[derive(Debug, PartialEq, Eq)]
pub enum ConfigValue {
    Null,
    Bool(bool),
    /// A number, held as its canonical text.
    Number(String),
    String(String),
    Sequence(Vec<ConfigValue>),
    Mapping(Mapping),
}

/// An ordered map from string keys to values.
///
/// Entries stay in the order in which their keys were first inserted. The
/// constructors never put the same key in twice: see [`Mapping::wf`].
#[derive(Debug, PartialEq, Eq)]
pub struct Mapping {
    pub entries: Vec<(String, ConfigValue)>,
}

/// The model of one value.
pub open spec fn tree_of(value: ConfigValue) -> Tree
    decreases value,
{
    // The bounds inside the closures only serve the termination check.
    match value {
        ConfigValue::Null => Tree::Null,
        ConfigValue::Bool(b) => Tree::Bool(b),
        ConfigValue::Number(text) => Tree::Number(text@),
        ConfigValue::String(text) => Tree::String(text@),
        ConfigValue::Sequence(items) => Tree::Sequence(
            Seq::new(
                items@.len(),
                |i: int|
                    if 0 <= i < items@.len() {
                        tree_of(items@[i])
                    } else {
                        Tree::Null
                    },
            ),
        ),
        ConfigValue::Mapping(mapping) => Tree::Mapping(
            Seq::new(
                mapping.entries@.len(),
                |i: int|
                    if 0 <= i < mapping.entries@.len() {
                        (mapping.entries@[i].0@, tree_of(mapping.entries@[i].1))
                    } else {
                        (Seq::empty(), Tree::Null)
                    },
            ),
        ),
    }
}

impl View for ConfigValue {
    type V = Tree;

    open spec fn view(&self) -> Tree {
        tree_of(*self)
    }
}

impl View for Mapping {
    type V = Entries;

    open spec fn view(&self) -> Entries {
        Seq::new(self.entries@.len(), |i: int| (self.entries@[i].0@, self.entries@[i].1@))
    }
}

/// The index of the first entry under `key`; the number of entries if there
/// is none.
pub open spec fn find(entries: Entries, key: Seq<char>) -> int
    decreases entries.len(),
{
    if entries.len() == 0 {
        0
    } else if entries.first().0 == key {
        0
    } else {
        1 + find(entries.drop_first(), key)
    }
}

/// Whether some entry stands under `key`.
pub open spec fn has_key(entries: Entries, key: Seq<char>) -> bool {
    find(entries, key) < entries.len()
}

/// The value under `key`, if there is one.
pub open spec fn get(entries: Entries, key: Seq<char>) -> Option<Tree> {
    if has_key(entries, key) {
        Some(entries[find(entries, key)].1)
    } else {
        None
    }
}

/// The entries after `value` is set under `key`: in the place of the old
/// value where the key is present, as a new last entry where it is not.
pub open spec fn put(entries: Entries, key: Seq<char>, value: Tree) -> Entries {
    if has_key(entries, key) {
        entries.update(find(entries, key), (key, value))
    } else {
        entries.push((key, value))
    }
}

/// No key stands in `entries` twice.
pub open spec fn unique_keys(entries: Entries) -> bool {
    forall|i: int, j: int|
        0 <= i < j < entries.len() ==> (#[trigger] entries[i]).0 != (#[trigger] entries[j]).0
}

/// Every mapping in `tree`, at any depth, has unique keys.
pub open spec fn tree_wf(tree: Tree) -> bool
    decreases tree,
{
    match tree {
        Tree::Sequence(items) => forall|i: int|
            0 <= i < items.len() ==> tree_wf(#[trigger] items[i]),
        Tree::Mapping(entries) => entries_wf(entries),
        _ => true,
    }
}

/// `entries` has unique keys, and so has every mapping below it.
pub open spec fn entries_wf(entries: Entries) -> bool
    decreases entries,
{
    &&& unique_keys(entries)
    &&& forall|i: int| 0 <= i < entries.len() ==> tree_wf((#[trigger] entries[i]).1)
}

/// `find` gives the first index at which `key` stands.
pub proof fn lemma_find(entries: Entries, key: Seq<char>)
    ensures
        0 <= find(entries, key) <= entries.len(),
        has_key(entries, key) ==> entries[find(entries, key)].0 == key,
        forall|j: int| 0 <= j < find(entries, key) ==> (#[trigger] entries[j]).0 != key,
    decreases entries.len(),
{
    if entries.len() > 0 && entries.first().0 != key {
        let rest = entries.drop_first();
        lemma_find(rest, key);
        assert forall|j: int| 0 <= j < find(entries, key) implies (#[trigger] entries[j]).0
            != key by {
            if j > 0 {
                assert(rest[j - 1] == entries[j]);
            }
        }
    }
}

/// An index below which `key` does not stand, and at which it stands unless
/// it is the end, is what `find` gives.
pub proof fn lemma_find_is(entries: Entries, key: Seq<char>, i: int)
    requires
        0 <= i <= entries.len(),
        i < entries.len() ==> entries[i].0 == key,
        forall|j: int| 0 <= j < i ==> (#[trigger] entries[j]).0 != key,
    ensures
        find(entries, key) == i,
    decreases entries.len(),
{
    if entries.len() > 0 && i > 0 {
        let rest = entries.drop_first();
        assert(entries[0].0 != key);
        assert forall|j: int| 0 <= j < i - 1 implies (#[trigger] rest[j]).0 != key by {
            assert(rest[j] == entries[j + 1]);
        }
        lemma_find_is(rest, key, i - 1);
    }
}

/// After `put`, the key holds the value that was put.
pub proof fn lemma_get_put_same(entries: Entries, key: Seq<char>, value: Tree)
    ensures
        get(put(entries, key, value), key) == Some(value),
        find(put(entries, key, value), key) == find(entries, key),
{
    let i = find(entries, key);
    lemma_find(entries, key);
    lemma_find_is(put(entries, key, value), key, i);
}

/// `put` leaves every other key as it was.
pub proof fn lemma_get_put_other(entries: Entries, key: Seq<char>, value: Tree, other: Seq<char>)
    requires
        other != key,
    ensures
        get(put(entries, key, value), other) == get(entries, other),
        has_key(entries, other) ==> find(put(entries, key, value), other) == find(
            entries,
            other,
        ),
{
    let after = put(entries, key, value);
    let i = find(entries, other);
    lemma_find(entries, key);
    lemma_find(entries, other);
    if has_key(entries, other) {
        lemma_find_is(after, other, i);
    } else {
        lemma_find_is(after, other, after.len() as int);
    }
}

/// `put` keeps keys unique.
pub proof fn lemma_put_unique(entries: Entries, key: Seq<char>, value: Tree)
    requires
        unique_keys(entries),
    ensures
        unique_keys(put(entries, key, value)),
{
    lemma_find(entries, key);
}

/// `put` of a well-formed value keeps a mapping well-formed.
pub proof fn lemma_put_wf(entries: Entries, key: Seq<char>, value: Tree)
    requires
        entries_wf(entries),
        tree_wf(value),
    ensures
        entries_wf(put(entries, key, value)),
{
    lemma_put_unique(entries, key, value);
    lemma_find(entries, key);
}

/// Where keys are unique, a key stands at no index but the one `find` gives.
pub proof fn lemma_find_unique(entries: Entries, key: Seq<char>, i: int)
    requires
        unique_keys(entries),
        0 <= i < entries.len(),
        entries[i].0 == key,
    ensures
        find(entries, key) == i,
{
    lemma_find(entries, key);
    let f = find(entries, key);
    if f < i {
        assert(entries[f].0 != entries[i].0);
    }
}

/// The model of a value that is a mapping holds the model of that mapping.
pub proof fn lemma_mapping_tree(mapping: Mapping)
    ensures
        ConfigValue::Mapping(mapping)@ == Tree::Mapping(mapping@),
{
    assert(ConfigValue::Mapping(mapping)@->Mapping_0 =~= mapping@);
}

/// The model of a value that is a sequence holds the models of its items.
pub proof fn lemma_sequence_tree(items: Vec<ConfigValue>)
    ensures
        ConfigValue::Sequence(items)@ == Tree::Sequence(
            Seq::new(items@.len(), |i: int| items@[i]@),
        ),
{
    assert(ConfigValue::Sequence(items)@->Sequence_0 =~= Seq::new(
        items@.len(),
        |i: int| items@[i]@,
    ));
}

impl ConfigValue {
    /// Whether the two values are the same tree.
    #[verifier::loop_isolation(false)]
    pub fn same_as(&self, other: &ConfigValue) -> (r: bool)
        ensures
            r == (self@ == other@),
        decreases self, 0nat,
    {
        match (self, other) {
            (ConfigValue::Null, ConfigValue::Null) => true,
            (ConfigValue::Bool(a), ConfigValue::Bool(b)) => *a == *b,
            (ConfigValue::Number(a), ConfigValue::Number(b)) => *a == *b,
            (ConfigValue::String(a), ConfigValue::String(b)) => *a == *b,
            (ConfigValue::Sequence(a), ConfigValue::Sequence(b)) => {
                proof {
                    lemma_sequence_tree(*a);
                    lemma_sequence_tree(*b);
                }
                let ghost left = Seq::new(a@.len(), |i: int| a@[i]@);
                let ghost right = Seq::new(b@.len(), |i: int| b@[i]@);
                if a.len() != b.len() {
                    assert(left.len() != right.len());
                    return false;
                }
                let mut i: usize = 0;
                while i < a.len()
                    invariant
                        0 <= i <= a@.len() == b@.len(),
                        forall|k: int| 0 <= k < i ==> a@[k]@ == b@[k]@,
                    decreases a@.len() - i,
                {
                    if !a[i].same_as(&b[i]) {
                        assert(left[i as int] != right[i as int]);
                        return false;
                    }
                    i = i + 1;
                }
                assert(left =~= right);
                true
            },
            (ConfigValue::Mapping(a), ConfigValue::Mapping(b)) => {
                proof {
                    lemma_mapping_tree(*a);
                    lemma_mapping_tree(*b);
                }
                a.same_as(b)
            },
            _ => false,
        }
    }
}

impl Mapping {
    /// Whether the two mappings hold the same entries in the same order.
    #[verifier::loop_isolation(false)]
    pub fn same_as(&self, other: &Mapping) -> (r: bool)
        ensures
            r == (self@ == other@),
        decreases self, 1nat,
    {
        if self.entries.len() != other.entries.len() {
            assert(self@.len() != other@.len());
            return false;
        }
        let mut i: usize = 0;
        while i < self.entries.len()
            invariant
                0 <= i <= self.entries@.len() == other.entries@.len(),
                forall|k: int| 0 <= k < i ==> self@[k] == other@[k],
            decreases self.entries@.len() - i,
        {
            if self.entries[i].0 != other.entries[i].0 || !self.entries[i].1.same_as(
                &other.entries[i].1,
            ) {
                assert(self@[i as int] != other@[i as int]);
                return false;
            }
            i = i + 1;
        }
        assert(self@ =~= other@);
        true
    }

    /// Every mapping in `self`, at any depth, has unique keys.
    pub open spec fn wf(&self) -> bool {
        entries_wf(self@)
    }

    /// The empty mapping.
    pub fn new() -> (r: Mapping)
        ensures
            r@ == Seq::<(Seq<char>, Tree)>::empty(),
            r.wf(),
    {
        let r = Mapping { entries: Vec::new() };
        assert(r@ =~= Seq::<(Seq<char>, Tree)>::empty());
        r
    }

    /// The number of entries.
    pub fn len(&self) -> (n: usize)
        ensures
            n == self@.len(),
    {
        self.entries.len()
    }

    /// Whether the mapping has no entries.
    pub fn is_empty(&self) -> (r: bool)
        ensures
            r == (self@.len() == 0),
    {
        self.entries.len() == 0
    }

    /// The index of the first entry under `key`.
    pub fn position(&self, key: &str) -> (r: Option<usize>)
        ensures
            r is Some == has_key(self@, key@),
            r matches Some(i) ==> i == find(self@, key@),
    {
        let mut i: usize = 0;
        while i < self.entries.len()
            invariant
                0 <= i <= self.entries@.len(),
                forall|j: int| 0 <= j < i ==> (#[trigger] self@[j]).0 != key@,
            decreases self.entries@.len() - i,
        {
            if self.entries[i].0.as_str().eq(key) {
                proof {
                    lemma_find_is(self@, key@, i as int);
                }
                return Some(i);
            }
            i = i + 1;
        }
        proof {
            lemma_find_is(self@, key@, i as int);
        }
        None
    }

    /// The value under `key`.
    pub fn get(&self, key: &str) -> (r: Option<&ConfigValue>)
        ensures
            r is Some == has_key(self@, key@),
            r matches Some(v) ==> get(self@, key@) == Some(v@),
    {
        match self.position(key) {
            Some(i) => Some(&self.entries[i].1),
            None => None,
        }
    }

    /// Sets `value` under `key` and gives back the value that stood there.
    ///
    /// A key that is present keeps its place; a new key goes to the end.
    pub fn insert(&mut self, key: String, value: ConfigValue) -> (previous: Option<ConfigValue>)
        ensures
            final(self)@ == put(old(self)@, key@, value@),
            previous is Some == has_key(old(self)@, key@),
            previous matches Some(v) ==> get(old(self)@, key@) == Some(v@),
            old(self).wf() && tree_wf(value@) ==> final(self).wf(),
    {
        proof {
            if old(self).wf() && tree_wf(value@) {
                lemma_put_wf(old(self)@, key@, value@);
            }
        }
        match self.position(key.as_str()) {
            Some(i) => {
                let mut entry = (key, value);
                self.entries.set_and_swap(i, &mut entry);
                assert(self@ =~= put(old(self)@, key@, value@));
                Some(entry.1)
            },
            None => {
                self.entries.push((key, value));
                assert(self@ =~= put(old(self)@, key@, value@));
                None
            },
        }
    }
}

impl Clone for ConfigValue {
    /// A copy of the whole tree.
    #[verifier::loop_isolation(false)]
    fn clone(&self) -> (r: ConfigValue)
        ensures
            r@ == self@,
        decreases self, 0nat,
    {
        match self {
            ConfigValue::Null => ConfigValue::Null,
            ConfigValue::Bool(b) => ConfigValue::Bool(*b),
            ConfigValue::Number(text) => ConfigValue::Number(text.clone()),
            ConfigValue::String(text) => ConfigValue::String(text.clone()),
            ConfigValue::Sequence(items) => {
                let mut copies: Vec<ConfigValue> = Vec::new();
                let mut i: usize = 0;
                while i < items.len()
                    invariant
                        0 <= i <= items@.len(),
                        copies@.len() == i,
                        forall|j: int| 0 <= j < i ==> (#[trigger] copies@[j])@ == items@[j]@,
                    decreases items@.len() - i,
                {
                    copies.push(items[i].clone());
                    i = i + 1;
                }
                let r = ConfigValue::Sequence(copies);
                assert(r@->Sequence_0 =~= self@->Sequence_0);
                r
            },
            ConfigValue::Mapping(mapping) => {
                let copy = mapping.clone();
                proof {
                    lemma_mapping_tree(copy);
                    lemma_mapping_tree(*mapping);
                }
                ConfigValue::Mapping(copy)
            },
        }
    }
}

impl Clone for Mapping {
    /// A copy of the whole mapping.
    #[verifier::loop_isolation(false)]
    fn clone(&self) -> (r: Mapping)
        ensures
            r@ == self@,
        decreases self, 1nat,
    {
        let mut copies: Vec<(String, ConfigValue)> = Vec::new();
        let mut i: usize = 0;
        while i < self.entries.len()
            invariant
                0 <= i <= self.entries@.len(),
                copies@.len() == i,
                forall|j: int|
                    0 <= j < i ==> (#[trigger] copies@[j]).0@ == self.entries@[j].0@
                        && copies@[j].1@ == self.entries@[j].1@,
            decreases self.entries@.len() - i,
        {
            copies.push((self.entries[i].0.clone(), self.entries[i].1.clone()));
            i = i + 1;
        }
        let r = Mapping { entries: copies };
        assert(r@ =~= self@);
        r
    }
}

/// `str == str` compares the two texts.
pub assume_specification[ <str as PartialEq>::eq ](a: &str, b: &str) -> (r: bool)
    ensures
        r == (a@ == b@),
;

} // verus!
