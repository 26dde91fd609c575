//! Reading structured data: the documents that the YAML reader yields, and
//! their passage into the value model.

use serde_yaml::Value as Yaml;
use vstd::prelude::*;
use vstd::string::StringExecFns;
use crate::value::{
    entries_wf, lemma_mapping_tree, lemma_put_wf, lemma_sequence_tree, put, tree_wf, ConfigValue,
    Entries, Mapping, Tree,
};

verus! {

/// A document as the YAML reader yields it.
///
/// This is the reader's own shape, richer than the value model: the keys of
/// a mapping are documents themselves, and a document may carry a tag.
#[derive(Debug, PartialEq, Eq)]
pub enum Node {
    Null,
    Bool(bool),
    /// A number, held as its canonical text.
    Number(String),
    String(String),
    Sequence(Vec<Node>),
    Mapping(Vec<(Node, Node)>),
    Tagged(String, Box<Node>),
}

/// `serde_yaml::Value`, carried as it is: what it holds is known through
/// [`node_of`] alone.
#[verifier::external_type_specification]
#[verifier::external_body]
pub struct ExYamlValue(serde_yaml::Value);

/// What `serde_yaml::from_str` reads from `text` as a `serde_yaml::Value`:
/// the document, or the message of the error it reports.
pub uninterp spec fn yaml_document(text: Seq<char>) -> Result<Node, Seq<char>>;

/// What `serde_yaml::from_slice` reads from `bytes` as a
/// `serde_yaml::Mapping`: the mapping as a document, or the message of the
/// error it reports.
pub uninterp spec fn yaml_mapping_document(bytes: Seq<u8>) -> Result<Node, Seq<char>>;

/// The document that a `serde_yaml::Value` holds.
pub uninterp spec fn node_of(document: serde_yaml::Value) -> Node;

/// Calls `serde_yaml::from_str` to read one document from `text`.
///
/// The contract only gives the outcome its name: the document read, or the
/// message of the reader's error, is `yaml_document` of the text.
#[verifier::external_body]
fn yaml_from_str(text: &str) -> (r: Result<serde_yaml::Value, String>)
    ensures
        match r {
            Ok(document) => yaml_document(text@) == Ok::<Node, Seq<char>>(node_of(document)),
            Err(message) => yaml_document(text@) == Err::<Node, Seq<char>>(message@),
        },
{
    serde_yaml::from_str::<serde_yaml::Value>(text).map_err(|e| e.to_string())
}

/// Calls `serde_yaml::from_slice` to read a mapping from `bytes`.
///
/// The contract only gives the outcome its name: the mapping read, or the
/// message of the reader's error, is `yaml_mapping_document` of the bytes.
#[verifier::external_body]
fn yaml_mapping_from_slice(bytes: &[u8]) -> (r: Result<serde_yaml::Value, String>)
    ensures
        match r {
            Ok(document) => yaml_mapping_document(bytes@) == Ok::<Node, Seq<char>>(
                node_of(document),
            ),
            Err(message) => yaml_mapping_document(bytes@) == Err::<Node, Seq<char>>(message@),
        },
{
    serde_yaml::from_slice::<serde_yaml::Mapping>(bytes).map(serde_yaml::Value::Mapping).map_err(
        |e| e.to_string(),
    )
}

/// Copies a `serde_yaml::Value` into a [`Node`], variant by variant. A number
/// is copied as the text that `serde_yaml::Number` prints for it.
#[verifier::external_body]
fn lift(document: &Yaml) -> (r: Node)
    ensures
        r == node_of(*document),
{
    match document {
        Yaml::Null => Node::Null,
        Yaml::Bool(b) => Node::Bool(*b),
        Yaml::Number(n) => Node::Number(n.to_string()),
        Yaml::String(s) => Node::String(s.clone()),
        Yaml::Sequence(items) => Node::Sequence(items.iter().map(lift).collect()),
        Yaml::Mapping(m) => Node::Mapping(m.iter().map(|(k, v)| (lift(k), lift(v))).collect()),
        Yaml::Tagged(t) => Node::Tagged(t.tag.to_string(), Box::new(lift(&t.value))),
    }
}

/// The value that a document stands for, where it stands for one.
///
/// Tags are dropped. A mapping takes its entries in order, each under the
/// text of its key, a later entry under the same text replacing the earlier
/// one in its place. A document with a mapping whose key is a sequence or a
/// mapping stands for no value.
pub open spec fn node_tree(node: Node) -> Option<Tree>
    decreases node, 1nat,
{
    match node {
        Node::Null => Some(Tree::Null),
        Node::Bool(b) => Some(Tree::Bool(b)),
        Node::Number(text) => Some(Tree::Number(text@)),
        Node::String(text) => Some(Tree::String(text@)),
        Node::Sequence(items) => match node_trees(items@) {
            Some(trees) => Some(Tree::Sequence(trees)),
            None => None,
        },
        Node::Mapping(entries) => match node_entries(entries@) {
            Some(entries) => Some(Tree::Mapping(entries)),
            None => None,
        },
        Node::Tagged(_, inner) => node_tree(*inner),
    }
}

/// The values that the documents `items` stand for, where each of them
/// stands for one.
pub open spec fn node_trees(items: Seq<Node>) -> Option<Seq<Tree>>
    decreases items, 0nat,
{
    if items.len() == 0 {
        Some(Seq::empty())
    } else {
        match (node_trees(items.drop_last()), node_tree(items.last())) {
            (Some(trees), Some(tree)) => Some(trees.push(tree)),
            _ => None,
        }
    }
}

/// The text that a document gives as the key of a mapping, where it is a
/// scalar: a string itself, a number its canonical text, a boolean `true` or
/// `false`, and null `null`.
pub open spec fn key_text(node: Node) -> Option<Seq<char>>
    decreases node,
{
    match node {
        Node::Null => Some("null"@),
        Node::Bool(b) => Some(
            if b {
                "true"@
            } else {
                "false"@
            },
        ),
        Node::Number(text) => Some(text@),
        Node::String(text) => Some(text@),
        Node::Tagged(_, inner) => key_text(*inner),
        _ => None,
    }
}

/// The entries that the pairs of documents `pairs` stand for, where each key
/// is a scalar and each value stands for one.
pub open spec fn node_entries(pairs: Seq<(Node, Node)>) -> Option<Entries>
    decreases pairs, 0nat,
{
    if pairs.len() == 0 {
        Some(Seq::empty())
    } else {
        match (
            node_entries(pairs.drop_last()),
            key_text(pairs.last().0),
            node_tree(pairs.last().1),
        ) {
            (Some(entries), Some(key), Some(tree)) => Some(put(entries, key, tree)),
            _ => None,
        }
    }
}

/// Where a prefix of `items` does not convert, `items` does not.
proof fn lemma_node_trees_prefix(items: Seq<Node>, n: int)
    requires
        0 <= n <= items.len(),
        node_trees(items.take(n)) is None,
    ensures
        node_trees(items) is None,
    decreases items.len() - n,
{
    if n < items.len() {
        assert(items.take(n + 1).drop_last() =~= items.take(n));
        lemma_node_trees_prefix(items, n + 1);
    } else {
        assert(items.take(n) =~= items);
    }
}

/// Where a prefix of `pairs` does not convert, `pairs` does not.
proof fn lemma_node_entries_prefix(pairs: Seq<(Node, Node)>, n: int)
    requires
        0 <= n <= pairs.len(),
        node_entries(pairs.take(n)) is None,
    ensures
        node_entries(pairs) is None,
    decreases pairs.len() - n,
{
    if n < pairs.len() {
        assert(pairs.take(n + 1).drop_last() =~= pairs.take(n));
        lemma_node_entries_prefix(pairs, n + 1);
    } else {
        assert(pairs.take(n) =~= pairs);
    }
}

/// The value that a document stands for is well-formed.
pub proof fn lemma_node_tree_wf(node: Node)
    ensures
        node_tree(node) matches Some(tree) ==> tree_wf(tree),
    decreases node, 1nat,
{
    match node {
        Node::Sequence(items) => {
            lemma_node_trees_wf(items@);
        },
        Node::Mapping(pairs) => {
            lemma_node_entries_wf(pairs@);
        },
        Node::Tagged(_, inner) => {
            lemma_node_tree_wf(*inner);
        },
        _ => {},
    }
}

/// The values that documents stand for are well-formed.
pub proof fn lemma_node_trees_wf(items: Seq<Node>)
    ensures
        node_trees(items) matches Some(trees) ==> forall|i: int|
            0 <= i < trees.len() ==> tree_wf(#[trigger] trees[i]),
    decreases items, 0nat,
{
    if items.len() > 0 {
        lemma_node_trees_wf(items.drop_last());
        lemma_node_tree_wf(items.last());
    }
}

/// The entries that pairs of documents stand for are well-formed.
pub proof fn lemma_node_entries_wf(pairs: Seq<(Node, Node)>)
    ensures
        node_entries(pairs) matches Some(entries) ==> entries_wf(entries),
    decreases pairs, 0nat,
{
    if pairs.len() > 0 {
        lemma_node_entries_wf(pairs.drop_last());
        lemma_node_tree_wf(pairs.last().1);
        if let (Some(entries), Some(key), Some(tree)) = (
            node_entries(pairs.drop_last()),
            key_text(pairs.last().0),
            node_tree(pairs.last().1),
        ) {
            lemma_put_wf(entries, key, tree);
        }
    }
}

/// The value that a literal stands for is well-formed.
pub proof fn lemma_literal_wf(text: Seq<char>)
    ensures
        literal_value(text) matches Ok(tree) ==> tree_wf(tree),
{
    if let Ok(node) = yaml_document(text) {
        lemma_node_tree_wf(node);
    }
}

/// The models of a sequence of values.
pub open spec fn trees(values: Seq<ConfigValue>) -> Seq<Tree> {
    Seq::new(values.len(), |i: int| values[i]@)
}

/// The text that a document gives as the key of a mapping; `None` where it
/// is no scalar.
pub fn key_from_node(node: &Node) -> (r: Option<String>)
    ensures
        match r {
            Some(key) => key_text(*node) == Some(key@),
            None => key_text(*node) is None,
        },
    decreases node,
{
    match node {
        Node::Null => Some(String::from_str("null")),
        Node::Bool(b) => Some(
            if *b {
                String::from_str("true")
            } else {
                String::from_str("false")
            },
        ),
        Node::Number(text) => Some(text.clone()),
        Node::String(text) => Some(text.clone()),
        Node::Tagged(_, inner) => key_from_node(inner),
        _ => None,
    }
}

/// Converts a document into the value it stands for; `None` where it stands
/// for none.
#[verifier::loop_isolation(false)]
pub fn value_from_node(node: &Node) -> (r: Option<ConfigValue>)
    ensures
        match r {
            Some(value) => node_tree(*node) == Some(value@) && tree_wf(value@),
            None => node_tree(*node) is None,
        },
    decreases node,
{
    proof {
        lemma_node_tree_wf(*node);
    }
    match node {
        Node::Null => Some(ConfigValue::Null),
        Node::Bool(b) => Some(ConfigValue::Bool(*b)),
        Node::Number(text) => Some(ConfigValue::Number(text.clone())),
        Node::String(text) => Some(ConfigValue::String(text.clone())),
        Node::Sequence(items) => {
            let mut values: Vec<ConfigValue> = Vec::new();
            let mut i: usize = 0;
            assert(items@.take(0) =~= Seq::<Node>::empty());
            assert(trees(values@) =~= Seq::<Tree>::empty());
            while i < items.len()
                invariant
                    0 <= i <= items@.len(),
                    node_trees(items@.take(i as int)) == Some(trees(values@)),
                decreases items@.len() - i,
            {
                let ghost next = items@.take(i + 1);
                assert(next.drop_last() =~= items@.take(i as int));
                assert(next.last() == items@[i as int]);
                match value_from_node(&items[i]) {
                    Some(value) => {
                        let ghost before = values@;
                        values.push(value);
                        assert(trees(values@) =~= trees(before).push(value@));
                    },
                    None => {
                        proof {
                            lemma_node_trees_prefix(items@, i + 1);
                        }
                        return None;
                    },
                }
                i = i + 1;
            }
            assert(items@.take(i as int) =~= items@);
            proof {
                lemma_sequence_tree(values);
            }
            Some(ConfigValue::Sequence(values))
        },
        Node::Mapping(pairs) => {
            let mut mapping = Mapping::new();
            let mut i: usize = 0;
            assert(pairs@.take(0) =~= Seq::<(Node, Node)>::empty());
            while i < pairs.len()
                invariant
                    0 <= i <= pairs@.len(),
                    node_entries(pairs@.take(i as int)) == Some(mapping@),
                decreases pairs@.len() - i,
            {
                let ghost next = pairs@.take(i + 1);
                assert(next.drop_last() =~= pairs@.take(i as int));
                assert(next.last() == pairs@[i as int]);
                let key = match key_from_node(&pairs[i].0) {
                    Some(key) => key,
                    None => {
                        proof {
                            lemma_node_entries_prefix(pairs@, i + 1);
                        }
                        return None;
                    },
                };
                match value_from_node(&pairs[i].1) {
                    Some(value) => {
                        mapping.insert(key, value);
                    },
                    None => {
                        proof {
                            lemma_node_entries_prefix(pairs@, i + 1);
                        }
                        return None;
                    },
                }
                i = i + 1;
            }
            assert(pairs@.take(i as int) =~= pairs@);
            proof {
                lemma_mapping_tree(mapping);
            }
            Some(ConfigValue::Mapping(mapping))
        },
        Node::Tagged(_, inner) => value_from_node(inner),
    }
}

/// The message for a document that holds a mapping key that is no scalar.
pub open spec fn key_message() -> Seq<char> {
    "mapping key is not a scalar"@
}

/// The message for a configuration file that does not hold a mapping.
pub open spec fn mapping_message() -> Seq<char> {
    "document is not a mapping"@
}

/// The value that the literal `text` stands for, or the message that says
/// why it stands for none.
pub open spec fn literal_value(text: Seq<char>) -> Result<Tree, Seq<char>> {
    match yaml_document(text) {
        Ok(node) => match node_tree(node) {
            Some(tree) => Ok(tree),
            None => Err(key_message()),
        },
        Err(message) => Err(message),
    }
}

/// The mapping that the file contents `bytes` stand for, or the message that
/// says why they stand for none.
pub open spec fn file_entries(bytes: Seq<u8>) -> Result<Entries, Seq<char>> {
    match yaml_mapping_document(bytes) {
        Ok(node) => match node_tree(node) {
            Some(Tree::Mapping(entries)) => Ok(entries),
            Some(_) => Err(mapping_message()),
            None => Err(key_message()),
        },
        Err(message) => Err(message),
    }
}

/// Infers the value that the literal `text` stands for: `true` a boolean, `42`
/// a number, `foo` a string, and so on for sequences and mappings.
pub fn parse_value(text: &str) -> (r: Result<ConfigValue, String>)
    ensures
        match r {
            Ok(value) => literal_value(text@) == Ok::<Tree, Seq<char>>(value@) && tree_wf(value@),
            Err(message) => literal_value(text@) == Err::<Tree, Seq<char>>(message@),
        },
{
    match yaml_from_str(text) {
        Ok(document) => {
            let node = lift(&document);
            match value_from_node(&node) {
                Some(value) => Ok(value),
                None => Err(String::from_str("mapping key is not a scalar")),
            }
        },
        Err(message) => Err(message),
    }
}

/// Reads the contents of a configuration file as a mapping.
pub fn parse_mapping(bytes: &[u8]) -> (r: Result<Mapping, String>)
    ensures
        match r {
            Ok(mapping) => file_entries(bytes@) == Ok::<Entries, Seq<char>>(mapping@)
                && mapping.wf(),
            Err(message) => file_entries(bytes@) == Err::<Entries, Seq<char>>(message@),
        },
{
    match yaml_mapping_from_slice(bytes) {
        Ok(document) => {
            let node = lift(&document);
            match value_from_node(&node) {
                Some(ConfigValue::Mapping(mapping)) => {
                    proof {
                        lemma_mapping_tree(mapping);
                    }
                    Ok(mapping)
                },
                Some(_) => Err(String::from_str("document is not a mapping")),
                None => Err(String::from_str("mapping key is not a scalar")),
            }
        },
        Err(message) => Err(message),
    }
}

} // verus!
