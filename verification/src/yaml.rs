//! Documents read from YAML text by `serde_yaml`.
//!
//! The parser and the values it gives are `serde_yaml`'s own. What this module believes of
//! them is stated over [`Yaml`], a model of what a `serde_yaml::Value` holds; turning such a
//! value into a [`ValueTree`] is verified against those statements. Every value has its
//! document: a mapping key that is neither a string nor an integer is kept as it is.

use vstd::prelude::*;
use crate::tree::{
    entries_view, items_view, lemma_entries_view, lemma_items_view, Key, KeyView, Tree, ValueTree,
};

verus! {

/// `serde_yaml::Value`, a YAML value. Nothing inside it is seen here: it is read through the
/// methods specified below.
#[verifier::external_type_specification]
#[verifier::external_body]
pub struct ExYamlValue(serde_yaml::Value);

/// `serde_yaml::Error`, the error of reading a text. Nothing is read from it.
#[verifier::external_type_specification]
#[verifier::external_body]
pub struct ExYamlError(serde_yaml::Error);

/// What a `serde_yaml::Value` holds, as far as this library reads it.
pub enum Yaml {
    Null,
    Bool(bool),
    /// A number: the integer it is read as, if it is one that fits, and the bit pattern of the
    /// float it is read as.
    Number { integer: Option<i64>, float_bits: u64 },
    String(Seq<char>),
    Sequence(Seq<Yaml>),
    /// The entries of a mapping, in document order.
    Mapping(Seq<(Yaml, Yaml)>),
}

/// What a `serde_yaml::Value` holds: the model that its methods below are specified over.
pub uninterp spec fn yaml_of(yaml: serde_yaml::Value) -> Yaml;

/// What `serde_yaml` reads from `text`: the document, or nothing where it reports an error.
pub uninterp spec fn yaml_document(text: Seq<char>) -> Option<Yaml>;

/// `serde_yaml::Value::is_null`: true for the null value and for nothing else.
pub assume_specification[ serde_yaml::Value::is_null ](yaml: &serde_yaml::Value) -> (null: bool)
    ensures
        null == (yaml_of(*yaml) is Null),
;

/// `serde_yaml::Value::as_bool`: the boolean of a boolean value, nothing for any other.
pub assume_specification[ serde_yaml::Value::as_bool ](yaml: &serde_yaml::Value) -> (b: Option<
    bool,
>)
    ensures
        b == (match yaml_of(*yaml) {
            Yaml::Bool(b) => Some(b),
            _ => None,
        }),
;

/// `serde_yaml::Value::as_i64`: the integer of a number that is one and fits, nothing for any
/// other value.
pub assume_specification[ serde_yaml::Value::as_i64 ](yaml: &serde_yaml::Value) -> (i: Option<
    i64,
>)
    ensures
        i == (match yaml_of(*yaml) {
            Yaml::Number { integer, .. } => integer,
            _ => None,
        }),
;

/// `serde_yaml::Value::as_str`: the text of a string value, nothing for any other.
pub assume_specification[ serde_yaml::Value::as_str ](yaml: &serde_yaml::Value) -> (s: Option<
    &str,
>)
    ensures
        match yaml_of(*yaml) {
            Yaml::String(text) => s matches Some(s) && s@ == text,
            _ => s is None,
        },
;

/// `serde_yaml::Value::as_sequence`: the items of a sequence in order, nothing for any other
/// value.
pub assume_specification[ serde_yaml::Value::as_sequence ](yaml: &serde_yaml::Value) -> (items:
    Option<&serde_yaml::Sequence>)
    ensures
        match yaml_of(*yaml) {
            Yaml::Sequence(held) => items matches Some(items) && items@.len() == held.len()
                && forall|i: int| 0 <= i < held.len() ==> yaml_of(#[trigger] items@[i]) == held[i],
            _ => items is None,
        },
;

/// `serde_yaml::Value::as_f64`, its result by its bits: the float that a number is read as,
/// nothing for any other value.
#[verifier::external_body]
fn float_bits(yaml: &serde_yaml::Value) -> (bits: Option<u64>)
    ensures
        bits == (match yaml_of(*yaml) {
            Yaml::Number { float_bits, .. } => Some(float_bits),
            _ => None,
        }),
{
    match yaml.as_f64() {
        Some(float) => Some(float.to_bits()),
        None => None,
    }
}

/// `serde_yaml::Value::as_mapping` and `serde_yaml::Mapping::iter`: the entries of a mapping
/// in document order, nothing for any other value.
#[verifier::external_body]
fn mapping_entries(yaml: &serde_yaml::Value) -> (entries: Option<
    Vec<(&serde_yaml::Value, &serde_yaml::Value)>,
>)
    ensures
        match yaml_of(*yaml) {
            Yaml::Mapping(held) => entries matches Some(entries) && entries@.len() == held.len()
                && forall|i: int|
                0 <= i < held.len() ==> (yaml_of(*(#[trigger] entries@[i]).0), yaml_of(
                    *entries@[i].1,
                )) == held[i],
            _ => entries is None,
        },
{
    match yaml.as_mapping() {
        Some(mapping) => Some(mapping.iter().collect()),
        None => None,
    }
}

/// `serde_yaml::Deserializer::from_str` and the `Deserialize` impl of `serde_yaml::Value`:
/// the document that the text holds, or the error that reading it gave. The outcome depends
/// on the text alone.
#[verifier::external_body]
fn read_yaml(text: &str) -> (outcome: Result<serde_yaml::Value, serde_yaml::Error>)
    ensures
        match outcome {
            Ok(yaml) => yaml_document(text@) == Some(yaml_of(yaml)),
            Err(_) => yaml_document(text@) is None,
        },
{
    <serde_yaml::Value as serde::Deserialize>::deserialize(serde_yaml::Deserializer::from_str(text))
}

/// The key that a YAML value stands for: its text for a string, its integer for a number
/// that is read as one, and the value kept as it is for anything else.
pub open spec fn key_of(yaml: Yaml) -> KeyView
    decreases yaml, 1nat,
{
    match yaml {
        Yaml::String(text) => KeyView::Str(text),
        Yaml::Number { integer: Some(i), .. } => KeyView::Int(i),
        _ => KeyView::Other(tree_of(yaml)),
    }
}

/// The document that a YAML value stands for. A number is an integer where it is read as
/// one, else a float.
pub open spec fn tree_of(yaml: Yaml) -> Tree
    decreases yaml, 0nat,
{
    match yaml {
        Yaml::Null => Tree::Null,
        Yaml::Bool(b) => Tree::Bool(b),
        Yaml::Number { integer: Some(i), .. } => Tree::Int(i),
        Yaml::Number { integer: None, float_bits } => Tree::Float(float_bits),
        Yaml::String(text) => Tree::Str(text),
        Yaml::Sequence(items) => Tree::Sequence(trees_of(items, items.len())),
        Yaml::Mapping(entries) => Tree::Mapping(entries_of(entries, entries.len())),
    }
}

/// The documents of the first `n` of `items`, in order.
pub open spec fn trees_of(items: Seq<Yaml>, n: nat) -> Seq<Tree>
    decreases items, n,
{
    if n == 0 || n > items.len() {
        Seq::empty()
    } else {
        trees_of(items, (n - 1) as nat).push(tree_of(items[n - 1]))
    }
}

/// The first `n` of `entries` as keys and documents, in order.
pub open spec fn entries_of(entries: Seq<(Yaml, Yaml)>, n: nat) -> Seq<(KeyView, Tree)>
    decreases entries, n,
{
    if n == 0 || n > entries.len() {
        Seq::empty()
    } else {
        entries_of(entries, (n - 1) as nat).push(
            (key_of(entries[n - 1].0), tree_of(entries[n - 1].1)),
        )
    }
}

/// The document that `text` holds: what `serde_yaml` reads from it, as a document; none
/// where `serde_yaml` reports an error.
pub open spec fn document(text: Seq<char>) -> Option<Tree> {
    match yaml_document(text) {
        Some(yaml) => Some(tree_of(yaml)),
        None => None,
    }
}

/// What an optional document holds.
pub open spec fn held(tree: Option<ValueTree>) -> Option<Tree> {
    match tree {
        Some(tree) => Some(tree@),
        None => None,
    }
}

/// The key that a YAML value stands for.
pub fn key_from(yaml: &serde_yaml::Value) -> (key: Key)
    ensures
        key@ == key_of(yaml_of(*yaml)),
    decreases yaml_of(*yaml), 1nat,
{
    if let Some(text) = yaml.as_str() {
        Key::Str(text.to_owned())
    } else if let Some(i) = yaml.as_i64() {
        Key::Int(i)
    } else {
        Key::Other(tree_from(yaml))
    }
}

/// The document that a YAML value stands for.
pub fn tree_from(yaml: &serde_yaml::Value) -> (tree: ValueTree)
    ensures
        tree@ == tree_of(yaml_of(*yaml)),
    decreases yaml_of(*yaml), 0nat,
{
    if yaml.is_null() {
        ValueTree::Null
    } else if let Some(b) = yaml.as_bool() {
        ValueTree::Bool(b)
    } else if let Some(i) = yaml.as_i64() {
        ValueTree::Int(i)
    } else if let Some(bits) = float_bits(yaml) {
        ValueTree::Float(bits)
    } else if let Some(text) = yaml.as_str() {
        ValueTree::Str(text.to_owned())
    } else if let Some(items) = yaml.as_sequence() {
        let ghost source = yaml_of(*yaml)->Sequence_0;
        let mut trees: Vec<ValueTree> = Vec::new();
        let mut i: usize = 0;
        while i < items.len()
            invariant
                yaml_of(*yaml) == Yaml::Sequence(source),
                items@.len() == source.len(),
                forall|j: int| 0 <= j < source.len() ==> yaml_of(#[trigger] items@[j]) == source[j],
                i <= items.len(),
                trees.len() == i,
                trees_of(source, i as nat) == items_view(trees, i as nat),
            decreases items.len() - i,
        {
            assert(decreases_to!(yaml_of(*yaml) => yaml_of(*yaml)->Sequence_0));
            assert(decreases_to!(source => source[i as int]));
            let ghost before = trees;
            let tree = tree_from(&items[i]);
            trees.push(tree);
            proof {
                lemma_items_view(before, i as nat);
                lemma_items_view(trees, i as nat);
                assert(items_view(trees, i as nat) =~= items_view(before, i as nat));
            }
            i += 1;
        }
        ValueTree::Sequence(trees)
    } else if let Some(entries) = mapping_entries(yaml) {
        let ghost source = yaml_of(*yaml)->Mapping_0;
        let mut converted: Vec<(Key, ValueTree)> = Vec::new();
        let mut i: usize = 0;
        while i < entries.len()
            invariant
                yaml_of(*yaml) == Yaml::Mapping(source),
                entries@.len() == source.len(),
                forall|j: int|
                    0 <= j < source.len() ==> (yaml_of(*(#[trigger] entries@[j]).0), yaml_of(
                        *entries@[j].1,
                    )) == source[j],
                i <= entries.len(),
                converted.len() == i,
                entries_of(source, i as nat) == entries_view(converted, i as nat),
            decreases entries.len() - i,
        {
            assert(decreases_to!(yaml_of(*yaml) => yaml_of(*yaml)->Mapping_0));
            assert(decreases_to!(source => source[i as int]));
            assert(decreases_to!(source[i as int] => source[i as int].0));
            assert(decreases_to!(source[i as int] => source[i as int].1));
            let ghost before = converted;
            let key = key_from(entries[i].0);
            let tree = tree_from(entries[i].1);
            converted.push((key, tree));
            proof {
                lemma_entries_view(before, i as nat);
                lemma_entries_view(converted, i as nat);
                assert(entries_view(converted, i as nat) =~= entries_view(before, i as nat));
            }
            i += 1;
        }
        ValueTree::Mapping(converted)
    } else {
        // Every value is of one of the kinds above.
        assert(false);
        ValueTree::Null
    }
}

/// Reads the document that `text` holds; nothing where the text is no YAML document.
pub fn read_document(text: &str) -> (tree: Option<ValueTree>)
    ensures
        held(tree) == document(text@),
{
    match read_yaml(text) {
        Ok(yaml) => Some(tree_from(&yaml)),
        Err(_) => None,
    }
}

} // verus!
