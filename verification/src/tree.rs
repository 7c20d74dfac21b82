//! The document tree and its mathematical model.

use vstd::prelude::*;
use crate::path::{integer_string, integer_text};

verus! {

/// A mapping key: text, or an integer that stands for its decimal text. Anything else in
/// the place of a key is kept as it is, and stands for no text.
#[derive(Debug, PartialEq, Eq)]
pub enum Key {
    Str(String),
    Int(i64),
    /// A key that is neither text nor an integer.
    Other(ValueTree),
}

/// A document: a scalar, a sequence of documents, or a mapping from keys to documents.
#[derive(Debug, PartialEq, Eq)]
pub enum ValueTree {
    Null,
    Bool(bool),
    Int(i64),
    /// A floating-point number, held as its IEEE-754 binary64 bit pattern.
    Float(u64),
    Str(String),
    Sequence(Vec<ValueTree>),
    /// The entries of a mapping, in document order.
    Mapping(Vec<(Key, ValueTree)>),
}

/// What a [`Key`] holds.
pub enum KeyView {
    Str(Seq<char>),
    Int(i64),
    Other(Tree),
}

/// What a [`ValueTree`] holds.
pub enum Tree {
    Null,
    Bool(bool),
    Int(i64),
    Float(u64),
    Str(Seq<char>),
    Sequence(Seq<Tree>),
    Mapping(Seq<(KeyView, Tree)>),
}

impl KeyView {
    /// The text that the key stands for in a path: its own text, or the decimal text of its
    /// integer, and no text at all for any other key.
    pub open spec fn segment(self) -> Seq<char> {
        match self {
            KeyView::Str(text) => text,
            KeyView::Int(i) => integer_text(i as int),
            KeyView::Other(_) => Seq::empty(),
        }
    }
}

impl Tree {
    /// Whether the tree is stored whole under its path: anything but a mapping.
    pub open spec fn is_leaf(self) -> bool {
        !(self is Mapping)
    }
}

impl View for Key {
    type V = KeyView;

    open spec fn view(&self) -> KeyView {
        key_view(*self)
    }
}

impl View for ValueTree {
    type V = Tree;

    open spec fn view(&self) -> Tree {
        tree(*self)
    }
}

/// What a key holds.
pub open spec fn key_view(key: Key) -> KeyView
    decreases key, 0nat,
{
    match key {
        Key::Str(s) => KeyView::Str(s@),
        Key::Int(i) => KeyView::Int(i),
        Key::Other(value) => KeyView::Other(tree(value)),
    }
}

/// What a document holds: each scalar as it is, each item and entry by what it holds.
pub open spec fn tree(value: ValueTree) -> Tree
    decreases value, 0nat,
{
    match value {
        ValueTree::Null => Tree::Null,
        ValueTree::Bool(b) => Tree::Bool(b),
        ValueTree::Int(i) => Tree::Int(i),
        ValueTree::Float(bits) => Tree::Float(bits),
        ValueTree::Str(s) => Tree::Str(s@),
        ValueTree::Sequence(items) => Tree::Sequence(items_view(items, items.len() as nat)),
        ValueTree::Mapping(entries) => Tree::Mapping(entries_view(entries, entries.len() as nat)),
    }
}

/// The views of the first `n` of `items`, in order.
pub open spec fn items_view(items: Vec<ValueTree>, n: nat) -> Seq<Tree>
    decreases items, n,
{
    if n == 0 || n > items.len() {
        Seq::empty()
    } else {
        items_view(items, (n - 1) as nat).push(tree(items[n - 1]))
    }
}

/// The views of the first `n` of `entries`, in order.
pub open spec fn entries_view(entries: Vec<(Key, ValueTree)>, n: nat) -> Seq<(KeyView, Tree)>
    decreases entries, n,
{
    if n == 0 || n > entries.len() {
        Seq::empty()
    } else {
        entries_view(entries, (n - 1) as nat).push(
            (key_view(entries[n - 1].0), tree(entries[n - 1].1)),
        )
    }
}

/// What the items of a sequence hold, in order.
pub open spec fn sequence_view(items: Vec<ValueTree>) -> Seq<Tree> {
    items_view(items, items.len() as nat)
}

/// `items_view` holds the view of each item at the item's own index.
pub proof fn lemma_items_view(items: Vec<ValueTree>, n: nat)
    requires
        n <= items.len(),
    ensures
        items_view(items, n).len() == n,
        forall|i: int| 0 <= i < n ==> (#[trigger] items_view(items, n)[i]) == items[i]@,
    decreases n,
{
    if n > 0 {
        lemma_items_view(items, (n - 1) as nat);
    }
}

/// `entries_view` holds the views of each entry's key and value at the entry's own index.
pub proof fn lemma_entries_view(entries: Vec<(Key, ValueTree)>, n: nat)
    requires
        n <= entries.len(),
    ensures
        entries_view(entries, n).len() == n,
        forall|i: int|
            0 <= i < n ==> (#[trigger] entries_view(entries, n)[i]) == (
                entries[i].0@,
                entries[i].1@,
            ),
    decreases n,
{
    if n > 0 {
        lemma_entries_view(entries, (n - 1) as nat);
    }
}

/// The view of a sequence holds the view of each item, in order.
pub proof fn lemma_sequence_view(items: Vec<ValueTree>)
    ensures
        ValueTree::Sequence(items)@ is Sequence,
        ValueTree::Sequence(items)@->Sequence_0.len() == items.len(),
        forall|i: int|
            0 <= i < items.len() ==> (#[trigger] ValueTree::Sequence(items)@->Sequence_0[i])
                == items[i]@,
{
    lemma_items_view(items, items.len() as nat);
}

/// The view of a mapping holds the views of each entry's key and value, in order.
pub proof fn lemma_mapping_view(entries: Vec<(Key, ValueTree)>)
    ensures
        ValueTree::Mapping(entries)@ is Mapping,
        ValueTree::Mapping(entries)@->Mapping_0.len() == entries.len(),
        forall|i: int|
            0 <= i < entries.len() ==> (#[trigger] ValueTree::Mapping(entries)@->Mapping_0[i]) == (
                entries[i].0@,
                entries[i].1@,
            ),
{
    lemma_entries_view(entries, entries.len() as nat);
}

impl Key {
    /// The text that the key stands for in a path.
    pub fn segment(&self) -> (text: String)
        ensures
            text@ == self@.segment(),
    {
        match self {
            Key::Str(s) => s.clone(),
            Key::Int(i) => integer_string(*i),
            Key::Other(_) => String::new(),
        }
    }
}

impl Clone for Key {
    fn clone(&self) -> (copy: Self)
        ensures
            copy@ == self@,
        decreases self,
    {
        match self {
            Key::Str(s) => Key::Str(s.clone()),
            Key::Int(i) => Key::Int(*i),
            Key::Other(value) => Key::Other(value.clone()),
        }
    }
}

impl Clone for ValueTree {
    fn clone(&self) -> (copy: Self)
        ensures
            copy@ == self@,
        decreases self,
    {
        match self {
            ValueTree::Null => ValueTree::Null,
            ValueTree::Bool(b) => ValueTree::Bool(*b),
            ValueTree::Int(i) => ValueTree::Int(*i),
            ValueTree::Float(bits) => ValueTree::Float(*bits),
            ValueTree::Str(s) => ValueTree::Str(s.clone()),
            ValueTree::Sequence(items) => {
                let mut copies: Vec<ValueTree> = Vec::new();
                let mut i: usize = 0;
                while i < items.len()
                    invariant
                        *self == ValueTree::Sequence(*items),
                        i <= items.len(),
                        copies.len() == i,
                        forall|j: int| 0 <= j < i ==> copies[j]@ == items[j]@,
                    decreases items.len() - i,
                {
                    assert(decreases_to!(self => self->Sequence_0));
                    assert(decreases_to!(items => items[i as int]));
                    copies.push(items[i].clone());
                    i += 1;
                }
                proof {
                    lemma_sequence_view(copies);
                    lemma_sequence_view(*items);
                    assert(ValueTree::Sequence(copies)@->Sequence_0 =~= self@->Sequence_0);
                }
                ValueTree::Sequence(copies)
            },
            ValueTree::Mapping(entries) => {
                let mut copies: Vec<(Key, ValueTree)> = Vec::new();
                let mut i: usize = 0;
                while i < entries.len()
                    invariant
                        *self == ValueTree::Mapping(*entries),
                        i <= entries.len(),
                        copies.len() == i,
                        forall|j: int|
                            0 <= j < i ==> copies[j].0@ == entries[j].0@ && copies[j].1@
                                == entries[j].1@,
                    decreases entries.len() - i,
                {
                    assert(decreases_to!(self => self->Mapping_0));
                    assert(decreases_to!(entries => entries[i as int]));
                    assert(decreases_to!(entries[i as int] => entries[i as int].0));
                    assert(decreases_to!(entries[i as int] => entries[i as int].1));
                    copies.push((entries[i].0.clone(), entries[i].1.clone()));
                    i += 1;
                }
                proof {
                    lemma_mapping_view(copies);
                    lemma_mapping_view(*entries);
                    assert(ValueTree::Mapping(copies)@->Mapping_0 =~= self@->Mapping_0);
                }
                ValueTree::Mapping(copies)
            },
        }
    }
}

} // verus!

