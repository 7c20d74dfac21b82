//! The flat collection of a configuration and its typed getters.

use vstd::prelude::*;
use vstd::hash_map::StringHashMap;
use crate::flatten::{flat_view, holds_leaves, holds_paths, Flat};
use crate::parameters::{generate, loaded, Source};
use crate::tree::{sequence_view, Tree, ValueTree};

verus! {

/// The kind of leaf that a typed getter asks for.
#[derive(Clone, Copy, Debug, PartialEq, Eq)]
pub enum Expected {
    String,
    Boolean,
    Integer,
    Float,
    Sequence,
}

/// Why a getter gave no value.
#[derive(Debug, PartialEq, Eq)]
pub enum ConfigError {
    /// Nothing is stored under the path.
    KeyNotFound { path: String },
    /// The leaf under the path is not of the kind asked for.
    TypeMismatch { path: String, expected: Expected },
}

/// What a [`ConfigError`] holds.
pub enum ErrorView {
    KeyNotFound { path: Seq<char> },
    TypeMismatch { path: Seq<char>, expected: Expected },
}

impl View for ConfigError {
    type V = ErrorView;

    open spec fn view(&self) -> ErrorView {
        match self {
            ConfigError::KeyNotFound { path } => ErrorView::KeyNotFound { path: path@ },
            ConfigError::TypeMismatch { path, expected } => ErrorView::TypeMismatch {
                path: path@,
                expected: *expected,
            },
        }
    }
}

/// A numeric leaf read as a float: the bit pattern of a float leaf, or the integer of an
/// integer leaf, which widens to the float nearest to it.
#[derive(Clone, Copy, Debug, PartialEq, Eq)]
pub enum Number {
    Int(i64),
    /// An IEEE-754 binary64 bit pattern.
    Float(u64),
}

impl Expected {
    /// How the message of a mismatch ends.
    pub open spec fn complaint(self) -> Seq<char> {
        match self {
            Expected::String => "\" is not a string."@,
            Expected::Boolean => "\" is not boolean."@,
            Expected::Integer => "\" is not i64/u64."@,
            Expected::Float => "\" is not f64."@,
            Expected::Sequence => "\" is not a sequence."@,
        }
    }
}

impl ErrorView {
    /// The message of the error: the path in quotes, and what is wrong with it.
    pub open spec fn message(self) -> Seq<char> {
        match self {
            ErrorView::KeyNotFound { path } => "Key \""@ + path + "\" not found."@,
            ErrorView::TypeMismatch { path, expected } => "Value \""@ + path
                + expected.complaint(),
        }
    }
}

impl ConfigError {
    /// The message of the error.
    pub fn message(&self) -> (text: String)
        ensures
            text@ == self@.message(),
    {
        match self {
            ConfigError::KeyNotFound { path } => {
                let mut text = "Key \"".to_owned();
                text.append(path.as_str());
                text.append("\" not found.");
                text
            },
            ConfigError::TypeMismatch { path, expected } => {
                let mut text = "Value \"".to_owned();
                text.append(path.as_str());
                text.append(
                    match expected {
                        Expected::String => "\" is not a string.",
                        Expected::Boolean => "\" is not boolean.",
                        Expected::Integer => "\" is not i64/u64.",
                        Expected::Float => "\" is not f64.",
                        Expected::Sequence => "\" is not a sequence.",
                    },
                );
                text
            },
        }
    }
}

/// The leaf under `path`, or the error that nothing is stored there.
pub open spec fn lookup(flat: Flat, path: Seq<char>) -> Result<Tree, ErrorView> {
    if flat.contains_key(path) {
        Ok(flat[path])
    } else {
        Err(ErrorView::KeyNotFound { path })
    }
}

/// The error that the leaf under `path` is not of the kind asked for.
pub open spec fn mismatch(path: Seq<char>, expected: Expected) -> ErrorView {
    ErrorView::TypeMismatch { path, expected }
}

/// The text of the string leaf under `path`.
pub open spec fn lookup_string(flat: Flat, path: Seq<char>) -> Result<Seq<char>, ErrorView> {
    match lookup(flat, path) {
        Ok(Tree::Str(text)) => Ok(text),
        Ok(_) => Err(mismatch(path, Expected::String)),
        Err(error) => Err(error),
    }
}

/// The boolean of the boolean leaf under `path`.
pub open spec fn lookup_bool(flat: Flat, path: Seq<char>) -> Result<bool, ErrorView> {
    match lookup(flat, path) {
        Ok(Tree::Bool(b)) => Ok(b),
        Ok(_) => Err(mismatch(path, Expected::Boolean)),
        Err(error) => Err(error),
    }
}

/// The integer of the integer leaf under `path`. A float leaf is no integer.
pub open spec fn lookup_number(flat: Flat, path: Seq<char>) -> Result<i64, ErrorView> {
    match lookup(flat, path) {
        Ok(Tree::Int(i)) => Ok(i),
        Ok(_) => Err(mismatch(path, Expected::Integer)),
        Err(error) => Err(error),
    }
}

/// The numeric leaf under `path`, read as a float: a float leaf as it is, an integer leaf
/// as the integer to widen.
pub open spec fn lookup_float(flat: Flat, path: Seq<char>) -> Result<Number, ErrorView> {
    match lookup(flat, path) {
        Ok(Tree::Float(bits)) => Ok(Number::Float(bits)),
        Ok(Tree::Int(i)) => Ok(Number::Int(i)),
        Ok(_) => Err(mismatch(path, Expected::Float)),
        Err(error) => Err(error),
    }
}

/// The items of the sequence leaf under `path`.
pub open spec fn lookup_sequence(flat: Flat, path: Seq<char>) -> Result<Seq<Tree>, ErrorView> {
    match lookup(flat, path) {
        Ok(Tree::Sequence(items)) => Ok(items),
        Ok(_) => Err(mismatch(path, Expected::Sequence)),
        Err(error) => Err(error),
    }
}

/// A leaf is stored under a path exactly when looking the path up succeeds; a typed lookup
/// succeeds only where the plain one does.
pub proof fn lemma_stored_iff_lookup_succeeds(config: Config, path: Seq<char>)
    ensures
        config@.contains_key(path) <==> lookup(config@, path) is Ok,
        lookup_string(config@, path) is Ok ==> config@.contains_key(path),
        lookup_bool(config@, path) is Ok ==> config@.contains_key(path),
        lookup_number(config@, path) is Ok ==> config@.contains_key(path),
        lookup_float(config@, path) is Ok ==> config@.contains_key(path),
        lookup_sequence(config@, path) is Ok ==> config@.contains_key(path),
{
}

/// A configuration: the leaves of its documents, each under its path.
pub struct Config {
    pub collection: StringHashMap<ValueTree>,
}

impl View for Config {
    type V = Flat;

    open spec fn view(&self) -> Flat {
        flat_view(self.collection@)
    }
}

impl Config {
    /// The configuration of a source: the leaves of its documents, each under its path.
    pub fn new(source: &Source) -> (config: Config)
        ensures
            config@ == loaded(source@),
            holds_leaves(config@),
            holds_paths(config@),
    {
        generate(source)
    }

    /// Whether a leaf is stored under `key`.
    pub fn contains(&self, key: &str) -> (found: bool)
        ensures
            found == self@.contains_key(key@),
    {
        self.collection.contains_key(key)
    }

    /// A copy of the leaf stored under `key`.
    pub fn get(&self, key: &str) -> (leaf: Result<ValueTree, ConfigError>)
        ensures
            match leaf {
                Ok(leaf) => lookup(self@, key@) == Ok::<Tree, ErrorView>(leaf@),
                Err(error) => lookup(self@, key@) == Err::<Tree, ErrorView>(error@),
            },
    {
        match self.collection.get(key) {
            Some(leaf) => Ok(leaf.clone()),
            None => Err(ConfigError::KeyNotFound { path: key.to_owned() }),
        }
    }

    /// The text of the string leaf stored under `key`.
    pub fn get_string(&self, key: &str) -> (text: Result<String, ConfigError>)
        ensures
            match text {
                Ok(text) => lookup_string(self@, key@) == Ok::<Seq<char>, ErrorView>(text@),
                Err(error) => lookup_string(self@, key@) == Err::<Seq<char>, ErrorView>(error@),
            },
    {
        match self.get(key) {
            Ok(ValueTree::Str(text)) => Ok(text),
            Ok(_) => Err(
                ConfigError::TypeMismatch { path: key.to_owned(), expected: Expected::String },
            ),
            Err(error) => Err(error),
        }
    }

    /// The boolean of the boolean leaf stored under `key`.
    pub fn get_bool(&self, key: &str) -> (b: Result<bool, ConfigError>)
        ensures
            match b {
                Ok(b) => lookup_bool(self@, key@) == Ok::<bool, ErrorView>(b),
                Err(error) => lookup_bool(self@, key@) == Err::<bool, ErrorView>(error@),
            },
    {
        match self.get(key) {
            Ok(ValueTree::Bool(b)) => Ok(b),
            Ok(_) => Err(
                ConfigError::TypeMismatch { path: key.to_owned(), expected: Expected::Boolean },
            ),
            Err(error) => Err(error),
        }
    }

    /// The integer of the integer leaf stored under `key`.
    pub fn get_number(&self, key: &str) -> (i: Result<i64, ConfigError>)
        ensures
            match i {
                Ok(i) => lookup_number(self@, key@) == Ok::<i64, ErrorView>(i),
                Err(error) => lookup_number(self@, key@) == Err::<i64, ErrorView>(error@),
            },
    {
        match self.get(key) {
            Ok(ValueTree::Int(i)) => Ok(i),
            Ok(_) => Err(
                ConfigError::TypeMismatch { path: key.to_owned(), expected: Expected::Integer },
            ),
            Err(error) => Err(error),
        }
    }

    /// The numeric leaf stored under `key`, read as a float.
    pub fn get_float(&self, key: &str) -> (number: Result<Number, ConfigError>)
        ensures
            match number {
                Ok(number) => lookup_float(self@, key@) == Ok::<Number, ErrorView>(number),
                Err(error) => lookup_float(self@, key@) == Err::<Number, ErrorView>(error@),
            },
    {
        match self.get(key) {
            Ok(ValueTree::Float(bits)) => Ok(Number::Float(bits)),
            Ok(ValueTree::Int(i)) => Ok(Number::Int(i)),
            Ok(_) => Err(
                ConfigError::TypeMismatch { path: key.to_owned(), expected: Expected::Float },
            ),
            Err(error) => Err(error),
        }
    }

    /// The items of the sequence leaf stored under `key`.
    pub fn get_vec(&self, key: &str) -> (items: Result<Vec<ValueTree>, ConfigError>)
        ensures
            match items {
                Ok(items) => lookup_sequence(self@, key@) == Ok::<Seq<Tree>, ErrorView>(
                    sequence_view(items),
                ),
                Err(error) => lookup_sequence(self@, key@) == Err::<Seq<Tree>, ErrorView>(error@),
            },
    {
        match self.get(key) {
            Ok(ValueTree::Sequence(items)) => Ok(items),
            Ok(_) => Err(
                ConfigError::TypeMismatch { path: key.to_owned(), expected: Expected::Sequence },
            ),
            Err(error) => Err(error),
        }
    }
}

} // verus!
