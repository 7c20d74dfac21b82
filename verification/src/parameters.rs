//! Building a configuration from its sources: files of YAML text, and directories of them.

use vstd::prelude::*;
use vstd::hash_map::StringHashMap;
use crate::config::Config;
use crate::flatten::{
    flat_view, flatten_tree, holds_leaves, holds_paths, iterate, lemma_flat_into_merges,
    lemma_flatten_tree_holds_leaves, lemma_flatten_tree_holds_paths, Flat,
};
use crate::tree::{Tree, ValueTree};
use crate::yaml::{document, read_document};

verus! {

/// What was found at a path, read ahead of any parsing.
#[derive(Debug, PartialEq, Eq)]
pub enum Source {
    /// Nothing is at the path.
    Missing,
    /// A file that could not be read, or a directory that could not be listed.
    Unreadable,
    /// A file, with its text.
    File(String),
    /// A directory, with what it holds in the order in which it was listed.
    Directory(Vec<Source>),
}

/// What a [`Source`] holds.
pub enum SourceView {
    Missing,
    Unreadable,
    File(Seq<char>),
    Directory(Seq<SourceView>),
}

impl View for Source {
    type V = SourceView;

    open spec fn view(&self) -> SourceView {
        source_view(*self)
    }
}

/// What a source holds: a file by its text, a directory by what each of its entries holds.
pub open spec fn source_view(source: Source) -> SourceView
    decreases source, 0nat,
{
    match source {
        Source::Missing => SourceView::Missing,
        Source::Unreadable => SourceView::Unreadable,
        Source::File(text) => SourceView::File(text@),
        Source::Directory(entries) => SourceView::Directory(
            sources_view(entries, entries.len() as nat),
        ),
    }
}

/// The views of the first `n` of `entries`, in order.
pub open spec fn sources_view(entries: Vec<Source>, n: nat) -> Seq<SourceView>
    decreases entries, n,
{
    if n == 0 || n > entries.len() {
        Seq::empty()
    } else {
        sources_view(entries, (n - 1) as nat).push(source_view(entries[n - 1]))
    }
}

/// `sources_view` holds the view of each entry at the entry's own index.
pub proof fn lemma_sources_view(entries: Vec<Source>, n: nat)
    requires
        n <= entries.len(),
    ensures
        sources_view(entries, n).len() == n,
        forall|i: int| 0 <= i < n ==> (#[trigger] sources_view(entries, n)[i]) == entries[i]@,
    decreases n,
{
    if n > 0 {
        lemma_sources_view(entries, (n - 1) as nat);
    }
}

/// `acc` after loading one text: the flat collection of its document laid over `acc`, and
/// `acc` as it was where the text holds no document.
pub open spec fn load_text(acc: Flat, text: Seq<char>) -> Flat {
    match document(text) {
        Some(tree) => acc.union_prefer_right(flatten_tree(tree)),
        None => acc,
    }
}

/// `acc` after loading a source: a file by its text, a directory by its entries in order,
/// and nothing from what is missing or unreadable.
pub open spec fn load(acc: Flat, source: SourceView) -> Flat
    decreases source, 0nat,
{
    match source {
        SourceView::File(text) => load_text(acc, text),
        SourceView::Directory(entries) => load_upto(acc, entries, entries.len()),
        _ => acc,
    }
}

/// `acc` after loading the first `n` of `entries`, in order.
pub open spec fn load_upto(acc: Flat, entries: Seq<SourceView>, n: nat) -> Flat
    decreases entries, n,
{
    if n == 0 || n > entries.len() {
        acc
    } else {
        load(load_upto(acc, entries, (n - 1) as nat), entries[n - 1])
    }
}

/// The flat collection of a source.
pub open spec fn loaded(source: SourceView) -> Flat {
    load(Map::empty(), source)
}

/// Loading a source into a collection lays the source's own collection over it: what was
/// stored under a path stays unless the source stores a leaf under the same path.
pub proof fn lemma_load_merges(acc: Flat, source: SourceView)
    ensures
        load(acc, source) == acc.union_prefer_right(loaded(source)),
    decreases source, 0nat,
{
    let empty = Map::<Seq<char>, Tree>::empty();
    match source {
        SourceView::File(text) => {
            match document(text) {
                Some(tree) => {
                    assert(empty.union_prefer_right(flatten_tree(tree)) =~= flatten_tree(tree));
                },
                None => {
                    assert(acc =~= acc.union_prefer_right(empty));
                },
            }
        },
        SourceView::Directory(entries) => {
            lemma_load_upto_merges(acc, entries, entries.len());
        },
        _ => {
            assert(acc =~= acc.union_prefer_right(empty));
        },
    }
}

/// Loading entries into a collection lays over it, in order, the collection of each entry:
/// of two entries that store a leaf under one path, the later one wins.
pub proof fn lemma_load_upto_merges(acc: Flat, entries: Seq<SourceView>, n: nat)
    ensures
        load_upto(acc, entries, n) == acc.union_prefer_right(
            load_upto(Map::empty(), entries, n),
        ),
        0 < n <= entries.len() ==> load_upto(acc, entries, n) == load_upto(
            acc,
            entries,
            (n - 1) as nat,
        ).union_prefer_right(loaded(entries[n - 1])),
    decreases entries, n,
{
    let empty = Map::<Seq<char>, Tree>::empty();
    if n == 0 || n > entries.len() {
        assert(acc =~= acc.union_prefer_right(empty));
    } else {
        let m = (n - 1) as nat;
        let before = load_upto(acc, entries, m);
        let alone = load_upto(empty, entries, m);
        let last = loaded(entries[n - 1]);
        lemma_load_upto_merges(acc, entries, m);
        lemma_load_merges(before, entries[n - 1]);
        lemma_load_merges(alone, entries[n - 1]);
        assert(before.union_prefer_right(last) =~= acc.union_prefer_right(
            alone.union_prefer_right(last),
        ));
    }
}

/// The collection of a source holds leaves only.
pub proof fn lemma_loaded_holds_leaves(source: SourceView)
    ensures
        holds_leaves(loaded(source)),
    decreases source, 0nat,
{
    match source {
        SourceView::File(text) => {
            match document(text) {
                Some(tree) => {
                    lemma_flatten_tree_holds_leaves(tree);
                },
                None => {},
            }
        },
        SourceView::Directory(entries) => {
            lemma_loaded_entries_hold_leaves(entries, entries.len());
        },
        _ => {},
    }
}

/// The collection of the first `n` entries of a directory holds leaves only.
pub proof fn lemma_loaded_entries_hold_leaves(entries: Seq<SourceView>, n: nat)
    ensures
        holds_leaves(load_upto(Map::empty(), entries, n)),
    decreases entries, n,
{
    if n == 0 || n > entries.len() {
    } else {
        lemma_loaded_entries_hold_leaves(entries, (n - 1) as nat);
        lemma_loaded_holds_leaves(entries[n - 1]);
        lemma_load_merges(load_upto(Map::empty(), entries, (n - 1) as nat), entries[n - 1]);
    }
}

/// The collection of a source stores under paths made of segments alone: no path is empty,
/// begins or ends with the separator, or holds two separators side by side.
pub proof fn lemma_loaded_holds_paths(source: SourceView)
    ensures
        holds_paths(loaded(source)),
    decreases source, 0nat,
{
    match source {
        SourceView::File(text) => {
            match document(text) {
                Some(tree) => {
                    lemma_flatten_tree_holds_paths(tree);
                },
                None => {},
            }
        },
        SourceView::Directory(entries) => {
            lemma_loaded_entries_hold_paths(entries, entries.len());
        },
        _ => {},
    }
}

/// The collection of the first `n` entries of a directory stores under paths made of
/// segments alone.
pub proof fn lemma_loaded_entries_hold_paths(entries: Seq<SourceView>, n: nat)
    ensures
        holds_paths(load_upto(Map::empty(), entries, n)),
    decreases entries, n,
{
    if n == 0 || n > entries.len() {
    } else {
        lemma_loaded_entries_hold_paths(entries, (n - 1) as nat);
        lemma_loaded_holds_paths(entries[n - 1]);
        lemma_load_merges(load_upto(Map::empty(), entries, (n - 1) as nat), entries[n - 1]);
    }
}

/// A source at which nothing was found, or which could not be read, gives the empty
/// collection: no path is stored in it.
pub proof fn lemma_nothing_loaded(source: SourceView, path: Seq<char>)
    requires
        source is Missing || source is Unreadable,
    ensures
        loaded(source) == Map::<Seq<char>, Tree>::empty(),
        !loaded(source).contains_key(path),
{
}

/// Loads the text of one file into `parameters`: its leaves are stored under their paths,
/// in place of what was there; a text that holds no document leaves `parameters` as it was.
pub fn get_file_content(text: &str, parameters: &mut StringHashMap<ValueTree>)
    ensures
        flat_view(final(parameters)@) == load_text(flat_view(old(parameters)@), text@),
{
    match read_document(text) {
        Some(tree) => {
            proof {
                reveal_strlit("");
                assert(""@ =~= Seq::<char>::empty());
                lemma_flat_into_merges(flat_view(parameters@), tree@);
            }
            iterate(&tree, parameters, "");
        },
        None => {},
    }
}

/// Loads the entries of a directory into `parameters`, in order: files by their text,
/// directories by their own entries.
pub fn walk_folder_files(entries: &Vec<Source>, parameters: &mut StringHashMap<ValueTree>)
    ensures
        flat_view(final(parameters)@) == load_upto(
            flat_view(old(parameters)@),
            sources_view(*entries, entries.len() as nat),
            entries.len() as nat,
        ),
    decreases entries,
{
    let ghost listed = sources_view(*entries, entries.len() as nat);
    proof {
        lemma_sources_view(*entries, entries.len() as nat);
    }
    let mut i: usize = 0;
    while i < entries.len()
        invariant
            listed == sources_view(*entries, entries.len() as nat),
            listed.len() == entries.len(),
            forall|j: int| 0 <= j < entries.len() ==> (#[trigger] listed[j]) == entries[j]@,
            i <= entries.len(),
            flat_view(parameters@) == load_upto(flat_view(old(parameters)@), listed, i as nat),
        decreases entries.len() - i,
    {
        let ghost before = flat_view(parameters@);
        assert(load_upto(flat_view(old(parameters)@), listed, (i + 1) as nat) == load(
            before,
            listed[i as int],
        ));
        match &entries[i] {
            Source::Directory(inner) => {
                assert(decreases_to!(entries => entries[i as int]));
                assert(decreases_to!(entries[i as int] => entries[i as int]->Directory_0));
                proof {
                    lemma_sources_view(*inner, inner.len() as nat);
                }
                walk_folder_files(inner, parameters);
            },
            Source::File(text) => {
                get_file_content(text.as_str(), parameters);
            },
            _ => {},
        }
        i += 1;
    }
}

/// Builds the configuration of a source.
pub fn generate(source: &Source) -> (config: Config)
    ensures
        config@ == loaded(source@),
        holds_leaves(config@),
        holds_paths(config@),
{
    proof {
        lemma_loaded_holds_leaves(source@);
        lemma_loaded_holds_paths(source@);
    }
    let mut config = Config { collection: StringHashMap::new() };
    assert(config@ =~= Map::empty());
    match source {
        Source::Directory(entries) => {
            proof {
                lemma_sources_view(*entries, entries.len() as nat);
            }
            walk_folder_files(entries, &mut config.collection);
        },
        Source::File(text) => {
            get_file_content(text.as_str(), &mut config.collection);
        },
        _ => {},
    }
    config
}

} // verus!
