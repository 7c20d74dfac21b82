//! Flattening a document into one entry per leaf, keyed by the path of keys that leads to it.

use vstd::prelude::*;
use vstd::hash_map::StringHashMap;
use crate::path::{is_path, is_path_segment, is_segment, join, join_path, lemma_join_is_path};
use crate::tree::{lemma_mapping_view, Key, KeyView, Tree, ValueTree};

verus! {

/// A flat collection: the leaf stored under each path.
pub type Flat = Map<Seq<char>, Tree>;

/// The flat collection that a map from paths to documents stands for.
pub open spec fn flat_view(stored: Map<Seq<char>, ValueTree>) -> Flat {
    stored.map_values(|v: ValueTree| v@)
}

/// `acc` after flattening the first `n` of `entries`, in order, each below `prefix`.
pub open spec fn flat_upto(
    acc: Flat,
    prefix: Seq<char>,
    entries: Seq<(KeyView, Tree)>,
    n: nat,
) -> Flat
    decreases entries, n,
{
    if n == 0 || n > entries.len() {
        acc
    } else {
        flat_entry(
            flat_upto(acc, prefix, entries, (n - 1) as nat),
            prefix,
            entries[n - 1].0,
            entries[n - 1].1,
        )
    }
}

/// `acc` after flattening one entry below `prefix`. A key that stands for no segment, because
/// it is empty, holds the separator or is neither text nor an integer, is passed over with
/// all that is below it; a mapping is descended into, its own path as the prefix; anything
/// else is stored under its path, in place of what was there.
pub open spec fn flat_entry(acc: Flat, prefix: Seq<char>, key: KeyView, value: Tree) -> Flat
    decreases value, 0nat,
{
    let segment = key.segment();
    if !is_segment(segment) {
        acc
    } else {
        match value {
            Tree::Mapping(children) => flat_upto(
                acc,
                join(prefix, segment),
                children,
                children.len(),
            ),
            _ => acc.insert(join(prefix, segment), value),
        }
    }
}

/// `acc` after flattening `tree`: the entries of a mapping, nothing for any other document.
pub open spec fn flat_into(acc: Flat, prefix: Seq<char>, tree: Tree) -> Flat {
    match tree {
        Tree::Mapping(entries) => flat_upto(acc, prefix, entries, entries.len()),
        _ => acc,
    }
}

/// The flat collection of a document.
pub open spec fn flatten_tree(tree: Tree) -> Flat {
    flat_into(Map::empty(), Seq::empty(), tree)
}

/// The keys that flattening the first `n` of `entries` passes over, in document order: each
/// key that stands for no segment, but for the keys below such a key.
pub open spec fn skipped_upto(entries: Seq<(KeyView, Tree)>, n: nat) -> Seq<KeyView>
    decreases entries, n,
{
    if n == 0 || n > entries.len() {
        Seq::empty()
    } else {
        let before = skipped_upto(entries, (n - 1) as nat);
        let segment = entries[n - 1].0.segment();
        if !is_segment(segment) {
            before.push(entries[n - 1].0)
        } else {
            match entries[n - 1].1 {
                Tree::Mapping(children) => before + skipped_upto(children, children.len()),
                _ => before,
            }
        }
    }
}

/// The keys that flattening `tree` passes over, in document order.
pub open spec fn skipped(tree: Tree) -> Seq<KeyView> {
    match tree {
        Tree::Mapping(entries) => skipped_upto(entries, entries.len()),
        _ => Seq::empty(),
    }
}

/// What each of `keys` holds, in order.
pub open spec fn keys_view(keys: Vec<Key>) -> Seq<KeyView> {
    Seq::new(keys.len() as nat, |i: int| keys[i]@)
}

/// Whether all that `flat` stores are leaves: no mapping is stored under a path.
pub open spec fn holds_leaves(flat: Flat) -> bool {
    forall|path: Seq<char>| #[trigger] flat.contains_key(path) ==> flat[path].is_leaf()
}

/// Flattening stores leaves only: a mapping is never stored, only what is below it.
pub proof fn lemma_flat_upto_holds_leaves(
    acc: Flat,
    prefix: Seq<char>,
    entries: Seq<(KeyView, Tree)>,
    n: nat,
)
    requires
        holds_leaves(acc),
    ensures
        holds_leaves(flat_upto(acc, prefix, entries, n)),
    decreases entries, n,
{
    if n == 0 || n > entries.len() {
    } else {
        let before = flat_upto(acc, prefix, entries, (n - 1) as nat);
        let key = entries[n - 1].0;
        let value = entries[n - 1].1;
        lemma_flat_upto_holds_leaves(acc, prefix, entries, (n - 1) as nat);
        assert(flat_upto(acc, prefix, entries, n) == flat_entry(before, prefix, key, value));
        if is_segment(key.segment()) {
            match value {
                Tree::Mapping(children) => {
                    lemma_flat_upto_holds_leaves(
                        before,
                        join(prefix, key.segment()),
                        children,
                        children.len(),
                    );
                },
                _ => {},
            }
        }
    }
}

/// The flat collection of a document holds leaves only.
pub proof fn lemma_flatten_tree_holds_leaves(tree: Tree)
    ensures
        holds_leaves(flatten_tree(tree)),
{
    match tree {
        Tree::Mapping(entries) => {
            lemma_flat_upto_holds_leaves(Map::empty(), Seq::empty(), entries, entries.len());
        },
        _ => {},
    }
}

/// Whether all that `flat` stores is stored under paths made of segments alone.
pub open spec fn holds_paths(flat: Flat) -> bool {
    forall|path: Seq<char>| #[trigger] flat.contains_key(path) ==> is_path(path)
}

/// Flattening stores under paths made of segments alone: no path is empty, begins or ends
/// with the separator, or holds two separators side by side.
pub proof fn lemma_flat_upto_holds_paths(
    acc: Flat,
    prefix: Seq<char>,
    entries: Seq<(KeyView, Tree)>,
    n: nat,
)
    requires
        holds_paths(acc),
        prefix.len() == 0 || is_path(prefix),
    ensures
        holds_paths(flat_upto(acc, prefix, entries, n)),
    decreases entries, n,
{
    if n == 0 || n > entries.len() {
    } else {
        let before = flat_upto(acc, prefix, entries, (n - 1) as nat);
        let key = entries[n - 1].0;
        let value = entries[n - 1].1;
        lemma_flat_upto_holds_paths(acc, prefix, entries, (n - 1) as nat);
        assert(flat_upto(acc, prefix, entries, n) == flat_entry(before, prefix, key, value));
        if is_segment(key.segment()) {
            lemma_join_is_path(prefix, key.segment());
            match value {
                Tree::Mapping(children) => {
                    lemma_flat_upto_holds_paths(
                        before,
                        join(prefix, key.segment()),
                        children,
                        children.len(),
                    );
                },
                _ => {},
            }
        }
    }
}

/// The flat collection of a document stores under paths made of segments alone.
pub proof fn lemma_flatten_tree_holds_paths(tree: Tree)
    ensures
        holds_paths(flatten_tree(tree)),
{
    match tree {
        Tree::Mapping(entries) => {
            lemma_flat_upto_holds_paths(Map::empty(), Seq::empty(), entries, entries.len());
        },
        _ => {},
    }
}

/// Flattening into a collection is flattening on its own and then merging: what the entries
/// give is laid over `acc`, and `acc` has no part in what they give.
pub proof fn lemma_flat_upto_merges(
    acc: Flat,
    prefix: Seq<char>,
    entries: Seq<(KeyView, Tree)>,
    n: nat,
)
    ensures
        flat_upto(acc, prefix, entries, n) == acc.union_prefer_right(
            flat_upto(Map::empty(), prefix, entries, n),
        ),
    decreases entries, n,
{
    let alone = flat_upto(Map::empty(), prefix, entries, n);
    if n == 0 || n > entries.len() {
        assert(acc =~= acc.union_prefer_right(alone));
    } else {
        let m = (n - 1) as nat;
        let before = flat_upto(acc, prefix, entries, m);
        let before_alone = flat_upto(Map::empty(), prefix, entries, m);
        lemma_flat_upto_merges(acc, prefix, entries, m);
        let key = entries[n - 1].0;
        let value = entries[n - 1].1;
        let segment = key.segment();
        assert(flat_upto(acc, prefix, entries, n) == flat_entry(before, prefix, key, value));
        assert(alone == flat_entry(before_alone, prefix, key, value));
        if is_segment(segment) {
            match value {
                Tree::Mapping(children) => {
                    let below = join(prefix, segment);
                    let given = flat_upto(Map::empty(), below, children, children.len());
                    lemma_flat_upto_merges(before, below, children, children.len());
                    lemma_flat_upto_merges(before_alone, below, children, children.len());
                    assert(flat_entry(before, prefix, key, value) == before.union_prefer_right(
                        given,
                    ));
                    assert(flat_entry(before_alone, prefix, key, value)
                        == before_alone.union_prefer_right(given));
                    assert(before.union_prefer_right(given) =~= acc.union_prefer_right(
                        before_alone.union_prefer_right(given),
                    ));
                },
                _ => {
                    assert(before.insert(join(prefix, segment), value) =~= acc.union_prefer_right(
                        before_alone.insert(join(prefix, segment), value),
                    ));
                },
            }
        }
    }
}

/// Flattening a document into a collection lays the document's own flat collection over it.
pub proof fn lemma_flat_into_merges(acc: Flat, tree: Tree)
    ensures
        flat_into(acc, Seq::empty(), tree) == acc.union_prefer_right(flatten_tree(tree)),
{
    match tree {
        Tree::Mapping(entries) => {
            lemma_flat_upto_merges(acc, Seq::empty(), entries, entries.len());
        },
        _ => {
            assert(acc =~= acc.union_prefer_right(Map::<Seq<char>, Tree>::empty()));
        },
    }
}

/// Flattens `map` into `parameters`, each path below `subpath`: one entry for each leaf,
/// later entries in place of earlier ones under the same path.
pub fn iterate(map: &ValueTree, parameters: &mut StringHashMap<ValueTree>, subpath: &str)
    ensures
        flat_view(final(parameters)@) == flat_into(flat_view(old(parameters)@), subpath@, map@),
    decreases map,
{
    if let ValueTree::Mapping(entries) = map {
        proof {
            lemma_mapping_view(*entries);
        }
        let mut i: usize = 0;
        while i < entries.len()
            invariant
                *map == ValueTree::Mapping(*entries),
                map@ is Mapping,
                map@->Mapping_0.len() == entries.len(),
                forall|j: int|
                    0 <= j < entries.len() ==> (#[trigger] map@->Mapping_0[j]) == (
                        entries[j].0@,
                        entries[j].1@,
                    ),
                i <= entries.len(),
                flat_view(parameters@) == flat_upto(
                    flat_view(old(parameters)@),
                    subpath@,
                    map@->Mapping_0,
                    i as nat,
                ),
            decreases entries.len() - i,
        {
            let ghost before = flat_view(parameters@);
            let key = &entries[i].0;
            let value = &entries[i].1;
            assert(map@->Mapping_0[i as int] == (key@, value@));
            assert(flat_upto(flat_view(old(parameters)@), subpath@, map@->Mapping_0, (i + 1) as nat)
                == flat_entry(before, subpath@, key@, value@));
            let segment = key.segment();
            if is_path_segment(segment.as_str()) {
                let path = join_path(subpath, segment.as_str());
                if let ValueTree::Mapping(_) = value {
                    assert(decreases_to!(map => map->Mapping_0));
                    assert(decreases_to!(entries => entries[i as int]));
                    assert(decreases_to!(entries[i as int] => entries[i as int].1));
                    iterate(value, parameters, path.as_str());
                } else {
                    let leaf = value.clone();
                    parameters.insert(path, leaf);
                    assert(flat_view(parameters@) =~= before.insert(path@, value@));
                }
            }
            i += 1;
        }
    }
}

/// Adds to `keys` the keys that flattening `map` passes over.
fn collect_skipped(map: &ValueTree, keys: &mut Vec<Key>)
    ensures
        keys_view(*final(keys)) == keys_view(*old(keys)) + skipped(map@),
    decreases map,
{
    if let ValueTree::Mapping(entries) = map {
        proof {
            lemma_mapping_view(*entries);
        }
        let mut i: usize = 0;
        assert(keys_view(*keys) =~= keys_view(*old(keys)) + Seq::<KeyView>::empty());
        while i < entries.len()
            invariant
                *map == ValueTree::Mapping(*entries),
                map@ is Mapping,
                map@->Mapping_0.len() == entries.len(),
                forall|j: int|
                    0 <= j < entries.len() ==> (#[trigger] map@->Mapping_0[j]) == (
                        entries[j].0@,
                        entries[j].1@,
                    ),
                i <= entries.len(),
                keys_view(*keys) == keys_view(*old(keys)) + skipped_upto(
                    map@->Mapping_0,
                    i as nat,
                ),
            decreases entries.len() - i,
        {
            let ghost before = keys_view(*keys);
            let ghost found = skipped_upto(map@->Mapping_0, i as nat);
            let key = &entries[i].0;
            let value = &entries[i].1;
            assert(map@->Mapping_0[i as int] == (key@, value@));
            let segment = key.segment();
            if !is_path_segment(segment.as_str()) {
                keys.push(key.clone());
                assert(keys_view(*keys) =~= before.push(key@));
                assert(before.push(key@) =~= keys_view(*old(keys)) + found.push(key@));
            } else if let ValueTree::Mapping(_) = value {
                assert(decreases_to!(map => map->Mapping_0));
                assert(decreases_to!(entries => entries[i as int]));
                assert(decreases_to!(entries[i as int] => entries[i as int].1));
                collect_skipped(value, keys);
                assert(before + skipped(value@) =~= keys_view(*old(keys)) + (found + skipped(
                    value@,
                )));
            }
            i += 1;
        }
    } else {
        assert(keys_view(*keys) =~= keys_view(*old(keys)) + Seq::<KeyView>::empty());
    }
}

/// The keys that flattening `tree` passes over because they stand for no segment, in
/// document order: keys that are empty, that hold the separator, or that are neither text
/// nor an integer.
pub fn skipped_keys(tree: &ValueTree) -> (keys: Vec<Key>)
    ensures
        keys_view(keys) == skipped(tree@),
{
    let mut keys: Vec<Key> = Vec::new();
    assert(keys_view(keys) =~= Seq::<KeyView>::empty());
    collect_skipped(tree, &mut keys);
    assert(Seq::<KeyView>::empty() + skipped(tree@) =~= skipped(tree@));
    keys
}

/// Flattens a document: the leaf under each path of keys, joined by the separator.
pub fn flatten(tree: &ValueTree) -> (flat: StringHashMap<ValueTree>)
    ensures
        flat_view(flat@) == flatten_tree(tree@),
        holds_leaves(flat_view(flat@)),
        holds_paths(flat_view(flat@)),
{
    let mut flat: StringHashMap<ValueTree> = StringHashMap::new();
    assert(flat_view(flat@) =~= Map::empty());
    iterate(tree, &mut flat, "");
    proof {
        reveal_strlit("");
        assert(""@ =~= Seq::<char>::empty());
        lemma_flatten_tree_holds_leaves(tree@);
        lemma_flatten_tree_holds_paths(tree@);
    }
    flat
}

} // verus!
