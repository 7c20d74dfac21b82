//! The flat collection against the nesting it came from: a path leads to the leaf that its
//! segments lead to, key by key.

use vstd::prelude::*;
use crate::flatten::{flat_entry, flat_upto, flatten_tree, lemma_flat_upto_merges, Flat};
use crate::path::{
    below, is_path_segment, is_segment, join, lemma_below_transitive,
    lemma_join_below, lemma_one_head, lemma_spell_below, spell,
};
use crate::tree::{lemma_mapping_view, KeyView, Tree, ValueTree};

verus! {

/// The value of the entry, among the first `n`, whose key stands for `segment`: of the last
/// such entry, if there is more than one.
pub open spec fn entry_at(entries: Seq<(KeyView, Tree)>, n: nat, segment: Seq<char>) -> Option<
    Tree,
>
    decreases n,
{
    if n == 0 || n > entries.len() {
        None
    } else if entries[n - 1].0.segment() == segment {
        Some(entries[n - 1].1)
    } else {
        entry_at(entries, (n - 1) as nat, segment)
    }
}

/// The leaf that `segments` lead to from `tree`: one key for each segment, through
/// mappings, down to something that is not a mapping.
pub open spec fn leaf_at(tree: Tree, segments: Seq<Seq<char>>) -> Option<Tree>
    decreases segments.len(),
{
    match tree {
        Tree::Mapping(entries) => if segments.len() == 0 {
            None
        } else {
            match entry_at(entries, entries.len(), segments[0]) {
                Some(child) => leaf_at(child, segments.skip(1)),
                None => None,
            }
        },
        _ => if segments.len() == 0 {
            Some(tree)
        } else {
            None
        },
    }
}

/// Whether no two keys of a mapping of `tree` stand for the same segment, as far as
/// flattening reads the document: keys that stand for no segment are passed over with what
/// is below them, and what a sequence holds is not looked into.
pub open spec fn well_keyed(tree: Tree) -> bool
    decreases tree, 1nat,
{
    match tree {
        Tree::Mapping(entries) => well_keyed_entries(entries),
        _ => true,
    }
}

/// Whether the keys of `entries` that stand for segments stand for segments that differ
/// from one another, and the value under each of them is well keyed in turn.
pub open spec fn well_keyed_entries(entries: Seq<(KeyView, Tree)>) -> bool
    decreases entries, 0nat,
{
    &&& forall|i: int, j: int|
        0 <= i < j < entries.len() && is_segment((#[trigger] entries[i]).0.segment())
            ==> entries[i].0.segment() != (#[trigger] entries[j]).0.segment()
    &&& forall|i: int|
        0 <= i < entries.len() && is_segment((#[trigger] entries[i]).0.segment())
            ==> well_keyed(entries[i].1)
}

/// Whether, among the first `n` of `entries`, the keys that stand for segments stand for
/// segments that differ from one another, and the value under each of them is well keyed.
pub open spec fn well_keyed_upto(entries: Seq<(KeyView, Tree)>, n: nat) -> bool {
    &&& forall|i: int, j: int|
        0 <= i < j < n && is_segment((#[trigger] entries[i]).0.segment())
            ==> entries[i].0.segment() != (#[trigger] entries[j]).0.segment()
    &&& forall|i: int|
        0 <= i < n && is_segment((#[trigger] entries[i]).0.segment()) ==> well_keyed(
            entries[i].1,
        )
}

/// Tells whether a document is well keyed: whether, in each of the mappings that flattening
/// reads, no two keys stand for the same segment.
pub fn is_well_keyed(tree: &ValueTree) -> (well: bool)
    ensures
        well == well_keyed(tree@),
    decreases tree,
{
    if let ValueTree::Mapping(entries) = tree {
        proof {
            lemma_mapping_view(*entries);
        }
        let ghost held = tree@->Mapping_0;
        let mut segments: Vec<String> = Vec::new();
        let mut i: usize = 0;
        while i < entries.len()
            invariant
                *tree == ValueTree::Mapping(*entries),
                tree@ == Tree::Mapping(held),
                held.len() == entries.len(),
                forall|j: int|
                    0 <= j < entries.len() ==> (#[trigger] held[j]) == (
                        entries[j].0@,
                        entries[j].1@,
                    ),
                i <= entries.len(),
                segments.len() == i,
                forall|j: int| 0 <= j < i ==> (#[trigger] segments[j])@ == held[j].0.segment(),
                well_keyed_upto(held, i as nat),
            decreases entries.len() - i,
        {
            let segment = entries[i].0.segment();
            assert(held[i as int] == (entries[i as int].0@, entries[i as int].1@));
            if is_path_segment(segment.as_str()) {
                let mut j: usize = 0;
                while j < i
                    invariant
                        j <= i,
                        i < entries.len(),
                        tree@ == Tree::Mapping(held),
                        held.len() == entries.len(),
                        segments.len() == i,
                        segment@ == held[i as int].0.segment(),
                        is_segment(segment@),
                        forall|k: int|
                            0 <= k < i ==> (#[trigger] segments[k])@ == held[k].0.segment(),
                        forall|k: int| 0 <= k < j ==> (#[trigger] held[k]).0.segment() != segment@,
                    decreases i - j,
                {
                    if segments[j] == segment {
                        assert(segments[j as int]@ == held[j as int].0.segment());
                        assert(held[j as int].0.segment() == held[i as int].0.segment());
                        return false;
                    }
                    assert(segments[j as int]@ == held[j as int].0.segment());
                    j += 1;
                }
                assert(decreases_to!(tree => tree->Mapping_0));
                assert(decreases_to!(entries => entries[i as int]));
                assert(decreases_to!(entries[i as int] => entries[i as int].1));
                if !is_well_keyed(&entries[i].1) {
                    assert(!well_keyed(held[i as int].1));
                    return false;
                }
            }
            segments.push(segment);
            i += 1;
        }
        true
    } else {
        true
    }
}

/// Whether each of `segments` can stand in a path.
pub open spec fn are_segments(segments: Seq<Seq<char>>) -> bool {
    forall|i: int| 0 <= i < segments.len() ==> is_segment(#[trigger] segments[i])
}

/// The leaf that `segments` lead to through the first `n` of `entries`.
pub open spec fn leaf_upto(entries: Seq<(KeyView, Tree)>, n: nat, segments: Seq<Seq<char>>) -> Option<
    Tree,
> {
    match entry_at(entries, n, segments[0]) {
        Some(child) => leaf_at(child, segments.skip(1)),
        None => None,
    }
}

/// Whether `flat` stores `leaf` under `path`, or nothing where there is no leaf.
pub open spec fn stores(flat: Flat, path: Seq<char>, leaf: Option<Tree>) -> bool {
    match leaf {
        Some(leaf) => flat.contains_key(path) && flat[path] == leaf,
        None => !flat.contains_key(path),
    }
}

/// What flattening below a prefix that is not empty adds is stored below that prefix.
pub proof fn lemma_stored_lies_below(
    acc: Flat,
    prefix: Seq<char>,
    entries: Seq<(KeyView, Tree)>,
    n: nat,
    path: Seq<char>,
)
    requires
        prefix.len() > 0,
        flat_upto(acc, prefix, entries, n).contains_key(path),
    ensures
        acc.contains_key(path) || below(prefix, path),
    decreases entries, n,
{
    if n == 0 || n > entries.len() {
    } else {
        let m = (n - 1) as nat;
        let before = flat_upto(acc, prefix, entries, m);
        let key = entries[n - 1].0;
        let value = entries[n - 1].1;
        let next = join(prefix, key.segment());
        assert(flat_upto(acc, prefix, entries, n) == flat_entry(before, prefix, key, value));
        lemma_join_below(prefix, key.segment());
        if !is_segment(key.segment()) {
            lemma_stored_lies_below(acc, prefix, entries, m, path);
        } else {
            match value {
                Tree::Mapping(children) => {
                    lemma_stored_lies_below(before, next, children, children.len(), path);
                    if before.contains_key(path) {
                        lemma_stored_lies_below(acc, prefix, entries, m, path);
                    } else {
                        lemma_below_transitive(prefix, next, path);
                    }
                },
                _ => {
                    if path != next {
                        lemma_stored_lies_below(acc, prefix, entries, m, path);
                    }
                },
            }
        }
    }
}

/// No entry is found for a segment that none of the keys stands for.
pub proof fn lemma_no_entry_at(entries: Seq<(KeyView, Tree)>, n: nat, segment: Seq<char>)
    requires
        n <= entries.len(),
        forall|i: int| 0 <= i < n ==> (#[trigger] entries[i]).0.segment() != segment,
    ensures
        entry_at(entries, n, segment) is None,
    decreases n,
{
    if n > 0 {
        lemma_no_entry_at(entries, (n - 1) as nat, segment);
    }
}

/// Below any prefix, the first `n` entries of a well-keyed mapping store under the path that
/// segments spell the leaf that the segments lead to, and nothing where they lead to none.
pub proof fn lemma_stored_is_nested(
    prefix: Seq<char>,
    entries: Seq<(KeyView, Tree)>,
    n: nat,
    segments: Seq<Seq<char>>,
)
    requires
        n <= entries.len(),
        well_keyed_entries(entries),
        segments.len() > 0,
        are_segments(segments),
    ensures
        stores(
            flat_upto(Map::empty(), prefix, entries, n),
            spell(prefix, segments),
            leaf_upto(entries, n, segments),
        ),
    decreases entries, n,
{
    let empty = Map::<Seq<char>, Tree>::empty();
    let flat = flat_upto(empty, prefix, entries, n);
    let head = segments[0];
    let rest = segments.skip(1);
    let path = spell(prefix, segments);
    let here = join(prefix, head);
    assert(is_segment(head));
    assert(path == spell(here, rest));
    if rest.len() > 0 {
        lemma_spell_below(here, rest);
    }
    if n > 0 {
        let m = (n - 1) as nat;
        let before = flat_upto(empty, prefix, entries, m);
        let key = entries[n - 1].0;
        let value = entries[n - 1].1;
        let segment = key.segment();
        let next = join(prefix, segment);
        assert(flat == flat_entry(before, prefix, key, value));
        lemma_stored_is_nested(prefix, entries, m, segments);
        if segment == head {
            assert(entry_at(entries, n, head) == Some(value));
            assert(well_keyed(value));
            assert forall|i: int| 0 <= i < m implies (#[trigger] entries[i]).0.segment()
                != head by {
                assert(entries[n - 1].0.segment() == head);
            }
            lemma_no_entry_at(entries, m, head);
            assert(!before.contains_key(path));
            match value {
                Tree::Mapping(children) => {
                    let given = flat_upto(empty, next, children, children.len());
                    lemma_flat_upto_merges(before, next, children, children.len());
                    assert(flat == before.union_prefer_right(given));
                    if rest.len() == 0 {
                        if given.contains_key(path) {
                            lemma_stored_lies_below(empty, next, children, children.len(), path);
                        }
                    } else {
                        assert forall|i: int| 0 <= i < rest.len() implies is_segment(
                            #[trigger] rest[i],
                        ) by {
                            assert(rest[i] == segments[i + 1]);
                        }
                        lemma_stored_is_nested(next, children, children.len(), rest);
                    }
                },
                _ => {
                    assert(flat == before.insert(next, value));
                    assert(leaf_upto(entries, n, segments) == leaf_at(value, rest));
                    if rest.len() == 0 {
                        assert(path == next);
                        assert(leaf_at(value, rest) == Some(value));
                    } else {
                        assert(below(next, path));
                        assert(path != next);
                        assert(leaf_at(value, rest) is None);
                    }
                },
            }
        } else {
            assert(entry_at(entries, n, head) == entry_at(entries, m, head));
            if is_segment(segment) {
                match value {
                    Tree::Mapping(children) => {
                        let given = flat_upto(empty, next, children, children.len());
                        lemma_flat_upto_merges(before, next, children, children.len());
                        assert(flat == before.union_prefer_right(given));
                        if given.contains_key(path) {
                            lemma_stored_lies_below(empty, next, children, children.len(), path);
                            lemma_one_head(prefix, head, segment, path);
                        }
                    },
                    _ => {
                        assert(flat == before.insert(next, value));
                        if path == next {
                            lemma_one_head(prefix, head, segment, path);
                        }
                    },
                }
            }
        }
    }
}

/// Every path that the first `n` entries of a mapping store below a prefix is spelled, below
/// that prefix, by segments.
pub proof fn lemma_stored_is_spelled(
    prefix: Seq<char>,
    entries: Seq<(KeyView, Tree)>,
    n: nat,
    path: Seq<char>,
) -> (segments: Seq<Seq<char>>)
    requires
        n <= entries.len(),
        flat_upto(Map::empty(), prefix, entries, n).contains_key(path),
    ensures
        segments.len() > 0,
        are_segments(segments),
        spell(prefix, segments) == path,
    decreases entries, n,
{
    let empty = Map::<Seq<char>, Tree>::empty();
    let m = (n - 1) as nat;
    let before = flat_upto(empty, prefix, entries, m);
    let key = entries[n - 1].0;
    let value = entries[n - 1].1;
    let segment = key.segment();
    let next = join(prefix, segment);
    assert(flat_upto(empty, prefix, entries, n) == flat_entry(before, prefix, key, value));
    if !is_segment(segment) {
        lemma_stored_is_spelled(prefix, entries, m, path)
    } else {
        match value {
            Tree::Mapping(children) => {
                let given = flat_upto(empty, next, children, children.len());
                lemma_flat_upto_merges(before, next, children, children.len());
                if given.contains_key(path) {
                    let rest = lemma_stored_is_spelled(next, children, children.len(), path);
                    let segments = seq![segment] + rest;
                    assert(segments.skip(1) =~= rest);
                    segments
                } else {
                    lemma_stored_is_spelled(prefix, entries, m, path)
                }
            },
            _ => {
                if path == next {
                    let segments = seq![segment];
                    assert(spell(next, segments.skip(1)) == next);
                    segments
                } else {
                    lemma_stored_is_spelled(prefix, entries, m, path)
                }
            },
        }
    }
}

/// Looking up the path that segments spell gives the leaf that the segments lead to in the
/// document, and finds nothing where they lead to no leaf.
pub proof fn lemma_path_leads_to_leaf(tree: Tree, segments: Seq<Seq<char>>)
    requires
        well_keyed(tree),
        segments.len() > 0,
        are_segments(segments),
    ensures
        stores(flatten_tree(tree), spell(Seq::empty(), segments), leaf_at(tree, segments)),
{
    match tree {
        Tree::Mapping(entries) => {
            lemma_stored_is_nested(Seq::empty(), entries, entries.len(), segments);
        },
        _ => {},
    }
}

/// Every path of the flat collection of a document, whatever its keys, is spelled by
/// segments: by texts that are not empty and hold no separator, joined by the separator.
pub proof fn lemma_stored_path_is_spelled(tree: Tree, path: Seq<char>) -> (segments: Seq<
    Seq<char>,
>)
    requires
        flatten_tree(tree).contains_key(path),
    ensures
        segments.len() > 0,
        are_segments(segments),
        spell(Seq::empty(), segments) == path,
{
    match tree {
        Tree::Mapping(entries) => lemma_stored_is_spelled(
            Seq::empty(),
            entries,
            entries.len(),
            path,
        ),
        _ => Seq::empty(),
    }
}

/// Every path of the flat collection of a well-keyed document is spelled by segments, and
/// the leaf stored under it is the leaf that those segments lead to in the document.
pub proof fn lemma_stored_leaf_is_nested(tree: Tree, path: Seq<char>) -> (segments: Seq<
    Seq<char>,
>)
    requires
        well_keyed(tree),
        flatten_tree(tree).contains_key(path),
    ensures
        segments.len() > 0,
        are_segments(segments),
        spell(Seq::empty(), segments) == path,
        leaf_at(tree, segments) == Some(flatten_tree(tree)[path]),
{
    match tree {
        Tree::Mapping(entries) => {
            let segments = lemma_stored_is_spelled(Seq::empty(), entries, entries.len(), path);
            lemma_path_leads_to_leaf(tree, segments);
            segments
        },
        _ => Seq::empty(),
    }
}

/// Flattening the first `n` entries reads no entry after them.
pub proof fn lemma_flat_upto_reads_first(
    acc: Flat,
    prefix: Seq<char>,
    entries: Seq<(KeyView, Tree)>,
    others: Seq<(KeyView, Tree)>,
    n: nat,
)
    requires
        n <= entries.len(),
        n <= others.len(),
        forall|i: int| 0 <= i < n ==> entries[i] == others[i],
    ensures
        flat_upto(acc, prefix, entries, n) == flat_upto(acc, prefix, others, n),
    decreases n,
{
    if n > 0 {
        lemma_flat_upto_reads_first(acc, prefix, entries, others, (n - 1) as nat);
    }
}

/// `tree` without the entries whose keys stand for no segment, at every depth of its
/// mappings.
pub open spec fn pruned(tree: Tree) -> Tree
    decreases tree, 0nat,
{
    match tree {
        Tree::Mapping(entries) => Tree::Mapping(pruned_upto(entries, entries.len())),
        _ => tree,
    }
}

/// The first `n` of `entries` without those whose keys stand for no segment, each value
/// that stays pruned in turn.
pub open spec fn pruned_upto(entries: Seq<(KeyView, Tree)>, n: nat) -> Seq<(KeyView, Tree)>
    decreases entries, n,
{
    if n == 0 || n > entries.len() {
        Seq::empty()
    } else if !is_segment(entries[n - 1].0.segment()) {
        pruned_upto(entries, (n - 1) as nat)
    } else {
        pruned_upto(entries, (n - 1) as nat).push((entries[n - 1].0, pruned(entries[n - 1].1)))
    }
}

/// Whether every key in the mappings of `tree` stands for a segment. What a sequence holds
/// is not looked into.
pub open spec fn keyed_by_segments(tree: Tree) -> bool
    decreases tree, 1nat,
{
    match tree {
        Tree::Mapping(entries) => entries_keyed_by_segments(entries),
        _ => true,
    }
}

/// Whether every key of `entries` stands for a segment, and so in turn in each value.
pub open spec fn entries_keyed_by_segments(entries: Seq<(KeyView, Tree)>) -> bool
    decreases entries, 0nat,
{
    forall|i: int|
        0 <= i < entries.len() ==> is_segment((#[trigger] entries[i]).0.segment())
            && keyed_by_segments(entries[i].1)
}

/// Every key that is left in what was pruned stands for a segment.
pub proof fn lemma_pruned_is_keyed_by_segments(entries: Seq<(KeyView, Tree)>, n: nat)
    ensures
        entries_keyed_by_segments(pruned_upto(entries, n)),
    decreases entries, n,
{
    if n == 0 || n > entries.len() {
    } else {
        let m = (n - 1) as nat;
        lemma_pruned_is_keyed_by_segments(entries, m);
        if is_segment(entries[n - 1].0.segment()) {
            let kept = pruned_upto(entries, m);
            let all = pruned_upto(entries, n);
            match entries[n - 1].1 {
                Tree::Mapping(children) => {
                    lemma_pruned_is_keyed_by_segments(children, children.len());
                },
                _ => {},
            }
            assert(keyed_by_segments(pruned(entries[n - 1].1)));
            assert forall|i: int| 0 <= i < all.len() implies is_segment(
                (#[trigger] all[i]).0.segment(),
            ) && keyed_by_segments(all[i].1) by {
                if i < kept.len() {
                    assert(all[i] == kept[i]);
                }
            }
        }
    }
}

/// Entries whose keys stand for no segment give nothing, whatever stands below them:
/// flattening the entries is flattening what is left of them after pruning.
pub proof fn lemma_flat_upto_of_pruned(
    acc: Flat,
    prefix: Seq<char>,
    entries: Seq<(KeyView, Tree)>,
    n: nat,
)
    ensures
        flat_upto(acc, prefix, pruned_upto(entries, n), pruned_upto(entries, n).len()) == flat_upto(
            acc,
            prefix,
            entries,
            n,
        ),
    decreases entries, n,
{
    if n == 0 || n > entries.len() {
    } else {
        let m = (n - 1) as nat;
        let kept = pruned_upto(entries, m);
        let before = flat_upto(acc, prefix, entries, m);
        let key = entries[n - 1].0;
        let value = entries[n - 1].1;
        lemma_flat_upto_of_pruned(acc, prefix, entries, m);
        assert(flat_upto(acc, prefix, entries, n) == flat_entry(before, prefix, key, value));
        if is_segment(key.segment()) {
            let all = kept.push((key, pruned(value)));
            lemma_flat_upto_reads_first(acc, prefix, all, kept, kept.len());
            assert(flat_upto(acc, prefix, all, all.len()) == flat_entry(
                before,
                prefix,
                key,
                pruned(value),
            ));
            match value {
                Tree::Mapping(children) => {
                    lemma_flat_upto_of_pruned(
                        before,
                        join(prefix, key.segment()),
                        children,
                        children.len(),
                    );
                },
                _ => {},
            }
        }
    }
}

/// A key that stands for no segment, because it is empty or holds the separator, is left
/// out of the flat collection with all that is below it: the document gives what it gives
/// without every such entry, and in what is left every key stands for a segment.
pub proof fn lemma_keys_without_segment_give_nothing(tree: Tree)
    ensures
        flatten_tree(tree) == flatten_tree(pruned(tree)),
        keyed_by_segments(pruned(tree)),
{
    match tree {
        Tree::Mapping(entries) => {
            lemma_flat_upto_of_pruned(Map::empty(), Seq::empty(), entries, entries.len());
            lemma_pruned_is_keyed_by_segments(entries, entries.len());
        },
        _ => {},
    }
}

/// Whether the first `n` of `entries` are leaves under keys that stand for segments, each
/// for another one.
pub open spec fn leaves_under_own_keys(entries: Seq<(KeyView, Tree)>, n: nat) -> bool {
    &&& forall|i: int|
        0 <= i < n ==> (#[trigger] entries[i]).1.is_leaf() && is_segment(
            entries[i].0.segment(),
        )
    &&& forall|i: int, j: int|
        0 <= i < j < n ==> (#[trigger] entries[i]).0.segment() != (
        #[trigger] entries[j]).0.segment()
}

/// Whether `flat` stores each of the first `n` of `entries` under the segment of its key,
/// and nothing else.
pub open spec fn stores_each(flat: Flat, entries: Seq<(KeyView, Tree)>, n: nat) -> bool {
    &&& flat.dom().finite()
    &&& flat.dom().len() == n
    &&& forall|i: int|
        0 <= i < n ==> flat.contains_key((#[trigger] entries[i]).0.segment())
            && flat[entries[i].0.segment()] == entries[i].1
    &&& forall|path: Seq<char>| #[trigger]
        flat.contains_key(path) ==> exists|i: int|
            0 <= i < n && (#[trigger] entries[i]).0.segment() == path
}

/// Leaves at the top of a document are stored one by one, each under the segment of its
/// own key.
pub proof fn lemma_leaves_stored_under_keys(entries: Seq<(KeyView, Tree)>, n: nat)
    requires
        n <= entries.len(),
        leaves_under_own_keys(entries, n),
    ensures
        stores_each(flat_upto(Map::empty(), Seq::empty(), entries, n), entries, n),
    decreases n,
{
    let empty = Map::<Seq<char>, Tree>::empty();
    let flat = flat_upto(empty, Seq::empty(), entries, n);
    if n == 0 {
        assert(flat.dom() =~= Set::<Seq<char>>::empty());
    } else {
        let m = (n - 1) as nat;
        let before = flat_upto(empty, Seq::empty(), entries, m);
        let segment = entries[n - 1].0.segment();
        lemma_leaves_stored_under_keys(entries, m);
        assert(flat == flat_entry(before, Seq::empty(), entries[n - 1].0, entries[n - 1].1));
        assert(flat == before.insert(segment, entries[n - 1].1));
        assert(!before.contains_key(segment));
        assert(flat.dom() =~= before.dom().insert(segment));
        assert forall|path: Seq<char>| #[trigger] flat.contains_key(path) implies exists|i: int|
            0 <= i < n && (#[trigger] entries[i]).0.segment() == path by {
            if path == segment {
                assert(entries[n - 1].0.segment() == path);
            } else {
                assert(before.contains_key(path));
                let i = choose|i: int| 0 <= i < m && (#[trigger] entries[i]).0.segment() == path;
                assert(0 <= i < n && entries[i].0.segment() == path);
            }
        }
    }
}

/// A mapping that holds leaves only, under keys that stand for segments and differ from one
/// another, flattens to one path for each entry: the segment of the entry's key, with the
/// entry's value under it.
pub proof fn lemma_one_path_for_each_leaf(entries: Seq<(KeyView, Tree)>)
    requires
        leaves_under_own_keys(entries, entries.len()),
    ensures
        stores_each(flatten_tree(Tree::Mapping(entries)), entries, entries.len()),
{
    lemma_leaves_stored_under_keys(entries, entries.len());
}

} // verus!
