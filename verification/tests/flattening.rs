use kalgan_config::flatten::{flatten, skipped_keys};
use kalgan_config::nesting::is_well_keyed;
use kalgan_config::{Key, ValueTree};

fn text(s: &str) -> ValueTree {
    ValueTree::Str(s.to_string())
}

fn entry(key: &str, value: ValueTree) -> (Key, ValueTree) {
    (Key::Str(key.to_string()), value)
}

fn mapping(entries: Vec<(Key, ValueTree)>) -> ValueTree {
    ValueTree::Mapping(entries)
}

#[test]
fn nested_siblings_at_different_depths() {
    let tree = mapping(vec![entry(
        "a",
        mapping(vec![
            entry("b", mapping(vec![entry("c", ValueTree::Int(1))])),
            entry("d", ValueTree::Int(2)),
        ]),
    )]);
    let flat = flatten(&tree);
    assert_eq!(flat.len(), 2);
    assert_eq!(flat.get("a.b.c"), Some(&ValueTree::Int(1)));
    assert_eq!(flat.get("a.d"), Some(&ValueTree::Int(2)));
    assert_eq!(flat.get("a"), None);
    assert_eq!(flat.get("a.b"), None);
}

#[test]
fn sibling_after_a_branch_that_repeats_the_key_above() {
    let tree = mapping(vec![entry(
        "a",
        mapping(vec![
            entry("a", mapping(vec![entry("x", ValueTree::Int(1))])),
            entry("y", ValueTree::Int(2)),
        ]),
    )]);
    let flat = flatten(&tree);
    assert_eq!(flat.len(), 2);
    assert_eq!(flat.get("a.a.x"), Some(&ValueTree::Int(1)));
    assert_eq!(flat.get("a.y"), Some(&ValueTree::Int(2)));
    assert_eq!(flat.get("a.a.y"), None);
}

#[test]
fn sibling_after_a_deep_branch_that_ends_in_the_key_above() {
    let tree = mapping(vec![entry(
        "a",
        mapping(vec![
            entry("b", mapping(vec![entry("a", mapping(vec![entry("x", ValueTree::Int(1))]))])),
            entry("c", ValueTree::Int(2)),
        ]),
    )]);
    let flat = flatten(&tree);
    assert_eq!(flat.len(), 2);
    assert_eq!(flat.get("a.b.a.x"), Some(&ValueTree::Int(1)));
    assert_eq!(flat.get("a.c"), Some(&ValueTree::Int(2)));
}

#[test]
fn top_level_leaves_are_stored_under_their_keys() {
    let tree = mapping(vec![
        entry("name", text("John")),
        entry("age", ValueTree::Int(39)),
        entry("real", ValueTree::Bool(false)),
        entry("nothing", ValueTree::Null),
        entry("height", ValueTree::Float(1.78f64.to_bits())),
    ]);
    let flat = flatten(&tree);
    assert_eq!(flat.len(), 5);
    assert_eq!(flat.get("name"), Some(&text("John")));
    assert_eq!(flat.get("age"), Some(&ValueTree::Int(39)));
    assert_eq!(flat.get("real"), Some(&ValueTree::Bool(false)));
    assert_eq!(flat.get("nothing"), Some(&ValueTree::Null));
    assert_eq!(flat.get("height"), Some(&ValueTree::Float(1.78f64.to_bits())));
}

#[test]
fn key_with_separator_is_left_out() {
    let tree = mapping(vec![
        entry("a.b", ValueTree::Int(1)),
        entry("c", ValueTree::Int(2)),
    ]);
    let flat = flatten(&tree);
    assert_eq!(flat.len(), 1);
    assert_eq!(flat.get("a.b"), None);
    assert_eq!(flat.get("c"), Some(&ValueTree::Int(2)));
}

#[test]
fn key_with_separator_takes_its_subtree_along() {
    let tree = mapping(vec![
        entry("before", ValueTree::Int(0)),
        entry(
            "x.y",
            mapping(vec![
                entry("inner", ValueTree::Int(1)),
                entry("deep", mapping(vec![entry("leaf", ValueTree::Int(2))])),
            ]),
        ),
        entry("after", mapping(vec![entry("kept", ValueTree::Int(3))])),
    ]);
    let flat = flatten(&tree);
    assert_eq!(flat.len(), 2);
    assert_eq!(flat.get("before"), Some(&ValueTree::Int(0)));
    assert_eq!(flat.get("after.kept"), Some(&ValueTree::Int(3)));
    assert_eq!(flat.get("x.y.inner"), None);
    assert_eq!(flat.get("x.y.deep.leaf"), None);
    assert_eq!(flat.get("inner"), None);
}

#[test]
fn skipped_keys_are_reported_in_document_order() {
    let tree = mapping(vec![
        entry("a.b", mapping(vec![entry("c.d", ValueTree::Int(1))])),
        entry("e", mapping(vec![entry("f.g", ValueTree::Int(2)), entry("h", ValueTree::Int(3))])),
        entry(".", ValueTree::Null),
        entry("", mapping(vec![entry("i.j", ValueTree::Int(4))])),
        entry("k", mapping(vec![entry("", ValueTree::Int(5))])),
    ]);
    assert_eq!(
        skipped_keys(&tree),
        vec![
            Key::Str("a.b".to_string()),
            Key::Str("f.g".to_string()),
            Key::Str(".".to_string()),
            Key::Str(String::new()),
            Key::Str(String::new()),
        ]
    );
    assert_eq!(skipped_keys(&ValueTree::Int(1)), Vec::<Key>::new());
    assert_eq!(skipped_keys(&mapping(vec![entry("a", ValueTree::Int(1))])), Vec::<Key>::new());
}

#[test]
fn empty_mapping_gives_nothing() {
    assert_eq!(flatten(&mapping(vec![])).len(), 0);
    let tree = mapping(vec![entry("a", mapping(vec![])), entry("b", ValueTree::Int(1))]);
    let flat = flatten(&tree);
    assert_eq!(flat.len(), 1);
    assert_eq!(flat.get("a"), None);
    assert_eq!(flat.get("b"), Some(&ValueTree::Int(1)));
}

#[test]
fn document_that_is_no_mapping_gives_nothing() {
    assert_eq!(flatten(&ValueTree::Null).len(), 0);
    assert_eq!(flatten(&ValueTree::Bool(true)).len(), 0);
    assert_eq!(flatten(&ValueTree::Int(7)).len(), 0);
    assert_eq!(flatten(&ValueTree::Float(0)).len(), 0);
    assert_eq!(flatten(&text("alone")).len(), 0);
    let list = ValueTree::Sequence(vec![mapping(vec![entry("a", ValueTree::Int(1))])]);
    assert_eq!(flatten(&list).len(), 0);
}

#[test]
fn sequence_is_stored_whole() {
    let children = ValueTree::Sequence(vec![
        text("Huey"),
        mapping(vec![entry("inner", ValueTree::Int(1))]),
        ValueTree::Sequence(vec![ValueTree::Int(2)]),
    ]);
    let tree = mapping(vec![entry("user", mapping(vec![entry("children", children.clone())]))]);
    let flat = flatten(&tree);
    assert_eq!(flat.len(), 1);
    assert_eq!(flat.get("user.children"), Some(&children));
    assert_eq!(flat.get("user.children.0"), None);
    assert_eq!(flat.get("user.children.inner"), None);
}

#[test]
fn later_entry_wins_a_shared_path() {
    let tree = mapping(vec![
        entry("a", mapping(vec![entry("b", ValueTree::Int(1))])),
        (Key::Int(7), ValueTree::Int(2)),
        entry("7", ValueTree::Int(3)),
        entry("a", mapping(vec![entry("b", ValueTree::Int(4)), entry("c", ValueTree::Int(5))])),
    ]);
    let flat = flatten(&tree);
    assert_eq!(flat.len(), 3);
    assert_eq!(flat.get("a.b"), Some(&ValueTree::Int(4)));
    assert_eq!(flat.get("a.c"), Some(&ValueTree::Int(5)));
    assert_eq!(flat.get("7"), Some(&ValueTree::Int(3)));
}

#[test]
fn integer_keys_stand_for_their_decimal_text() {
    let tree = mapping(vec![
        (Key::Int(0), ValueTree::Int(10)),
        (Key::Int(42), mapping(vec![(Key::Int(7), text("deep"))])),
        (Key::Int(-5), ValueTree::Int(11)),
        (Key::Int(i64::MAX), ValueTree::Int(12)),
        (Key::Int(i64::MIN), ValueTree::Int(13)),
    ]);
    let flat = flatten(&tree);
    assert_eq!(flat.len(), 5);
    assert_eq!(flat.get("0"), Some(&ValueTree::Int(10)));
    assert_eq!(flat.get("42.7"), Some(&text("deep")));
    assert_eq!(flat.get("-5"), Some(&ValueTree::Int(11)));
    assert_eq!(flat.get("9223372036854775807"), Some(&ValueTree::Int(12)));
    assert_eq!(flat.get("-9223372036854775808"), Some(&ValueTree::Int(13)));
}

#[test]
fn empty_key_is_left_out() {
    let tree = mapping(vec![
        entry("", mapping(vec![entry("x", ValueTree::Int(1))])),
        entry("a", mapping(vec![entry("", ValueTree::Int(2)), entry("b", ValueTree::Int(3))])),
        entry("", ValueTree::Int(4)),
    ]);
    let flat = flatten(&tree);
    assert_eq!(flat.len(), 1);
    assert_eq!(flat.get("a.b"), Some(&ValueTree::Int(3)));
    assert_eq!(flat.get(""), None);
    assert_eq!(flat.get("x"), None);
    assert_eq!(flat.get(".x"), None);
    assert_eq!(flat.get("a."), None);
    assert_eq!(flat.get("a"), None);
}

#[test]
fn empty_key_takes_its_subtree_along() {
    let tree = mapping(vec![entry("", mapping(vec![entry("", ValueTree::Int(1))]))]);
    assert_eq!(flatten(&tree).len(), 0);
    let only = mapping(vec![entry("", ValueTree::Int(1))]);
    assert_eq!(flatten(&only).len(), 0);
}

#[test]
fn stored_paths_are_made_of_segments() {
    let tree = mapping(vec![
        entry("", ValueTree::Int(0)),
        entry(".", ValueTree::Int(1)),
        entry("a.", ValueTree::Int(2)),
        entry(".a", ValueTree::Int(3)),
        entry("a..b", ValueTree::Int(4)),
        entry("a", mapping(vec![
            entry("", ValueTree::Int(5)),
            entry("b", mapping(vec![entry("", ValueTree::Int(6)), entry("c", ValueTree::Int(7))])),
            entry("d", ValueTree::Int(8)),
        ])),
        (Key::Int(-2), ValueTree::Int(9)),
    ]);
    let flat = flatten(&tree);
    assert_eq!(flat.len(), 3);
    assert_eq!(flat.get("a.b.c"), Some(&ValueTree::Int(7)));
    assert_eq!(flat.get("a.d"), Some(&ValueTree::Int(8)));
    assert_eq!(flat.get("-2"), Some(&ValueTree::Int(9)));
    for path in ["", ".", "a.", ".a", "a..b", "a.b.", "a.b"] {
        assert_eq!(flat.get(path), None, "{:?}", path);
    }
}

#[test]
fn every_stored_path_leads_back_to_its_leaf() {
    let tree = mapping(vec![
        entry(
            "server",
            mapping(vec![
                entry("host", text("localhost")),
                entry("ports", ValueTree::Sequence(vec![ValueTree::Int(80), ValueTree::Int(443)])),
                entry("tls", mapping(vec![entry("on", ValueTree::Bool(true))])),
            ]),
        ),
        entry("debug", ValueTree::Bool(false)),
    ]);
    let flat = flatten(&tree);
    assert_eq!(flat.len(), 4);
    for path in ["server.host", "server.ports", "server.tls.on", "debug"] {
        let mut node = &tree;
        for segment in path.split('.') {
            node = match node {
                ValueTree::Mapping(entries) => {
                    &entries.iter().find(|(key, _)| key.segment() == segment).unwrap().1
                }
                _ => panic!("no mapping at {}", segment),
            };
        }
        assert_eq!(flat.get(path), Some(node));
    }
}

#[test]
fn flattening_leaves_the_document_as_it_was() {
    let tree = mapping(vec![entry("a", mapping(vec![entry("b", ValueTree::Int(1))]))]);
    let copy = tree.clone();
    let _ = flatten(&tree);
    assert_eq!(tree, copy);
}

#[test]
fn copies_are_equal_to_what_they_copy() {
    let tree = mapping(vec![
        entry("s", ValueTree::Sequence(vec![text("x"), ValueTree::Null, ValueTree::Float(3)])),
        (Key::Int(-1), mapping(vec![entry("b", ValueTree::Bool(true))])),
    ]);
    assert_eq!(tree.clone(), tree);
    assert_eq!(Key::Int(3).clone(), Key::Int(3));
    assert_eq!(Key::Str("k".to_string()).clone(), Key::Str("k".to_string()));
}

#[test]
fn well_keyed_documents() {
    assert!(is_well_keyed(&ValueTree::Null));
    assert!(is_well_keyed(&text("x")));
    assert!(is_well_keyed(&mapping(vec![])));
    assert!(is_well_keyed(&mapping(vec![
        entry("a", mapping(vec![entry("a", ValueTree::Int(1)), entry("b", ValueTree::Int(2))])),
        entry("b", ValueTree::Int(3)),
        (Key::Int(1), ValueTree::Int(4)),
        entry("c.d", ValueTree::Int(5)),
    ])));
    assert!(is_well_keyed(&mapping(vec![
        entry("", ValueTree::Int(1)),
        entry("", mapping(vec![entry("x", ValueTree::Int(2)), entry("x", ValueTree::Int(3))])),
        entry("a.b", ValueTree::Int(4)),
        entry("a.b", ValueTree::Int(5)),
        entry("a", ValueTree::Int(6)),
    ])));
}

#[test]
fn documents_that_are_not_well_keyed() {
    assert!(!is_well_keyed(&mapping(vec![
        entry("a", ValueTree::Int(1)),
        entry("b", ValueTree::Int(2)),
        entry("a", ValueTree::Int(3)),
    ])));
    assert!(!is_well_keyed(&mapping(vec![
        (Key::Int(1), ValueTree::Int(1)),
        entry("1", ValueTree::Int(2)),
    ])));
    assert!(!is_well_keyed(&mapping(vec![entry(
        "a",
        mapping(vec![entry(
            "b",
            mapping(vec![entry("c", ValueTree::Null), entry("c", ValueTree::Null)]),
        )]),
    )])));
}

#[test]
fn keys_inside_a_sequence_are_not_looked_into() {
    let list = ValueTree::Sequence(vec![mapping(vec![
        entry("a", ValueTree::Int(1)),
        entry("a", ValueTree::Int(2)),
    ])]);
    assert!(is_well_keyed(&list));
    assert!(is_well_keyed(&mapping(vec![entry("list", list)])));
}

#[test]
fn key_that_is_neither_text_nor_integer_is_left_out() {
    let odd = Key::Other(ValueTree::Bool(true));
    let list = Key::Other(ValueTree::Sequence(vec![ValueTree::Int(1)]));
    let tree = mapping(vec![
        (odd.clone(), mapping(vec![entry("x", ValueTree::Int(1))])),
        entry("a", mapping(vec![(list.clone(), ValueTree::Int(2)), entry("b", ValueTree::Int(3))])),
        (Key::Other(ValueTree::Null), ValueTree::Int(4)),
    ]);
    let flat = flatten(&tree);
    assert_eq!(flat.len(), 1);
    assert_eq!(flat.get("a.b"), Some(&ValueTree::Int(3)));
    assert_eq!(flat.get("x"), None);
    assert_eq!(flat.get(""), None);
    assert_eq!(flat.get("true.x"), None);
    assert_eq!(skipped_keys(&tree), vec![odd, list, Key::Other(ValueTree::Null)]);
    assert!(is_well_keyed(&tree));
}

#[test]
fn sequence_keeps_keys_of_every_kind() {
    let inner = mapping(vec![
        (Key::Other(ValueTree::Bool(false)), ValueTree::Int(1)),
        entry("", ValueTree::Int(2)),
        entry("a.b", ValueTree::Int(3)),
    ]);
    let list = ValueTree::Sequence(vec![inner]);
    let tree = mapping(vec![entry("list", list.clone())]);
    let flat = flatten(&tree);
    assert_eq!(flat.len(), 1);
    assert_eq!(flat.get("list"), Some(&list));
    assert_eq!(skipped_keys(&tree), Vec::<Key>::new());
}
