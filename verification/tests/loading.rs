use kalgan_config::parameters::{generate, get_file_content, walk_folder_files};
use kalgan_config::yaml::{key_from, read_document, tree_from};
use kalgan_config::{Config, ConfigError, Key, Source, ValueTree};

fn file(text: &str) -> Source {
    Source::File(text.to_string())
}

fn text(s: &str) -> ValueTree {
    ValueTree::Str(s.to_string())
}

fn entry(key: &str, value: ValueTree) -> (Key, ValueTree) {
    (Key::Str(key.to_string()), value)
}

fn yaml(text: &str) -> serde_yaml::Value {
    serde_yaml::from_str(text).unwrap()
}

#[test]
fn missing_source_gives_an_empty_configuration() {
    let config = Config::new(&Source::Missing);
    assert_eq!(config.collection.len(), 0);
    for path in ["", "x", "user.name", "a.b.c", "."] {
        assert!(!config.contains(path));
        assert_eq!(config.get(path), Err(ConfigError::KeyNotFound { path: path.to_string() }));
    }
    assert_eq!(generate(&Source::Missing).collection.len(), 0);
}

#[test]
fn unreadable_source_gives_nothing() {
    assert_eq!(generate(&Source::Unreadable).collection.len(), 0);
    let config = generate(&Source::Directory(vec![
        Source::Unreadable,
        file("a: 1"),
        Source::Missing,
        Source::Directory(vec![Source::Unreadable]),
    ]));
    assert_eq!(config.collection.len(), 1);
    assert_eq!(config.get_number("a"), Ok(1));
}

#[test]
fn later_file_wins_a_shared_path() {
    let a = "x: 1";
    let b = "x: 2";
    let first = generate(&Source::Directory(vec![file(a), file(b)]));
    assert_eq!(first.get_number("x"), Ok(2));
    assert_eq!(first.collection.len(), 1);
    let second = generate(&Source::Directory(vec![file(b), file(a)]));
    assert_eq!(second.get_number("x"), Ok(1));
    assert_eq!(second.collection.len(), 1);
}

#[test]
fn files_of_a_directory_are_merged() {
    let config = generate(&Source::Directory(vec![
        file("db:\n  host: localhost\n  port: 5432\n"),
        Source::Directory(vec![file("db:\n  port: 6543\ncache:\n  on: true\n")]),
        file("name: app\n"),
    ]));
    assert_eq!(config.collection.len(), 4);
    assert_eq!(config.get_string("db.host"), Ok("localhost".to_string()));
    assert_eq!(config.get_number("db.port"), Ok(6543));
    assert_eq!(config.get_bool("cache.on"), Ok(true));
    assert_eq!(config.get_string("name"), Ok("app".to_string()));
}

#[test]
fn later_leaf_does_not_remove_what_was_below_its_path() {
    let config = generate(&Source::Directory(vec![file("a:\n  b: 1\n"), file("a: 2\n")]));
    assert_eq!(config.collection.len(), 2);
    assert_eq!(config.get_number("a.b"), Ok(1));
    assert_eq!(config.get_number("a"), Ok(2));
}

#[test]
fn empty_directory_gives_nothing() {
    assert_eq!(generate(&Source::Directory(vec![])).collection.len(), 0);
    assert_eq!(generate(&Source::Directory(vec![Source::Directory(vec![])])).collection.len(), 0);
}

#[test]
fn text_that_is_no_document_gives_nothing() {
    let broken = "a: [1, 2\nb: {";
    assert_eq!(read_document(broken), None);
    assert_eq!(generate(&file(broken)).collection.len(), 0);
    assert_eq!(read_document(""), None);
    assert_eq!(generate(&file("")).collection.len(), 0);
    assert_eq!(read_document("a: 1\n---\nb: 2\n"), None);
    let config = generate(&Source::Directory(vec![file("a: 1"), file(broken), file("b: 2")]));
    assert_eq!(config.collection.len(), 2);
    assert_eq!(config.get_number("a"), Ok(1));
    assert_eq!(config.get_number("b"), Ok(2));
}

#[test]
fn document_that_is_no_mapping_loads_nothing() {
    assert_eq!(read_document("just text"), Some(text("just text")));
    assert_eq!(generate(&file("just text")).collection.len(), 0);
    assert_eq!(generate(&file("- a\n- b\n")).collection.len(), 0);
    assert_eq!(generate(&file("42")).collection.len(), 0);
}

#[test]
fn key_that_is_no_text_or_integer_is_kept_as_it_is() {
    assert_eq!(
        read_document("true: 1\n"),
        Some(ValueTree::Mapping(vec![(Key::Other(ValueTree::Bool(true)), ValueTree::Int(1))]))
    );
    assert_eq!(
        read_document("1.5: x\n"),
        Some(ValueTree::Mapping(vec![(
            Key::Other(ValueTree::Float(1.5f64.to_bits())),
            text("x")
        )]))
    );
    assert_eq!(
        read_document("~: x\n"),
        Some(ValueTree::Mapping(vec![(Key::Other(ValueTree::Null), text("x"))]))
    );
    assert_eq!(
        read_document("[a, b]: x\n"),
        Some(ValueTree::Mapping(vec![(
            Key::Other(ValueTree::Sequence(vec![text("a"), text("b")])),
            text("x")
        )]))
    );
    assert_eq!(
        read_document("18446744073709551615: x\n"),
        Some(ValueTree::Mapping(vec![(
            Key::Other(ValueTree::Float((u64::MAX as f64).to_bits())),
            text("x")
        )]))
    );
}

#[test]
fn key_that_is_no_text_or_integer_leaves_the_rest_of_the_file() {
    let config = generate(&Source::Directory(vec![file("a: 1"), file("true: 1\nb: 2\n")]));
    assert_eq!(config.collection.len(), 2);
    assert_eq!(config.get_number("a"), Ok(1));
    assert_eq!(config.get_number("b"), Ok(2));
    let nested = generate(&file("a:\n  1.5: x\n  c: 3\n~:\n  d: 4\n"));
    assert_eq!(nested.collection.len(), 1);
    assert_eq!(nested.get_number("a.c"), Ok(3));
}

#[test]
fn sequence_with_a_key_that_is_no_text_or_integer_is_stored_whole() {
    let config = generate(&file("a:\n  - b: 1\n    false: 2\nc: 3\n"));
    assert_eq!(config.collection.len(), 2);
    assert_eq!(config.get_number("c"), Ok(3));
    assert_eq!(
        config.get_vec("a"),
        Ok(vec![ValueTree::Mapping(vec![
            entry("b", ValueTree::Int(1)),
            (Key::Other(ValueTree::Bool(false)), ValueTree::Int(2)),
        ])])
    );
}

#[test]
fn documents_are_read_as_trees() {
    assert_eq!(read_document("~"), Some(ValueTree::Null));
    assert_eq!(read_document("true"), Some(ValueTree::Bool(true)));
    assert_eq!(read_document("-7"), Some(ValueTree::Int(-7)));
    assert_eq!(read_document("2.5"), Some(ValueTree::Float(2.5f64.to_bits())));
    assert_eq!(read_document("'7'"), Some(text("7")));
    assert_eq!(
        read_document("[1, two, [3.0], {four: 4}]"),
        Some(ValueTree::Sequence(vec![
            ValueTree::Int(1),
            text("two"),
            ValueTree::Sequence(vec![ValueTree::Float(3.0f64.to_bits())]),
            ValueTree::Mapping(vec![entry("four", ValueTree::Int(4))]),
        ]))
    );
    assert_eq!(
        read_document("b: 1\na:\n  2: x\n  -3: y\n  '2': z\n"),
        Some(ValueTree::Mapping(vec![
            entry("b", ValueTree::Int(1)),
            entry(
                "a",
                ValueTree::Mapping(vec![
                    (Key::Int(2), text("x")),
                    (Key::Int(-3), text("y")),
                    entry("2", text("z")),
                ])
            ),
        ]))
    );
}

#[test]
fn integers_out_of_range_are_read_as_floats() {
    assert_eq!(read_document("9223372036854775807"), Some(ValueTree::Int(i64::MAX)));
    assert_eq!(read_document("-9223372036854775808"), Some(ValueTree::Int(i64::MIN)));
    assert_eq!(
        read_document("9223372036854775808"),
        Some(ValueTree::Float(9223372036854775808f64.to_bits()))
    );
    assert_eq!(
        read_document("18446744073709551615"),
        Some(ValueTree::Float((u64::MAX as f64).to_bits()))
    );
    let config = generate(&file("big: 18446744073709551615\n"));
    assert!(config.get_number("big").is_err());
    assert!(config.get_float("big").is_ok());
}

#[test]
fn values_built_by_hand_convert_like_parsed_ones() {
    let mut inner = serde_yaml::Mapping::new();
    inner.insert(serde_yaml::Value::from(1), serde_yaml::Value::from("one"));
    inner.insert(serde_yaml::Value::from("two"), serde_yaml::Value::from(2.0));
    let value = serde_yaml::Value::Sequence(vec![
        serde_yaml::Value::Null,
        serde_yaml::Value::Bool(false),
        serde_yaml::Value::Mapping(inner),
    ]);
    assert_eq!(
        tree_from(&value),
        ValueTree::Sequence(vec![
            ValueTree::Null,
            ValueTree::Bool(false),
            ValueTree::Mapping(vec![
                (Key::Int(1), text("one")),
                entry("two", ValueTree::Float(2.0f64.to_bits())),
            ]),
        ])
    );
    assert_eq!(Some(tree_from(&yaml("a: {b: [c]}"))), read_document("a: {b: [c]}"));
}

#[test]
fn keys_are_text_or_integers() {
    assert_eq!(key_from(&yaml("name")), Key::Str("name".to_string()));
    assert_eq!(key_from(&yaml("''")), Key::Str(String::new()));
    assert_eq!(key_from(&yaml("'12'")), Key::Str("12".to_string()));
    assert_eq!(key_from(&yaml("12")), Key::Int(12));
    assert_eq!(key_from(&yaml("-12")), Key::Int(-12));
    assert_eq!(key_from(&yaml("1.5")), Key::Other(ValueTree::Float(1.5f64.to_bits())));
    assert_eq!(key_from(&yaml("true")), Key::Other(ValueTree::Bool(true)));
    assert_eq!(key_from(&yaml("~")), Key::Other(ValueTree::Null));
    assert_eq!(key_from(&yaml("[1]")), Key::Other(ValueTree::Sequence(vec![ValueTree::Int(1)])));
    assert_eq!(
        key_from(&yaml("{a: 1}")),
        Key::Other(ValueTree::Mapping(vec![entry("a", ValueTree::Int(1))]))
    );
    assert_eq!(
        key_from(&yaml("9223372036854775808")),
        Key::Other(ValueTree::Float(9223372036854775808f64.to_bits()))
    );
}

#[test]
fn mapping_entries_keep_document_order() {
    let tree = read_document("z: 1\na: 2\nm: 3\nb: 4\n").unwrap();
    assert_eq!(
        tree,
        ValueTree::Mapping(vec![
            entry("z", ValueTree::Int(1)),
            entry("a", ValueTree::Int(2)),
            entry("m", ValueTree::Int(3)),
            entry("b", ValueTree::Int(4)),
        ])
    );
}

#[test]
fn file_content_is_laid_over_what_is_there() {
    let mut config = generate(&file("a: 1\nb:\n  c: 2\n"));
    get_file_content("b:\n  c: 3\n  d: 4\n", &mut config.collection);
    assert_eq!(config.collection.len(), 3);
    assert_eq!(config.get_number("a"), Ok(1));
    assert_eq!(config.get_number("b.c"), Ok(3));
    assert_eq!(config.get_number("b.d"), Ok(4));
    get_file_content("not: [closed", &mut config.collection);
    assert_eq!(config.collection.len(), 3);
}

#[test]
fn folder_entries_are_loaded_in_order() {
    let mut config = generate(&file("x: 0\n"));
    let entries = vec![
        file("x: 1\ny: 1\n"),
        Source::Directory(vec![file("y: 2\n"), file("z: 2\n")]),
        file("z: 3\n"),
    ];
    walk_folder_files(&entries, &mut config.collection);
    assert_eq!(config.collection.len(), 3);
    assert_eq!(config.get_number("x"), Ok(1));
    assert_eq!(config.get_number("y"), Ok(2));
    assert_eq!(config.get_number("z"), Ok(3));
}

#[test]
fn key_with_separator_in_a_file_is_left_out() {
    let config = generate(&file("a.b: 1\nc:\n  d.e:\n    f: 2\n  g: 3\n"));
    assert_eq!(config.collection.len(), 1);
    assert_eq!(config.get_number("c.g"), Ok(3));
    assert!(!config.contains("a.b"));
    assert!(!config.contains("c.d.e.f"));
}

#[test]
fn empty_key_in_a_file_is_left_out() {
    assert_eq!(generate(&file("'': 1\n")).collection.len(), 0);
    let config = generate(&file("'':\n  x: 1\na:\n  '': 2\n  b: 3\n"));
    assert_eq!(config.collection.len(), 1);
    assert_eq!(config.get_number("a.b"), Ok(3));
    for path in ["", "x", "a.", "a"] {
        assert!(!config.contains(path), "{:?}", path);
    }
}
