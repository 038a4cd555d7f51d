use snapshot_render::serialization::{apply_redactions, csv_rows, normalize};
use snapshot_render::{Content, Redaction, Segment, Selector, Settings};

fn text(s: &str) -> Content {
    Content::from(s)
}

fn key(name: &str) -> Segment {
    Segment::Key(name.to_string())
}

fn yaml(content: &Content) -> String {
    content.as_yaml()
}

fn sorted_yaml(content: Content) -> String {
    let mut content = content;
    content.sort_maps();
    yaml(&content)
}

#[test]
fn keys_are_ordered_by_class_then_value() {
    let keys = vec![
        Content::Null,
        Content::from(false),
        Content::from(true),
        Content::from(-3i64),
        Content::from(2u64),
        Content::from(10i64),
        Content::from(u64::MAX),
        text(""),
        text("a"),
        text("ab"),
        text("b"),
        Content::Bytes(vec![]),
        Content::Bytes(vec![1]),
        Content::Bytes(vec![1, 0]),
        Content::Bytes(vec![2]),
        Content::Sequence(vec![]),
    ];
    for i in 0..keys.len() {
        for j in 0..keys.len() {
            assert_eq!(keys[i].key_before(&keys[j]), i <= j, "keys {} and {}", i, j);
        }
    }
}

#[test]
fn equal_keys_stand_before_each_other() {
    assert!(Content::from(5u64).key_before(&Content::from(5i64)));
    assert!(Content::from(5i64).key_before(&Content::from(5u64)));
    assert!(Content::Sequence(vec![]).key_before(&Content::Mapping(vec![])));
    assert!(Content::Mapping(vec![]).key_before(&Content::Struct("S", vec![])));
    assert!(Content::Struct("S", vec![]).key_before(&Content::Sequence(vec![text("x")])));
    assert!(!Content::from(-1i64).key_before(&Content::from(false)));
    assert!(Content::from(i64::MIN).key_before(&Content::from(0u64)));
    assert!(!Content::from(u64::MAX).key_before(&Content::from(i64::MAX)));
}

#[test]
fn sort_maps_sorts_every_depth() {
    let tree = Content::Mapping(vec![
        (
            text("b"),
            Content::Sequence(vec![Content::Mapping(vec![
                (text("z"), Content::from(1u64)),
                (text("y"), Content::from(2u64)),
            ])]),
        ),
        (
            text("a"),
            Content::Struct(
                "S",
                vec![(
                    "field",
                    Content::Mapping(vec![
                        (Content::from(2u64), Content::Null),
                        (Content::from(1u64), Content::Null),
                    ]),
                )],
            ),
        ),
    ]);
    assert_eq!(
        sorted_yaml(tree),
        "---\na:\n  field:\n    1: ~\n    2: ~\nb:\n  - y: 2\n    z: 1\n"
    );
}

#[test]
fn sort_maps_is_stable() {
    let tree = Content::Mapping(vec![
        (Content::Sequence(vec![text("second")]), Content::from(1u64)),
        (text("k"), text("first k")),
        (Content::Sequence(vec![text("first")]), Content::from(2u64)),
        (text("k"), text("second k")),
        (Content::from(5i64), text("signed")),
        (Content::from(5u64), text("unsigned")),
    ]);
    assert_eq!(
        sorted_yaml(tree),
        "---\n5: signed\n5: unsigned\nk: first k\nk: second k\n? - second\n: 1\n? - first\n: 2\n"
    );
}

#[test]
fn sort_maps_twice_is_sort_maps_once() {
    let mut tree = Content::Mapping(vec![
        (text("c"), Content::Mapping(vec![(text("b"), Content::Null), (text("a"), Content::Null)])),
        (text("a"), Content::Sequence(vec![Content::Mapping(vec![
            (Content::from(true), Content::Null),
            (Content::from(false), Content::Null),
        ])])),
        (text("b"), Content::Null),
    ]);
    tree.sort_maps();
    let once = yaml(&tree);
    tree.sort_maps();
    assert_eq!(yaml(&tree), once);
    assert_eq!(
        once,
        "---\na:\n  - false: ~\n    true: ~\nb: ~\nc:\n  a: ~\n  b: ~\n"
    );
}

#[test]
fn sort_maps_leaves_sequences_and_fields_in_place() {
    let tree = Content::Sequence(vec![
        text("b"),
        text("a"),
        Content::Struct("S", vec![("z", Content::Null), ("a", Content::Null)]),
    ]);
    assert_eq!(sorted_yaml(tree), "---\n- b\n- a\n- z: ~\n  a: ~\n");
}

fn secret_tree() -> Content {
    Content::Mapping(vec![
        (text("user"), Content::Mapping(vec![
            (text("name"), text("ada")),
            (text("token"), text("abc")),
        ])),
        (text("ids"), Content::Sequence(vec![Content::from(1u64), Content::from(2u64)])),
    ])
}

#[test]
fn redaction_replaces_picked_nodes() {
    let selector = Selector::new(vec![key("user"), key("token")]);
    let out = selector.redact(secret_tree(), &Redaction::new(text("hidden")));
    assert_eq!(
        yaml(&out),
        "---\nuser:\n  name: ada\n  token: hidden\nids:\n  - 1\n  - 2\n"
    );
}

#[test]
fn redaction_by_index_and_wildcard() {
    let second = Selector::new(vec![key("ids"), Segment::Index(1)]);
    let out = second.redact(secret_tree(), &Redaction::new(Content::Null));
    assert_eq!(
        yaml(&out),
        "---\nuser:\n  name: ada\n  token: abc\nids:\n  - 1\n  - ~\n"
    );
    let all = Selector::new(vec![Segment::Wildcard, Segment::Wildcard]);
    let out = all.redact(secret_tree(), &Redaction::new(text("x")));
    assert_eq!(
        yaml(&out),
        "---\nuser:\n  name: x\n  token: x\nids:\n  - x\n  - x\n"
    );
}

#[test]
fn redaction_of_struct_fields() {
    let tree = Content::Struct(
        "Login",
        vec![("name", text("ada")), ("password", text("abc"))],
    );
    let selector = Selector::new(vec![key("password")]);
    let out = selector.redact(tree, &Redaction::new(text("hidden")));
    assert_eq!(yaml(&out), "---\nname: ada\npassword: hidden\n");
}

#[test]
fn redaction_with_empty_selector_replaces_the_root() {
    let selector = Selector::new(vec![]);
    let out = selector.redact(secret_tree(), &Redaction::new(text("gone")));
    assert_eq!(yaml(&out), "---\ngone\n");
}

#[test]
fn redaction_that_picks_nothing_changes_nothing() {
    let before = yaml(&secret_tree());
    for selector in [
        Selector::new(vec![key("missing")]),
        Selector::new(vec![Segment::Index(0)]),
        Selector::new(vec![key("ids"), Segment::Index(2)]),
        Selector::new(vec![key("ids"), key("0")]),
        Selector::new(vec![key("user"), key("name"), Segment::Wildcard]),
    ] {
        let out = selector.redact(secret_tree(), &Redaction::new(text("x")));
        assert_eq!(yaml(&out), before);
    }
}

#[test]
fn redaction_order_is_significant() {
    // Rule A puts a map in place of the field `x`; rule B picks a value
    // inside what A puts there.
    let tree = || Content::Mapping(vec![(text("x"), text("secret"))]);
    let a = || {
        (
            Selector::new(vec![key("x")]),
            Redaction::new(Content::Mapping(vec![(text("y"), text("v"))])),
        )
    };
    let b = || {
        (
            Selector::new(vec![key("x"), key("y")]),
            Redaction::new(text("[masked]")),
        )
    };
    let a_then_b = apply_redactions(tree(), &[a(), b()]);
    let b_then_a = apply_redactions(tree(), &[b(), a()]);
    assert_eq!(yaml(&a_then_b), "---\nx:\n  y: \"[masked]\"\n");
    assert_eq!(yaml(&b_then_a), "---\nx:\n  y: v\n");
    assert_ne!(yaml(&a_then_b), yaml(&b_then_a));

    let (sel_a, red_a) = a();
    let (sel_b, red_b) = b();
    let by_hand = sel_b.redact(sel_a.redact(tree(), &red_a), &red_b);
    assert_eq!(yaml(&by_hand), yaml(&a_then_b));
}

#[test]
fn normalize_sorts_before_it_redacts() {
    let tree = Content::Mapping(vec![
        (text("b"), Content::from(2u64)),
        (text("a"), Content::from(1u64)),
    ]);
    let mut settings = Settings::new();
    assert!(!settings.sort_maps());
    settings.set_sort_maps(true);
    assert!(settings.sort_maps());
    // The replacement is itself an unsorted map: it is put in after the
    // sorting and stays as it is.
    settings.add_redaction(
        Selector::new(vec![key("a")]),
        Redaction::new(Content::Mapping(vec![
            (text("z"), Content::Null),
            (text("y"), Content::Null),
        ])),
    );
    assert_eq!(settings.redactions().len(), 1);
    let out = normalize(tree, &settings);
    assert_eq!(yaml(&out), "---\na:\n  z: ~\n  y: ~\nb: 2\n");
}

#[test]
fn normalize_with_default_settings_changes_nothing() {
    let tree = || Content::Mapping(vec![
        (text("b"), Content::from(2u64)),
        (text("a"), Content::from(1u64)),
    ]);
    assert_eq!(yaml(&normalize(tree(), &Settings::new())), yaml(&tree()));
    assert_eq!(yaml(&normalize(tree(), &Settings::default())), "---\nb: 2\na: 1\n");
}

#[test]
fn csv_rows_of_a_sequence_are_its_items() {
    let tree = Content::Sequence(vec![text("a"), text("b"), Content::Sequence(vec![])]);
    let rows = csv_rows(&tree);
    assert_eq!(rows.len(), 3);
    assert_eq!(yaml(&rows[0]), "---\na\n");
    assert_eq!(yaml(&rows[1]), "---\nb\n");
    assert_eq!(yaml(&rows[2]), "---\n[]\n");
    assert_eq!(csv_rows(&Content::Sequence(vec![])).len(), 0);
}

#[test]
fn csv_rows_of_anything_else_is_the_tree_itself() {
    let tree = Content::Struct("S", vec![("a", Content::from(1u64))]);
    let rows = csv_rows(&tree);
    assert_eq!(rows.len(), 1);
    assert_eq!(yaml(&rows[0]), yaml(&tree));
    assert_eq!(csv_rows(&Content::Null).len(), 1);
    assert!(tree.as_slice().is_none());
    assert_eq!(Content::Sequence(vec![Content::Null]).as_slice().map(|s| s.len()), Some(1));
}

#[test]
fn duplicate_is_a_deep_copy() {
    let tree = secret_tree();
    assert_eq!(yaml(&tree.duplicate()), yaml(&tree));
}
