use serde::ser::{SerializeMap, SerializeSeq, SerializeStruct};
use serde::{Serialize, Serializer};
use snapshot_render::{
    complete, serialize_content, serialize_value, serialize_value_redacted, Action, Content,
    Encoded, Redaction, RonStyle, Segment, Selector, SerializationFormat, SerializeError,
    Settings, SnapshotLocation,
};

/// A tree as serde sees it.
struct Tree<'a>(&'a Content);

impl<'a> Serialize for Tree<'a> {
    fn serialize<S: Serializer>(&self, serializer: S) -> Result<S::Ok, S::Error> {
        match self.0 {
            Content::Null => serializer.serialize_unit(),
            Content::Bool(b) => serializer.serialize_bool(*b),
            Content::U64(n) => serializer.serialize_u64(*n),
            Content::I64(n) => serializer.serialize_i64(*n),
            Content::String(s) => serializer.serialize_str(s),
            Content::Bytes(b) => serializer.serialize_bytes(b),
            Content::Sequence(items) => {
                let mut seq = serializer.serialize_seq(Some(items.len()))?;
                for item in items {
                    seq.serialize_element(&Tree(item))?;
                }
                seq.end()
            }
            Content::Mapping(pairs) => {
                let mut map = serializer.serialize_map(Some(pairs.len()))?;
                for (key, value) in pairs {
                    map.serialize_entry(&Tree(key), &Tree(value))?;
                }
                map.end()
            }
            Content::Struct(name, fields) => {
                let mut record = serializer.serialize_struct(name, fields.len())?;
                for (field, value) in fields {
                    record.serialize_field(field, &Tree(value))?;
                }
                record.end()
            }
        }
    }
}

fn encode_json(tree: &Content) -> Encoded {
    match serde_json::to_string_pretty(&Tree(tree)) {
        Ok(text) => Encoded::Text(text),
        Err(_) => Encoded::Failed,
    }
}

fn encode_toml(tree: &Content) -> Encoded {
    match toml::to_string_pretty(&Tree(tree)) {
        Ok(text) => Encoded::Text(text),
        Err(_) => Encoded::Failed,
    }
}

fn encode_csv(rows: &[Content]) -> Encoded {
    let mut buf = Vec::with_capacity(128);
    {
        let mut writer = csv::Writer::from_writer(&mut buf);
        for row in rows {
            if writer.serialize(Tree(row)).is_err() {
                return Encoded::Failed;
            }
        }
        if writer.flush().is_err() {
            return Encoded::Failed;
        }
    }
    Encoded::Bytes(buf)
}

fn encode_ron(tree: &Content, style: &RonStyle) -> Encoded {
    let mut buf = Vec::new();
    let mut config = ron::ser::PrettyConfig::new();
    config.new_line = style.new_line.clone();
    config.indentor = style.indentor.clone();
    config.struct_names = style.struct_names;
    let made = ron::ser::Serializer::with_options(
        &mut buf,
        Some(config),
        ron::options::Options::default(),
    );
    let written = match made {
        Ok(mut serializer) => Tree(tree).serialize(&mut serializer).is_ok(),
        Err(_) => false,
    };
    if written {
        Encoded::Bytes(buf)
    } else {
        Encoded::Failed
    }
}

fn run(
    action: Action,
    format: SerializationFormat,
    location: SnapshotLocation,
) -> Result<String, SerializeError> {
    let encoded = match action {
        Action::Finished(text) => return Ok(text),
        Action::EncodeJson(tree) => encode_json(&tree),
        Action::EncodeCsv(rows) => encode_csv(&rows),
        Action::EncodeRon(tree, style) => encode_ron(&tree, &style),
        Action::EncodeToml(tree) => encode_toml(&tree),
    };
    complete(encoded, format, location)
}

fn render(content: Content, format: SerializationFormat) -> Result<String, SerializeError> {
    let action = serialize_content(content, &Settings::new(), format, SnapshotLocation::File);
    run(action, format, SnapshotLocation::File)
}

fn text(s: &str) -> Content {
    Content::from(s)
}

fn record(a: u64, b: &str) -> Content {
    Content::Struct("Record", vec![("a", Content::from(a)), ("b", text(b))])
}

#[test]
fn csv_sequence_of_records_is_one_header_and_one_line_each() {
    let rows = Content::Sequence(vec![record(1, "x"), record(2, "y"), record(3, "z")]);
    let out = render(rows, SerializationFormat::Csv).unwrap();
    assert_eq!(out, "a,b\n1,x\n2,y\n3,z");
    assert_eq!(out.lines().count(), 4);
    assert!(!out.ends_with('\n'));
}

#[test]
fn csv_single_record_is_one_header_and_one_line() {
    let out = render(record(7, "only"), SerializationFormat::Csv).unwrap();
    assert_eq!(out, "a,b\n7,only");
    assert_eq!(out.lines().count(), 2);
}

#[test]
fn csv_rows_without_fields_have_no_header() {
    let rows = Content::Sequence(vec![
        Content::Sequence(vec![Content::from(1u64), text("a b")]),
        Content::Sequence(vec![Content::from(2u64), text("c,d")]),
    ]);
    assert_eq!(
        render(rows, SerializationFormat::Csv).unwrap(),
        "1,a b\n2,\"c,d\""
    );
}

#[test]
fn csv_of_an_empty_sequence_is_empty() {
    assert_eq!(
        render(Content::Sequence(vec![]), SerializationFormat::Csv).unwrap(),
        ""
    );
}

#[test]
fn csv_encoder_failure_is_an_encode_error() {
    let map = Content::Mapping(vec![(text("a"), Content::from(1u64))]);
    assert_eq!(
        render(map, SerializationFormat::Csv),
        Err(SerializeError::Encode)
    );
    let uneven = Content::Sequence(vec![
        Content::Sequence(vec![Content::from(1u64)]),
        Content::Sequence(vec![Content::from(1u64), Content::from(2u64)]),
    ]);
    assert_eq!(
        render(uneven, SerializationFormat::Csv),
        Err(SerializeError::Encode)
    );
}

#[test]
fn json_is_pretty_and_keeps_the_order_of_the_tree() {
    let tree = Content::Mapping(vec![
        (text("b"), Content::from(1u64)),
        (
            text("a"),
            Content::Sequence(vec![Content::from(true), Content::Null]),
        ),
    ]);
    assert_eq!(
        render(tree, SerializationFormat::Json).unwrap(),
        "{\n  \"b\": 1,\n  \"a\": [\n    true,\n    null\n  ]\n}"
    );
}

#[test]
fn json_follows_sorted_maps() {
    let tree = Content::Mapping(vec![
        (text("b"), Content::from(1u64)),
        (text("a"), Content::from(2u64)),
    ]);
    let mut settings = Settings::new();
    settings.set_sort_maps(true);
    let format = SerializationFormat::Json;
    let action = serialize_content(tree, &settings, format, SnapshotLocation::Inline);
    assert_eq!(
        run(action, format, SnapshotLocation::Inline).unwrap(),
        "{\n  \"a\": 2,\n  \"b\": 1\n}"
    );
}

#[test]
fn json_text_is_left_as_it_is() {
    let done = complete(
        Encoded::Text("[]\n".to_string()),
        SerializationFormat::Json,
        SnapshotLocation::File,
    );
    assert_eq!(done, Ok("[]\n".to_string()));
}

#[test]
fn ron_is_pretty_with_struct_names() {
    let tree = Content::Struct(
        "Point",
        vec![
            ("x", Content::from(1i64)),
            ("tags", Content::Sequence(vec![text("a"), text("b")])),
        ],
    );
    assert_eq!(
        render(tree, SerializationFormat::Ron).unwrap(),
        "Point(\n  x: 1,\n  tags: [\n    \"a\",\n    \"b\",\n  ],\n)"
    );
}

#[test]
fn ron_style_is_fixed() {
    let style = RonStyle::fixed();
    assert_eq!(style.new_line, "\n");
    assert_eq!(style.indentor, "  ");
    assert!(style.struct_names);
    match serialize_content(
        Content::Null,
        &Settings::new(),
        SerializationFormat::Ron,
        SnapshotLocation::File,
    ) {
        Action::EncodeRon(tree, style) => {
            assert!(matches!(tree, Content::Null));
            assert_eq!(style.new_line, "\n");
            assert_eq!(style.indentor, "  ");
            assert!(style.struct_names);
        }
        _ => panic!("RON goes to its encoder"),
    }
}

#[test]
fn toml_loses_its_closing_line_feed() {
    let tree = Content::Struct(
        "Config",
        vec![("a", Content::from(1u64)), ("b", Content::from(true))],
    );
    assert_eq!(
        render(tree, SerializationFormat::Toml).unwrap(),
        "a = 1\nb = true"
    );
}

#[test]
fn toml_encoder_failure_is_an_encode_error() {
    assert_eq!(
        render(Content::Null, SerializationFormat::Toml),
        Err(SerializeError::Encode)
    );
    let value_behind_table = Content::Struct(
        "Config",
        vec![
            ("table", Content::Struct("Inner", vec![("a", Content::from(1u64))])),
            ("late", Content::from(2u64)),
        ],
    );
    assert_eq!(
        render(value_behind_table, SerializationFormat::Toml),
        Err(SerializeError::Encode)
    );
}

#[test]
fn outputs_do_not_end_with_a_line_terminator() {
    let tree = || {
        Content::Struct(
            "Record",
            vec![("a", Content::from(1u64)), ("b", text("x"))],
        )
    };
    for format in [
        SerializationFormat::Csv,
        SerializationFormat::Ron,
        SerializationFormat::Toml,
        SerializationFormat::Json,
    ] {
        let out = render(tree(), format).unwrap();
        assert!(!out.is_empty());
        assert!(!out.ends_with('\n'), "{:?}", out);
        assert!(!out.ends_with('\r'), "{:?}", out);
    }
}

#[test]
fn complete_drops_exactly_one_line_feed() {
    let file = SnapshotLocation::File;
    for format in [SerializationFormat::Csv, SerializationFormat::Toml] {
        let text = |s: &str| complete(Encoded::Text(s.to_string()), format, file);
        let bytes = |s: &str| complete(Encoded::Bytes(s.as_bytes().to_vec()), format, file);
        assert_eq!(text("a\n"), Ok("a".to_string()));
        assert_eq!(text("a\n\n"), Ok("a\n".to_string()));
        assert_eq!(text("a"), Ok("a".to_string()));
        assert_eq!(text("\n"), Ok("".to_string()));
        assert_eq!(text(""), Ok("".to_string()));
        assert_eq!(text("a\r\n"), Ok("a\r".to_string()));
        assert_eq!(bytes("a\n"), Ok("a".to_string()));
        assert_eq!(bytes("a\n\n"), Ok("a\n".to_string()));
        assert_eq!(bytes("a"), Ok("a".to_string()));
        assert_eq!(bytes(""), Ok("".to_string()));
        assert_eq!(bytes("\u{e9}\n"), Ok("\u{e9}".to_string()));
    }
    for format in [SerializationFormat::Json, SerializationFormat::Ron] {
        let text = |s: &str| complete(Encoded::Text(s.to_string()), format, file);
        let bytes = |s: &str| complete(Encoded::Bytes(s.as_bytes().to_vec()), format, file);
        assert_eq!(text("a\n"), Ok("a\n".to_string()));
        assert_eq!(bytes("a\n"), Ok("a\n".to_string()));
        assert_eq!(bytes("h\u{e9}llo"), Ok("h\u{e9}llo".to_string()));
    }
}

#[test]
fn complete_fails_on_failure_and_on_bad_text() {
    for format in [
        SerializationFormat::Csv,
        SerializationFormat::Ron,
        SerializationFormat::Toml,
        SerializationFormat::Yaml,
        SerializationFormat::Json,
    ] {
        for location in [SnapshotLocation::Inline, SnapshotLocation::File] {
            assert_eq!(
                complete(Encoded::Failed, format, location),
                Err(SerializeError::Encode)
            );
            assert_eq!(
                complete(Encoded::Bytes(vec![b'a', 0xff]), format, location),
                Err(SerializeError::Encode)
            );
            assert_eq!(
                complete(Encoded::Bytes(vec![0xc3]), format, location),
                Err(SerializeError::Encode)
            );
        }
    }
}

#[test]
fn complete_drops_the_marker_of_a_yaml_file() {
    let yaml = SerializationFormat::Yaml;
    let text = |s: &str, location| complete(Encoded::Text(s.to_string()), yaml, location);
    assert_eq!(
        text("---\na: 1\n", SnapshotLocation::File),
        Ok("a: 1\n".to_string())
    );
    assert_eq!(
        text("---\na: 1\n", SnapshotLocation::Inline),
        Ok("---\na: 1\n".to_string())
    );
    assert_eq!(text("---\n", SnapshotLocation::File), Ok("".to_string()));
    assert_eq!(
        complete(
            Encoded::Bytes(b"---\n- \xc3\xa9\n".to_vec()),
            yaml,
            SnapshotLocation::File
        ),
        Ok("- \u{e9}\n".to_string())
    );
    for bad in ["", "---", "--- \na", "a: 1\n", "\n---\n"] {
        assert_eq!(
            text(bad, SnapshotLocation::File),
            Err(SerializeError::Encode)
        );
        assert_eq!(text(bad, SnapshotLocation::Inline), Ok(bad.to_string()));
    }
    assert_eq!(
        complete(
            Encoded::Text("---\nx".to_string()),
            SerializationFormat::Json,
            SnapshotLocation::File
        ),
        Ok("---\nx".to_string())
    );
}

#[test]
fn serialize_content_hands_the_normalized_tree_to_the_encoder() {
    let tree = || {
        Content::Mapping(vec![
            (text("b"), text("secret")),
            (text("a"), Content::from(1u64)),
        ])
    };
    let mut settings = Settings::new();
    settings.set_sort_maps(true);
    settings.add_redaction(
        Selector::new(vec![Segment::Key("b".to_string())]),
        Redaction::new(text("[b]")),
    );
    let inline = SnapshotLocation::Inline;
    match serialize_content(tree(), &settings, SerializationFormat::Json, inline) {
        Action::EncodeJson(out) => assert_eq!(out.as_yaml(), "---\na: 1\nb: \"[b]\"\n"),
        _ => panic!("JSON goes to its encoder"),
    }
    match serialize_content(tree(), &settings, SerializationFormat::Toml, inline) {
        Action::EncodeToml(out) => assert_eq!(out.as_yaml(), "---\na: 1\nb: \"[b]\"\n"),
        _ => panic!("TOML goes to its encoder"),
    }
    match serialize_content(tree(), &settings, SerializationFormat::Csv, inline) {
        Action::EncodeCsv(rows) => {
            assert_eq!(rows.len(), 1);
            assert_eq!(rows[0].as_yaml(), "---\na: 1\nb: \"[b]\"\n");
        }
        _ => panic!("CSV goes to its encoder"),
    }
    match serialize_content(tree(), &settings, SerializationFormat::Yaml, inline) {
        Action::Finished(out) => assert_eq!(out, "---\na: 1\nb: \"[b]\"\n"),
        _ => panic!("YAML is rendered without an encoder"),
    }
}

fn conversion_failure() -> serde::de::value::Error {
    serde::de::Error::custom("not a tree")
}

#[test]
fn serialize_value_fails_where_the_conversion_failed() {
    let settings = Settings::new();
    for format in [
        SerializationFormat::Csv,
        SerializationFormat::Ron,
        SerializationFormat::Toml,
        SerializationFormat::Yaml,
        SerializationFormat::Json,
    ] {
        let out = serialize_value(
            Err(conversion_failure()),
            &settings,
            format,
            SnapshotLocation::File,
        );
        assert!(matches!(out, Err(SerializeError::ValueConversion)));
        let out = serialize_value_redacted(
            Err(conversion_failure()),
            &[],
            &settings,
            format,
            SnapshotLocation::File,
        );
        assert!(matches!(out, Err(SerializeError::ValueConversion)));
    }
}

#[test]
fn serialize_value_renders_the_converted_tree() {
    let out = serialize_value(
        Ok(Content::Sequence(vec![text("a")])),
        &Settings::new(),
        SerializationFormat::Yaml,
        SnapshotLocation::File,
    );
    match out {
        Ok(Action::Finished(text)) => assert_eq!(text, "- a\n"),
        _ => panic!("YAML is rendered without an encoder"),
    }
}

#[test]
fn serialize_value_redacted_applies_its_own_rules_first() {
    // The caller's rule puts a map in place of `x`; the settings' rule
    // then picks a value inside that map.
    let mut settings = Settings::new();
    settings.add_redaction(
        Selector::new(vec![
            Segment::Key("x".to_string()),
            Segment::Key("inner".to_string()),
        ]),
        Redaction::new(text("from settings")),
    );
    let own = [(
        Selector::new(vec![Segment::Key("x".to_string())]),
        Redaction::new(Content::Mapping(vec![(text("inner"), text("from caller"))])),
    )];
    let tree = Content::Mapping(vec![(text("x"), Content::from(1u64))]);
    let out = serialize_value_redacted(
        Ok(tree),
        &own,
        &settings,
        SerializationFormat::Yaml,
        SnapshotLocation::File,
    );
    match out {
        Ok(Action::Finished(text)) => assert_eq!(text, "x:\n  inner: from settings\n"),
        _ => panic!("YAML is rendered without an encoder"),
    }
}
