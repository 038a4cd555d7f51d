use crate::content::{items_view, lemma_view_children, Content, Tree};
use crate::order::{lemma_sorted_tree_ordered, maps_ordered, sorted_tree};
use crate::redaction::{lemma_redacted_ordered, redacted, Redaction, Selector, Step};
use crate::settings::{rules_view, Settings};
use crate::text::{
    chars_of, ends_in_line_feed, ends_in_line_feed_byte, lemma_decoded_end,
    lemma_without_line_feed, lemma_without_line_feed_byte, string_of, strip_line_feed,
    strip_line_feed_byte, text_of_bytes, utf8_text, without_line_feed, without_line_feed_byte,
};
use crate::yaml::{document_marker, yaml_text};
use vstd::prelude::*;

verus! {

/// The text formats in which a tree can be rendered.
#[derive(Clone, Copy, Debug, PartialEq, Eq, Structural)]
pub enum SerializationFormat {
    Csv,
    Ron,
    Toml,
    Yaml,
    Json,
}

/// Where a snapshot is kept: in the source next to the test, or in a file
/// of its own.
#[derive(Clone, Copy, Debug, PartialEq, Eq, Structural)]
pub enum SnapshotLocation {
    Inline,
    File,
}

/// Why a tree could not be rendered.
#[derive(Clone, Copy, Debug, PartialEq, Eq, Structural)]
pub enum SerializeError {
    /// The value could not be turned into a tree.
    ValueConversion,
    /// The encoder failed, or what it produced is not the text of a
    /// document.
    Encode,
}

/// serde's `de::value::Error`, the error with which the conversion of a
/// value into a tree fails. It is carried through unread: nothing is
/// claimed of what it holds.
#[verifier::external_type_specification]
#[verifier::external_body]
pub struct ExValueError(serde::de::value::Error);

/// The fixed style in which RON is written.
pub struct RonStyle {
    /// What ends a line.
    pub new_line: String,
    /// One level of indentation.
    pub indentor: String,
    /// Whether a struct is written with its name.
    pub struct_names: bool,
}

impl RonStyle {
    /// Lines end in a line feed, a level of indentation is two spaces, and
    /// structs are written with their names.
    pub open spec fn is_fixed(&self) -> bool {
        &&& self.new_line@ == seq!['\n']
        &&& self.indentor@ == seq![' ', ' ']
        &&& self.struct_names
    }

    /// The fixed style.
    pub fn fixed() -> (style: RonStyle)
        ensures
            style.is_fixed(),
    {
        let new_line = string_of(&vec!['\n']);
        let indentor = string_of(&vec![' ', ' ']);
        assert(new_line@ =~= seq!['\n']);
        assert(indentor@ =~= seq![' ', ' ']);
        RonStyle { new_line, indentor, struct_names: true }
    }
}

/// What the caller does next with a normalized tree.
pub enum Action {
    /// Nothing: this is the snapshot text.
    Finished(String),
    /// Encode the tree as pretty JSON.
    EncodeJson(Content),
    /// Write the rows, in order, as records of one CSV document with one
    /// header.
    EncodeCsv(Vec<Content>),
    /// Encode the tree as pretty RON in the given style.
    EncodeRon(Content, RonStyle),
    /// Encode the tree as pretty TOML.
    EncodeToml(Content),
}

/// What an encoder handed back.
pub enum Encoded {
    /// The document as text.
    Text(String),
    /// The document as the bytes that were written.
    Bytes(Vec<u8>),
    /// The encoder failed.
    Failed,
}

/// The tree after the first `n` rules were applied, one after the other:
/// each rule works on what the rules before it left.
pub open spec fn apply_rules(t: Tree, rules: Seq<(Seq<Step>, Tree)>, n: int) -> Tree
    decreases n,
{
    if n <= 0 || n > rules.len() {
        t
    } else {
        redacted(apply_rules(t, rules, n - 1), rules[n - 1].0, rules[n - 1].1)
    }
}

/// The normalized tree: sorted first, where `sort` holds, then redacted by
/// all the rules in order.
pub open spec fn normalized(t: Tree, sort: bool, rules: Seq<(Seq<Step>, Tree)>) -> Tree {
    apply_rules(
        if sort {
            sorted_tree(t)
        } else {
            t
        },
        rules,
        rules.len() as int,
    )
}

/// The rows of a tree in CSV: the items of a sequence, or the tree itself
/// as the only row.
pub open spec fn rows_of(t: Tree) -> Seq<Tree> {
    match t {
        Tree::Sequence(items) => items,
        _ => seq![t],
    }
}

/// The YAML text of a tree: the whole document for an inline snapshot, the
/// document without its first four characters for a file.
pub open spec fn yaml_for(t: Tree, location: SnapshotLocation) -> Seq<char> {
    match location {
        SnapshotLocation::Inline => yaml_text(t),
        SnapshotLocation::File => yaml_text(t).skip(4),
    }
}

/// Whether `action` is the next step for the normalized tree `t`.
pub open spec fn plans(
    action: Action,
    t: Tree,
    format: SerializationFormat,
    location: SnapshotLocation,
) -> bool {
    match format {
        SerializationFormat::Yaml => action matches Action::Finished(text) && text@ == yaml_for(
            t,
            location,
        ),
        SerializationFormat::Json => action matches Action::EncodeJson(tree) && tree@ == t,
        SerializationFormat::Csv => action matches Action::EncodeCsv(rows) && items_view(rows@)
            == rows_of(t),
        SerializationFormat::Ron => action matches Action::EncodeRon(tree, style) && tree@ == t
            && style.is_fixed(),
        SerializationFormat::Toml => action matches Action::EncodeToml(tree) && tree@ == t,
    }
}

/// Formats whose encoders end the document with a line feed that the
/// snapshot does not keep.
pub open spec fn drops_line_feed(format: SerializationFormat) -> bool {
    format == SerializationFormat::Csv || format == SerializationFormat::Toml
}

/// The snapshot text for a document: for a YAML file the document without
/// its marker, and nothing where the marker is missing; for everything
/// else the document itself.
pub open spec fn without_marker(
    text: Seq<char>,
    format: SerializationFormat,
    location: SnapshotLocation,
) -> Option<Seq<char>> {
    if format == SerializationFormat::Yaml && location == SnapshotLocation::File {
        if text.len() >= 4 && text.take(4) == document_marker() {
            Some(text.skip(4))
        } else {
            None
        }
    } else {
        Some(text)
    }
}

/// The snapshot text for what an encoder handed back, or `None` where
/// there is none: the encoder failed, the bytes are not UTF-8, or a YAML
/// document for a file does not start with the document marker. A CSV or
/// TOML document loses one closing line feed, if it has one.
pub open spec fn completed(
    encoded: Encoded,
    format: SerializationFormat,
    location: SnapshotLocation,
) -> Option<Seq<char>> {
    match encoded {
        Encoded::Failed => None,
        Encoded::Text(text) => without_marker(
            if drops_line_feed(format) {
                without_line_feed(text@)
            } else {
                text@
            },
            format,
            location,
        ),
        Encoded::Bytes(bytes) => match utf8_text(
            if drops_line_feed(format) {
                without_line_feed_byte(bytes@)
            } else {
                bytes@
            },
        ) {
            Some(text) => without_marker(text, format, location),
            None => None,
        },
    }
}

/// The YAML text for a file is the YAML text for an inline snapshot
/// without its first four characters, and these four are the document
/// marker.
pub proof fn lemma_yaml_file_is_inline_without_marker(t: Tree)
    ensures
        yaml_for(t, SnapshotLocation::File) == yaml_for(t, SnapshotLocation::Inline).skip(4),
        yaml_for(t, SnapshotLocation::Inline) == document_marker() + yaml_for(
            t,
            SnapshotLocation::File,
        ),
{
    let inline = yaml_for(t, SnapshotLocation::Inline);
    assert(inline.skip(4) =~= crate::yaml::yaml_node(t, Seq::empty()) + seq!['\n']);
    assert(inline =~= document_marker() + inline.skip(4));
}

/// What [`complete`] makes of the library's own YAML document is what
/// [`serialize_content`] hands out for that location.
pub proof fn lemma_complete_yaml(text: String, t: Tree, location: SnapshotLocation)
    requires
        text@ == yaml_text(t),
    ensures
        completed(Encoded::Text(text), SerializationFormat::Yaml, location) == Some(
            yaml_for(t, location),
        ),
{
    assert(text@.take(4) =~= document_marker());
}

/// A CSV or TOML snapshot does not end in a line feed, unless the document
/// ended in two of them.
pub proof fn lemma_snapshot_has_no_closing_line_feed(
    encoded: Encoded,
    format: SerializationFormat,
    location: SnapshotLocation,
)
    requires
        drops_line_feed(format),
        completed(encoded, format, location) is Some,
        encoded matches Encoded::Text(text) ==> !(ends_in_line_feed(text@) && ends_in_line_feed(
            text@.drop_last(),
        )),
        encoded matches Encoded::Bytes(bytes) ==> !(ends_in_line_feed_byte(bytes@)
            && ends_in_line_feed_byte(bytes@.drop_last())),
    ensures
        !ends_in_line_feed(completed(encoded, format, location)->0),
{
    match encoded {
        Encoded::Text(text) => {
            lemma_without_line_feed(text@);
        },
        Encoded::Bytes(bytes) => {
            lemma_without_line_feed_byte(bytes@);
            lemma_decoded_end(without_line_feed_byte(bytes@));
        },
        Encoded::Failed => {},
    }
}

/// A JSON or RON snapshot is the document as the encoder wrote it: nothing
/// is added to it and nothing taken from it.
pub proof fn lemma_snapshot_is_the_document(
    encoded: Encoded,
    format: SerializationFormat,
    location: SnapshotLocation,
)
    requires
        format == SerializationFormat::Json || format == SerializationFormat::Ron,
    ensures
        encoded matches Encoded::Text(text) ==> completed(encoded, format, location) == Some(
            text@,
        ),
        encoded matches Encoded::Bytes(bytes) ==> completed(encoded, format, location)
            == utf8_text(bytes@),
{
}

/// Every rule's replacement has the pairs of its map nodes ordered by key.
pub open spec fn replacements_ordered(rules: Seq<(Seq<Step>, Tree)>) -> bool {
    forall|i: int| 0 <= i < rules.len() ==> maps_ordered((#[trigger] rules[i]).1)
}

/// Rules whose replacements are ordered keep an ordered tree ordered.
pub proof fn lemma_apply_rules_ordered(t: Tree, rules: Seq<(Seq<Step>, Tree)>, n: int)
    requires
        maps_ordered(t),
        replacements_ordered(rules),
    ensures
        maps_ordered(apply_rules(t, rules, n)),
    decreases n,
{
    if 0 < n <= rules.len() {
        lemma_apply_rules_ordered(t, rules, n - 1);
        assert(maps_ordered(rules[n - 1].1));
        lemma_redacted_ordered(apply_rules(t, rules, n - 1), rules[n - 1].0, rules[n - 1].1);
    }
}

/// After normalization with sorting, every map node at every depth has its
/// pairs ordered by key, provided the replacements of the rules have.
pub proof fn lemma_normalized_ordered(t: Tree, rules: Seq<(Seq<Step>, Tree)>)
    requires
        replacements_ordered(rules),
    ensures
        maps_ordered(normalized(t, true, rules)),
{
    lemma_sorted_tree_ordered(t);
    lemma_apply_rules_ordered(sorted_tree(t), rules, rules.len() as int);
}

/// Without sorting and without rules, normalization changes nothing.
pub proof fn lemma_normalized_plain(t: Tree)
    ensures
        normalized(t, false, Seq::empty()) == t,
{
}

/// Applies the rules to the tree in list order: each rule works on what
/// the rules before it left.
pub fn apply_redactions(content: Content, rules: &[(Selector, Redaction)]) -> (out: Content)
    ensures
        out@ == apply_rules(content@, rules_view(rules@), rules@.len() as int),
{
    let mut current = content;
    let mut i: usize = 0;
    while i < rules.len()
        invariant
            i <= rules.len(),
            current@ == apply_rules(content@, rules_view(rules@), i as int),
        decreases rules.len() - i,
    {
        current = rules[i].0.redact(current, &rules[i].1);
        i += 1;
    }
    current
}

/// Normalizes a tree: sorts the pairs of every map by key where the
/// settings ask for it, then applies the settings' redaction rules in
/// order.
pub fn normalize(content: Content, settings: &Settings) -> (out: Content)
    ensures
        out@ == normalized(content@, settings.sort_maps, settings.rules()),
{
    let mut content = content;
    if settings.sort_maps() {
        content.sort_maps();
    }
    apply_redactions(content, settings.redactions())
}

impl Content {
    /// The items of the tree, if it is a sequence.
    pub fn as_slice(&self) -> (items: Option<&[Content]>)
        ensures
            self@ is Sequence <==> items is Some,
            items matches Some(slice) ==> self@ == Tree::Sequence(items_view(slice@)),
    {
        proof {
            lemma_view_children(*self);
        }
        match self {
            Content::Sequence(items) => Some(items.as_slice()),
            _ => None,
        }
    }
}

/// The rows of a tree in CSV: one row for each item of a sequence, or the
/// tree itself as the only row.
pub fn csv_rows(content: &Content) -> (rows: Vec<Content>)
    ensures
        items_view(rows@) == rows_of(content@),
{
    let mut rows: Vec<Content> = Vec::new();
    match content.as_slice() {
        Some(items) => {
            let mut i: usize = 0;
            while i < items.len()
                invariant
                    i <= items.len(),
                    rows.len() == i,
                    forall|j: int| 0 <= j < i ==> rows[j]@ == items[j]@,
                decreases items.len() - i,
            {
                rows.push(items[i].duplicate());
                i += 1;
            }
            assert(items_view(rows@) =~= items_view(items@));
        },
        None => {
            rows.push(content.duplicate());
            assert(items_view(rows@) =~= seq![content@]);
        },
    }
    rows
}

/// The text made of the characters from position `from` on.
fn text_behind(chars: &Vec<char>, from: usize) -> (text: String)
    requires
        from <= chars.len(),
    ensures
        text@ == chars@.skip(from as int),
{
    let mut rest: Vec<char> = Vec::new();
    let mut i: usize = from;
    while i < chars.len()
        invariant
            from <= i <= chars.len(),
            rest@ == chars@.subrange(from as int, i as int),
        decreases chars.len() - i,
    {
        rest.push(chars[i]);
        i += 1;
        assert(chars@.subrange(from as int, i as int) =~= chars@.subrange(from as int, i - 1).push(
            chars@[i - 1],
        ));
    }
    assert(rest@ =~= chars@.skip(from as int));
    string_of(&rest)
}

/// Renders a tree as YAML for the given location: the whole document for
/// an inline snapshot, the document without its marker for a file.
pub fn render_yaml(content: &Content, location: SnapshotLocation) -> (text: String)
    ensures
        text@ == yaml_for(content@, location),
{
    let document = content.as_yaml();
    match location {
        SnapshotLocation::Inline => document,
        SnapshotLocation::File => {
            let chars = chars_of(document.as_str());
            text_behind(&chars, 4)
        },
    }
}

/// Normalizes a tree and says what is to be done with it: for YAML the
/// snapshot text is ready; for the other formats the normalized tree goes
/// to the format's encoder, and [`complete`] makes the snapshot text of
/// what the encoder hands back.
pub fn serialize_content(
    content: Content,
    settings: &Settings,
    format: SerializationFormat,
    location: SnapshotLocation,
) -> (action: Action)
    ensures
        plans(action, normalized(content@, settings.sort_maps, settings.rules()), format, location),
{
    let content = normalize(content, settings);
    match format {
        SerializationFormat::Yaml => Action::Finished(render_yaml(&content, location)),
        SerializationFormat::Json => Action::EncodeJson(content),
        SerializationFormat::Csv => Action::EncodeCsv(csv_rows(&content)),
        SerializationFormat::Ron => Action::EncodeRon(content, RonStyle::fixed()),
        SerializationFormat::Toml => Action::EncodeToml(content),
    }
}

/// Finishes a document: drops the marker of a YAML document for a file,
/// and fails where that marker is missing.
pub fn strip_marker(text: String, format: SerializationFormat, location: SnapshotLocation) -> (out:
    Result<String, SerializeError>)
    ensures
        out is Ok <==> without_marker(text@, format, location) is Some,
        out matches Ok(s) ==> without_marker(text@, format, location) == Some(s@),
        out matches Err(e) ==> e == SerializeError::Encode,
{
    match (format, location) {
        (SerializationFormat::Yaml, SnapshotLocation::File) => {
            let chars = chars_of(text.as_str());
            if chars.len() < 4 || chars[0] != '-' || chars[1] != '-' || chars[2] != '-' || chars[3]
                != '\n' {
                assert(chars@.len() >= 4 ==> chars@.take(4)[0] == chars@[0] && chars@.take(4)[1]
                    == chars@[1] && chars@.take(4)[2] == chars@[2] && chars@.take(4)[3]
                    == chars@[3]);
                return Err(SerializeError::Encode);
            }
            assert(chars@.take(4) =~= document_marker());
            Ok(text_behind(&chars, 4))
        },
        _ => Ok(text),
    }
}

/// Makes the snapshot text of what an encoder handed back. A CSV or TOML
/// document loses one closing line feed, if it has one; bytes are read as
/// UTF-8; a YAML document for a file loses its marker. Nothing else is
/// changed.
pub fn complete(encoded: Encoded, format: SerializationFormat, location: SnapshotLocation) -> (out:
    Result<String, SerializeError>)
    ensures
        out is Ok <==> completed(encoded, format, location) is Some,
        out matches Ok(s) ==> completed(encoded, format, location) == Some(s@),
        out matches Err(e) ==> e == SerializeError::Encode,
{
    let drops = match format {
        SerializationFormat::Csv => true,
        SerializationFormat::Toml => true,
        _ => false,
    };
    match encoded {
        Encoded::Failed => Err(SerializeError::Encode),
        Encoded::Text(text) => {
            let text = if drops {
                strip_line_feed(text.as_str())
            } else {
                text
            };
            strip_marker(text, format, location)
        },
        Encoded::Bytes(bytes) => {
            let bytes = if drops {
                strip_line_feed_byte(bytes)
            } else {
                bytes
            };
            match text_of_bytes(bytes) {
                Some(text) => strip_marker(text, format, location),
                None => Err(SerializeError::Encode),
            }
        },
    }
}

/// Like [`serialize_content`], for a value that was turned into a tree:
/// fails where that conversion failed.
pub fn serialize_value(
    converted: Result<Content, serde::de::value::Error>,
    settings: &Settings,
    format: SerializationFormat,
    location: SnapshotLocation,
) -> (out: Result<Action, SerializeError>)
    ensures
        converted is Err ==> out == Err::<Action, SerializeError>(SerializeError::ValueConversion),
        converted matches Ok(content) ==> out matches Ok(action) && plans(
            action,
            normalized(content@, settings.sort_maps, settings.rules()),
            format,
            location,
        ),
{
    match converted {
        Ok(content) => Ok(serialize_content(content, settings, format, location)),
        Err(_) => Err(SerializeError::ValueConversion),
    }
}

/// Like [`serialize_value`], with redaction rules of the caller's own.
/// These are applied first, in list order, to the tree as it was
/// converted; the settings' sorting and rules then work on the result.
pub fn serialize_value_redacted(
    converted: Result<Content, serde::de::value::Error>,
    redactions: &[(Selector, Redaction)],
    settings: &Settings,
    format: SerializationFormat,
    location: SnapshotLocation,
) -> (out: Result<Action, SerializeError>)
    ensures
        converted is Err ==> out == Err::<Action, SerializeError>(SerializeError::ValueConversion),
        converted matches Ok(content) ==> out matches Ok(action) && plans(
            action,
            normalized(
                apply_rules(content@, rules_view(redactions@), redactions@.len() as int),
                settings.sort_maps,
                settings.rules(),
            ),
            format,
            location,
        ),
{
    match converted {
        Ok(content) => {
            let content = apply_redactions(content, redactions);
            Ok(serialize_content(content, settings, format, location))
        },
        Err(_) => Err(SerializeError::ValueConversion),
    }
}

} // verus!
