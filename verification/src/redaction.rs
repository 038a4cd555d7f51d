use crate::content::{fields_view, items_view, lemma_view_children, pairs_view, Content, Tree};
use crate::order::{maps_ordered, pairs_ordered};
use crate::text::same_str;
use vstd::prelude::*;

verus! {

/// The mathematical value of a [`Segment`].
pub ghost enum Step {
    Key(Seq<char>),
    Index(int),
    Wildcard,
}

/// One step of a path into a tree.
pub enum Segment {
    /// The value under a string key of a map, or the field of this name of
    /// a struct.
    Key(String),
    /// The item at this position of a sequence, counted from zero.
    Index(usize),
    /// Every value of a map, field of a struct or item of a sequence.
    Wildcard,
}

impl View for Segment {
    type V = Step;

    open spec fn view(&self) -> Step {
        match self {
            Segment::Key(k) => Step::Key(k@),
            Segment::Index(n) => Step::Index(*n as int),
            Segment::Wildcard => Step::Wildcard,
        }
    }
}

/// A path that picks nodes of a tree: a node is picked where the steps
/// from the root down to it match the selector's segments one by one.
pub struct Selector {
    pub segments: Vec<Segment>,
}

impl View for Selector {
    type V = Seq<Step>;

    open spec fn view(&self) -> Seq<Step> {
        Seq::new(self.segments.len() as nat, |i: int| self.segments[i]@)
    }
}

/// What stands in place of the nodes that a selector picks.
pub struct Redaction {
    pub replacement: Content,
}

impl View for Redaction {
    type V = Tree;

    open spec fn view(&self) -> Tree {
        self.replacement@
    }
}

/// Whether a step leads to the value under the key `key` of a map.
pub open spec fn step_takes_key(step: Step, key: Tree) -> bool {
    match step {
        Step::Key(k) => key == Tree::String(k),
        Step::Index(_) => false,
        Step::Wildcard => true,
    }
}

/// Whether a step leads to the field `name` of a struct.
pub open spec fn step_takes_field(step: Step, name: Seq<char>) -> bool {
    match step {
        Step::Key(k) => name == k,
        Step::Index(_) => false,
        Step::Wildcard => true,
    }
}

/// Whether a step leads to the item at position `i` of a sequence.
pub open spec fn step_takes_index(step: Step, i: int) -> bool {
    match step {
        Step::Key(_) => false,
        Step::Index(n) => n == i,
        Step::Wildcard => true,
    }
}

/// The tree with every node that `path` picks replaced by `with`. The
/// empty path picks the root. Keys of maps are never replaced, and nothing
/// is picked below a scalar.
pub open spec fn redacted(t: Tree, path: Seq<Step>, with: Tree) -> Tree
    decreases t,
{
    if path.len() == 0 {
        with
    } else {
        match t {
            Tree::Sequence(items) => Tree::Sequence(redacted_items(items, path, with)),
            Tree::Mapping(pairs) => Tree::Mapping(redacted_pairs(pairs, path, with)),
            Tree::Struct(name, fields) => Tree::Struct(name, redacted_fields(fields, path, with)),
            _ => t,
        }
    }
}

/// The items of a sequence, those that the first step of `path` leads to
/// redacted by the rest of the path.
pub open spec fn redacted_items(items: Seq<Tree>, path: Seq<Step>, with: Tree) -> Seq<Tree>
    decreases items,
{
    Seq::new(
        items.len(),
        |i: int|
            if 0 <= i < items.len() && path.len() > 0 && step_takes_index(path[0], i) {
                redacted(items[i], path.skip(1), with)
            } else if 0 <= i < items.len() {
                items[i]
            } else {
                Tree::Null
            },
    )
}

/// The pairs of a map, the values that the first step of `path` leads to
/// redacted by the rest of the path.
pub open spec fn redacted_pairs(pairs: Seq<(Tree, Tree)>, path: Seq<Step>, with: Tree) -> Seq<
    (Tree, Tree),
>
    decreases pairs,
{
    Seq::new(
        pairs.len(),
        |i: int|
            if 0 <= i < pairs.len() && path.len() > 0 && step_takes_key(path[0], pairs[i].0) {
                (pairs[i].0, redacted(pairs[i].1, path.skip(1), with))
            } else if 0 <= i < pairs.len() {
                pairs[i]
            } else {
                (Tree::Null, Tree::Null)
            },
    )
}

/// The fields of a struct, the values that the first step of `path` leads
/// to redacted by the rest of the path.
pub open spec fn redacted_fields(
    fields: Seq<(Seq<char>, Tree)>,
    path: Seq<Step>,
    with: Tree,
) -> Seq<(Seq<char>, Tree)>
    decreases fields,
{
    Seq::new(
        fields.len(),
        |i: int|
            if 0 <= i < fields.len() && path.len() > 0 && step_takes_field(path[0], fields[i].0) {
                (fields[i].0, redacted(fields[i].1, path.skip(1), with))
            } else if 0 <= i < fields.len() {
                fields[i]
            } else {
                (Seq::empty(), Tree::Null)
            },
    )
}

/// Redaction keeps the maps ordered: where every map node of the tree and
/// of the replacement has its pairs ordered by key, so has every map node
/// of the redacted tree.
pub proof fn lemma_redacted_ordered(t: Tree, path: Seq<Step>, with: Tree)
    requires
        maps_ordered(t),
        maps_ordered(with),
    ensures
        maps_ordered(redacted(t, path, with)),
    decreases t,
{
    if path.len() > 0 {
        match t {
            Tree::Sequence(items) => {
                let out = redacted_items(items, path, with);
                assert forall|i: int| 0 <= i < out.len() implies maps_ordered(#[trigger] out[i]) by {
                    assert(maps_ordered(items[i]));
                    lemma_redacted_ordered(items[i], path.skip(1), with);
                }
            },
            Tree::Mapping(pairs) => {
                let out = redacted_pairs(pairs, path, with);
                assert forall|i: int| 0 <= i < out.len() implies maps_ordered(
                    (#[trigger] out[i]).0,
                ) && maps_ordered(out[i].1) by {
                    assert(maps_ordered(pairs[i].0) && maps_ordered(pairs[i].1));
                    lemma_redacted_ordered(pairs[i].1, path.skip(1), with);
                }
                assert forall|i: int, j: int| 0 <= i < j < out.len() implies crate::order::key_le(
                    #[trigger] out[i].0,
                    #[trigger] out[j].0,
                ) by {
                    assert(out[i].0 == pairs[i].0 && out[j].0 == pairs[j].0);
                }
                assert(pairs_ordered(out));
            },
            Tree::Struct(_, fields) => {
                let out = redacted_fields(fields, path, with);
                assert forall|i: int| 0 <= i < out.len() implies maps_ordered(
                    (#[trigger] out[i]).1,
                ) by {
                    assert(maps_ordered(fields[i].1));
                    lemma_redacted_ordered(fields[i].1, path.skip(1), with);
                }
            },
            _ => {},
        }
    }
}

/// Whether a segment leads to the value under `key`.
fn takes_key(segment: &Segment, key: &Content) -> (r: bool)
    ensures
        r == step_takes_key(segment@, key@),
{
    match segment {
        Segment::Key(k) => match key {
            Content::String(s) => same_str(k.as_str(), s.as_str()),
            _ => false,
        },
        Segment::Index(_) => false,
        Segment::Wildcard => true,
    }
}

/// Whether a segment leads to the field `name`.
fn takes_field(segment: &Segment, name: &str) -> (r: bool)
    ensures
        r == step_takes_field(segment@, name@),
{
    match segment {
        Segment::Key(k) => same_str(name, k.as_str()),
        Segment::Index(_) => false,
        Segment::Wildcard => true,
    }
}

/// Whether a segment leads to the item at position `i`.
fn takes_index(segment: &Segment, i: usize) -> (r: bool)
    ensures
        r == step_takes_index(segment@, i as int),
{
    match segment {
        Segment::Key(_) => false,
        Segment::Index(n) => *n == i,
        Segment::Wildcard => true,
    }
}

impl Selector {
    /// A selector with the given segments, from the root down.
    pub fn new(segments: Vec<Segment>) -> (selector: Selector)
        ensures
            selector.segments == segments,
    {
        Selector { segments }
    }

    /// Replaces every node of `content` that this selector picks by a copy
    /// of the redaction's replacement.
    pub fn redact(&self, content: Content, redaction: &Redaction) -> (out: Content)
        ensures
            out@ == redacted(content@, self@, redaction@),
    {
        assert(self@.skip(0) =~= self@);
        self.redact_from(&content, 0, &redaction.replacement)
    }

    /// Redacts `content` by the segments from position `from` on.
    #[verifier::loop_isolation(false)]
    fn redact_from(&self, content: &Content, from: usize, with: &Content) -> (out: Content)
        requires
            from <= self.segments.len(),
        ensures
            out@ == redacted(content@, self@.skip(from as int), with@),
        decreases content,
    {
        let ghost path = self@.skip(from as int);
        if from == self.segments.len() {
            return with.duplicate();
        }
        let segment = &self.segments[from];
        proof {
            lemma_view_children(*content);
            assert(path[0] == segment@);
            assert(path.skip(1) =~= self@.skip(from + 1));
        }
        match content {
            Content::Sequence(items) => {
                let mut out: Vec<Content> = Vec::new();
                let mut i: usize = 0;
                while i < items.len()
                    invariant
                        i <= items.len(),
                        out.len() == i,
                        forall|j: int|
                            0 <= j < i ==> out[j]@ == redacted_items(
                                items_view(items@),
                                path,
                                with@,
                            )[j],
                    decreases items.len() - i,
                {
                    if takes_index(segment, i) {
                        out.push(self.redact_from(&items[i], from + 1, with));
                    } else {
                        out.push(items[i].duplicate());
                    }
                    i += 1;
                }
                let out = Content::Sequence(out);
                proof {
                    lemma_view_children(out);
                    assert(out@->Sequence_0 =~= redacted_items(items_view(items@), path, with@));
                }
                out
            },
            Content::Mapping(pairs) => {
                let mut out: Vec<(Content, Content)> = Vec::new();
                let mut i: usize = 0;
                while i < pairs.len()
                    invariant
                        i <= pairs.len(),
                        out.len() == i,
                        forall|j: int|
                            0 <= j < i ==> (out[j].0@, out[j].1@) == redacted_pairs(
                                pairs_view(pairs@),
                                path,
                                with@,
                            )[j],
                    decreases pairs.len() - i,
                {
                    let key = pairs[i].0.duplicate();
                    if takes_key(segment, &pairs[i].0) {
                        out.push((key, self.redact_from(&pairs[i].1, from + 1, with)));
                    } else {
                        out.push((key, pairs[i].1.duplicate()));
                    }
                    i += 1;
                }
                let out = Content::Mapping(out);
                proof {
                    lemma_view_children(out);
                    assert(out@->Mapping_0 =~= redacted_pairs(pairs_view(pairs@), path, with@));
                }
                out
            },
            Content::Struct(name, fields) => {
                let mut out: Vec<(&'static str, Content)> = Vec::new();
                let mut i: usize = 0;
                while i < fields.len()
                    invariant
                        i <= fields.len(),
                        out.len() == i,
                        forall|j: int|
                            0 <= j < i ==> (out[j].0@, out[j].1@) == redacted_fields(
                                fields_view(fields@),
                                path,
                                with@,
                            )[j],
                    decreases fields.len() - i,
                {
                    if takes_field(segment, fields[i].0) {
                        out.push((fields[i].0, self.redact_from(&fields[i].1, from + 1, with)));
                    } else {
                        out.push((fields[i].0, fields[i].1.duplicate()));
                    }
                    i += 1;
                }
                let out = Content::Struct(*name, out);
                proof {
                    lemma_view_children(out);
                    assert(out@->Struct_1 =~= redacted_fields(fields_view(fields@), path, with@));
                }
                out
            },
            _ => content.duplicate(),
        }
    }
}

impl Redaction {
    /// A redaction that puts `replacement` in place of what is picked.
    pub fn new(replacement: Content) -> (redaction: Redaction)
        ensures
            redaction@ == replacement@,
    {
        Redaction { replacement }
    }
}

} // verus!
