use vstd::prelude::*;

verus! {

/// The mathematical value of a [`Content`]: the same tree, with sequences in
/// place of vectors and strings.
pub ghost enum Tree {
    Null,
    Bool(bool),
    U64(u64),
    I64(i64),
    String(Seq<char>),
    Bytes(Seq<u8>),
    Sequence(Seq<Tree>),
    Mapping(Seq<(Tree, Tree)>),
    Struct(Seq<char>, Seq<(Seq<char>, Tree)>),
}

/// A format-agnostic tree of structured data.
pub enum Content {
    Null,
    Bool(bool),
    U64(u64),
    I64(i64),
    String(String),
    Bytes(Vec<u8>),
    Sequence(Vec<Content>),
    Mapping(Vec<(Content, Content)>),
    Struct(&'static str, Vec<(&'static str, Content)>),
}

/// The value of a tree: each node with the values of its children.
pub open spec fn tree_of(c: Content) -> Tree
    decreases c,
{
    match c {
        Content::Null => Tree::Null,
        Content::Bool(b) => Tree::Bool(b),
        Content::U64(n) => Tree::U64(n),
        Content::I64(n) => Tree::I64(n),
        Content::String(s) => Tree::String(s@),
        Content::Bytes(b) => Tree::Bytes(b@),
        Content::Sequence(items) => Tree::Sequence(
            Seq::new(
                items.len() as nat,
                |i: int|
                    if 0 <= i < items.len() {
                        tree_of(items[i])
                    } else {
                        Tree::Null
                    },
            ),
        ),
        Content::Mapping(pairs) => Tree::Mapping(
            Seq::new(
                pairs.len() as nat,
                |i: int|
                    if 0 <= i < pairs.len() {
                        (tree_of(pairs[i].0), tree_of(pairs[i].1))
                    } else {
                        (Tree::Null, Tree::Null)
                    },
            ),
        ),
        Content::Struct(name, fields) => Tree::Struct(
            name@,
            Seq::new(
                fields.len() as nat,
                |i: int|
                    if 0 <= i < fields.len() {
                        (fields[i].0@, tree_of(fields[i].1))
                    } else {
                        (Seq::empty(), Tree::Null)
                    },
            ),
        ),
    }
}

impl View for Content {
    type V = Tree;

    open spec fn view(&self) -> Tree {
        tree_of(*self)
    }
}

/// The values of the items of a sequence node.
pub open spec fn items_view(items: Seq<Content>) -> Seq<Tree> {
    Seq::new(items.len(), |i: int| items[i]@)
}

/// The values of the pairs of a map node.
pub open spec fn pairs_view(pairs: Seq<(Content, Content)>) -> Seq<(Tree, Tree)> {
    Seq::new(pairs.len(), |i: int| (pairs[i].0@, pairs[i].1@))
}

/// The values of the fields of a struct node.
pub open spec fn fields_view(fields: Seq<(&'static str, Content)>) -> Seq<(Seq<char>, Tree)> {
    Seq::new(fields.len(), |i: int| (fields[i].0@, fields[i].1@))
}

/// The value of a node with children is made of the values of its children.
pub proof fn lemma_view_children(c: Content)
    ensures
        c matches Content::Sequence(items) ==> c@ == Tree::Sequence(items_view(items@)),
        c matches Content::Mapping(pairs) ==> c@ == Tree::Mapping(pairs_view(pairs@)),
        c matches Content::Struct(name, fields) ==> c@ == Tree::Struct(name@, fields_view(fields@)),
{
    reveal_with_fuel(tree_of, 2);
    match c {
        Content::Sequence(items) => {
            assert(c@->Sequence_0 =~= items_view(items@));
        },
        Content::Mapping(pairs) => {
            assert(c@->Mapping_0 =~= pairs_view(pairs@));
        },
        Content::Struct(name, fields) => {
            assert(c@->Struct_1 =~= fields_view(fields@));
        },
        _ => {},
    }
}

impl Content {
    /// A deep copy of the tree.
    #[verifier::loop_isolation(false)]
    pub fn duplicate(&self) -> (copy: Content)
        ensures
            copy@ == self@,
        decreases self,
    {
        match self {
            Content::Null => Content::Null,
            Content::Bool(b) => Content::Bool(*b),
            Content::U64(n) => Content::U64(*n),
            Content::I64(n) => Content::I64(*n),
            Content::String(s) => Content::String(s.clone()),
            Content::Bytes(b) => Content::Bytes(b.clone()),
            Content::Sequence(items) => {
                let mut out: Vec<Content> = Vec::new();
                let mut i: usize = 0;
                while i < items.len()
                    invariant
                        i <= items.len(),
                        out.len() == i,
                        forall|j: int| 0 <= j < i ==> out[j]@ == items[j]@,
                    decreases items.len() - i,
                {
                    out.push(items[i].duplicate());
                    i += 1;
                }
                let copy = Content::Sequence(out);
                assert(copy@->Sequence_0 =~= self@->Sequence_0);
                copy
            },
            Content::Mapping(pairs) => {
                let mut out: Vec<(Content, Content)> = Vec::new();
                let mut i: usize = 0;
                while i < pairs.len()
                    invariant
                        i <= pairs.len(),
                        out.len() == i,
                        forall|j: int| 0 <= j < i ==> out[j].0@ == pairs[j].0@ && out[j].1@ == pairs[j].1@,
                    decreases pairs.len() - i,
                {
                    out.push((pairs[i].0.duplicate(), pairs[i].1.duplicate()));
                    i += 1;
                }
                let copy = Content::Mapping(out);
                assert(copy@->Mapping_0 =~= self@->Mapping_0);
                copy
            },
            Content::Struct(name, fields) => {
                let mut out: Vec<(&'static str, Content)> = Vec::new();
                let mut i: usize = 0;
                while i < fields.len()
                    invariant
                        i <= fields.len(),
                        out.len() == i,
                        forall|j: int| 0 <= j < i ==> out[j].0@ == fields[j].0@ && out[j].1@ == fields[j].1@,
                    decreases fields.len() - i,
                {
                    out.push((fields[i].0, fields[i].1.duplicate()));
                    i += 1;
                }
                let copy = Content::Struct(*name, out);
                assert(copy@->Struct_1 =~= self@->Struct_1);
                copy
            },
        }
    }
}

impl<'a> From<&'a str> for Content {
    /// A string scalar with the given text.
    fn from(text: &'a str) -> (content: Content)
        ensures
            content@ == Tree::String(text@),
    {
        Content::String(text.to_owned())
    }
}

/// A string is known by its characters alone, so no single tree stands for
/// the result of the conversion: `from` states the result's value itself.
impl<'a> vstd::std_specs::convert::FromSpecImpl<&'a str> for Content {
    open spec fn obeys_from_spec() -> bool {
        false
    }

    open spec fn from_spec(text: &'a str) -> Content {
        Content::Null
    }
}

impl From<bool> for Content {
    /// A boolean scalar.
    fn from(value: bool) -> (content: Content) {
        Content::Bool(value)
    }
}

impl vstd::std_specs::convert::FromSpecImpl<bool> for Content {
    open spec fn obeys_from_spec() -> bool {
        true
    }

    open spec fn from_spec(value: bool) -> Content {
        Content::Bool(value)
    }
}

impl From<u64> for Content {
    /// An unsigned number.
    fn from(value: u64) -> (content: Content) {
        Content::U64(value)
    }
}

impl vstd::std_specs::convert::FromSpecImpl<u64> for Content {
    open spec fn obeys_from_spec() -> bool {
        true
    }

    open spec fn from_spec(value: u64) -> Content {
        Content::U64(value)
    }
}

impl From<i64> for Content {
    /// A signed number.
    fn from(value: i64) -> (content: Content) {
        Content::I64(value)
    }
}

impl vstd::std_specs::convert::FromSpecImpl<i64> for Content {
    open spec fn obeys_from_spec() -> bool {
        true
    }

    open spec fn from_spec(value: i64) -> Content {
        Content::I64(value)
    }
}

} // verus!
