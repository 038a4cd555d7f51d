use crate::content::{fields_view, items_view, lemma_view_children, pairs_view, Content, Tree};
use crate::text::{chars_of, code_of};
use vstd::prelude::*;

verus! {

/// The code points of a text.
pub open spec fn text_codes(s: Seq<char>) -> Seq<int> {
    Seq::new(s.len(), |i: int| s[i] as int)
}

/// The values of a byte sequence.
pub open spec fn byte_codes(b: Seq<u8>) -> Seq<int> {
    Seq::new(b.len(), |i: int| b[i] as int)
}

/// Lexicographic `a <= b`, looking only at positions `i` and after.
pub open spec fn lex_le_from(a: Seq<int>, b: Seq<int>, i: int) -> bool
    decreases a.len() - i,
{
    if i < 0 || i >= a.len() {
        true
    } else if i >= b.len() {
        false
    } else if a[i] != b[i] {
        a[i] < b[i]
    } else {
        lex_le_from(a, b, i + 1)
    }
}

/// Lexicographic `a <= b`: at the first position where the two differ `a`
/// holds the smaller number, or `a` is a prefix of `b`.
pub open spec fn lex_le(a: Seq<int>, b: Seq<int>) -> bool {
    lex_le_from(a, b, 0)
}

/// The class of a key. Keys of a lower class come before keys of a higher
/// one: null, booleans, numbers, strings, byte strings, then everything else.
pub open spec fn key_class(t: Tree) -> int {
    match t {
        Tree::Null => 0,
        Tree::Bool(_) => 1,
        Tree::U64(_) => 2,
        Tree::I64(_) => 2,
        Tree::String(_) => 3,
        Tree::Bytes(_) => 4,
        _ => 5,
    }
}

/// What keys of one class are ordered by: the truth value of a boolean
/// (`false` first), the value of a number, the code points of a string, the
/// bytes of a byte string. All other keys count as equal.
pub open spec fn key_rank(t: Tree) -> Seq<int> {
    match t {
        Tree::Bool(b) => seq![if b { 1int } else { 0int }],
        Tree::U64(n) => seq![n as int],
        Tree::I64(n) => seq![n as int],
        Tree::String(s) => text_codes(s),
        Tree::Bytes(b) => byte_codes(b),
        _ => Seq::empty(),
    }
}

/// The total preorder by which the pairs of a map are sorted: `a` may stand
/// before `b`.
pub open spec fn key_le(a: Tree, b: Tree) -> bool {
    if key_class(a) != key_class(b) {
        key_class(a) < key_class(b)
    } else {
        lex_le(key_rank(a), key_rank(b))
    }
}

/// Every sequence is lexicographically at most itself.
pub proof fn lemma_lex_reflexive(a: Seq<int>, i: int)
    ensures
        lex_le_from(a, a, i),
    decreases a.len() - i,
{
    if 0 <= i < a.len() {
        lemma_lex_reflexive(a, i + 1);
    }
}

/// Of two sequences, one is lexicographically at most the other.
pub proof fn lemma_lex_total(a: Seq<int>, b: Seq<int>, i: int)
    ensures
        lex_le_from(a, b, i) || lex_le_from(b, a, i),
    decreases a.len() - i,
{
    if 0 <= i < a.len() && i < b.len() && a[i] == b[i] {
        lemma_lex_total(a, b, i + 1);
    }
}

/// The lexicographic order is transitive.
pub proof fn lemma_lex_transitive(a: Seq<int>, b: Seq<int>, c: Seq<int>, i: int)
    requires
        lex_le_from(a, b, i),
        lex_le_from(b, c, i),
    ensures
        lex_le_from(a, c, i),
    decreases a.len() - i,
{
    if 0 <= i < a.len() && i < b.len() && i < c.len() && a[i] == b[i] && b[i] == c[i] {
        lemma_lex_transitive(a, b, c, i + 1);
    }
}

/// Every key may stand before itself.
pub proof fn lemma_key_le_reflexive(a: Tree)
    ensures
        key_le(a, a),
{
    lemma_lex_reflexive(key_rank(a), 0);
}

/// Of two keys, one may stand before the other.
pub proof fn lemma_key_le_total(a: Tree, b: Tree)
    ensures
        key_le(a, b) || key_le(b, a),
{
    lemma_lex_total(key_rank(a), key_rank(b), 0);
}

/// If `a` may stand before `b` and `b` before `c`, then `a` may stand
/// before `c`.
pub proof fn lemma_key_le_transitive(a: Tree, b: Tree, c: Tree)
    requires
        key_le(a, b),
        key_le(b, c),
    ensures
        key_le(a, c),
{
    if key_class(a) == key_class(b) && key_class(b) == key_class(c) {
        lemma_lex_transitive(key_rank(a), key_rank(b), key_rank(c), 0);
    }
}

/// Where a pair with key `key` goes into `pairs`: behind the last pair whose
/// key may stand before `key`.
pub open spec fn insert_position(pairs: Seq<(Tree, Tree)>, key: Tree) -> int
    decreases pairs.len(),
{
    if pairs.len() == 0 {
        0
    } else if key_le(pairs.last().0, key) {
        pairs.len() as int
    } else {
        insert_position(pairs.drop_last(), key)
    }
}

/// `pairs` with `pair` put in at its position.
pub open spec fn insert_pair(pairs: Seq<(Tree, Tree)>, pair: (Tree, Tree)) -> Seq<(Tree, Tree)> {
    pairs.insert(insert_position(pairs, pair.0), pair)
}

/// The pairs of a map sorted by key. Pairs whose keys count as equal keep
/// the order in which they stood.
pub open spec fn sort_pairs(pairs: Seq<(Tree, Tree)>) -> Seq<(Tree, Tree)>
    decreases pairs.len(),
{
    if pairs.len() == 0 {
        Seq::empty()
    } else {
        insert_pair(sort_pairs(pairs.drop_last()), pairs.last())
    }
}

/// Each pair's key may stand before the keys of all pairs behind it.
pub open spec fn pairs_ordered(pairs: Seq<(Tree, Tree)>) -> bool {
    forall|i: int, j: int| 0 <= i < j < pairs.len() ==> key_le(#[trigger] pairs[i].0, #[trigger] pairs[j].0)
}

/// The insert position lies within the pairs; the pair in front of it, if
/// there is one, may stand before `key`, and no pair behind it may.
pub proof fn lemma_insert_position(pairs: Seq<(Tree, Tree)>, key: Tree)
    ensures
        0 <= insert_position(pairs, key) <= pairs.len(),
        forall|j: int|
            insert_position(pairs, key) <= j < pairs.len() ==> !key_le(#[trigger] pairs[j].0, key),
        insert_position(pairs, key) > 0 ==> key_le(pairs[insert_position(pairs, key) - 1].0, key),
    decreases pairs.len(),
{
    if pairs.len() > 0 && !key_le(pairs.last().0, key) {
        let front = pairs.drop_last();
        lemma_insert_position(front, key);
        assert forall|j: int| insert_position(pairs, key) <= j < pairs.len() implies !key_le(
            #[trigger] pairs[j].0,
            key,
        ) by {
            if j < front.len() {
                assert(pairs[j] == front[j]);
            }
        }
        if insert_position(pairs, key) > 0 {
            assert(pairs[insert_position(pairs, key) - 1] == front[insert_position(front, key) - 1]);
        }
    }
}

/// Putting a pair into ordered pairs leaves them ordered.
pub proof fn lemma_insert_pair_ordered(pairs: Seq<(Tree, Tree)>, pair: (Tree, Tree))
    requires
        pairs_ordered(pairs),
    ensures
        pairs_ordered(insert_pair(pairs, pair)),
{
    let p = insert_position(pairs, pair.0);
    let out = insert_pair(pairs, pair);
    lemma_insert_position(pairs, pair.0);
    assert forall|i: int, j: int| 0 <= i < j < out.len() implies key_le(
        #[trigger] out[i].0,
        #[trigger] out[j].0,
    ) by {
        if j == p {
            // out[i] stands before the position: it may stand before pairs[p - 1].
            assert(out[i] == pairs[i]);
            if i < p - 1 {
                assert(key_le(pairs[i].0, pairs[p - 1].0));
            } else {
                lemma_key_le_reflexive(pairs[i].0);
            }
            lemma_key_le_transitive(pairs[i].0, pairs[p - 1].0, pair.0);
        } else if i == p {
            assert(out[j] == pairs[j - 1]);
            assert(!key_le(pairs[p].0, pair.0));
            lemma_key_le_total(pairs[p].0, pair.0);
            if j - 1 > p {
                assert(key_le(pairs[p].0, pairs[j - 1].0));
            } else {
                lemma_key_le_reflexive(pairs[p].0);
            }
            lemma_key_le_transitive(pair.0, pairs[p].0, pairs[j - 1].0);
        } else {
            let a = if i < p { i } else { i - 1 };
            let b = if j < p { j } else { j - 1 };
            assert(out[i] == pairs[a]);
            assert(out[j] == pairs[b]);
            assert(key_le(pairs[a].0, pairs[b].0));
        }
    }
}

/// Sorted pairs are ordered.
pub proof fn lemma_sort_pairs_ordered(pairs: Seq<(Tree, Tree)>)
    ensures
        pairs_ordered(sort_pairs(pairs)),
        sort_pairs(pairs).len() == pairs.len(),
    decreases pairs.len(),
{
    if pairs.len() > 0 {
        lemma_sort_pairs_ordered(pairs.drop_last());
        lemma_insert_position(sort_pairs(pairs.drop_last()), pairs.last().0);
        lemma_insert_pair_ordered(sort_pairs(pairs.drop_last()), pairs.last());
    }
}

/// Sorting ordered pairs changes nothing.
pub proof fn lemma_sort_pairs_of_ordered(pairs: Seq<(Tree, Tree)>)
    requires
        pairs_ordered(pairs),
    ensures
        sort_pairs(pairs) == pairs,
    decreases pairs.len(),
{
    if pairs.len() > 0 {
        let front = pairs.drop_last();
        assert forall|i: int, j: int| 0 <= i < j < front.len() implies key_le(
            #[trigger] front[i].0,
            #[trigger] front[j].0,
        ) by {
            assert(front[i] == pairs[i] && front[j] == pairs[j]);
        }
        lemma_sort_pairs_of_ordered(front);
        if front.len() > 0 {
            assert(front.last() == pairs[front.len() - 1]);
            assert(key_le(pairs[front.len() - 1].0, pairs[pairs.len() - 1].0));
        }
        assert(insert_position(front, pairs.last().0) == front.len());
        assert(front.insert(front.len() as int, pairs.last()) =~= pairs);
    } else {
        assert(pairs =~= Seq::empty());
    }
}

/// Sorting neither adds nor loses a pair.
pub proof fn lemma_sort_pairs_permutes(pairs: Seq<(Tree, Tree)>)
    ensures
        sort_pairs(pairs).to_multiset() == pairs.to_multiset(),
    decreases pairs.len(),
{
    broadcast use vstd::seq_lib::group_to_multiset_ensures;

    if pairs.len() > 0 {
        let front = pairs.drop_last();
        let sorted = sort_pairs(front);
        let p = insert_position(sorted, pairs.last().0);
        lemma_sort_pairs_permutes(front);
        lemma_insert_position(sorted, pairs.last().0);
        vstd::seq_lib::to_multiset_insert(sorted, p, pairs.last());
        assert(pairs == front.push(pairs.last()));
    } else {
        assert(sort_pairs(pairs) =~= pairs);
    }
}

/// Two keys count as equal: each may stand before the other.
pub open spec fn key_eq(a: Tree, b: Tree) -> bool {
    key_le(a, b) && key_le(b, a)
}

/// The pairs whose keys count as equal to `key`, in the order in which
/// they stand.
pub open spec fn pairs_with_key(pairs: Seq<(Tree, Tree)>, key: Tree) -> Seq<(Tree, Tree)> {
    pairs.filter(has_key(key))
}

/// The test for pairs whose key counts as equal to `key`.
pub open spec fn has_key(key: Tree) -> spec_fn((Tree, Tree)) -> bool {
    |pair: (Tree, Tree)| key_eq(pair.0, key)
}

/// Sorting is stable: pairs whose keys count as equal stand in the sorted
/// pairs in the order in which they stood before.
pub proof fn lemma_sort_pairs_stable(pairs: Seq<(Tree, Tree)>, key: Tree)
    ensures
        pairs_with_key(sort_pairs(pairs), key) == pairs_with_key(pairs, key),
    decreases pairs.len(),
{
    let pred = has_key(key);
    if pairs.len() == 0 {
        assert(sort_pairs(pairs) =~= pairs);
    } else {
        let front = pairs.drop_last();
        let last = pairs.last();
        let sorted = sort_pairs(front);
        let at = insert_position(sorted, last.0);
        let head = sorted.take(at);
        let tail = sorted.skip(at);
        lemma_sort_pairs_stable(front, key);
        lemma_insert_position(sorted, last.0);
        assert(sorted =~= head + tail);
        assert(sorted.insert(at, last) =~= (head + seq![last]) + tail);
        assert(pairs =~= front + seq![last]);
        Seq::filter_distributes_over_add(head, tail, pred);
        Seq::filter_distributes_over_add(head, seq![last], pred);
        Seq::filter_distributes_over_add(head + seq![last], tail, pred);
        Seq::filter_distributes_over_add(front, seq![last], pred);
        assert(seq![last].filter(pred) =~= if pred(last) {
            seq![last]
        } else {
            Seq::empty()
        }) by {
            reveal_with_fuel(Seq::filter, 2);
            assert(seq![last].drop_last() =~= Seq::empty());
        }
        if key_eq(last.0, key) {
            // Behind the position stand only keys greater than `last`'s,
            // so none that counts as equal to `key`.
            assert forall|i: int| 0 <= i < tail.len() implies !pred(#[trigger] tail[i]) by {
                assert(tail[i] == sorted[at + i]);
                assert(!key_le(sorted[at + i].0, last.0));
                if key_eq(tail[i].0, key) {
                    lemma_key_le_transitive(tail[i].0, key, last.0);
                }
            }
            tail.lemma_all_neg_filter_empty(pred);
            assert(tail.filter(pred) =~= Seq::empty());
        }
        assert(pairs_with_key(sort_pairs(pairs), key) =~= pairs_with_key(pairs, key));
    }
}

/// Every pair of sorted pairs is one of the pairs that were sorted.
pub proof fn lemma_sort_pairs_members(pairs: Seq<(Tree, Tree)>, i: int)
    requires
        0 <= i < sort_pairs(pairs).len(),
    ensures
        pairs.contains(sort_pairs(pairs)[i]),
{
    broadcast use vstd::seq_lib::group_to_multiset_ensures;

    let pair = sort_pairs(pairs)[i];
    lemma_sort_pairs_permutes(pairs);
    assert(sort_pairs(pairs).contains(pair));
    vstd::seq_lib::to_multiset_contains(sort_pairs(pairs), pair);
    vstd::seq_lib::to_multiset_contains(pairs, pair);
}

/// The tree with the pairs of every map node sorted by key, at every depth.
/// Pairs whose keys count as equal keep the order in which they stood.
pub open spec fn sorted_tree(t: Tree) -> Tree
    decreases t,
{
    match t {
        Tree::Sequence(items) => Tree::Sequence(sorted_items(items)),
        Tree::Mapping(pairs) => Tree::Mapping(sort_pairs(sorted_children(pairs))),
        Tree::Struct(name, fields) => Tree::Struct(name, sorted_fields(fields)),
        _ => t,
    }
}

/// The items of a sequence node, each sorted within.
pub open spec fn sorted_items(items: Seq<Tree>) -> Seq<Tree>
    decreases items,
{
    Seq::new(
        items.len(),
        |i: int|
            if 0 <= i < items.len() {
                sorted_tree(items[i])
            } else {
                Tree::Null
            },
    )
}

/// The pairs of a map node in the order in which they stand, each key and
/// each value sorted within.
pub open spec fn sorted_children(pairs: Seq<(Tree, Tree)>) -> Seq<(Tree, Tree)>
    decreases pairs,
{
    Seq::new(
        pairs.len(),
        |i: int|
            if 0 <= i < pairs.len() {
                (sorted_tree(pairs[i].0), sorted_tree(pairs[i].1))
            } else {
                (Tree::Null, Tree::Null)
            },
    )
}

/// The fields of a struct node in the order in which they stand, each value
/// sorted within.
pub open spec fn sorted_fields(fields: Seq<(Seq<char>, Tree)>) -> Seq<(Seq<char>, Tree)>
    decreases fields,
{
    Seq::new(
        fields.len(),
        |i: int|
            if 0 <= i < fields.len() {
                (fields[i].0, sorted_tree(fields[i].1))
            } else {
                (Seq::empty(), Tree::Null)
            },
    )
}

/// Every map node of the tree, at every depth, has its pairs ordered by key.
pub open spec fn maps_ordered(t: Tree) -> bool
    decreases t,
{
    match t {
        Tree::Sequence(items) => forall|i: int|
            0 <= i < items.len() ==> maps_ordered(#[trigger] items[i]),
        Tree::Mapping(pairs) => pairs_ordered(pairs) && forall|i: int|
            0 <= i < pairs.len() ==> maps_ordered((#[trigger] pairs[i]).0) && maps_ordered(
                pairs[i].1,
            ),
        Tree::Struct(_, fields) => forall|i: int|
            0 <= i < fields.len() ==> maps_ordered((#[trigger] fields[i]).1),
        _ => true,
    }
}

/// After sorting, every map node at every depth has its pairs ordered.
pub proof fn lemma_sorted_tree_ordered(t: Tree)
    ensures
        maps_ordered(sorted_tree(t)),
    decreases t,
{
    match t {
        Tree::Sequence(items) => {
            let out = sorted_tree(t)->Sequence_0;
            assert forall|i: int| 0 <= i < out.len() implies maps_ordered(#[trigger] out[i]) by {
                lemma_sorted_tree_ordered(items[i]);
            }
        },
        Tree::Mapping(pairs) => {
            let children = sorted_children(pairs);
            let out = sort_pairs(children);
            assert(sorted_tree(t) == Tree::Mapping(out));
            lemma_sort_pairs_ordered(children);
            assert forall|i: int| 0 <= i < out.len() implies maps_ordered((#[trigger] out[i]).0)
                && maps_ordered(out[i].1) by {
                lemma_sort_pairs_members(children, i);
                let j = choose|j: int| 0 <= j < children.len() && children[j] == out[i];
                lemma_sorted_tree_ordered(pairs[j].0);
                lemma_sorted_tree_ordered(pairs[j].1);
            }
        },
        Tree::Struct(_, fields) => {
            let out = sorted_tree(t)->Struct_1;
            assert forall|i: int| 0 <= i < out.len() implies maps_ordered((#[trigger] out[i]).1) by {
                lemma_sorted_tree_ordered(fields[i].1);
            }
        },
        _ => {},
    }
}

/// Sorting a tree whose map nodes are all ordered changes nothing.
pub proof fn lemma_sorted_tree_of_ordered(t: Tree)
    requires
        maps_ordered(t),
    ensures
        sorted_tree(t) == t,
    decreases t,
{
    match t {
        Tree::Sequence(items) => {
            let out = sorted_tree(t)->Sequence_0;
            assert forall|i: int| 0 <= i < out.len() implies out[i] == items[i] by {
                lemma_sorted_tree_of_ordered(items[i]);
            }
            assert(out =~= items);
        },
        Tree::Mapping(pairs) => {
            let children = sorted_children(pairs);
            assert(sorted_tree(t) == Tree::Mapping(sort_pairs(children)));
            assert forall|i: int| 0 <= i < children.len() implies children[i] == pairs[i] by {
                assert(maps_ordered(pairs[i].0) && maps_ordered(pairs[i].1));
                lemma_sorted_tree_of_ordered(pairs[i].0);
                lemma_sorted_tree_of_ordered(pairs[i].1);
            }
            assert(children =~= pairs);
            lemma_sort_pairs_of_ordered(pairs);
        },
        Tree::Struct(_, fields) => {
            let out = sorted_tree(t)->Struct_1;
            assert forall|i: int| 0 <= i < out.len() implies out[i] == fields[i] by {
                assert(maps_ordered(fields[i].1));
                lemma_sorted_tree_of_ordered(fields[i].1);
            }
            assert(out =~= fields);
        },
        _ => {},
    }
}

/// Sorting is idempotent: sorting a sorted tree gives the same tree, at
/// every depth.
pub proof fn lemma_sort_idempotent(t: Tree)
    ensures
        sorted_tree(sorted_tree(t)) == sorted_tree(t),
{
    lemma_sorted_tree_ordered(t);
    lemma_sorted_tree_of_ordered(sorted_tree(t));
}

/// Lexicographic order of sequences of one number each.
pub proof fn lemma_lex_single(x: int, y: int)
    ensures
        lex_le(seq![x], seq![y]) == (x <= y),
{
    reveal_with_fuel(lex_le_from, 3);
}

/// Whether the text `a` may stand before the text `b`.
fn text_before(a: &Vec<char>, b: &Vec<char>) -> (r: bool)
    ensures
        r == lex_le(text_codes(a@), text_codes(b@)),
{
    let mut i: usize = 0;
    while i < a.len()
        invariant
            i <= a.len(),
            lex_le(text_codes(a@), text_codes(b@)) == lex_le_from(
                text_codes(a@),
                text_codes(b@),
                i as int,
            ),
        decreases a.len() - i,
    {
        proof {
            assert(text_codes(a@).len() == a.len() && text_codes(b@).len() == b.len());
        }
        if i >= b.len() {
            return false;
        }
        let x: u32 = code_of(a[i]);
        let y: u32 = code_of(b[i]);
        proof {
            assert(text_codes(a@)[i as int] == x as int);
            assert(text_codes(b@)[i as int] == y as int);
        }
        if x != y {
            return x < y;
        }
        i += 1;
    }
    true
}

/// Whether the byte string `a` may stand before the byte string `b`.
fn bytes_before(a: &Vec<u8>, b: &Vec<u8>) -> (r: bool)
    ensures
        r == lex_le(byte_codes(a@), byte_codes(b@)),
{
    let mut i: usize = 0;
    while i < a.len()
        invariant
            i <= a.len(),
            lex_le(byte_codes(a@), byte_codes(b@)) == lex_le_from(
                byte_codes(a@),
                byte_codes(b@),
                i as int,
            ),
        decreases a.len() - i,
    {
        proof {
            assert(byte_codes(a@).len() == a.len() && byte_codes(b@).len() == b.len());
        }
        if i >= b.len() {
            return false;
        }
        proof {
            assert(byte_codes(a@)[i as int] == a[i as int] as int);
            assert(byte_codes(b@)[i as int] == b[i as int] as int);
        }
        if a[i] != b[i] {
            return a[i] < b[i];
        }
        i += 1;
    }
    true
}

/// The class of a key, as [`key_class`] gives it.
fn class_of(c: &Content) -> (class: u8)
    ensures
        class == key_class(c@),
{
    match c {
        Content::Null => 0,
        Content::Bool(_) => 1,
        Content::U64(_) => 2,
        Content::I64(_) => 2,
        Content::String(_) => 3,
        Content::Bytes(_) => 4,
        _ => 5,
    }
}

impl Content {
    /// Whether this key may stand before `other` in a sorted map.
    pub fn key_before(&self, other: &Content) -> (r: bool)
        ensures
            r == key_le(self@, other@),
    {
        let a: u8 = class_of(self);
        let b: u8 = class_of(other);
        if a != b {
            return a < b;
        }
        match (self, other) {
            (Content::Bool(x), Content::Bool(y)) => {
                proof {
                    lemma_lex_single(if *x { 1 } else { 0 }, if *y { 1 } else { 0 });
                }
                !*x || *y
            },
            (Content::U64(x), Content::U64(y)) => {
                proof {
                    lemma_lex_single(*x as int, *y as int);
                }
                *x <= *y
            },
            (Content::I64(x), Content::I64(y)) => {
                proof {
                    lemma_lex_single(*x as int, *y as int);
                }
                *x <= *y
            },
            (Content::U64(x), Content::I64(y)) => {
                proof {
                    lemma_lex_single(*x as int, *y as int);
                }
                *y >= 0 && *x <= *y as u64
            },
            (Content::I64(x), Content::U64(y)) => {
                proof {
                    lemma_lex_single(*x as int, *y as int);
                }
                *x < 0 || *x as u64 <= *y
            },
            (Content::String(x), Content::String(y)) => {
                let xs = chars_of(x.as_str());
                let ys = chars_of(y.as_str());
                text_before(&xs, &ys)
            },
            (Content::Bytes(x), Content::Bytes(y)) => bytes_before(x, y),
            _ => {
                proof {
                    lemma_lex_reflexive(Seq::empty(), 0);
                }
                true
            },
        }
    }

    /// A copy of the tree with the pairs of every map node sorted by key, at
    /// every depth.
    #[verifier::loop_isolation(false)]
    pub fn sorted(&self) -> (out: Content)
        ensures
            out@ == sorted_tree(self@),
        decreases self,
    {
        proof {
            lemma_view_children(*self);
        }
        match self {
            Content::Sequence(items) => {
                let mut out: Vec<Content> = Vec::new();
                let mut i: usize = 0;
                while i < items.len()
                    invariant
                        i <= items.len(),
                        out.len() == i,
                        forall|j: int| 0 <= j < i ==> out[j]@ == sorted_tree(items[j]@),
                    decreases items.len() - i,
                {
                    out.push(items[i].sorted());
                    i += 1;
                }
                let out = Content::Sequence(out);
                proof {
                    lemma_view_children(out);
                    assert(out@->Sequence_0 =~= sorted_items(items_view(items@)));
                }
                out
            },
            Content::Mapping(pairs) => {
                let ghost children = sorted_children(pairs_view(pairs@));
                let mut out: Vec<(Content, Content)> = Vec::new();
                let mut i: usize = 0;
                proof {
                    assert(children.take(0) =~= Seq::empty());
                    assert(pairs_view(out@) =~= Seq::empty());
                }
                while i < pairs.len()
                    invariant
                        i <= pairs.len(),
                        pairs_view(out@) == sort_pairs(children.take(i as int)),
                    decreases pairs.len() - i,
                {
                    let key = pairs[i].0.sorted();
                    let value = pairs[i].1.sorted();
                    let at = position(&out, &key);
                    let ghost before = pairs_view(out@);
                    let ghost pair = (key@, value@);
                    proof {
                        lemma_insert_position(before, key@);
                    }
                    out.insert(at, (key, value));
                    i += 1;
                    proof {
                        assert(pairs_view(out@) =~= before.insert(at as int, pair));
                        assert(children.take(i as int).drop_last() =~= children.take(i - 1));
                        assert(children.take(i as int).last() == pair);
                    }
                }
                let out = Content::Mapping(out);
                proof {
                    lemma_view_children(out);
                    assert(children.take(pairs.len() as int) =~= children);
                }
                out
            },
            Content::Struct(name, fields) => {
                let mut out: Vec<(&'static str, Content)> = Vec::new();
                let mut i: usize = 0;
                while i < fields.len()
                    invariant
                        i <= fields.len(),
                        out.len() == i,
                        forall|j: int|
                            0 <= j < i ==> out[j].0@ == fields[j].0@ && out[j].1@ == sorted_tree(
                                fields[j].1@,
                            ),
                    decreases fields.len() - i,
                {
                    out.push((fields[i].0, fields[i].1.sorted()));
                    i += 1;
                }
                let out = Content::Struct(*name, out);
                proof {
                    lemma_view_children(out);
                    assert(out@->Struct_1 =~= sorted_fields(fields_view(fields@)));
                }
                out
            },
            _ => self.duplicate(),
        }
    }

    /// Sorts the pairs of every map node by key, at every depth. Pairs whose
    /// keys count as equal keep the order in which they stood.
    pub fn sort_maps(&mut self)
        ensures
            final(self)@ == sorted_tree(old(self)@),
    {
        let out = self.sorted();
        *self = out;
    }
}

/// Where a pair with the given key goes into sorted pairs.
fn position(pairs: &Vec<(Content, Content)>, key: &Content) -> (at: usize)
    ensures
        at == insert_position(pairs_view(pairs@), key@),
{
    let ghost all = pairs_view(pairs@);
    let mut at: usize = pairs.len();
    proof {
        assert(all.take(at as int) =~= all);
    }
    while at > 0 && !pairs[at - 1].0.key_before(key)
        invariant
            at <= pairs.len(),
            all == pairs_view(pairs@),
            insert_position(all, key@) == insert_position(all.take(at as int), key@),
        decreases at,
    {
        proof {
            assert(all.take(at as int).last() == all[at - 1]);
            assert(all.take(at as int).drop_last() =~= all.take(at - 1));
        }
        at -= 1;
    }
    proof {
        if at > 0 {
            assert(all.take(at as int).last() == all[at - 1]);
        }
    }
    at
}

} // verus!
