use crate::content::{fields_view, items_view, lemma_view_children, pairs_view, Content, Tree};
use crate::text::{chars_of, code_of, same_text, string_of};
use vstd::prelude::*;

verus! {

/// The four characters with which every YAML document starts: three dashes
/// and a line feed.
pub open spec fn document_marker() -> Seq<char> {
    seq!['-', '-', '-', '\n']
}

/// The digit character for a value below sixteen, hexadecimal digits in
/// upper case.
pub open spec fn digit(d: int) -> char {
    if d == 0 {
        '0'
    } else if d == 1 {
        '1'
    } else if d == 2 {
        '2'
    } else if d == 3 {
        '3'
    } else if d == 4 {
        '4'
    } else if d == 5 {
        '5'
    } else if d == 6 {
        '6'
    } else if d == 7 {
        '7'
    } else if d == 8 {
        '8'
    } else if d == 9 {
        '9'
    } else if d == 10 {
        'A'
    } else if d == 11 {
        'B'
    } else if d == 12 {
        'C'
    } else if d == 13 {
        'D'
    } else if d == 14 {
        'E'
    } else {
        'F'
    }
}

/// The decimal digits of a number that is not negative.
pub open spec fn digits(n: int) -> Seq<char>
    decreases n,
{
    if n < 10 {
        seq![digit(n)]
    } else {
        digits(n / 10).push(digit(n % 10))
    }
}

/// A number in decimal, with a minus sign in front where it is negative.
pub open spec fn decimal(n: int) -> Seq<char> {
    if n < 0 {
        seq!['-'] + digits(-n)
    } else {
        digits(n)
    }
}

/// Whether a code point is an ASCII letter.
pub open spec fn is_letter(code: int) -> bool {
    65 <= code <= 90 || 97 <= code <= 122
}

/// Whether a code point is an ASCII digit.
pub open spec fn is_digit(code: int) -> bool {
    48 <= code <= 57
}

/// Characters that a string may hold and still be written without quotes:
/// ASCII letters and digits, `_`, `-`, `.`, `/` and the space.
pub open spec fn plain_char(c: char) -> bool {
    let code = c as int;
    is_letter(code) || is_digit(code) || c == '_' || c == '-' || c == '.' || c == '/' || c == ' '
}

/// Characters with which a string written without quotes may start: ASCII
/// letters, `_` and `/`.
pub open spec fn plain_start(c: char) -> bool {
    is_letter(c as int) || c == '_' || c == '/'
}

/// A character with an upper-case ASCII letter replaced by its lower-case
/// form.
pub open spec fn lower(c: char) -> char {
    if c == 'N' {
        'n'
    } else if c == 'U' {
        'u'
    } else if c == 'L' {
        'l'
    } else if c == 'T' {
        't'
    } else if c == 'R' {
        'r'
    } else if c == 'E' {
        'e'
    } else if c == 'F' {
        'f'
    } else if c == 'A' {
        'a'
    } else if c == 'S' {
        's'
    } else if c == 'Y' {
        'y'
    } else if c == 'O' {
        'o'
    } else {
        c
    }
}

/// A text with the letters of the reserved words put in lower case.
pub open spec fn lowered(s: Seq<char>) -> Seq<char> {
    Seq::new(s.len(), |i: int| lower(s[i]))
}

/// Words that YAML reads as a null or a boolean, whatever the case of
/// their letters: such a string is quoted.
pub open spec fn reserved(s: Seq<char>) -> bool {
    let w = lowered(s);
    w == seq!['n', 'u', 'l', 'l'] || w == seq!['t', 'r', 'u', 'e'] || w == seq![
        'f',
        'a',
        'l',
        's',
        'e',
    ] || w == seq!['y', 'e', 's'] || w == seq!['n', 'o'] || w == seq!['o', 'n'] || w == seq![
        'o',
        'f',
        'f',
    ]
}

/// Whether a string is written as it is, without quotes: it is not empty,
/// starts with a letter, `_` or `/`, holds only letters, digits, `_`, `-`,
/// `.`, `/` and spaces, does not end in a space, and is not a reserved word.
pub open spec fn plain(s: Seq<char>) -> bool {
    &&& s.len() > 0
    &&& plain_start(s[0])
    &&& forall|i: int| 0 <= i < s.len() ==> plain_char(#[trigger] s[i])
    &&& s.last() != ' '
    &&& !reserved(s)
}

/// How one character stands between double quotes: the quote and the
/// backslash behind a backslash, line feed, carriage return and tab as
/// `\n`, `\r` and `\t`, other control characters as `\x` and two
/// hexadecimal digits, every other character as itself.
pub open spec fn escaped_char(c: char) -> Seq<char> {
    let code = c as int;
    if c == '"' {
        seq!['\\', '"']
    } else if c == '\\' {
        seq!['\\', '\\']
    } else if c == '\n' {
        seq!['\\', 'n']
    } else if c == '\r' {
        seq!['\\', 'r']
    } else if c == '\t' {
        seq!['\\', 't']
    } else if code < 32 || code == 127 {
        seq!['\\', 'x', digit(code / 16), digit(code % 16)]
    } else {
        seq![c]
    }
}

/// The first `n` characters of a string, each as it stands between quotes.
pub open spec fn escaped(s: Seq<char>, n: int) -> Seq<char>
    decreases n,
{
    if n <= 0 || n > s.len() {
        Seq::empty()
    } else {
        escaped(s, n - 1) + escaped_char(s[n - 1])
    }
}

/// A string scalar: as it is where it is [`plain`], else between double
/// quotes with its characters escaped.
pub open spec fn yaml_string(s: Seq<char>) -> Seq<char> {
    if plain(s) {
        s
    } else {
        seq!['"'] + escaped(s, s.len() as int) + seq!['"']
    }
}

/// The indentation one level deeper than `pad`: two more spaces.
pub open spec fn deeper(pad: Seq<char>) -> Seq<char> {
    pad + seq![' ', ' ']
}

/// Nodes that are written over several lines: sequences, maps, structs and
/// byte strings that are not empty.
pub open spec fn is_block(t: Tree) -> bool {
    match t {
        Tree::Sequence(items) => items.len() > 0,
        Tree::Mapping(pairs) => pairs.len() > 0,
        Tree::Struct(_, fields) => fields.len() > 0,
        Tree::Bytes(bytes) => bytes.len() > 0,
        _ => false,
    }
}

/// Keys that are written in the explicit form, behind a question mark:
/// sequences, maps, structs and byte strings.
pub open spec fn is_complex_key(t: Tree) -> bool {
    t is Sequence || t is Mapping || t is Struct || t is Bytes
}

/// What starts every line of a block but the first: a line feed and the
/// block's indentation.
pub open spec fn line_break(pad: Seq<char>) -> Seq<char> {
    seq!['\n'] + pad
}

/// A node in block style. `pad` is the indentation of the lines of the
/// node's own items, pairs or fields.
pub open spec fn yaml_node(t: Tree, pad: Seq<char>) -> Seq<char>
    decreases t, 0nat,
{
    match t {
        Tree::Null => seq!['~'],
        Tree::Bool(b) => if b {
            seq!['t', 'r', 'u', 'e']
        } else {
            seq!['f', 'a', 'l', 's', 'e']
        },
        Tree::U64(n) => decimal(n as int),
        Tree::I64(n) => decimal(n as int),
        Tree::String(s) => yaml_string(s),
        Tree::Bytes(bytes) => if bytes.len() == 0 {
            seq!['[', ']']
        } else {
            yaml_bytes(bytes, pad, bytes.len() as int)
        },
        Tree::Sequence(items) => if items.len() == 0 {
            seq!['[', ']']
        } else {
            yaml_items(items, pad, items.len() as int)
        },
        Tree::Mapping(pairs) => if pairs.len() == 0 {
            seq!['{', '}']
        } else {
            yaml_pairs(pairs, pad, pairs.len() as int)
        },
        Tree::Struct(_, fields) => if fields.len() == 0 {
            seq!['{', '}']
        } else {
            yaml_fields(fields, pad, fields.len() as int)
        },
    }
}

/// A node behind a dash, a colon or a question mark. A block goes one
/// level deeper: on the same line where `inline` holds, else on a line of
/// its own. Anything else follows behind one space.
pub open spec fn yaml_value(t: Tree, pad: Seq<char>, inline: bool) -> Seq<char>
    decreases t, 1nat,
{
    if is_block(t) {
        (if inline {
            seq![' ']
        } else {
            line_break(deeper(pad))
        }) + yaml_node(t, deeper(pad))
    } else {
        seq![' '] + yaml_node(t, pad)
    }
}

/// The first `n` bytes of a byte string, one line each: a dash and the
/// byte in decimal.
pub open spec fn yaml_bytes(bytes: Seq<u8>, pad: Seq<char>, n: int) -> Seq<char>
    decreases n,
{
    if n <= 0 || n > bytes.len() {
        Seq::empty()
    } else {
        yaml_bytes(bytes, pad, n - 1) + (if n > 1 {
            line_break(pad)
        } else {
            Seq::empty()
        }) + seq!['-', ' '] + decimal(bytes[n - 1] as int)
    }
}

/// The first `n` items of a sequence, one line each: a dash and the item.
pub open spec fn yaml_items(items: Seq<Tree>, pad: Seq<char>, n: int) -> Seq<char>
    decreases items, n,
{
    if n <= 0 || n > items.len() {
        Seq::empty()
    } else {
        yaml_items(items, pad, n - 1) + (if n > 1 {
            line_break(pad)
        } else {
            Seq::empty()
        }) + seq!['-'] + yaml_value(items[n - 1], pad, true)
    }
}

/// One pair of a map: the key, a colon and the value; for a key that is
/// itself a sequence, map, struct or byte string, a question mark and the
/// key, then on a line of its own the colon and the value.
pub open spec fn yaml_pair(pair: (Tree, Tree), pad: Seq<char>) -> Seq<char>
    decreases pair, 2nat,
{
    if is_complex_key(pair.0) {
        seq!['?'] + yaml_value(pair.0, pad, true) + line_break(pad) + seq![':'] + yaml_value(
            pair.1,
            pad,
            true,
        )
    } else {
        yaml_node(pair.0, pad) + seq![':'] + yaml_value(pair.1, pad, false)
    }
}

/// The first `n` pairs of a map, one after the other.
pub open spec fn yaml_pairs(pairs: Seq<(Tree, Tree)>, pad: Seq<char>, n: int) -> Seq<char>
    decreases pairs, n,
{
    if n <= 0 || n > pairs.len() {
        Seq::empty()
    } else {
        yaml_pairs(pairs, pad, n - 1) + (if n > 1 {
            line_break(pad)
        } else {
            Seq::empty()
        }) + yaml_pair(pairs[n - 1], pad)
    }
}

/// The first `n` fields of a struct, one after the other: the name as a
/// string scalar, a colon and the value.
pub open spec fn yaml_fields(fields: Seq<(Seq<char>, Tree)>, pad: Seq<char>, n: int) -> Seq<char>
    decreases fields, n,
{
    if n <= 0 || n > fields.len() {
        Seq::empty()
    } else {
        yaml_fields(fields, pad, n - 1) + (if n > 1 {
            line_break(pad)
        } else {
            Seq::empty()
        }) + yaml_string(fields[n - 1].0) + seq![':'] + yaml_value(fields[n - 1].1, pad, false)
    }
}

/// The YAML document of a tree: the document marker, the tree in block
/// style, and a closing line feed.
pub open spec fn yaml_text(t: Tree) -> Seq<char> {
    document_marker() + yaml_node(t, Seq::empty()) + seq!['\n']
}

/// The character of a digit below sixteen.
fn digit_char(d: u8) -> (c: char)
    requires
        d < 16,
    ensures
        c == digit(d as int),
{
    if d == 0 {
        '0'
    } else if d == 1 {
        '1'
    } else if d == 2 {
        '2'
    } else if d == 3 {
        '3'
    } else if d == 4 {
        '4'
    } else if d == 5 {
        '5'
    } else if d == 6 {
        '6'
    } else if d == 7 {
        '7'
    } else if d == 8 {
        '8'
    } else if d == 9 {
        '9'
    } else if d == 10 {
        'A'
    } else if d == 11 {
        'B'
    } else if d == 12 {
        'C'
    } else if d == 13 {
        'D'
    } else if d == 14 {
        'E'
    } else {
        'F'
    }
}

/// Appends the characters of `chars` to `out`.
fn push_all(out: &mut Vec<char>, chars: &Vec<char>)
    ensures
        final(out)@ == old(out)@ + chars@,
{
    let mut i: usize = 0;
    while i < chars.len()
        invariant
            i <= chars.len(),
            out@ == old(out)@ + chars@.take(i as int),
        decreases chars.len() - i,
    {
        out.push(chars[i]);
        i += 1;
        assert(chars@.take(i as int) =~= chars@.take(i - 1).push(chars@[i - 1]));
    }
    assert(chars@.take(chars.len() as int) =~= chars@);
}

/// Appends the decimal digits of `n`.
fn push_digits(out: &mut Vec<char>, n: u64)
    ensures
        final(out)@ == old(out)@ + digits(n as int),
    decreases n,
{
    if n >= 10 {
        push_digits(out, n / 10);
    }
    let d: u8 = (n % 10) as u8;
    out.push(digit_char(d));
    assert(out@ =~= old(out)@ + digits(n as int));
}

/// Appends an unsigned number in decimal.
fn push_unsigned(out: &mut Vec<char>, n: u64)
    ensures
        final(out)@ == old(out)@ + decimal(n as int),
{
    push_digits(out, n);
}

/// Appends a signed number in decimal.
fn push_signed(out: &mut Vec<char>, n: i64)
    ensures
        final(out)@ == old(out)@ + decimal(n as int),
{
    if n < 0 {
        out.push('-');
        let magnitude: u64 = if n == i64::MIN {
            9223372036854775808u64
        } else {
            (-n) as u64
        };
        push_digits(out, magnitude);
        assert(out@ =~= old(out)@ + decimal(n as int));
    } else {
        push_digits(out, n as u64);
    }
}

/// The lower-case form of a letter of the reserved words.
fn lower_char(c: char) -> (l: char)
    ensures
        l == lower(c),
{
    if c == 'N' {
        'n'
    } else if c == 'U' {
        'u'
    } else if c == 'L' {
        'l'
    } else if c == 'T' {
        't'
    } else if c == 'R' {
        'r'
    } else if c == 'E' {
        'e'
    } else if c == 'F' {
        'f'
    } else if c == 'A' {
        'a'
    } else if c == 'S' {
        's'
    } else if c == 'Y' {
        'y'
    } else if c == 'O' {
        'o'
    } else {
        c
    }
}

/// Whether a string is one of the reserved words.
fn is_reserved(s: &Vec<char>) -> (r: bool)
    ensures
        r == reserved(s@),
{
    let mut w: Vec<char> = Vec::new();
    let mut i: usize = 0;
    while i < s.len()
        invariant
            i <= s.len(),
            w.len() == i,
            forall|j: int| 0 <= j < i ==> w[j] == lower(s[j]),
        decreases s.len() - i,
    {
        w.push(lower_char(s[i]));
        i += 1;
    }
    assert(w@ =~= lowered(s@));
    let null = vec!['n', 'u', 'l', 'l'];
    let yes = vec!['y', 'e', 's'];
    let no = vec!['n', 'o'];
    let on = vec!['o', 'n'];
    let off = vec!['o', 'f', 'f'];
    let truth = vec!['t', 'r', 'u', 'e'];
    let falsehood = vec!['f', 'a', 'l', 's', 'e'];
    proof {
        assert(null@ =~= seq!['n', 'u', 'l', 'l']);
        assert(yes@ =~= seq!['y', 'e', 's']);
        assert(no@ =~= seq!['n', 'o']);
        assert(on@ =~= seq!['o', 'n']);
        assert(off@ =~= seq!['o', 'f', 'f']);
        assert(truth@ =~= seq!['t', 'r', 'u', 'e']);
        assert(falsehood@ =~= seq!['f', 'a', 'l', 's', 'e']);
    }
    same_text(&w, &null) || same_text(&w, &truth) || same_text(&w, &falsehood) || same_text(
        &w,
        &yes,
    ) || same_text(&w, &no) || same_text(&w, &on) || same_text(&w, &off)
}

/// Whether a character may stand in a string written without quotes.
fn is_plain_char(c: char) -> (r: bool)
    ensures
        r == plain_char(c),
{
    let code: u32 = code_of(c);
    (65 <= code && code <= 90) || (97 <= code && code <= 122) || (48 <= code && code <= 57) || c
        == '_' || c == '-' || c == '.' || c == '/' || c == ' '
}

/// Whether a string is written without quotes.
fn is_plain(s: &Vec<char>) -> (r: bool)
    ensures
        r == plain(s@),
{
    let n = s.len();
    if n == 0 {
        return false;
    }
    let first: u32 = code_of(s[0]);
    if !((65 <= first && first <= 90) || (97 <= first && first <= 122) || s[0] == '_' || s[0]
        == '/') {
        return false;
    }
    if s[n - 1] == ' ' {
        return false;
    }
    let mut i: usize = 0;
    while i < n
        invariant
            i <= n,
            n == s.len(),
            forall|j: int| 0 <= j < i ==> plain_char(#[trigger] s[j]),
        decreases n - i,
    {
        if !is_plain_char(s[i]) {
            return false;
        }
        i += 1;
    }
    !is_reserved(s)
}

/// Appends one character as it stands between double quotes.
fn push_escaped_char(out: &mut Vec<char>, c: char)
    ensures
        final(out)@ == old(out)@ + escaped_char(c),
{
    let code: u32 = code_of(c);
    if c == '"' {
        out.push('\\');
        out.push('"');
    } else if c == '\\' {
        out.push('\\');
        out.push('\\');
    } else if c == '\n' {
        out.push('\\');
        out.push('n');
    } else if c == '\r' {
        out.push('\\');
        out.push('r');
    } else if c == '\t' {
        out.push('\\');
        out.push('t');
    } else if code < 32 || code == 127 {
        out.push('\\');
        out.push('x');
        out.push(digit_char((code / 16) as u8));
        out.push(digit_char((code % 16) as u8));
    } else {
        out.push(c);
    }
    assert(out@ =~= old(out)@ + escaped_char(c));
}

/// Appends a string scalar.
fn push_string(out: &mut Vec<char>, s: &Vec<char>)
    ensures
        final(out)@ == old(out)@ + yaml_string(s@),
{
    if is_plain(s) {
        push_all(out, s);
    } else {
        out.push('"');
        let ghost start = out@;
        let mut i: usize = 0;
        while i < s.len()
            invariant
                i <= s.len(),
                out@ == start + escaped(s@, i as int),
            decreases s.len() - i,
        {
            push_escaped_char(out, s[i]);
            i += 1;
            assert(out@ =~= start + escaped(s@, i as int));
        }
        out.push('"');
        assert(out@ =~= old(out)@ + yaml_string(s@));
    }
}

/// Appends the line feed and indentation that start a line of a block.
fn push_line_break(out: &mut Vec<char>, pad: &Vec<char>)
    ensures
        final(out)@ == old(out)@ + line_break(pad@),
{
    out.push('\n');
    push_all(out, pad);
    assert(out@ =~= old(out)@ + line_break(pad@));
}

/// Whether a node is written over several lines.
fn block(c: &Content) -> (r: bool)
    ensures
        r == is_block(c@),
{
    proof {
        lemma_view_children(*c);
    }
    match c {
        Content::Sequence(items) => items.len() > 0,
        Content::Mapping(pairs) => pairs.len() > 0,
        Content::Struct(_, fields) => fields.len() > 0,
        Content::Bytes(bytes) => bytes.len() > 0,
        _ => false,
    }
}

/// Whether a key is written in the explicit form.
fn complex_key(c: &Content) -> (r: bool)
    ensures
        r == is_complex_key(c@),
{
    match c {
        Content::Sequence(_) => true,
        Content::Mapping(_) => true,
        Content::Struct(_, _) => true,
        Content::Bytes(_) => true,
        _ => false,
    }
}

/// Appends a node in block style.
fn emit_node(out: &mut Vec<char>, c: &Content, pad: &Vec<char>)
    ensures
        final(out)@ == old(out)@ + yaml_node(c@, pad@),
    decreases c, 0nat,
{
    proof {
        lemma_view_children(*c);
    }
    let ghost start = out@;
    match c {
        Content::Null => {
            out.push('~');
            assert(out@ =~= start + yaml_node(c@, pad@));
        },
        Content::Bool(b) => {
            if *b {
                out.push('t');
                out.push('r');
                out.push('u');
                out.push('e');
            } else {
                out.push('f');
                out.push('a');
                out.push('l');
                out.push('s');
                out.push('e');
            }
            assert(out@ =~= start + yaml_node(c@, pad@));
        },
        Content::U64(n) => {
            push_unsigned(out, *n);
        },
        Content::I64(n) => {
            push_signed(out, *n);
        },
        Content::String(s) => {
            let chars = chars_of(s.as_str());
            push_string(out, &chars);
        },
        Content::Bytes(bytes) => {
            if bytes.len() == 0 {
                out.push('[');
                out.push(']');
                assert(out@ =~= start + yaml_node(c@, pad@));
            } else {
                emit_bytes(out, bytes, pad);
            }
        },
        Content::Sequence(items) => {
            if items.len() == 0 {
                out.push('[');
                out.push(']');
                assert(out@ =~= start + yaml_node(c@, pad@));
            } else {
                emit_items(out, items, pad);
            }
        },
        Content::Mapping(pairs) => {
            if pairs.len() == 0 {
                out.push('{');
                out.push('}');
                assert(out@ =~= start + yaml_node(c@, pad@));
            } else {
                emit_pairs(out, pairs, pad);
            }
        },
        Content::Struct(_, fields) => {
            if fields.len() == 0 {
                out.push('{');
                out.push('}');
                assert(out@ =~= start + yaml_node(c@, pad@));
            } else {
                emit_fields(out, fields, pad);
            }
        },
    }
}

/// Appends the bytes of a byte string, one line each.
fn emit_bytes(out: &mut Vec<char>, bytes: &Vec<u8>, pad: &Vec<char>)
    ensures
        final(out)@ == old(out)@ + yaml_bytes(bytes@, pad@, bytes.len() as int),
{
    let ghost start = out@;
    let mut i: usize = 0;
    assert(out@ =~= start + yaml_bytes(bytes@, pad@, 0));
    while i < bytes.len()
        invariant
            i <= bytes.len(),
            out@ == start + yaml_bytes(bytes@, pad@, i as int),
        decreases bytes.len() - i,
    {
        if i > 0 {
            push_line_break(out, pad);
        }
        out.push('-');
        out.push(' ');
        push_unsigned(out, bytes[i] as u64);
        i += 1;
        assert(out@ =~= start + yaml_bytes(bytes@, pad@, i as int));
    }
}

/// Appends the items of a sequence, one line each.
fn emit_items(out: &mut Vec<char>, items: &Vec<Content>, pad: &Vec<char>)
    ensures
        final(out)@ == old(out)@ + yaml_items(items_view(items@), pad@, items.len() as int),
    decreases items, 0nat,
{
    let ghost start = out@;
    let ghost trees = items_view(items@);
    let mut i: usize = 0;
    assert(out@ =~= start + yaml_items(trees, pad@, 0));
    while i < items.len()
        invariant
            i <= items.len(),
            trees == items_view(items@),
            out@ == start + yaml_items(trees, pad@, i as int),
        decreases items.len() - i,
    {
        if i > 0 {
            push_line_break(out, pad);
        }
        out.push('-');
        emit_value(out, &items[i], pad, true);
        i += 1;
        assert(out@ =~= start + yaml_items(trees, pad@, i as int));
    }
}

/// Appends one pair of a map.
fn emit_pair(out: &mut Vec<char>, pair: &(Content, Content), pad: &Vec<char>)
    ensures
        final(out)@ == old(out)@ + yaml_pair((pair.0@, pair.1@), pad@),
    decreases pair, 2nat,
{
    if complex_key(&pair.0) {
        out.push('?');
        emit_value(out, &pair.0, pad, true);
        push_line_break(out, pad);
        out.push(':');
        emit_value(out, &pair.1, pad, true);
    } else {
        emit_node(out, &pair.0, pad);
        out.push(':');
        emit_value(out, &pair.1, pad, false);
    }
    assert(out@ =~= old(out)@ + yaml_pair((pair.0@, pair.1@), pad@));
}

/// Appends the pairs of a map, one after the other.
fn emit_pairs(out: &mut Vec<char>, pairs: &Vec<(Content, Content)>, pad: &Vec<char>)
    ensures
        final(out)@ == old(out)@ + yaml_pairs(pairs_view(pairs@), pad@, pairs.len() as int),
    decreases pairs, 0nat,
{
    let ghost start = out@;
    let ghost trees = pairs_view(pairs@);
    let mut i: usize = 0;
    assert(out@ =~= start + yaml_pairs(trees, pad@, 0));
    while i < pairs.len()
        invariant
            i <= pairs.len(),
            trees == pairs_view(pairs@),
            out@ == start + yaml_pairs(trees, pad@, i as int),
        decreases pairs.len() - i,
    {
        if i > 0 {
            push_line_break(out, pad);
        }
        emit_pair(out, &pairs[i], pad);
        i += 1;
        assert(out@ =~= start + yaml_pairs(trees, pad@, i as int));
    }
}

/// Appends the fields of a struct, one after the other.
fn emit_fields(out: &mut Vec<char>, fields: &Vec<(&'static str, Content)>, pad: &Vec<char>)
    ensures
        final(out)@ == old(out)@ + yaml_fields(fields_view(fields@), pad@, fields.len() as int),
    decreases fields, 0nat,
{
    let ghost start = out@;
    let ghost trees = fields_view(fields@);
    let mut i: usize = 0;
    assert(out@ =~= start + yaml_fields(trees, pad@, 0));
    while i < fields.len()
        invariant
            i <= fields.len(),
            trees == fields_view(fields@),
            out@ == start + yaml_fields(trees, pad@, i as int),
        decreases fields.len() - i,
    {
        if i > 0 {
            push_line_break(out, pad);
        }
        let name = chars_of(fields[i].0);
        push_string(out, &name);
        out.push(':');
        emit_value(out, &fields[i].1, pad, false);
        i += 1;
        assert(out@ =~= start + yaml_fields(trees, pad@, i as int));
    }
}

/// Appends a node behind a dash, a colon or a question mark.
fn emit_value(out: &mut Vec<char>, c: &Content, pad: &Vec<char>, inline: bool)
    ensures
        final(out)@ == old(out)@ + yaml_value(c@, pad@, inline),
    decreases c, 1nat,
{
    if block(c) {
        let mut inner: Vec<char> = Vec::new();
        push_all(&mut inner, pad);
        inner.push(' ');
        inner.push(' ');
        assert(inner@ =~= deeper(pad@));
        if inline {
            out.push(' ');
        } else {
            push_line_break(out, &inner);
        }
        emit_node(out, c, &inner);
        assert(out@ =~= old(out)@ + yaml_value(c@, pad@, inline));
    } else {
        out.push(' ');
        emit_node(out, c, pad);
        assert(out@ =~= old(out)@ + yaml_value(c@, pad@, inline));
    }
}

impl Content {
    /// The tree as a YAML document in block style. The text starts with the
    /// document marker, three dashes and a line feed, and ends with a line
    /// feed.
    pub fn as_yaml(&self) -> (text: String)
        ensures
            text@ == yaml_text(self@),
            text@.len() >= 4,
            text@.take(4) == document_marker(),
    {
        let mut out: Vec<char> = Vec::new();
        out.push('-');
        out.push('-');
        out.push('-');
        out.push('\n');
        let pad: Vec<char> = Vec::new();
        emit_node(&mut out, self, &pad);
        out.push('\n');
        assert(pad@ =~= Seq::empty());
        assert(out@ =~= yaml_text(self@));
        assert(out@.take(4) =~= document_marker());
        string_of(&out)
    }
}

} // verus!
