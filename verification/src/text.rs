use vstd::prelude::*;
use vstd::std_specs::iter::IteratorSpec;
use vstd::utf8::{decode_utf8, encode_scalar, encode_utf8, valid_utf8};

verus! {

broadcast use vstd::string::group_string_axioms;

/// `text` without its last character, if that character is a line feed;
/// otherwise `text` itself.
pub open spec fn without_line_feed(text: Seq<char>) -> Seq<char> {
    if text.len() > 0 && text.last() == '\n' {
        text.drop_last()
    } else {
        text
    }
}

/// `bytes` without its last byte, if that byte is a line feed (10);
/// otherwise `bytes` itself.
pub open spec fn without_line_feed_byte(bytes: Seq<u8>) -> Seq<u8> {
    if bytes.len() > 0 && bytes.last() == 10u8 {
        bytes.drop_last()
    } else {
        bytes
    }
}

/// The text that `bytes` encode in UTF-8, or `None` where they encode none.
pub open spec fn utf8_text(bytes: Seq<u8>) -> Option<Seq<char>> {
    if valid_utf8(bytes) {
        Some(decode_utf8(bytes))
    } else {
        None
    }
}

/// Whether a text ends in a line feed.
pub open spec fn ends_in_line_feed(text: Seq<char>) -> bool {
    text.len() > 0 && text.last() == '\n'
}

/// Whether a byte string ends in a line feed byte.
pub open spec fn ends_in_line_feed_byte(bytes: Seq<u8>) -> bool {
    bytes.len() > 0 && bytes.last() == 10u8
}

/// A text that does not end in two line feeds does not end in a line feed
/// once one is dropped.
pub proof fn lemma_without_line_feed(text: Seq<char>)
    requires
        !(ends_in_line_feed(text) && ends_in_line_feed(text.drop_last())),
    ensures
        !ends_in_line_feed(without_line_feed(text)),
{
}

/// A byte string that does not end in two line feed bytes does not end in
/// a line feed byte once one is dropped.
pub proof fn lemma_without_line_feed_byte(bytes: Seq<u8>)
    requires
        !(ends_in_line_feed_byte(bytes) && ends_in_line_feed_byte(bytes.drop_last())),
    ensures
        !ends_in_line_feed_byte(without_line_feed_byte(bytes)),
{
}

/// The UTF-8 bytes of a text that ends in a line feed end in a line feed
/// byte.
pub proof fn lemma_encoded_end(text: Seq<char>)
    requires
        ends_in_line_feed(text),
    ensures
        ends_in_line_feed_byte(encode_utf8(text)),
    decreases text.len(),
{
    let rest = text.drop_first();
    assert(encode_utf8(text) == encode_scalar(text[0] as u32) + encode_utf8(rest));
    if rest.len() == 0 {
        assert(encode_utf8(rest) =~= Seq::<u8>::empty());
        assert(text[0] == '\n');
        assert(10u32 & 0x7F == 10u32) by (bit_vector);
        assert(encode_scalar(10u32) =~= seq![10u8]);
        assert(encode_utf8(text) =~= seq![10u8]);
    } else {
        assert(rest.last() == text.last());
        lemma_encoded_end(rest);
        assert(encode_utf8(text).last() == encode_utf8(rest).last());
    }
}

/// The text of UTF-8 bytes that do not end in a line feed byte does not
/// end in a line feed.
pub proof fn lemma_decoded_end(bytes: Seq<u8>)
    requires
        valid_utf8(bytes),
        !ends_in_line_feed_byte(bytes),
    ensures
        !ends_in_line_feed(decode_utf8(bytes)),
{
    if ends_in_line_feed(decode_utf8(bytes)) {
        lemma_encoded_end(decode_utf8(bytes));
        vstd::utf8::decode_utf8_encode_utf8(bytes);
    }
}

/// Appends one character to a string.
///
/// Calls `String::push`, which std documents as appending the given `char`
/// to the end of the string.
#[verifier::external_body]
fn push_char(s: &mut String, c: char)
    ensures
        final(s)@ == old(s)@.push(c),
{
    s.push(c)
}

/// Decodes a byte vector as UTF-8.
///
/// Calls `String::from_utf8`, which std documents as failing exactly when
/// the bytes are not valid UTF-8 and as otherwise returning the string made
/// of those bytes.
#[verifier::external_body]
fn decode(bytes: Vec<u8>) -> (r: Option<String>)
    ensures
        r is Some <==> valid_utf8(bytes@),
        r matches Some(s) ==> s@ == decode_utf8(bytes@),
{
    String::from_utf8(bytes).ok()
}

/// The code point of a character.
pub fn code_of(c: char) -> (code: u32)
    ensures
        code as int == c as int,
{
    c as u32
}

/// The characters of a string, in order.
pub fn chars_of(s: &str) -> (chars: Vec<char>)
    ensures
        chars@ == s@,
{
    let mut chars: Vec<char> = Vec::new();
    for c in rest: s.chars()
        invariant
            rest.seq() == s@,
            chars@ == s@.take(rest.index() as int),
    {
        chars.push(c);
        assert(s@.take(rest.index() + 1) == s@.take(rest.index() as int).push(c));
    }
    assert(s@.take(s@.len() as int) == s@);
    chars
}

/// Whether two texts hold the same characters.
pub fn same_text(a: &Vec<char>, b: &Vec<char>) -> (same: bool)
    ensures
        same == (a@ == b@),
{
    if a.len() != b.len() {
        return false;
    }
    let mut i: usize = 0;
    while i < a.len()
        invariant
            i <= a.len(),
            a.len() == b.len(),
            a@.take(i as int) == b@.take(i as int),
        decreases a.len() - i,
    {
        if a[i] != b[i] {
            return false;
        }
        i += 1;
        assert(a@.take(i as int) =~= a@.take(i - 1).push(a@[i - 1]));
        assert(b@.take(i as int) =~= b@.take(i - 1).push(b@[i - 1]));
    }
    assert(a@.take(a.len() as int) =~= a@);
    assert(b@.take(b.len() as int) =~= b@);
    true
}

/// Whether two strings hold the same characters.
pub fn same_str(a: &str, b: &str) -> (same: bool)
    ensures
        same == (a@ == b@),
{
    let x = chars_of(a);
    let y = chars_of(b);
    same_text(&x, &y)
}

/// The string made of the given characters, in order.
pub fn string_of(chars: &Vec<char>) -> (s: String)
    ensures
        s@ == chars@,
{
    let mut s = String::new();
    let mut i: usize = 0;
    while i < chars.len()
        invariant
            i <= chars.len(),
            s@ == chars@.take(i as int),
        decreases chars.len() - i,
    {
        push_char(&mut s, chars[i]);
        i += 1;
        assert(chars@.take(i as int) == chars@.take(i - 1).push(chars@[i - 1]));
    }
    assert(chars@.take(chars.len() as int) == chars@);
    s
}

/// Drops one trailing line feed from a text, if it ends in one.
pub fn strip_line_feed(text: &str) -> (stripped: String)
    ensures
        stripped@ == without_line_feed(text@),
{
    let mut chars = chars_of(text);
    let n = chars.len();
    if n > 0 && chars[n - 1] == '\n' {
        chars.pop();
    }
    string_of(&chars)
}

/// Drops one trailing line feed byte from a buffer, if it ends in one.
pub fn strip_line_feed_byte(bytes: Vec<u8>) -> (stripped: Vec<u8>)
    ensures
        stripped@ == without_line_feed_byte(bytes@),
{
    let mut bytes = bytes;
    let n = bytes.len();
    if n > 0 && bytes[n - 1] == 10u8 {
        bytes.pop();
    }
    bytes
}

/// Reads a buffer as UTF-8 text; `None` where it is not valid UTF-8.
pub fn text_of_bytes(bytes: Vec<u8>) -> (text: Option<String>)
    ensures
        text is Some <==> utf8_text(bytes@) is Some,
        text matches Some(s) ==> utf8_text(bytes@) == Some(s@),
{
    decode(bytes)
}

} // verus!
