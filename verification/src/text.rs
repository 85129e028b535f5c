//! Text by byte offsets: where a caret may stand, what an edit leaves, and
//! where the next user-perceived character begins.
//!
//! An offset counts the bytes of the text's UTF-8 encoding. A caret stands on
//! a character boundary.

use unicode_segmentation::GraphemeCursor;
use vstd::prelude::*;
use vstd::string::*;
use vstd::utf8::*;

verus! {

/// The number of bytes that the text takes.
pub open spec fn byte_len(text: Seq<char>) -> int {
    encode_utf8(text).len() as int
}

/// Whether `at` is an offset at which a character of the text begins, or its
/// end.
pub open spec fn boundary(text: Seq<char>, at: int) -> bool {
    0 <= at <= byte_len(text) && is_char_boundary(encode_utf8(text), at)
}

/// The text in front of the boundary `at`.
pub open spec fn before(text: Seq<char>, at: int) -> Seq<char> {
    decode_utf8(encode_utf8(text).subrange(0, at))
}

/// The text behind the boundary `at`.
pub open spec fn behind(text: Seq<char>, at: int) -> Seq<char> {
    decode_utf8(encode_utf8(text).subrange(at, byte_len(text)))
}

/// The text with `with` in place of what stands between the boundaries `from`
/// and `to`.
pub open spec fn spliced(text: Seq<char>, from: int, to: int, with: Seq<char>) -> Seq<char> {
    before(text, from) + with + behind(text, to)
}

/// The start of a text is a place for a caret, and so is its end.
pub proof fn lemma_ends_are_boundaries(text: Seq<char>)
    ensures
        boundary(text, 0),
        boundary(text, byte_len(text)),
{
    encode_utf8_valid_utf8(text);
    is_char_boundary_start_end_of_seq(encode_utf8(text));
}

/// The place behind a valid run of bytes is a character boundary of what
/// follows it.
proof fn lemma_joint_is_boundary(a: Seq<u8>, b: Seq<u8>)
    requires
        valid_utf8(a),
        valid_utf8(b),
    ensures
        valid_utf8(a + b),
        is_char_boundary(a + b, a.len() as int),
{
    valid_utf8_concat(a, b);
    if b.len() == 0 {
        assert(a + b =~= a);
        is_char_boundary_start_end_of_seq(a);
    } else {
        is_char_boundary_start_end_of_seq(b);
        is_char_boundary_iff_not_is_continuation_byte(b, 0);
        is_char_boundary_iff_not_is_continuation_byte(a + b, a.len() as int);
        assert((a + b)[a.len() as int] == b[0]);
    }
}

/// The bytes of two texts in a row are the bytes of the one and then those
/// of the other.
pub proof fn lemma_bytes_of_concat(a: Seq<char>, b: Seq<char>)
    ensures
        encode_utf8(a + b) == encode_utf8(a) + encode_utf8(b),
        boundary(a + b, byte_len(a)),
{
    let x = encode_utf8(a);
    let y = encode_utf8(b);
    encode_utf8_valid_utf8(a);
    encode_utf8_valid_utf8(b);
    lemma_joint_is_boundary(x, y);
    decode_utf8_split(x + y, x.len() as int);
    assert((x + y).subrange(0, x.len() as int) =~= x);
    assert((x + y).subrange(x.len() as int, (x + y).len() as int) =~= y);
    encode_utf8_decode_utf8(a);
    encode_utf8_decode_utf8(b);
    assert(decode_utf8(x + y) == a + b);
    decode_utf8_encode_utf8(x + y);
}

/// A text is what stands in front of a boundary and what stands behind it.
pub proof fn lemma_split(text: Seq<char>, at: int)
    requires
        boundary(text, at),
    ensures
        before(text, at) + behind(text, at) == text,
        byte_len(before(text, at)) == at,
        byte_len(behind(text, at)) == byte_len(text) - at,
        encode_utf8(before(text, at)) == encode_utf8(text).subrange(0, at),
        encode_utf8(behind(text, at)) == encode_utf8(text).subrange(at, byte_len(text)),
{
    let bytes = encode_utf8(text);
    encode_utf8_valid_utf8(text);
    valid_utf8_split(bytes, at);
    decode_utf8_split(bytes, at);
    encode_utf8_decode_utf8(text);
    decode_utf8_encode_utf8(bytes.subrange(0, at));
    decode_utf8_encode_utf8(bytes.subrange(at, bytes.len() as int));
}

/// After an edit the caret may stand behind what was put in, and the text is
/// as long as what is left and what was put in.
pub proof fn lemma_spliced(text: Seq<char>, from: int, to: int, with: Seq<char>)
    requires
        boundary(text, from),
        boundary(text, to),
        from <= to,
    ensures
        boundary(spliced(text, from, to, with), from),
        boundary(spliced(text, from, to, with), from + byte_len(with)),
        byte_len(spliced(text, from, to, with)) == from + byte_len(with) + byte_len(text) - to,
{
    lemma_split(text, from);
    lemma_split(text, to);
    let head = before(text, from);
    let tail = behind(text, to);
    lemma_bytes_of_concat(head, with);
    lemma_bytes_of_concat(head + with, tail);
    lemma_bytes_of_concat(head, with + tail);
    assert(head + (with + tail) =~= head + with + tail);
}

/// Puts `with` in place of what stands between `from` and `to`.
pub fn splice(text: &mut String, from: usize, to: usize, with: &str)
    requires
        boundary(old(text)@, from as int),
        boundary(old(text)@, to as int),
        from <= to,
    ensures
        final(text)@ == spliced(old(text)@, from as int, to as int, with@),
{
    broadcast use {encode_utf8_decode_utf8, encode_utf8_valid_utf8};

    let ghost whole = text@;
    let (head, _) = text.as_str().split_at(from);
    let (_, tail) = text.as_str().split_at(to);
    let mut out = String::from_str(head);
    out.append(with);
    out.append(tail);
    proof {
        assert(decode_utf8(encode_utf8(head@)) == head@);
        assert(decode_utf8(encode_utf8(tail@)) == tail@);
        assert(head@ == before(whole, from as int));
        assert(tail@ == behind(whole, to as int));
    }
    *text = out;
}

/// The length of the text in bytes.
pub fn length(text: &str) -> (n: usize)
    ensures
        n == byte_len(text@),
{
    text.as_bytes().len()
}

/// Where the user-perceived character that begins at or around `from` ends,
/// as `unicode_segmentation::GraphemeCursor::next_boundary` finds it in the
/// whole text; `None` at the end of the text.
pub uninterp spec fn grapheme_after(text: Seq<char>, from: int) -> Option<int>;

/// Where the user-perceived character in front of `from` begins, as
/// `unicode_segmentation::GraphemeCursor::prev_boundary` finds it in the whole
/// text; `None` at the start of the text.
pub uninterp spec fn grapheme_before(text: Seq<char>, from: int) -> Option<int>;

/// Calls `GraphemeCursor::next_boundary` with a cursor for extended grapheme
/// clusters at `from` and the whole text as its one chunk. Trusted: the
/// result is the next cluster boundary behind `from`, a character boundary of
/// the text, and there is none exactly at the end of the text.
#[verifier::external_body]
fn next_boundary(text: &str, from: usize) -> (r: Option<usize>)
    requires
        boundary(text@, from as int),
    ensures
        r is Some <==> from < byte_len(text@),
        r matches Some(n) ==> from < n && boundary(text@, n as int),
        match r {
            Some(n) => grapheme_after(text@, from as int) == Some(n as int),
            None => grapheme_after(text@, from as int) is None,
        },
{
    let mut cursor = GraphemeCursor::new(from, text.len(), true);
    match cursor.next_boundary(text, 0) {
        Ok(r) => r,
        Err(_) => None,
    }
}

/// Calls `GraphemeCursor::prev_boundary` with a cursor for extended grapheme
/// clusters at `from` and the whole text as its one chunk. Trusted: the
/// result is the last cluster boundary in front of `from`, a character
/// boundary of the text, and there is none exactly at the start of the text.
#[verifier::external_body]
fn prev_boundary(text: &str, from: usize) -> (r: Option<usize>)
    requires
        boundary(text@, from as int),
    ensures
        r is Some <==> from > 0,
        r matches Some(n) ==> n < from && boundary(text@, n as int),
        match r {
            Some(n) => grapheme_before(text@, from as int) == Some(n as int),
            None => grapheme_before(text@, from as int) is None,
        },
{
    let mut cursor = GraphemeCursor::new(from, text.len(), true);
    match cursor.prev_boundary(text, 0) {
        Ok(r) => r,
        Err(_) => None,
    }
}

/// Where the user-perceived character behind `from` ends; `None` at the end
/// of the text.
pub fn next_grapheme_offset(text: &str, from: usize) -> (r: Option<usize>)
    requires
        boundary(text@, from as int),
    ensures
        r is Some <==> from < byte_len(text@),
        r matches Some(n) ==> from < n && boundary(text@, n as int),
        match r {
            Some(n) => grapheme_after(text@, from as int) == Some(n as int),
            None => grapheme_after(text@, from as int) is None,
        },
{
    next_boundary(text, from)
}

/// Where the user-perceived character in front of `from` begins; `None` at
/// the start of the text.
pub fn prev_grapheme_offset(text: &str, from: usize) -> (r: Option<usize>)
    requires
        boundary(text@, from as int),
    ensures
        r is Some <==> from > 0,
        r matches Some(n) ==> n < from && boundary(text@, n as int),
        match r {
            Some(n) => grapheme_before(text@, from as int) == Some(n as int),
            None => grapheme_before(text@, from as int) is None,
        },
{
    prev_boundary(text, from)
}

} // verus!
