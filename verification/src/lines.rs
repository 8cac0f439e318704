//! Splitting a text into its lines.
//!
//! A line ends at a line feed, or at the end of the text. The line feed is
//! not part of the line, and neither is one carriage return directly before
//! it. A text that ends with a line feed has no further, empty line after it;
//! the empty text has no lines at all.

use crate::encoding::lemma_ascii_byte_absent;
use crate::encoding::lemma_encode_add;
use crate::encoding::lemma_encode_ascii_char;
use crate::encoding::lemma_last_byte;
use crate::encoding::split_chars;
use vstd::prelude::*;
use vstd::string::StringSliceAdditionalSpecFns;
use vstd::utf8::*;

verus! {

/// The position of the first line feed in `text`, or the length of `text`
/// where it holds none.
pub open spec fn first_newline(text: Seq<char>) -> nat
    decreases text.len(),
{
    if text.len() == 0 || text[0] == '\n' {
        0
    } else {
        (1 + first_newline(text.drop_first())) as nat
    }
}

/// `line` without the carriage return at its end, if it has one.
pub open spec fn without_carriage_return(line: Seq<char>) -> Seq<char> {
    if line.len() > 0 && line.last() == '\r' {
        line.drop_last()
    } else {
        line
    }
}

/// The lines of `text`, in order.
pub open spec fn lines_of(text: Seq<char>) -> Seq<Seq<char>>
    decreases text.len(),
{
    let end = first_newline(text) as int;
    if text.len() == 0 {
        Seq::empty()
    } else if end >= text.len() {
        seq![text]
    } else {
        seq![without_carriage_return(text.take(end))] + lines_of(text.skip(end + 1))
    }
}

/// `first_newline` is within the text, no line feed stands before it, and
/// one stands at it unless it is the end of the text.
pub proof fn lemma_first_newline(text: Seq<char>)
    ensures
        first_newline(text) <= text.len(),
        forall|i: int| 0 <= i < first_newline(text) ==> text[i] != '\n',
        first_newline(text) < text.len() ==> text[first_newline(text) as int] == '\n',
    decreases text.len(),
{
    if !(text.len() == 0 || text[0] == '\n') {
        let rest = text.drop_first();
        lemma_first_newline(rest);
        assert forall|i: int| 0 <= i < first_newline(text) implies text[i] != '\n' by {
            if i > 0 {
                assert(text[i] == rest[i - 1]);
            }
        }
    }
}

/// The position with no line feed before it that holds a line feed, or is
/// the end of the text, is `first_newline`.
pub proof fn lemma_first_newline_is(text: Seq<char>, at: int)
    requires
        0 <= at <= text.len(),
        forall|i: int| 0 <= i < at ==> text[i] != '\n',
        at < text.len() ==> text[at] == '\n',
    ensures
        first_newline(text) == at,
{
    lemma_first_newline(text);
}

/// No line holds a line feed.
pub proof fn lemma_lines_hold_no_line_feed(text: Seq<char>)
    ensures
        forall|i: int, j: int|
            0 <= i < lines_of(text).len() && 0 <= j < lines_of(text)[i].len() ==> lines_of(
                text,
            )[i][j] != '\n',
    decreases text.len(),
{
    let end = first_newline(text) as int;
    lemma_first_newline(text);
    if text.len() > 0 && end < text.len() {
        let rest = text.skip(end + 1);
        lemma_lines_hold_no_line_feed(rest);
        assert forall|i: int, j: int|
            0 <= i < lines_of(text).len() && 0 <= j < lines_of(text)[i].len() implies lines_of(
            text,
        )[i][j] != '\n' by {
            if i > 0 {
                assert(lines_of(text)[i] == lines_of(rest)[i - 1]);
            }
        }
    }
}

/// A line feed at the end of a text ends its last line and begins no other:
/// the text has the same lines with it as without it. So has a carriage
/// return with a line feed.
///
/// The text must end in a line that the line feed can end: it is not empty
/// and does not end with a line feed. Before the line feed alone it must not
/// end with a carriage return either, which would go with the line feed.
pub proof fn lemma_final_line_ending(text: Seq<char>)
    requires
        text.len() > 0,
        text.last() != '\n',
    ensures
        text.last() != '\r' ==> lines_of(text.push('\n')) == lines_of(text),
        lines_of(text.push('\r').push('\n')) == lines_of(text),
    decreases text.len(),
{
    let end = first_newline(text) as int;
    let unix = text.push('\n');
    let dos = text.push('\r').push('\n');
    lemma_first_newline(text);
    if end < text.len() {
        let rest = text.skip(end + 1);
        lemma_first_newline_is(unix, end);
        lemma_first_newline_is(dos, end);
        lemma_final_line_ending(rest);
        assert(unix.take(end) =~= text.take(end));
        assert(dos.take(end) =~= text.take(end));
        assert(unix.skip(end + 1) =~= rest.push('\n'));
        assert(dos.skip(end + 1) =~= rest.push('\r').push('\n'));
    } else {
        let n = text.len() as int;
        lemma_first_newline_is(unix, n);
        lemma_first_newline_is(dos, n + 1);
        assert(unix.take(n) =~= text);
        assert(dos.take(n + 1) =~= text.push('\r'));
        assert(text.push('\r').drop_last() =~= text);
        assert(unix.skip(n + 1) =~= Seq::<char>::empty());
        assert(dos.skip(n + 2) =~= Seq::<char>::empty());
        assert(lines_of(Seq::<char>::empty()) =~= Seq::<Seq<char>>::empty());
    }
}

/// The first line feed among the bytes of a text stands where the
/// characters before the first line feed have been encoded.
proof fn lemma_line_end(text: Seq<char>, end: int)
    requires
        0 <= end <= encode_utf8(text).len(),
        forall|k: int| 0 <= k < end ==> encode_utf8(text)[k] != 0x0A,
        end < encode_utf8(text).len() ==> encode_utf8(text)[end] == 0x0A,
    ensures
        encode_utf8(text.take(first_newline(text) as int)).len() == end,
        end == encode_utf8(text).len() <==> first_newline(text) == text.len(),
{
    let at = first_newline(text) as int;
    let head = text.take(at);
    let tail = text.skip(at);
    lemma_first_newline(text);
    assert(text =~= head + tail);
    lemma_encode_add(head, tail);
    lemma_ascii_byte_absent(head, '\n', 0x0A);
    let mid = encode_utf8(head).len() as int;
    if at < text.len() {
        let after = text.skip(at + 1);
        lemma_encode_add(seq!['\n'], after);
        lemma_encode_ascii_char('\n', 0x0A);
        assert(encode_utf8(text)[mid] == encode_utf8(tail)[0]);
    }
}

/// The position of the first byte `b` in `bytes`, or the length of `bytes`
/// where it holds none.
fn position_of(bytes: &[u8], b: u8) -> (at: usize)
    ensures
        at <= bytes.len(),
        forall|k: int| 0 <= k < at ==> bytes@[k] != b,
        at < bytes.len() ==> bytes@[at as int] == b,
{
    let mut at: usize = 0;
    while at < bytes.len() && bytes[at] != b
        invariant
            at <= bytes.len(),
            forall|k: int| 0 <= k < at ==> bytes@[k] != b,
        decreases bytes.len() - at,
    {
        at += 1;
    }
    at
}

/// Cuts the carriage return from the end of `line`, if it has one.
fn trim_carriage_return<'a>(line: &'a str) -> (trimmed: &'a str)
    ensures
        trimmed@ == without_carriage_return(line@),
{
    let bytes = line.as_bytes();
    let n = bytes.len();
    proof {
        if line@.len() > 0 {
            lemma_last_byte(line@, '\r', 0x0D);
        }
    }
    if n > 0 && bytes[n - 1] == 0x0D {
        proof {
            assert(line@ =~= line@.drop_last() + seq!['\r']);
            lemma_encode_add(line@.drop_last(), seq!['\r']);
            lemma_encode_ascii_char('\r', 0x0D);
        }
        let (body, _) = split_chars(line, n - 1, Ghost(line@.len() - 1));
        body
    } else {
        line
    }
}

/// Splits `text` into its lines, each a slice of `text`.
pub fn lines<'a>(text: &'a str) -> (all: Vec<&'a str>)
    ensures
        all.deep_view() == lines_of(text@),
{
    let mut all: Vec<&'a str> = Vec::new();
    let mut rest: &'a str = text;
    while !rest.is_empty()
        invariant
            all.deep_view() + lines_of(rest@) == lines_of(text@),
        decreases rest@.len(),
    {
        let ghost at = first_newline(rest@) as int;
        let end = position_of(rest.as_bytes(), 0x0A);
        proof {
            lemma_first_newline(rest@);
            lemma_line_end(rest@, end as int);
        }
        let (line, tail) = split_chars(rest, end, Ghost(at));
        if tail.is_empty() {
            assert(line@ =~= rest@);
            all.push(line);
            rest = tail;
        } else {
            proof {
                assert(tail@.take(1) =~= seq!['\n']);
                lemma_encode_ascii_char('\n', 0x0A);
            }
            let (_, next) = split_chars(tail, 1, Ghost(1));
            assert(next@ =~= rest@.skip(at + 1));
            all.push(trim_carriage_return(line));
            rest = next;
        }
    }
    all
}

} // verus!
