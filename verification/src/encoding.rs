//! Facts about UTF-8 that connect a string's characters with its bytes.
//!
//! The executable code scans and cuts strings by bytes, while every contract
//! speaks of characters. The lemmas here carry a decomposition of the
//! characters over to the bytes and back.

use vstd::prelude::*;
use vstd::string::StringSliceAdditionalSpecFns;
use vstd::utf8::*;

verus! {

/// Encoding distributes over concatenation.
pub(crate) proof fn lemma_encode_add(a: Seq<char>, b: Seq<char>)
    ensures
        encode_utf8(a + b) == encode_utf8(a) + encode_utf8(b),
    decreases a.len(),
{
    if a.len() > 0 {
        lemma_encode_add(a.drop_first(), b);
        assert((a + b).drop_first() =~= a.drop_first() + b);
    }
}

/// Two character sequences with the same encoding are the same sequence.
pub(crate) proof fn lemma_encode_injective(a: Seq<char>, b: Seq<char>)
    requires
        encode_utf8(a) == encode_utf8(b),
    ensures
        a == b,
{
    encode_utf8_decode_utf8(a);
    encode_utf8_decode_utf8(b);
}

/// The bytes of the encoding of one scalar value: a value below 0x80 is its
/// own single byte, and every byte of a longer encoding is 0x80 or more.
proof fn lemma_scalar_bytes(s: u32)
    by (bit_vector)
    ensures
        has_width_1_encoding(s) ==> leading_byte_width_1(s) as u32 == s,
        leading_byte_width_2(s) >= 0x80,
        leading_byte_width_3(s) >= 0x80,
        leading_byte_width_4(s) >= 0x80,
        last_continuation_byte(s) >= 0x80,
        second_last_continuation_byte(s) >= 0x80,
        third_last_continuation_byte(s) >= 0x80,
{
}

/// A byte below 0x80 occurs in the encoding of a character only as the whole
/// encoding of that same ASCII character.
pub(crate) proof fn lemma_ascii_byte_of_char(c: char, i: int)
    requires
        0 <= i < encode_scalar(c as u32).len(),
        encode_scalar(c as u32)[i] < 0x80,
    ensures
        i == 0,
        encode_scalar(c as u32).len() == 1,
        encode_scalar(c as u32)[0] as u32 == c as u32,
{
    lemma_scalar_bytes(c as u32);
}

/// An ASCII character is encoded as the one byte of its own value.
pub(crate) proof fn lemma_encode_ascii_char(c: char, b: u8)
    requires
        b < 0x80,
        c as u32 == b as u32,
    ensures
        encode_scalar(c as u32) == seq![b],
        encode_utf8(seq![c]) == seq![b],
{
    lemma_scalar_bytes(c as u32);
    lemma_encode_one(c);
}

/// The encoding of a single character, as a sequence of one element.
pub(crate) proof fn lemma_encode_one(c: char)
    ensures
        encode_utf8(seq![c]) == encode_scalar(c as u32),
        1 <= encode_scalar(c as u32).len() <= 4,
{
    let one = seq![c];
    assert(encode_utf8(one.drop_first()) =~= Seq::<u8>::empty());
}

/// Where the ASCII character `c`, whose value is `b`, does not occur in
/// `text`, the byte `b` does not occur in the encoding of `text`.
pub(crate) proof fn lemma_ascii_byte_absent(text: Seq<char>, c: char, b: u8)
    requires
        b < 0x80,
        c as u32 == b as u32,
        forall|i: int| 0 <= i < text.len() ==> text[i] != c,
    ensures
        forall|k: int| 0 <= k < encode_utf8(text).len() ==> encode_utf8(text)[k] != b,
    decreases text.len(),
{
    if text.len() > 0 {
        let head = encode_scalar(text[0] as u32);
        let rest = text.drop_first();
        lemma_ascii_byte_absent(rest, c, b);
        assert forall|k: int| 0 <= k < encode_utf8(text).len() implies encode_utf8(text)[k]
            != b by {
            if k < head.len() {
                if head[k] == b {
                    lemma_ascii_byte_of_char(text[0], k);
                    char_u32_cast(text[0], b as u32);
                    char_u32_cast(c, b as u32);
                }
            } else {
                assert(encode_utf8(text)[k] == encode_utf8(rest)[k - head.len()]);
            }
        }
    }
}

/// A text with a character has an encoding with a byte.
pub(crate) proof fn lemma_encode_nonempty(text: Seq<char>)
    requires
        text.len() > 0,
    ensures
        encode_utf8(text).len() > 0,
{
    lemma_encode_one(text[0]);
}

/// The encoding of a text ends with the byte `b` exactly when the text ends
/// with the ASCII character `c` whose value is `b`.
pub(crate) proof fn lemma_last_byte(text: Seq<char>, c: char, b: u8)
    requires
        text.len() > 0,
        b < 0x80,
        c as u32 == b as u32,
    ensures
        encode_utf8(text).len() > 0,
        encode_utf8(text).last() == b <==> text.last() == c,
{
    let last = text.last();
    let tail = encode_scalar(last as u32);
    assert(text =~= text.drop_last() + seq![last]);
    lemma_encode_add(text.drop_last(), seq![last]);
    lemma_encode_one(last);
    if tail.last() == b {
        lemma_ascii_byte_of_char(last, tail.len() - 1);
        char_u32_cast(last, b as u32);
        char_u32_cast(c, b as u32);
    }
    if last == c {
        lemma_encode_ascii_char(c, b);
    }
}

/// A prefix of valid UTF-8 that is itself valid UTF-8 ends on a character
/// boundary.
pub(crate) proof fn lemma_valid_prefix_is_boundary(bytes: Seq<u8>, k: int)
    requires
        valid_utf8(bytes),
        0 <= k <= bytes.len(),
        valid_utf8(bytes.subrange(0, k)),
    ensures
        is_char_boundary(bytes, k),
    decreases k,
{
    if k > 0 {
        let prefix = bytes.subrange(0, k);
        let width = length_of_first_scalar(bytes);
        assert(pop_first_scalar(prefix) =~= pop_first_scalar(bytes).subrange(0, k - width));
        lemma_valid_prefix_is_boundary(pop_first_scalar(bytes), k - width);
    }
}

/// The bytes of `a + b` fall apart, at a character boundary, into the bytes
/// of `a` and the bytes of `b`.
pub(crate) proof fn lemma_encode_split(a: Seq<char>, b: Seq<char>)
    ensures
        ({
            let whole = encode_utf8(a + b);
            let mid = encode_utf8(a).len() as int;
            &&& valid_utf8(whole)
            &&& mid <= whole.len()
            &&& is_char_boundary(whole, mid)
            &&& whole.subrange(0, mid) == encode_utf8(a)
            &&& whole.subrange(mid, whole.len() as int) == encode_utf8(b)
        }),
{
    let whole = encode_utf8(a + b);
    let mid = encode_utf8(a).len() as int;
    lemma_encode_add(a, b);
    encode_utf8_valid_utf8(a + b);
    encode_utf8_valid_utf8(a);
    assert(whole.subrange(0, mid) =~= encode_utf8(a));
    lemma_valid_prefix_is_boundary(whole, mid);
}

/// Cuts `text` in two behind its first `count` characters, which take up
/// its first `mid` bytes.
pub(crate) fn split_chars<'a>(text: &'a str, mid: usize, Ghost(count): Ghost<int>) -> (parts: (
    &'a str,
    &'a str,
))
    requires
        0 <= count <= text@.len(),
        mid == encode_utf8(text@.take(count)).len(),
    ensures
        parts.0@ == text@.take(count),
        parts.1@ == text@.skip(count),
{
    proof {
        assert(text@ =~= text@.take(count) + text@.skip(count));
        lemma_encode_split(text@.take(count), text@.skip(count));
    }
    let parts = text.split_at(mid);
    proof {
        lemma_encode_injective(parts.0@, text@.take(count));
        lemma_encode_injective(parts.1@, text@.skip(count));
    }
    parts
}

} // verus!
