//! Substring containment on strings.

use crate::encoding::lemma_encode_add;
use crate::encoding::lemma_encode_nonempty;
use crate::encoding::lemma_valid_prefix_is_boundary;
use vstd::prelude::*;
use vstd::string::StringSliceAdditionalSpecFns;
use vstd::utf8::*;

verus! {

/// `needle` stands in `hay` at position `at`, element for element.
pub open spec fn occurs_at<T>(needle: Seq<T>, hay: Seq<T>, at: int) -> bool {
    &&& 0 <= at
    &&& at + needle.len() <= hay.len()
    &&& hay.subrange(at, at + needle.len()) == needle
}

/// `needle` is a contiguous run of the characters of `hay`. The empty
/// sequence is a substring of every sequence.
pub open spec fn is_substring(needle: Seq<char>, hay: Seq<char>) -> bool {
    exists|at: int| occurs_at(needle, hay, at)
}

/// The empty sequence is a substring of every sequence.
pub proof fn lemma_empty_is_substring(needle: Seq<char>, hay: Seq<char>)
    requires
        needle.len() == 0,
    ensures
        is_substring(needle, hay),
{
    assert(hay.subrange(0, 0) =~= needle);
    assert(occurs_at(needle, hay, 0));
}

/// An occurrence among the characters is an occurrence among the bytes.
proof fn lemma_occurrence_in_bytes(needle: Seq<char>, hay: Seq<char>, at: int)
    requires
        occurs_at(needle, hay, at),
    ensures
        occurs_at(encode_utf8(needle), encode_utf8(hay), encode_utf8(hay.take(at)).len() as int),
{
    let before = hay.take(at);
    let after = hay.skip(at + needle.len());
    let start = encode_utf8(before).len() as int;
    assert(hay =~= before + (needle + after));
    lemma_encode_add(before, needle + after);
    lemma_encode_add(needle, after);
    assert(encode_utf8(hay).subrange(start, start + encode_utf8(needle).len()) =~= encode_utf8(
        needle,
    ));
}

/// An occurrence among the bytes is an occurrence among the characters: the
/// encoding of a character never begins inside the encoding of another.
proof fn lemma_occurrence_in_chars(needle: Seq<char>, hay: Seq<char>, start: int)
    requires
        occurs_at(encode_utf8(needle), encode_utf8(hay), start),
    ensures
        is_substring(needle, hay),
{
    let hay_bytes = encode_utf8(hay);
    let needle_bytes = encode_utf8(needle);
    if needle.len() == 0 {
        lemma_empty_is_substring(needle, hay);
    } else {
        lemma_encode_nonempty(needle);
        encode_utf8_valid_utf8(hay);
        encode_utf8_valid_utf8(needle);
        encode_utf8_decode_utf8(hay);
        encode_utf8_decode_utf8(needle);
        let width = needle_bytes.len() as int;
        let tail = hay_bytes.subrange(start, hay_bytes.len() as int);
        is_char_boundary_start_end_of_seq(needle_bytes);
        is_char_boundary_iff_not_is_continuation_byte(needle_bytes, 0);
        is_char_boundary_iff_not_is_continuation_byte(hay_bytes, start);
        valid_utf8_split(hay_bytes, start);
        decode_utf8_split(hay_bytes, start);
        assert(tail.subrange(0, width) =~= needle_bytes);
        lemma_valid_prefix_is_boundary(tail, width);
        decode_utf8_split(tail, width);
        let before = decode_utf8(hay_bytes.subrange(0, start));
        let at = before.len() as int;
        assert(hay.subrange(at, at + needle.len()) =~= needle);
        assert(occurs_at(needle, hay, at));
    }
}

/// Whether the bytes of `needle` stand in `hay` at position `at`.
fn matches_at(hay: &[u8], needle: &[u8], at: usize) -> (same: bool)
    requires
        at + needle.len() <= hay.len(),
    ensures
        same == occurs_at(needle@, hay@, at as int),
{
    let mut j: usize = 0;
    while j < needle.len()
        invariant
            j <= needle.len(),
            at + needle.len() <= hay.len(),
            forall|t: int| 0 <= t < j ==> hay@[at + t] == needle@[t],
        decreases needle.len() - j,
    {
        if hay[at + j] != needle[j] {
            return false;
        }
        j += 1;
    }
    assert(hay@.subrange(at as int, at + needle.len()) =~= needle@);
    true
}

/// Tells whether `needle` occurs in `hay` as a contiguous run of characters,
/// compared exactly.
pub fn contains(hay: &str, needle: &str) -> (found: bool)
    ensures
        found == is_substring(needle@, hay@),
{
    let hay_bytes = hay.as_bytes();
    let needle_bytes = needle.as_bytes();
    if needle_bytes.len() > hay_bytes.len() {
        proof {
            if is_substring(needle@, hay@) {
                let at = choose|at: int| occurs_at(needle@, hay@, at);
                lemma_occurrence_in_bytes(needle@, hay@, at);
            }
        }
        return false;
    }
    let last: usize = hay_bytes.len() - needle_bytes.len();
    let mut start: usize = 0;
    loop
        invariant
            hay_bytes@ == encode_utf8(hay@),
            needle_bytes@ == encode_utf8(needle@),
            last == hay_bytes.len() - needle_bytes.len(),
            start <= last,
            forall|k: int| 0 <= k < start ==> !occurs_at(needle_bytes@, hay_bytes@, k),
        decreases last - start,
    {
        if matches_at(hay_bytes, needle_bytes, start) {
            proof {
                lemma_occurrence_in_chars(needle@, hay@, start as int);
            }
            return true;
        }
        if start == last {
            proof {
                if is_substring(needle@, hay@) {
                    let at = choose|at: int| occurs_at(needle@, hay@, at);
                    lemma_occurrence_in_bytes(needle@, hay@, at);
                }
            }
            return false;
        }
        start += 1;
    }
}

} // verus!
