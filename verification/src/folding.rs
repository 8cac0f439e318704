//! Case folding, by which the search that ignores case compares.

use vstd::prelude::*;

verus! {

/// The lowercase form of `text` as Unicode defines it, independent of any
/// locale. One character may become several, and what a character becomes
/// may depend on its neighbours, so this is a function of the whole text.
pub uninterp spec fn lowercase(text: Seq<char>) -> Seq<char>;

/// The lowercase form of `text`, computed by `str::to_lowercase` of the
/// standard library.
///
/// Nothing is proved of this function. It is taken on trust that the
/// standard library's result depends on the characters of `text` alone, so
/// that `lowercase` names it, and that the empty text stays empty.
#[verifier::external_body]
pub(crate) fn to_lowercase(text: &str) -> (folded: String)
    ensures
        folded@ == lowercase(text@),
        text@.len() == 0 ==> folded@.len() == 0,
{
    text.to_lowercase()
}

} // verus!
