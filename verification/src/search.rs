//! The search itself: the lines of a text that contain a query.

use crate::folding::lowercase;
use crate::folding::to_lowercase;
use crate::lines::lines;
use crate::lines::lines_of;
use crate::substring::contains;
use crate::substring::is_substring;
use crate::substring::lemma_empty_is_substring;
use vstd::prelude::*;

verus! {

/// The test that a line passes when it contains `query`, compared exactly.
pub open spec fn has_exactly(query: Seq<char>) -> spec_fn(Seq<char>) -> bool {
    |line: Seq<char>| is_substring(query, line)
}

/// The test that a line passes when its lowercase form contains the
/// lowercase form of `query`.
pub open spec fn has_folded(query: Seq<char>) -> spec_fn(Seq<char>) -> bool {
    |line: Seq<char>| is_substring(lowercase(query), lowercase(line))
}

/// The lines of `content` that contain `query`, in the order of `content`.
pub open spec fn matching_lines(query: Seq<char>, content: Seq<char>) -> Seq<Seq<char>> {
    lines_of(content).filter(has_exactly(query))
}

/// The lines of `content` that contain `query` when case is ignored, in the
/// order of `content`.
pub open spec fn matching_lines_folded(query: Seq<char>, content: Seq<char>) -> Seq<Seq<char>> {
    lines_of(content).filter(has_folded(query))
}

/// `picks` lists, in rising order, the positions in `from` of exactly the
/// elements that pass `keep`, and `chosen` holds the elements at these
/// positions, one for one.
pub open spec fn selects<T>(
    picks: Seq<int>,
    from: Seq<T>,
    keep: spec_fn(T) -> bool,
    chosen: Seq<T>,
) -> bool {
    &&& picks.len() == chosen.len()
    &&& forall|k: int|
        0 <= k < picks.len() ==> 0 <= #[trigger] picks[k] < from.len() && chosen[k]
            == from[picks[k]]
    &&& forall|j: int, k: int| 0 <= j < k < picks.len() ==> picks[j] < picks[k]
    &&& forall|i: int| 0 <= i < from.len() ==> (keep(#[trigger] from[i]) <==> picks.contains(i))
}

/// The positions in `from` of the elements that pass `keep`, rising.
pub open spec fn positions_kept<T>(from: Seq<T>, keep: spec_fn(T) -> bool) -> Seq<int>
    decreases from.len(),
{
    if from.len() == 0 {
        Seq::empty()
    } else {
        let earlier = positions_kept(from.drop_last(), keep);
        if keep(from.last()) {
            earlier.push(from.len() - 1)
        } else {
            earlier
        }
    }
}

/// Filtering takes the elements at the positions kept.
proof fn lemma_filter_selects<T>(from: Seq<T>, keep: spec_fn(T) -> bool)
    ensures
        selects(positions_kept(from, keep), from, keep, from.filter(keep)),
    decreases from.len(),
{
    reveal(Seq::filter);
    let picks = positions_kept(from, keep);
    if from.len() > 0 {
        let shorter = from.drop_last();
        let earlier = positions_kept(shorter, keep);
        let last = from.len() - 1;
        lemma_filter_selects(shorter, keep);
        assert forall|i: int| 0 <= i < from.len() implies (keep(#[trigger] from[i])
            <==> picks.contains(i)) by {
            if i < last {
                assert(from[i] == shorter[i]);
                if earlier.contains(i) {
                    let k = choose|k: int| 0 <= k < earlier.len() && earlier[k] == i;
                    assert(picks[k] == i);
                }
            } else {
                if keep(from[i]) {
                    assert(picks[picks.len() - 1] == i);
                }
            }
        }
    }
}

/// A test that every element passes keeps the whole sequence.
proof fn lemma_filter_keeps_all<T>(s: Seq<T>, keep: spec_fn(T) -> bool)
    requires
        forall|i: int| 0 <= i < s.len() ==> keep(s[i]),
    ensures
        s.filter(keep) == s,
    decreases s.len(),
{
    reveal(Seq::filter);
    if s.len() > 0 {
        lemma_filter_keeps_all(s.drop_last(), keep);
    }
}

/// Where every element that passes `narrow` passes `wide` too, filtering by
/// `wide` first loses nothing of what `narrow` keeps.
proof fn lemma_filter_within<T>(s: Seq<T>, narrow: spec_fn(T) -> bool, wide: spec_fn(T) -> bool)
    requires
        forall|i: int| 0 <= i < s.len() && narrow(s[i]) ==> wide(s[i]),
    ensures
        s.filter(wide).filter(narrow) == s.filter(narrow),
        s.filter(narrow).len() <= s.filter(wide).len(),
    decreases s.len(),
{
    reveal(Seq::filter);
    if s.len() > 0 {
        let shorter = s.drop_last();
        lemma_filter_within(shorter, narrow, wide);
        shorter.filter(wide).lemma_filter_push(s.last(), narrow);
    }
    s.filter(wide).lemma_filter_len(narrow);
}

/// What `search` returns is a selection from the lines of the content: the
/// lines that contain the query and no others, each as often as it stands
/// there, in the order in which they stand there.
pub proof fn lemma_search_selects(query: Seq<char>, content: Seq<char>)
    ensures
        selects(
            positions_kept(lines_of(content), has_exactly(query)),
            lines_of(content),
            has_exactly(query),
            matching_lines(query, content),
        ),
{
    lemma_filter_selects(lines_of(content), has_exactly(query));
}

/// What `search_insensitive` returns is a selection from the lines of the
/// content: the lines whose lowercase form contains the lowercase form of
/// the query and no others, each as often as it stands there, in the order
/// in which they stand there.
pub proof fn lemma_search_insensitive_selects(query: Seq<char>, content: Seq<char>)
    ensures
        selects(
            positions_kept(lines_of(content), has_folded(query)),
            lines_of(content),
            has_folded(query),
            matching_lines_folded(query, content),
        ),
{
    lemma_filter_selects(lines_of(content), has_folded(query));
}

/// Putting `query` and each of `lines` in lowercase loses no occurrence of
/// `query` in them.
///
/// This is not so for every text: lowercase turns a capital sigma into one
/// letter at the end of a word and into another elsewhere, so a query with
/// the sigma at its end may no longer be found in a line where a letter
/// follows it.
pub open spec fn folding_keeps_matches(query: Seq<char>, lines: Seq<Seq<char>>) -> bool {
    forall|i: int|
        0 <= i < lines.len() && is_substring(query, #[trigger] lines[i]) ==> is_substring(
            lowercase(query),
            lowercase(lines[i]),
        )
}

/// Where lowercase loses no occurrence of the query in the lines of the
/// content, `search_insensitive` returns every line that `search` returns:
/// the lines of `search` are those of `search_insensitive` that contain the
/// query exactly, so they are no more in number.
pub proof fn lemma_insensitive_finds_no_less(query: Seq<char>, content: Seq<char>)
    ensures
        folding_keeps_matches(query, lines_of(content)) ==> matching_lines(query, content)
            == matching_lines_folded(query, content).filter(has_exactly(query)),
        folding_keeps_matches(query, lines_of(content)) ==> matching_lines(query, content).len()
            <= matching_lines_folded(query, content).len(),
{
    if folding_keeps_matches(query, lines_of(content)) {
        lemma_filter_within(lines_of(content), has_exactly(query), has_folded(query));
    }
}

/// The empty query is found in every line: `search` returns all the lines
/// of the content.
pub proof fn lemma_empty_query_matches_every_line(query: Seq<char>, content: Seq<char>)
    requires
        query.len() == 0,
    ensures
        matching_lines(query, content) == lines_of(content),
{
    let all = lines_of(content);
    assert forall|i: int| 0 <= i < all.len() implies has_exactly(query)(all[i]) by {
        lemma_empty_is_substring(query, all[i]);
    }
    lemma_filter_keeps_all(all, has_exactly(query));
}

/// Returns the lines of `content` that contain `query`, compared exactly,
/// in their order in `content`. The empty query is found in every line.
pub fn search<'a>(query: &str, content: &'a str) -> (found: Vec<&'a str>)
    ensures
        found.deep_view() == matching_lines(query@, content@),
        query@.len() == 0 ==> found.deep_view() == lines_of(content@),
{
    let all = lines(content);
    let ghost keep = has_exactly(query@);
    let mut found: Vec<&'a str> = Vec::new();
    let mut i: usize = 0;
    proof {
        lemma_filter_keeps_all(Seq::<Seq<char>>::empty(), keep);
    }
    while i < all.len()
        invariant
            i <= all.len(),
            keep == has_exactly(query@),
            found.deep_view() == all.deep_view().take(i as int).filter(keep),
        decreases all.len() - i,
    {
        let line = all[i];
        let hit = contains(line, query);
        if hit {
            found.push(line);
        }
        proof {
            let seen = all.deep_view().take(i as int);
            assert(all.deep_view().take(i + 1) =~= seen.push(line@));
            seen.lemma_filter_push(line@, keep);
        }
        i += 1;
    }
    proof {
        assert(all.deep_view().take(all.len() as int) =~= all.deep_view());
        if query@.len() == 0 {
            lemma_empty_query_matches_every_line(query@, content@);
        }
    }
    found
}

/// Returns the lines of `content` that contain `query` when both are put in
/// lowercase, in their order in `content`. The lines come back as they stand
/// in `content`. The empty query is found in every line.
pub fn search_insensitive<'a>(query: &str, content: &'a str) -> (found: Vec<&'a str>)
    ensures
        found.deep_view() == matching_lines_folded(query@, content@),
        query@.len() == 0 ==> found.deep_view() == lines_of(content@),
{
    let folded_query = to_lowercase(query);
    let all = lines(content);
    let ghost keep = has_folded(query@);
    let mut found: Vec<&'a str> = Vec::new();
    let mut i: usize = 0;
    proof {
        lemma_filter_keeps_all(Seq::<Seq<char>>::empty(), keep);
    }
    while i < all.len()
        invariant
            i <= all.len(),
            keep == has_folded(query@),
            folded_query@ == lowercase(query@),
            found.deep_view() == all.deep_view().take(i as int).filter(keep),
        decreases all.len() - i,
    {
        let line = all[i];
        let folded_line = to_lowercase(line);
        let hit = contains(folded_line.as_str(), folded_query.as_str());
        if hit {
            found.push(line);
        }
        proof {
            let seen = all.deep_view().take(i as int);
            assert(all.deep_view().take(i + 1) =~= seen.push(line@));
            seen.lemma_filter_push(line@, keep);
        }
        i += 1;
    }
    proof {
        assert(all.deep_view().take(all.len() as int) =~= all.deep_view());
        if query@.len() == 0 {
            assert forall|k: int| 0 <= k < all.deep_view().len() implies keep(
                all.deep_view()[k],
            ) by {
                lemma_empty_is_substring(lowercase(query@), lowercase(all.deep_view()[k]));
            }
            lemma_filter_keeps_all(all.deep_view(), keep);
        }
    }
    found
}

} // verus!
