//! A line of context for the matches that a preview does not show.

use crate::context_spec::{
    dedupe_context_specs, distinct_keys, find_all_spec_hits, has_key, has_normal, key_ranges, keys,
    law_distinct_keys, law_hits_are_ranges, law_ordered_hits, law_repeated_key,
    lemma_ordered_hits_terms, names_found_term, normal_source, ordered_hits, total_ranges,
    valid_hit, ContextMatchSpec, SpecKey, TermHit, MAX_SPECS,
};
use crate::evidence::{
    count_in_mask, eligible, gaps_read, hit_clusters, in_mask, law_selected_covers_missing,
    law_when_a_cluster_is_selected, lemma_cluster_members, lemma_covers_missing,
    lemma_selected_valid, select_hidden_context_ranges, selected_ranges, terms_in,
};
use crate::highlight::{literal_keys, normal_keys, HighlightQuery};
use crate::literal::literal_texts;
use crate::normalize::{ascii_known, valid_range, NormalizedText};
use crate::ranges::ByteRange;
use crate::sanitize::{
    is_clean, is_gap, law_sanitized, law_sanitized_keeps, lemma_sanitized_plain, sanitize_preview,
    sanitized,
};
use crate::segments::{ellipsis_if, is_line, lemma_plain_concat, min_of, minus};
use crate::text::{
    byte_len, char_index, chars_of, lemma_char_index_monotone, lemma_shows_concat, on_boundary,
    shows, slice, string_of, IndexedText,
};
use crate::truncate::{
    all_plain, fits_width, is_plain, plain_truncated, simple_truncate, truncated,
};
use crate::words::{is_white, words};
use vstd::prelude::*;

verus! {

/// The characters for each of `count` segments, after an ellipsis around each.
pub open spec fn segment_budget(max_width: int, count: int) -> int {
    minus(max_width, count + 1) / count
}

/// The context characters on each side of a match of `len` characters.
pub open spec fn context_chars(budget: int, len: int) -> int {
    minus(minus(budget, len), 2) / 2
}

/// Where the window around the match `r` of `t` starts.
pub open spec fn window_start(t: Seq<char>, r: ByteRange, budget: int) -> int {
    let from = char_index(t, r.0 as int);
    let to = char_index(t, r.1 as int);
    minus(from, context_chars(budget, to - from) + 1)
}

/// Where the window around the match `r` of `t` ends.
pub open spec fn window_end(t: Seq<char>, r: ByteRange, budget: int) -> int {
    let from = char_index(t, r.0 as int);
    let to = char_index(t, r.1 as int);
    min_of(to + context_chars(budget, to - from), t.len() as int)
}

/// A context line in the making: what stands in it, how many characters are left,
/// where in the text the last window ended, and whether a segment was cut.
#[verifier::ext_equal]
pub ghost struct ContextState {
    pub line: Seq<char>,
    pub remaining: int,
    pub prev_end: int,
    pub cut: bool,
}

/// The state after the match `r`: its window, as far as the one before it leaves
/// it, is cleaned and added, behind an ellipsis where something lies between;
/// where it is too long it is cut, and nothing follows.
pub open spec fn add_window(t: Seq<char>, s: ContextState, r: ByteRange, budget: int) -> ContextState {
    let wanted = window_start(t, r, budget);
    let start = if wanted >= s.prev_end {
        wanted
    } else {
        s.prev_end
    };
    let end = window_end(t, r, budget);
    let gap = start > s.prev_end;
    let clean = sanitized(t.subrange(start, end));
    let left = if gap {
        minus(s.remaining, 1)
    } else {
        s.remaining
    };
    let line = s.line + ellipsis_if(gap);
    if s.cut {
        s
    } else if clean.len() <= left {
        ContextState {
            line: line + clean,
            remaining: left - clean.len(),
            prev_end: end,
            cut: false,
        }
    } else {
        ContextState {
            line: (line + clean.take(minus(left, 1))).push('…'),
            remaining: 0,
            prev_end: end,
            cut: true,
        }
    }
}

/// The state after all of `ranges`.
pub open spec fn add_windows(
    t: Seq<char>,
    ranges: Seq<ByteRange>,
    budget: int,
    max_width: int,
) -> ContextState
    decreases ranges.len(),
{
    if ranges.len() == 0 {
        ContextState { line: Seq::empty(), remaining: max_width, prev_end: 0, cut: false }
    } else {
        add_window(
            t,
            add_windows(t, ranges.drop_last(), budget, max_width),
            ranges.last(),
            budget,
        )
    }
}

/// The context line before it is cut to the width: with an ellipsis at the end
/// where there is room and the last match does not reach the end of `t`.
pub open spec fn windows_line(t: Seq<char>, ranges: Seq<ByteRange>, max_width: usize) -> Seq<char> {
    let s = add_windows(
        t,
        ranges,
        segment_budget(max_width as int, ranges.len() as int),
        max_width as int,
    );
    s.line + ellipsis_if(s.remaining > 0 && ranges.last().1 < byte_len(t))
}

/// The context line for the matches `ranges` of `t`, `None` where nothing is left
/// to show.
pub open spec fn context_line(t: Seq<char>, ranges: Seq<ByteRange>, max_width: usize) -> Option<
    Seq<char>,
> {
    let line = windows_line(t, ranges, max_width);
    if line.len() == 0 {
        None
    } else {
        Some(truncated(line, max_width))
    }
}

/// [`context_line`] for a line of one-column characters.
pub open spec fn plain_context_line(t: Seq<char>, ranges: Seq<ByteRange>, max_width: usize) -> Option<
    Seq<char>,
> {
    let line = windows_line(t, ranges, max_width);
    if line.len() == 0 {
        None
    } else {
        Some(plain_truncated(line, max_width))
    }
}

/// In the state `s`, the window of the match `r` can be added: nothing is added
/// any more, or `r` is a range of whole characters whose window does not end
/// before the last one.
pub open spec fn window_follows(t: Seq<char>, s: ContextState, r: ByteRange, budget: int) -> bool {
    s.cut || {
        &&& r.0 <= r.1
        &&& on_boundary(t, r.0 as int)
        &&& on_boundary(t, r.1 as int)
        &&& s.prev_end <= window_end(t, r, budget)
    }
}

/// The windows of `ranges` can be added in turn.
pub open spec fn windows_follow(t: Seq<char>, ranges: Seq<ByteRange>, max_width: usize) -> bool {
    let budget = segment_budget(max_width as int, ranges.len() as int);
    forall|i: int|
        0 <= i < ranges.len() ==> window_follows(
            t,
            add_windows(t, #[trigger] ranges.take(i), budget, max_width as int),
            ranges[i],
            budget,
        )
}

/// Ranges of whole characters of `t` in the order of their starts and ends.
pub open spec fn ranges_in_order(t: Seq<char>, ranges: Seq<ByteRange>) -> bool {
    &&& forall|i: int|
        0 <= i < ranges.len() ==> {
            &&& (#[trigger] ranges[i]).0 <= ranges[i].1
            &&& on_boundary(t, ranges[i].0 as int)
            &&& on_boundary(t, ranges[i].1 as int)
        }
    &&& forall|i: int, j: int|
        0 <= i < j < ranges.len() ==> (#[trigger] ranges[i]).0 <= (#[trigger] ranges[j]).0
            && ranges[i].1 <= ranges[j].1
}

/// Printable ASCII, but for line breaks and tabs.
pub open spec fn plain_lines(t: Seq<char>) -> bool {
    forall|i: int| 0 <= i < t.len() ==> is_plain(#[trigger] t[i]) || is_gap(t[i])
}

proof fn lemma_window(t: Seq<char>, r: ByteRange, budget: int)
    requires
        r.0 <= r.1,
    ensures
        0 <= window_start(t, r, budget) <= window_end(t, r, budget) <= t.len(),
{
    lemma_char_index_monotone(t, r.0 as int, r.1 as int);
}

proof fn lemma_windows_advance(t: Seq<char>, a: ByteRange, b: ByteRange, budget: int)
    requires
        a.0 <= a.1,
        b.0 <= b.1,
        a.0 <= b.0,
        a.1 <= b.1,
    ensures
        window_end(t, a, budget) <= window_end(t, b, budget),
{
    lemma_char_index_monotone(t, a.0 as int, b.0 as int);
    lemma_char_index_monotone(t, a.1 as int, b.1 as int);
    lemma_char_index_monotone(t, a.0 as int, a.1 as int);
    lemma_char_index_monotone(t, b.0 as int, b.1 as int);
}

/// The windows of ranges of whole characters in the order of their starts and
/// ends can be added in turn.
pub proof fn law_windows_in_order(t: Seq<char>, ranges: Seq<ByteRange>, max_width: usize)
    requires
        ranges_in_order(t, ranges),
    ensures
        windows_follow(t, ranges, max_width),
{
    let budget = segment_budget(max_width as int, ranges.len() as int);
    assert forall|i: int| 0 <= i < ranges.len() implies window_follows(
        t,
        add_windows(t, #[trigger] ranges.take(i), budget, max_width as int),
        ranges[i],
        budget,
    ) by {
        let r = ranges[i];
        assert(r.0 <= r.1);
        lemma_window(t, r, budget);
        if i > 0 {
            let last = ranges[i - 1];
            assert(last.0 <= r.0 && last.0 <= last.1);
            lemma_windows_advance(t, last, r, budget);
            assert(ranges.take(i).last() == last);
        }
    }
}

/// The context line for the matches `hidden_matches`, of which there is at least
/// one. Of printable ASCII, no more than `max_width` characters come out.
pub fn build_context_segments_from_ranges_unchecked(
    full_text: &str,
    hidden_matches: &[(usize, usize)],
    max_width: usize,
) -> (line: Option<String>)
    requires
        hidden_matches@.len() > 0,
        windows_follow(full_text@, hidden_matches@, max_width),
    ensures
        is_line(line, context_line(full_text@, hidden_matches@, max_width)),
        plain_lines(full_text@) ==> is_line(
            line,
            plain_context_line(full_text@, hidden_matches@, max_width),
        ),
        line is Some ==> fits_width(line.unwrap()@, max_width),
        plain_lines(full_text@) && line is Some ==> all_plain(line.unwrap()@)
            && line.unwrap()@.len() <= max_width,
{
    let text = IndexedText::new(full_text);
    let ghost t = full_text@;
    let ghost ranges = hidden_matches@;
    let count: usize = hidden_matches.len();
    let budget: usize = max_width.saturating_sub(count).saturating_sub(1) / count;
    assert(budget == segment_budget(max_width as int, ranges.len() as int));
    let len: usize = text.len();
    let mut result = String::new();
    let mut remaining: usize = max_width;
    let mut prev_end: usize = 0;
    let mut i: usize = 0;
    let ghost mut state = add_windows(t, ranges.take(0), budget as int, max_width as int);
    assert(ranges.take(0) =~= Seq::<ByteRange>::empty());
    assert(ranges.take(count as int) =~= ranges);
    while i < count
        invariant_except_break
            i <= count,
            state == add_windows(t, ranges.take(i as int), budget as int, max_width as int),
            prev_end == state.prev_end,
            !state.cut,
        invariant
            text@ == t,
            t == full_text@,
            len == t.len(),
            ranges == hidden_matches@,
            count == ranges.len(),
            ranges.take(count as int) == ranges,
            budget == segment_budget(max_width as int, ranges.len() as int),
            windows_follow(t, ranges, max_width),
            result@ == state.line,
            remaining == state.remaining,
            plain_lines(t) ==> all_plain(result@),
        ensures
            state == add_windows(t, ranges, budget as int, max_width as int),
        decreases count - i,
    {
        let (match_start, match_end) = hidden_matches[i];
        let ghost r = ranges[i as int];
        proof {
            assert(window_follows(t, state, r, budget as int));
            lemma_char_index_monotone(t, r.0 as int, r.1 as int);
            lemma_window(t, r, budget as int);
            assert(ranges.take(i + 1).drop_last() =~= ranges.take(i as int));
            assert(ranges.take(i + 1).last() == r);
        }
        let from: usize = text.char_index(match_start);
        let to: usize = text.char_index(match_end);
        let context: usize = budget.saturating_sub(to - from).saturating_sub(2) / 2;
        let wanted: usize = from.saturating_sub(context).saturating_sub(1);
        let start: usize = if wanted >= prev_end { wanted } else { prev_end };
        let sum: usize = to.saturating_add(context);
        let end: usize = if sum <= len { sum } else { len };
        assert(wanted == window_start(t, r, budget as int));
        assert(end == window_end(t, r, budget as int));

        let snippet = text.substring(start, end);
        let clean = sanitize_preview(snippet.as_str());
        let has_gap = start > prev_end;
        let ghost before = result@;
        if has_gap {
            result.push('…');
            remaining = remaining.saturating_sub(1);
        }
        assert(result@ =~= before + ellipsis_if(has_gap));
        let ghost line = result@;
        let ghost previous = state;
        proof {
            state = add_windows(t, ranges.take(i + 1), budget as int, max_width as int);
            if plain_lines(t) {
                lemma_plain_concat(before, ellipsis_if(has_gap));
                assert forall|k: int| 0 <= k < snippet@.len() implies is_plain(
                    #[trigger] snippet@[k],
                ) || is_gap(snippet@[k]) by {
                    assert(snippet@[k] == t[start + k]);
                }
                lemma_sanitized_plain(snippet@);
                lemma_plain_concat(line, clean@);
            }
        }
        let clean_chars = chars_of(clean.as_str());
        let clean_len: usize = clean_chars.len();
        if clean_len <= remaining {
            result.append(clean.as_str());
            remaining = remaining - clean_len;
            prev_end = end;
        } else {
            let keep: usize = remaining.saturating_sub(1);
            let part = string_of(&clean_chars, 0, keep);
            result.append(part.as_str());
            let ghost joined = result@;
            result.push('…');
            remaining = 0;
            proof {
                assert(part@ =~= clean@.take(keep as int));
                assert(result@ =~= state.line);
                if plain_lines(t) {
                    assert forall|k: int| 0 <= k < result@.len() implies is_plain(
                        #[trigger] result@[k],
                    ) by {
                        if k < line.len() {
                            assert(result@[k] == line[k]);
                        } else if k < joined.len() {
                            assert(result@[k] == clean@[k - line.len()]);
                        }
                    }
                }
                lemma_cut_stays(t, ranges, budget as int, max_width as int, i + 1);
            }
            break;
        }
        i = i + 1;
    }
    let last_end: usize = hidden_matches[count - 1].1;
    let more = remaining > 0 && last_end < text.byte_len();
    let ghost before = result@;
    if more {
        result.push('…');
    }
    proof {
        assert(result@ =~= before + ellipsis_if(more));
        assert(result@ == windows_line(t, ranges, max_width));
        if plain_lines(t) {
            lemma_plain_concat(before, ellipsis_if(more));
        }
    }
    if result.as_str().is_empty() {
        None
    } else {
        Some(simple_truncate(result.as_str(), max_width))
    }
}

/// Once a segment was cut, later ranges change nothing.
proof fn lemma_cut_stays(t: Seq<char>, ranges: Seq<ByteRange>, budget: int, max_width: int, n: int)
    requires
        0 <= n <= ranges.len(),
        add_windows(t, ranges.take(n), budget, max_width).cut,
    ensures
        add_windows(t, ranges, budget, max_width) == add_windows(
            t,
            ranges.take(n),
            budget,
            max_width,
        ),
    decreases ranges.len() - n,
{
    if n < ranges.len() {
        assert(ranges.take(n + 1).drop_last() =~= ranges.take(n));
        lemma_cut_stays(t, ranges, budget, max_width, n + 1);
    } else {
        assert(ranges.take(n) =~= ranges);
    }
}

/// The context line for the matches `hidden_matches`, `None` where there is none
/// or no width.
pub fn build_context_segments_from_ranges(
    full_text: &str,
    hidden_matches: &[(usize, usize)],
    max_width: usize,
) -> (line: Option<String>)
    requires
        hidden_matches@.len() > 0 && max_width > 0 ==> windows_follow(
            full_text@,
            hidden_matches@,
            max_width,
        ),
    ensures
        if hidden_matches@.len() == 0 || max_width == 0 {
            line is None
        } else {
            &&& is_line(line, context_line(full_text@, hidden_matches@, max_width))
            &&& plain_lines(full_text@) ==> is_line(
                line,
                plain_context_line(full_text@, hidden_matches@, max_width),
            )
        },
        line is Some ==> fits_width(line.unwrap()@, max_width),
        plain_lines(full_text@) && line is Some ==> all_plain(line.unwrap()@)
            && line.unwrap()@.len() <= max_width,
{
    if hidden_matches.len() == 0 || max_width == 0 {
        return None;
    }
    build_context_segments_from_ranges_unchecked(full_text, hidden_matches, max_width)
}

/// The cleaned window around the match `r` of `t`, behind an ellipsis where it
/// starts inside the text.
pub open spec fn window_text(t: Seq<char>, r: ByteRange, budget: int) -> Seq<char> {
    ellipsis_if(window_start(t, r, budget) > 0) + sanitized(
        t.subrange(window_start(t, r, budget), window_end(t, r, budget)),
    )
}

/// Around one match that leaves two columns, the context line is the cleaned
/// window around the match, uncut, with an ellipsis before it where the window
/// starts inside the text, and one behind it where the text goes on after the
/// match and there is room; and the match lies inside the window.
pub proof fn law_context_line_of_one_match(t: Seq<char>, r: ByteRange, max_width: usize)
    requires
        r.0 <= r.1,
        char_index(t, r.1 as int) - char_index(t, r.0 as int) + 2 <= max_width,
    ensures
        windows_line(t, seq![r], max_width) == window_text(t, r, max_width - 2) + ellipsis_if(
            r.1 < byte_len(t) && window_text(t, r, max_width - 2).len() < max_width,
        ),
        window_text(t, r, max_width - 2).len() <= max_width,
        window_start(t, r, max_width - 2) <= char_index(t, r.0 as int),
        char_index(t, r.1 as int) <= window_end(t, r, max_width - 2),
{
    let budget = max_width - 2;
    let one = seq![r];
    lemma_char_index_monotone(t, r.0 as int, r.1 as int);
    assert(minus(max_width as int, 2) / 1 == budget) by (nonlinear_arith)
        requires
            minus(max_width as int, 2) == budget,
    ;
    lemma_window(t, r, budget);
    let start = window_start(t, r, budget);
    let end = window_end(t, r, budget);
    let window = t.subrange(start, end);
    law_sanitized(window);
    assert(one.drop_last() =~= Seq::<ByteRange>::empty());
    let first = add_windows(t, one.drop_last(), budget, max_width as int);
    let s = add_windows(t, one, budget, max_width as int);
    assert(s == add_window(t, first, r, budget));
    assert(first.line + ellipsis_if(start > 0) =~= ellipsis_if(start > 0));
    assert(sanitized(window).len() <= max_width - 1);
}

/// In a text without tags, a clean match that neither starts nor ends with
/// whitespace and leaves two columns stands in the context line in one piece,
/// before the line is cut to the width, and the line has no more characters than
/// the width has columns.
pub proof fn law_context_line_shows_match(t: Seq<char>, r: ByteRange, max_width: usize)
    requires
        r.0 <= r.1,
        char_index(t, r.1 as int) - char_index(t, r.0 as int) + 2 <= max_width,
        forall|i: int| 0 <= i < t.len() ==> #[trigger] t[i] != '<' && t[i] != '>',
        is_clean(slice(t, r.0 as int, r.1 as int)),
        slice(t, r.0 as int, r.1 as int).len() > 0,
        !is_white(slice(t, r.0 as int, r.1 as int)[0]),
        !is_white(slice(t, r.0 as int, r.1 as int).last()),
    ensures
        shows(windows_line(t, seq![r], max_width), slice(t, r.0 as int, r.1 as int)),
        windows_line(t, seq![r], max_width).len() <= max_width,
{
    let budget = max_width - 2;
    let part = slice(t, r.0 as int, r.1 as int);
    let from = char_index(t, r.0 as int);
    let to = char_index(t, r.1 as int);
    let start = window_start(t, r, budget);
    let end = window_end(t, r, budget);
    let window = t.subrange(start, end);
    let before = t.subrange(start, from);
    let after = t.subrange(to, end);
    lemma_char_index_monotone(t, r.0 as int, r.1 as int);
    lemma_window(t, r, budget);
    law_context_line_of_one_match(t, r, max_width);
    assert(window =~= before + part + after);
    law_sanitized_keeps(before, part, after);
    law_sanitized(window);
    let front = ellipsis_if(start > 0);
    lemma_shows_concat(sanitized(window), front, part);
    lemma_shows_concat(
        front + sanitized(window),
        ellipsis_if(r.1 < byte_len(t) && window_text(t, r, budget).len() < max_width),
        part,
    );
}

/// The term `key` has no hit in the preview.
pub open spec fn is_missing(preview: Seq<char>, key: SpecKey) -> bool {
    key_ranges(preview, preview, key).len() == 0
}

/// The terms of `list` without a hit in the preview, as a set of bits.
pub open spec fn missing_bits(preview: Seq<char>, list: Seq<SpecKey>) -> u64
    decreases list.len(),
{
    if list.len() == 0 {
        0
    } else if is_missing(preview, list.last()) {
        missing_bits(preview, list.drop_last()) | (1u64 << ((list.len() - 1) as u64))
    } else {
        missing_bits(preview, list.drop_last())
    }
}

/// How many of the terms `list` have no hit in the preview.
pub open spec fn missing_number(preview: Seq<char>, list: Seq<SpecKey>) -> nat
    decreases list.len(),
{
    if list.len() == 0 {
        0
    } else {
        missing_number(preview, list.drop_last()) + if is_missing(preview, list.last()) {
            1nat
        } else {
            0
        }
    }
}

/// The text has a hit that calls for context: one of a missing term, or one more
/// than the preview shows.
pub open spec fn context_wanted(full: Seq<char>, preview: Seq<char>, list: Seq<SpecKey>) -> bool {
    let hits = ordered_hits(full, full, list);
    &&& hits.len() > 0
    &&& missing_number(preview, list) == 0 ==> hits.len() > ordered_hits(
        preview,
        preview,
        list,
    ).len()
}

/// The ranges that a context line for the terms `given` is built around, of
/// which repeated ones are dropped; `None` where no context is wanted.
pub open spec fn specs_ranges(
    full: Seq<char>,
    preview: Seq<char>,
    given: Seq<SpecKey>,
    max_width: usize,
) -> Option<Seq<ByteRange>> {
    let list = distinct_keys(given);
    if given.len() == 0 || max_width == 0 || !context_wanted(full, preview, list) {
        None
    } else {
        selected_ranges(
            full,
            ordered_hits(full, full, list),
            missing_bits(preview, list),
            missing_number(preview, list) as u32,
        )
    }
}

/// The context line for the terms `given`.
pub open spec fn specs_line(
    full: Seq<char>,
    preview: Seq<char>,
    given: Seq<SpecKey>,
    max_width: usize,
) -> Option<Seq<char>> {
    match specs_ranges(full, preview, given, max_width) {
        Some(ranges) => context_line(full, ranges, max_width),
        None => None,
    }
}

/// [`specs_line`] for a line of one-column characters.
pub open spec fn plain_specs_line(
    full: Seq<char>,
    preview: Seq<char>,
    given: Seq<SpecKey>,
    max_width: usize,
) -> Option<Seq<char>> {
    match specs_ranges(full, preview, given, max_width) {
        Some(ranges) => plain_context_line(full, ranges, max_width),
        None => None,
    }
}

/// What is known of letters and digits once a context line was asked for: of the
/// ASCII characters of both texts where a normalized term was looked up, and of
/// the gaps between the hits where a cluster of them was selected.
pub open spec fn letters_known(
    full: Seq<char>,
    preview: Seq<char>,
    given: Seq<SpecKey>,
    max_width: usize,
) -> bool {
    let list = distinct_keys(given);
    &&& max_width > 0 && has_normal(list) ==> ascii_known(full) && ascii_known(preview)
    &&& max_width > 0 && given.len() > 0 && context_wanted(full, preview, list) ==> gaps_read(
        full,
        ordered_hits(full, full, list),
    )
}

proof fn lemma_missing_number(preview: Seq<char>, list: Seq<SpecKey>)
    ensures
        missing_number(preview, list) <= list.len(),
    decreases list.len(),
{
    if list.len() > 0 {
        lemma_missing_number(preview, list.drop_last());
    }
}

/// The bits stand for the missing terms: bit `i` is set where term `i` has no
/// hit in the preview, and no other bit is.
pub proof fn law_missing_bits(preview: Seq<char>, list: Seq<SpecKey>, i: usize)
    requires
        list.len() <= MAX_SPECS,
    ensures
        in_mask(missing_bits(preview, list), i) <==> i < list.len() && is_missing(
            preview,
            list[i as int],
        ),
    decreases list.len(),
{
    if i < 64 {
        let j = i as u64;
        if list.len() == 0 {
            assert((0u64 >> j) & 1 == 0) by (bit_vector);
        } else {
            let front = list.drop_last();
            let m = missing_bits(preview, front);
            let k = (list.len() - 1) as u64;
            law_missing_bits(preview, front, i);
            if i < front.len() {
                assert(front[i as int] == list[i as int]);
            }
            if is_missing(preview, list.last()) {
                if j == k {
                    assert(((m | (1u64 << k)) >> k) & 1 == 1) by (bit_vector)
                        requires
                            k < 64,
                    ;
                } else {
                    assert(((m | (1u64 << k)) >> j) & 1 == (m >> j) & 1) by (bit_vector)
                        requires
                            k < 64,
                            j < 64,
                            j != k,
                    ;
                }
            }
        }
    }
}

/// A repeated term, in whatever case of ASCII letters, changes no context line.
pub proof fn law_repeated_terms(
    full: Seq<char>,
    preview: Seq<char>,
    before: Seq<SpecKey>,
    key: SpecKey,
    after: Seq<SpecKey>,
    max_width: usize,
)
    requires
        has_key(before, key),
    ensures
        specs_line(full, preview, before.push(key) + after, max_width) == specs_line(
            full,
            preview,
            before + after,
            max_width,
        ),
{
    law_repeated_key(before, key, after);
}

/// A preview that shows the whole text leaves nothing for a context line.
pub proof fn law_no_context_beside_whole_text(t: Seq<char>, given: Seq<SpecKey>, max_width: usize)
    ensures
        specs_line(t, t, given, max_width) is None,
{
    let list = distinct_keys(given);
    law_distinct_keys(given);
    lemma_missing_number(t, list);
    if missing_number(t, list) > 0 {
        let hits = ordered_hits(t, t, list);
        let mask = missing_bits(t, list);
        let count = missing_number(t, list) as u32;
        let clusters = hit_clusters(hits);
        let found = |h: TermHit| names_found_term(t, list, h);
        lemma_ordered_hits_terms(t, list);
        assert forall|i: int| 0 <= i < hits.len() implies found(#[trigger] hits[i]) by {
            assert(names_found_term(t, list, hits[i]));
        }
        lemma_cluster_members(hits, found);
        assert forall|i: int| 0 <= i < clusters.len() implies !eligible(
            #[trigger] clusters[i],
            mask,
            count,
        ) by {
            let c = clusters[i];
            if count_in_mask(terms_in(c), mask) > 0 {
                lemma_covers_missing(c, mask);
                let k = choose|k: int| 0 <= k < c.len() && in_mask(mask, (#[trigger] c[k]).term_idx);
                assert(found(clusters[i][k]));
                law_missing_bits(t, list, c[k].term_idx);
            }
        }
    }
}

/// `hit` is a hit of a term of `list` that the preview does not show, and lies in
/// `r`.
pub open spec fn holds_missing_hit(
    preview: Seq<char>,
    list: Seq<SpecKey>,
    r: ByteRange,
    hit: TermHit,
) -> bool {
    &&& hit.term_idx < list.len()
    &&& is_missing(preview, list[hit.term_idx as int])
    &&& r.0 <= hit.start
    &&& hit.end <= r.1
}

/// Where terms of the query are missing from the preview, the range that the
/// context line is built around holds a hit of one of them.
pub proof fn law_context_shows_missing_term(
    full: Seq<char>,
    preview: Seq<char>,
    given: Seq<SpecKey>,
)
    requires
        byte_len(full) <= usize::MAX,
        missing_number(preview, distinct_keys(given)) > 0,
    ensures
        selected_ranges(
            full,
            ordered_hits(full, full, distinct_keys(given)),
            missing_bits(preview, distinct_keys(given)),
            missing_number(preview, distinct_keys(given)) as u32,
        ) matches Some(ranges) ==> exists|k: int|
            0 <= k < ordered_hits(full, full, distinct_keys(given)).len() && holds_missing_hit(
                preview,
                distinct_keys(given),
                ranges[0],
                #[trigger] ordered_hits(full, full, distinct_keys(given))[k],
            ),
{
    let list = distinct_keys(given);
    let hits = ordered_hits(full, full, list);
    let mask = missing_bits(preview, list);
    let count = missing_number(preview, list) as u32;
    law_distinct_keys(given);
    lemma_missing_number(preview, list);
    law_ordered_hits(full, list);
    law_selected_covers_missing(full, hits, mask, count);
    if let Some(ranges) = selected_ranges(full, hits, mask, count) {
        let k = choose|k: int|
            0 <= k < hits.len() && in_mask(mask, (#[trigger] hits[k]).term_idx) && ranges[0].0
                <= hits[k].start && hits[k].end <= ranges[0].1;
        law_missing_bits(preview, list, hits[k].term_idx);
        assert(holds_missing_hit(preview, list, ranges[0], hits[k]));
    }
}

/// The terms that count as missing are those without a range in the preview.
pub proof fn law_missing_number(preview: Seq<char>, list: Seq<SpecKey>)
    ensures
        missing_number(preview, list) == list.filter(
            |key: SpecKey| key_ranges(preview, preview, key).len() == 0,
        ).len(),
        missing_number(preview, list) > 0 <==> exists|i: int|
            0 <= i < list.len() && key_ranges(preview, preview, #[trigger] list[i]).len() == 0,
    decreases list.len(),
{
    reveal(Seq::filter);
    if list.len() > 0 {
        let front = list.drop_last();
        law_missing_number(preview, front);
        assert(list[list.len() - 1] == list.last());
        if missing_number(preview, front) > 0 {
            let i = choose|i: int|
                0 <= i < front.len() && key_ranges(preview, preview, #[trigger] front[i]).len() == 0;
            assert(list[i] == front[i]);
        }
        if exists|i: int|
            0 <= i < list.len() && key_ranges(preview, preview, #[trigger] list[i]).len() == 0 {
            let i = choose|i: int|
                0 <= i < list.len() && key_ranges(preview, preview, #[trigger] list[i]).len() == 0;
            if i < front.len() {
                assert(front[i] == list[i]);
            }
        }
    }
}

/// A context line is built exactly where there are terms and a width, and the text
/// has more to show than the preview: where the preview shows every term, more ranges
/// of the terms in the text than in the preview; and else a range of a term that the
/// preview does not show. It is built around the ranges that are selected.
pub proof fn law_when_context_is_shown(
    full: Seq<char>,
    preview: Seq<char>,
    given: Seq<SpecKey>,
    max_width: usize,
)
    ensures
        specs_ranges(full, preview, given, max_width) is Some <==> {
            let list = distinct_keys(given);
            &&& given.len() > 0
            &&& max_width > 0
            &&& if forall|i: int|
                0 <= i < list.len() ==> key_ranges(preview, preview, #[trigger] list[i]).len() > 0 {
                total_ranges(full, full, list) > total_ranges(preview, preview, list)
            } else {
                exists|i: int|
                    0 <= i < list.len() && key_ranges(preview, preview, #[trigger] list[i]).len()
                        == 0 && key_ranges(full, full, list[i]).len() > 0
            }
        },
        specs_ranges(full, preview, given, max_width) is Some ==> specs_ranges(
            full,
            preview,
            given,
            max_width,
        ) == selected_ranges(
            full,
            ordered_hits(full, full, distinct_keys(given)),
            missing_bits(preview, distinct_keys(given)),
            missing_number(preview, distinct_keys(given)) as u32,
        ),
        match specs_ranges(full, preview, given, max_width) {
            Some(ranges) => specs_line(full, preview, given, max_width) == context_line(
                full,
                ranges,
                max_width,
            ) && plain_specs_line(full, preview, given, max_width) == plain_context_line(
                full,
                ranges,
                max_width,
            ),
            None => specs_line(full, preview, given, max_width) is None && plain_specs_line(
                full,
                preview,
                given,
                max_width,
            ) is None,
        },
{
    let list = distinct_keys(given);
    let hits = ordered_hits(full, full, list);
    let mask = missing_bits(preview, list);
    let count = missing_number(preview, list) as u32;
    let none = TermHit { start: 0, end: 0, term_idx: 0 };
    law_distinct_keys(given);
    lemma_missing_number(preview, list);
    law_missing_number(preview, list);
    law_hits_are_ranges(full, full, list, none, 0, 0);
    law_hits_are_ranges(preview, preview, list, none, 0, 0);
    law_when_a_cluster_is_selected(full, hits, mask, count);
    if count > 0 {
        if exists|i: int|
            0 <= i < hits.len() && (#[trigger] hits[i]).term_idx < 64 && (mask >> (
            hits[i].term_idx as u64)) & 1 == 1 {
            let i = choose|i: int|
                0 <= i < hits.len() && (#[trigger] hits[i]).term_idx < 64 && (mask >> (
                hits[i].term_idx as u64)) & 1 == 1;
            let h = hits[i];
            assert(in_mask(mask, h.term_idx));
            law_missing_bits(preview, list, h.term_idx);
            law_hits_are_ranges(full, full, list, h, 0, 0);
            assert(hits.contains(h));
            let key = list[h.term_idx as int];
            assert(key_ranges(full, full, key).len() > 0);
        }
        if exists|i: int|
            0 <= i < list.len() && key_ranges(preview, preview, #[trigger] list[i]).len() == 0
                && key_ranges(full, full, list[i]).len() > 0 {
            let i = choose|i: int|
                0 <= i < list.len() && key_ranges(preview, preview, #[trigger] list[i]).len() == 0
                    && key_ranges(full, full, list[i]).len() > 0;
            let r = key_ranges(full, full, list[i])[0];
            let h = TermHit { start: r.0, end: r.1, term_idx: i as usize };
            assert(key_ranges(full, full, list[i]).contains(r));
            law_hits_are_ranges(full, full, list, h, 0, 0);
            law_missing_bits(preview, list, h.term_idx);
            let x = choose|x: int| 0 <= x < hits.len() && hits[x] == h;
            assert(in_mask(mask, hits[x].term_idx));
        }
    }
}

/// The windows leave room: of the characters that are not the match nor reserved for
/// ellipses, each side of the match gets half, and the left side one more; where
/// nothing is left, the left side gets one. `budget` is the share of each of `count`
/// matches in the width, after an ellipsis around each.
pub proof fn law_window(
    t: Seq<char>,
    r: ByteRange,
    max_width: int,
    count: int,
) -> (sides: (int, int))
    requires
        count > 0,
        0 <= max_width,
        r.0 <= r.1,
    ensures
        ({
            let budget = segment_budget(max_width, count);
            let from = char_index(t, r.0 as int);
            let to = char_index(t, r.1 as int);
            let spare = budget - (to - from) - 2;
            &&& max_width >= count + 1 ==> count * budget + count + 1 <= max_width < count * (budget
                + 1) + count + 1
            &&& max_width < count + 1 ==> budget == 0
            &&& sides.0 == sides.1 + 1
            &&& spare >= 0 ==> spare - 1 <= 2 * sides.1 <= spare
            &&& spare < 0 ==> sides.1 == 0
            &&& window_start(t, r, budget) == if from >= sides.0 {
                from - sides.0
            } else {
                0
            }
            &&& window_end(t, r, budget) == if to + sides.1 <= t.len() {
                to + sides.1
            } else {
                t.len() as int
            }
        }),
{
    let budget = segment_budget(max_width, count);
    let room = minus(max_width, count + 1);
    assert(count * budget <= room < count * (budget + 1)) by (nonlinear_arith)
        requires
            budget == room / count,
            count > 0,
    ;
    if max_width < count + 1 {
        assert(budget == 0) by (nonlinear_arith)
            requires
                budget == 0int / count,
                count > 0,
        ;
    }
    lemma_char_index_monotone(t, r.0 as int, r.1 as int);
    let side = context_chars(budget, char_index(t, r.1 as int) - char_index(t, r.0 as int));
    (side + 1, side)
}

/// The window of another match is cleaned and added where it fits, behind an ellipsis
/// where it does not start where the last one ended; where it does not fit, what fits
/// of it and an ellipsis are added, and then nothing more.
pub proof fn law_next_window(
    t: Seq<char>,
    ranges: Seq<ByteRange>,
    r: ByteRange,
    budget: int,
    max_width: int,
)
    requires
        0 <= max_width,
        r.0 <= r.1,
    ensures
        ({
            let s = add_windows(t, ranges, budget, max_width);
            let next = add_windows(t, ranges.push(r), budget, max_width);
            let wanted = window_start(t, r, budget);
            let start = if wanted >= s.prev_end {
                wanted
            } else {
                s.prev_end
            };
            let end = window_end(t, r, budget);
            let gap = if start > s.prev_end {
                seq!['…']
            } else {
                Seq::empty()
            };
            let clean = sanitized(t.subrange(start, end));
            let room = if s.remaining >= gap.len() {
                s.remaining - gap.len()
            } else {
                0
            };
            &&& s.cut ==> next == s
            &&& !s.cut && clean.len() <= room ==> {
                &&& next.line == s.line + gap + clean
                &&& next.remaining == room - clean.len()
                &&& next.prev_end == end
                &&& !next.cut
            }
            &&& !s.cut && clean.len() > room ==> {
                &&& next.line == s.line + gap + clean.take(
                    if room > 0 {
                        room - 1
                    } else {
                        0
                    },
                ) + seq!['…']
                &&& next.remaining == 0
                &&& next.cut
            }
        }),
        add_windows(t, Seq::empty(), budget, max_width) == (ContextState {
            line: Seq::empty(),
            remaining: max_width,
            prev_end: 0,
            cut: false,
        }),
{
    let s = add_windows(t, ranges, budget, max_width);
    let next = add_windows(t, ranges.push(r), budget, max_width);
    assert(ranges.push(r).drop_last() =~= ranges);
    assert(next == add_window(t, s, r, budget));
    if next.cut && !s.cut {
        let wanted = window_start(t, r, budget);
        let start = if wanted >= s.prev_end {
            wanted
        } else {
            s.prev_end
        };
        let gap = ellipsis_if(start > s.prev_end);
        let clean = sanitized(t.subrange(start, window_end(t, r, budget)));
        let left = if start > s.prev_end {
            minus(s.remaining, 1)
        } else {
            s.remaining
        };
        assert(next.line =~= s.line + gap + clean.take(minus(left, 1)) + seq!['…']);
    }
}

/// The context line is the windows of the matches, each with its share of the width,
/// and an ellipsis where there is room and the last match does not end the text; it
/// is cut to the width, and there is none where nothing is left to show.
pub proof fn law_context_line(t: Seq<char>, ranges: Seq<ByteRange>, max_width: usize)
    requires
        ranges.len() > 0,
    ensures
        ({
            let s = add_windows(
                t,
                ranges,
                segment_budget(max_width as int, ranges.len() as int),
                max_width as int,
            );
            let line = windows_line(t, ranges, max_width);
            &&& s.remaining > 0 && ranges.last().1 < byte_len(t) ==> line == s.line + seq!['…']
            &&& !(s.remaining > 0 && ranges.last().1 < byte_len(t)) ==> line == s.line
            &&& line.len() == 0 ==> context_line(t, ranges, max_width) is None
                && plain_context_line(t, ranges, max_width) is None
            &&& line.len() > 0 ==> context_line(t, ranges, max_width) == Some(
                truncated(line, max_width),
            ) && plain_context_line(t, ranges, max_width) == Some(plain_truncated(line, max_width))
        }),
{
    let s = add_windows(
        t,
        ranges,
        segment_budget(max_width as int, ranges.len() as int),
        max_width as int,
    );
    assert(s.line + Seq::<char>::empty() =~= s.line);
}

proof fn lemma_windows_hold(
    t: Seq<char>,
    ranges: Seq<ByteRange>,
    budget: int,
    max_width: int,
    n: int,
    m: int,
)
    requires
        0 <= m < n <= ranges.len(),
        0 <= max_width,
        ranges_apart(t, ranges, budget),
        n * (budget + 1) <= max_width,
        forall|i: int| 0 <= i < t.len() ==> #[trigger] t[i] != '<' && t[i] != '>',
        shown_in_one_piece(slice(t, ranges[m].0 as int, ranges[m].1 as int)),
    ensures
        ({
            let s = add_windows(t, ranges.take(n), budget, max_width);
            &&& !s.cut
            &&& s.remaining >= max_width - n * (budget + 1)
            &&& s.prev_end == window_end(t, ranges[n - 1], budget)
            &&& shows(s.line, slice(t, ranges[m].0 as int, ranges[m].1 as int))
        }),
    decreases n,
{
    let s = add_windows(t, ranges.take(n), budget, max_width);
    let before = add_windows(t, ranges.take(n - 1), budget, max_width);
    let r = ranges[n - 1];
    assert(ranges.take(n).drop_last() =~= ranges.take(n - 1));
    assert(ranges.take(n).last() == r);
    assert(s == add_window(t, before, r, budget));
    assert((n - 1) * (budget + 1) == n * (budget + 1) - (budget + 1)) by (nonlinear_arith);
    assert(r.0 <= r.1);
    lemma_char_index_monotone(t, r.0 as int, r.1 as int);
    lemma_windows_state(t, ranges, budget, max_width, n - 1);
    lemma_window(t, r, budget);
    let from = char_index(t, r.0 as int);
    let to = char_index(t, r.1 as int);
    let wanted = window_start(t, r, budget);
    let start = if wanted >= before.prev_end {
        wanted
    } else {
        before.prev_end
    };
    let end = window_end(t, r, budget);
    if n > 1 {
        assert(window_end(t, ranges[n - 2], budget) <= char_index(t, ranges[n - 1].0 as int));
    }
    assert(before.prev_end <= from);
    let window = t.subrange(start, end);
    law_sanitized(window);
    assert(window.len() <= budget);
    assert(!s.cut);
    let gap = ellipsis_if(start > before.prev_end);
    let part = slice(t, ranges[m].0 as int, ranges[m].1 as int);
    if m == n - 1 {
        let head = t.subrange(start, from);
        let tail = t.subrange(to, end);
        assert(window =~= head + part + tail);
        law_sanitized_keeps(head, part, tail);
        lemma_shows_concat(sanitized(window), before.line + gap, part);
    } else {
        lemma_windows_hold(t, ranges, budget, max_width, n - 1, m);
        lemma_shows_concat(before.line, gap, part);
        lemma_shows_concat(before.line + gap, sanitized(window), part);
    }
}

proof fn lemma_windows_state(
    t: Seq<char>,
    ranges: Seq<ByteRange>,
    budget: int,
    max_width: int,
    n: int,
)
    requires
        0 <= n <= ranges.len(),
        0 <= max_width,
        ranges_apart(t, ranges, budget),
        n * (budget + 1) <= max_width,
    ensures
        ({
            let s = add_windows(t, ranges.take(n), budget, max_width);
            &&& !s.cut
            &&& s.remaining >= max_width - n * (budget + 1)
            &&& n == 0 ==> s.prev_end == 0
            &&& n > 0 ==> s.prev_end == window_end(t, ranges[n - 1], budget)
        }),
    decreases n,
{
    if n == 0 {
        assert(ranges.take(0) =~= Seq::<ByteRange>::empty());
        assert(0 * (budget + 1) == 0) by (nonlinear_arith);
    } else {
        let before = add_windows(t, ranges.take(n - 1), budget, max_width);
        let r = ranges[n - 1];
        assert(ranges.take(n).drop_last() =~= ranges.take(n - 1));
        assert(ranges.take(n).last() == r);
        assert((n - 1) * (budget + 1) == n * (budget + 1) - (budget + 1)) by (nonlinear_arith);
        assert(r.0 <= r.1);
        lemma_char_index_monotone(t, r.0 as int, r.1 as int);
        lemma_windows_state(t, ranges, budget, max_width, n - 1);
        lemma_window(t, r, budget);
        let wanted = window_start(t, r, budget);
        let start = if wanted >= before.prev_end {
            wanted
        } else {
            before.prev_end
        };
        if n > 1 {
            assert(window_end(t, ranges[n - 2], budget) <= char_index(t, ranges[n - 1].0 as int));
        }
        let window = t.subrange(start, window_end(t, r, budget));
        law_sanitized(window);
    }
}

/// A text that comes through cleaning in one piece: clean, and neither starting nor
/// ending with whitespace.
pub open spec fn shown_in_one_piece(part: Seq<char>) -> bool {
    &&& is_clean(part)
    &&& part.len() > 0
    &&& !is_white(part[0])
    &&& !is_white(part.last())
}

/// Matches that leave two columns of their share, and whose windows do not reach the
/// match behind them.
pub open spec fn ranges_apart(t: Seq<char>, ranges: Seq<ByteRange>, budget: int) -> bool {
    &&& forall|i: int|
        0 <= i < ranges.len() ==> (#[trigger] ranges[i]).0 <= ranges[i].1 && char_index(
            t,
            ranges[i].1 as int,
        ) - char_index(t, ranges[i].0 as int) + 2 <= budget
    &&& forall|i: int, j: int|
        0 <= i && j == i + 1 && j < ranges.len() ==> window_end(t, #[trigger] ranges[i], budget)
            <= char_index(t, (#[trigger] ranges[j]).0 as int)
}

/// However many matches there are, the context line shows each one in one piece,
/// before the line is cut to the width, where the text has no tags, the matches are
/// clean, and their windows do not overlap them.
pub proof fn law_context_line_shows_each_match(
    t: Seq<char>,
    ranges: Seq<ByteRange>,
    max_width: usize,
    m: int,
)
    requires
        0 <= m < ranges.len(),
        ranges_apart(t, ranges, segment_budget(max_width as int, ranges.len() as int)),
        forall|i: int| 0 <= i < t.len() ==> #[trigger] t[i] != '<' && t[i] != '>',
        shown_in_one_piece(slice(t, ranges[m].0 as int, ranges[m].1 as int)),
    ensures
        shows(
            windows_line(t, ranges, max_width),
            slice(t, ranges[m].0 as int, ranges[m].1 as int),
        ),
{
    let n = ranges.len() as int;
    let budget = segment_budget(max_width as int, n);
    assert(ranges[m].0 <= ranges[m].1);
    lemma_char_index_monotone(t, ranges[m].0 as int, ranges[m].1 as int);
    let sides = law_window(t, ranges[m], max_width as int, n);
    assert(n * (budget + 1) == n * budget + n) by (nonlinear_arith);
    assert(max_width >= n + 1);
    lemma_windows_hold(t, ranges, budget, max_width as int, n, m);
    assert(ranges.take(n) =~= ranges);
    let s = add_windows(t, ranges, budget, max_width as int);
    lemma_shows_concat(
        s.line,
        ellipsis_if(s.remaining > 0 && ranges.last().1 < byte_len(t)),
        slice(t, ranges[m].0 as int, ranges[m].1 as int),
    );
}

/// The hits of a text that call for context, and the terms that its preview does
/// not show.
pub struct ContextRequest {
    pub hits: Vec<TermHit>,
    pub missing_mask: u64,
    pub missing_count: u32,
}

/// The hits of `specs` in `full_text`, where they call for context that `preview`
/// does not give.
pub fn request_context(full_text: &str, preview: &str, specs: &[ContextMatchSpec]) -> (request:
    Option<ContextRequest>)
    requires
        specs@.len() <= MAX_SPECS,
    ensures
        context_wanted(full_text@, preview@, keys(specs@)) <==> request is Some,
        request matches Some(r) ==> {
            &&& r.hits@ == ordered_hits(full_text@, full_text@, keys(specs@))
            &&& r.missing_mask == missing_bits(preview@, keys(specs@))
            &&& r.missing_count == missing_number(preview@, keys(specs@))
        },
        has_normal(keys(specs@)) ==> ascii_known(full_text@) && ascii_known(preview@),
{
    let ghost list = keys(specs@);
    let normalized = has_normalized(specs);
    let preview_normalized = if normalized {
        Some(NormalizedText::new(preview))
    } else {
        None
    };
    let full_normalized = if normalized {
        Some(NormalizedText::new(full_text))
    } else {
        None
    };
    let preview_source = preview_normalized.as_ref();
    let full_source = full_normalized.as_ref();

    let mut missing_mask: u64 = 0;
    let mut missing_count: u32 = 0;
    let mut i: usize = 0;
    assert(list.take(0) =~= Seq::<SpecKey>::empty());
    while i < specs.len()
        invariant
            i <= specs.len() <= MAX_SPECS,
            list == keys(specs@),
            normal_source(preview@, preview_source) == preview@,
            missing_mask == missing_bits(preview@, list.take(i as int)),
            missing_count == missing_number(preview@, list.take(i as int)),
            missing_count <= i,
        decreases specs.len() - i,
    {
        let found = specs[i].find_ranges(preview, preview_source);
        proof {
            assert(list.take(i + 1).drop_last() =~= list.take(i as int));
            assert(list.take(i + 1).last() == specs@[i as int]@);
        }
        if found.len() == 0 {
            missing_mask = missing_mask | (1u64 << (i as u64));
            missing_count = missing_count + 1;
        }
        i = i + 1;
    }
    assert(list.take(i as int) =~= list);

    let hits = find_all_spec_hits(full_text, specs, full_source);
    if hits.len() == 0 {
        return None;
    }
    if missing_count == 0 {
        let preview_hits = find_all_spec_hits(preview, specs, preview_source);
        if hits.len() <= preview_hits.len() {
            return None;
        }
    }
    Some(ContextRequest { hits, missing_mask, missing_count })
}

fn has_normalized(specs: &[ContextMatchSpec]) -> (found: bool)
    ensures
        found == has_normal(keys(specs@)),
{
    let mut i: usize = 0;
    while i < specs.len()
        invariant
            i <= specs.len(),
            forall|k: int| 0 <= k < i ==> (#[trigger] keys(specs@)[k]).1,
        decreases specs.len() - i,
    {
        let (text, is_literal) = specs[i].key();
        assert(keys(specs@)[i as int] == specs@[i as int]@);
        if !is_literal {
            return true;
        }
        i = i + 1;
    }
    false
}

/// The context line for `specs`: the best cluster of their hits in `full_text`,
/// where it shows more than `preview` does.
pub fn build_context_segments_with_specs(
    full_text: &str,
    preview: &str,
    specs: &[ContextMatchSpec],
    max_width: usize,
) -> (line: Option<String>)
    ensures
        is_line(line, specs_line(full_text@, preview@, keys(specs@), max_width)),
        plain_lines(full_text@) ==> is_line(
            line,
            plain_specs_line(full_text@, preview@, keys(specs@), max_width),
        ),
        line is Some ==> fits_width(line.unwrap()@, max_width),
        plain_lines(full_text@) && line is Some ==> all_plain(line.unwrap()@)
            && line.unwrap()@.len() <= max_width,
        letters_known(full_text@, preview@, keys(specs@), max_width),
{
    if specs.len() == 0 || max_width == 0 {
        return None;
    }
    let distinct = dedupe_context_specs(specs);
    let ghost list = distinct_keys(keys(specs@));
    let text = IndexedText::new(full_text);
    proof {
        law_distinct_keys(keys(specs@));
        lemma_missing_number(preview@, list);
        law_ordered_hits(full_text@, list);
    }
    match request_context(full_text, preview, distinct.as_slice()) {
        Some(request) => {
            proof {
                assert forall|i: int| 0 <= i < request.hits@.len() implies (
                #[trigger] request.hits@[i]).start <= request.hits@[i].end by {
                    assert(valid_hit(full_text@, request.hits@[i], list.len() as int));
                }
                lemma_selected_valid(
                    full_text@,
                    request.hits@,
                    list.len() as int,
                    request.missing_mask,
                    request.missing_count,
                );
            }
            match select_hidden_context_ranges(
                full_text,
                &request.hits,
                request.missing_mask,
                request.missing_count,
            ) {
                Some(ranges) => {
                    proof {
                        assert(valid_range(full_text@, ranges@[0]));
                        law_windows_in_order(full_text@, ranges@, max_width);
                    }
                    build_context_segments_from_ranges_unchecked(
                        full_text,
                        ranges.as_slice(),
                        max_width,
                    )
                },
                None => None,
            }
        },
        None => None,
    }
}

/// The context line for the literals of a query.
pub fn build_literal_context_segments(
    full_text: &str,
    preview: &str,
    query: &HighlightQuery,
    max_width: usize,
) -> (line: Option<String>)
    ensures
        is_line(
            line,
            specs_line(
                full_text@,
                preview@,
                literal_keys(literal_texts(query.literals@)),
                max_width,
            ),
        ),
        plain_lines(full_text@) ==> is_line(
            line,
            plain_specs_line(
                full_text@,
                preview@,
                literal_keys(literal_texts(query.literals@)),
                max_width,
            ),
        ),
        line is Some ==> fits_width(line.unwrap()@, max_width),
        plain_lines(full_text@) && line is Some ==> all_plain(line.unwrap()@)
            && line.unwrap()@.len() <= max_width,
        letters_known(
            full_text@,
            preview@,
            literal_keys(literal_texts(query.literals@)),
            max_width,
        ),
{
    let specs = query.literal_context_specs();
    build_context_segments_with_specs(full_text, preview, specs.as_slice(), max_width)
}

/// The context line for the words and literals of a query.
pub fn build_context_segments_for_query(
    full_text: &str,
    preview: &str,
    query: &HighlightQuery,
    max_width: usize,
) -> (line: Option<String>)
    ensures
        is_line(
            line,
            specs_line(
                full_text@,
                preview@,
                normal_keys(words(query.unquoted@)) + literal_keys(literal_texts(query.literals@)),
                max_width,
            ),
        ),
        plain_lines(full_text@) ==> is_line(
            line,
            plain_specs_line(
                full_text@,
                preview@,
                normal_keys(words(query.unquoted@)) + literal_keys(literal_texts(query.literals@)),
                max_width,
            ),
        ),
        line is Some ==> fits_width(line.unwrap()@, max_width),
        plain_lines(full_text@) && line is Some ==> all_plain(line.unwrap()@)
            && line.unwrap()@.len() <= max_width,
        letters_known(
            full_text@,
            preview@,
            normal_keys(words(query.unquoted@)) + literal_keys(literal_texts(query.literals@)),
            max_width,
        ),
{
    let specs = query.context_specs();
    build_context_segments_with_specs(full_text, preview, specs.as_slice(), max_width)
}

/// The context line for the words of `query`.
pub fn build_context_segments(full_text: &str, preview: &str, query: &str, max_width: usize) -> (line:
    Option<String>)
    ensures
        is_line(line, specs_line(full_text@, preview@, normal_keys(words(query@)), max_width)),
        plain_lines(full_text@) ==> is_line(
            line,
            plain_specs_line(full_text@, preview@, normal_keys(words(query@)), max_width),
        ),
        line is Some ==> fits_width(line.unwrap()@, max_width),
        plain_lines(full_text@) && line is Some ==> all_plain(line.unwrap()@)
            && line.unwrap()@.len() <= max_width,
        letters_known(full_text@, preview@, normal_keys(words(query@)), max_width),
{
    let specs = HighlightQuery::normalized_context_specs(query);
    build_context_segments_with_specs(full_text, preview, specs.as_slice(), max_width)
}

} // verus!
