//! One line of a text with the context of each match.

use crate::highlight::{highlight_ranges, HighlightQuery};
use crate::literal::literal_texts;
use crate::normalize::{
    ascii_known, find_normalized_match_ranges, inside_one, law_query_ranges, query_ranges,
    valid_range,
};
use crate::ranges::{max_of, ByteRange};
use crate::text::{
    byte_len, char_index, lemma_boundary_char_index, lemma_boundary_order,
    lemma_char_index_monotone, lemma_char_index_of_offset, lemma_offset_ends,
    lemma_offset_increasing, lemma_shows_at, lemma_shows_concat, lemma_shows_part, on_boundary,
    shows, slice, IndexedText,
};
use crate::truncate::{
    all_plain, display_width, fits_width, is_plain, plain_start_truncated, plain_truncated,
    simple_truncate, start_truncated, text_width, total_columns, truncate_start, truncated,
};
use vstd::prelude::*;

verus! {

/// Matches with no more than this many characters between them are shown
/// together.
pub const MERGE_GAP: usize = 20;

/// No more than this many groups of matches are shown.
pub const MAX_CLUSTERS: usize = 3;

/// `a - b`, or 0 where that is negative.
pub open spec fn minus(a: int, b: int) -> int {
    if a >= b {
        a - b
    } else {
        0
    }
}

pub open spec fn min_of(a: int, b: int) -> int {
    if a <= b {
        a
    } else {
        b
    }
}

/// A byte range of `t` as a range of character indices.
pub open spec fn char_range(t: Seq<char>, r: ByteRange) -> (usize, usize) {
    (char_index(t, r.0 as int) as usize, char_index(t, r.1 as int) as usize)
}

pub open spec fn char_ranges(t: Seq<char>, ranges: Seq<ByteRange>) -> Seq<(usize, usize)> {
    ranges.map_values(|r: ByteRange| char_range(t, r))
}

/// `clusters` with the match `r` added, to the last of them where `r` is near it.
pub open spec fn add_to_clusters(clusters: Seq<(usize, usize)>, r: (usize, usize)) -> Seq<
    (usize, usize),
> {
    if clusters.len() > 0 && r.0 <= clusters.last().1 + MERGE_GAP {
        clusters.drop_last().push((clusters.last().0, max_of(clusters.last().1, r.1)))
    } else {
        clusters.push(r)
    }
}

/// The groups of nearby matches among `matches`.
pub open spec fn clusters_of(matches: Seq<(usize, usize)>) -> Seq<(usize, usize)>
    decreases matches.len(),
{
    if matches.len() == 0 {
        Seq::empty()
    } else {
        add_to_clusters(clusters_of(matches.drop_last()), matches.last())
    }
}

/// The groups that are shown.
pub open spec fn shown_clusters(matches: Seq<(usize, usize)>) -> Seq<(usize, usize)> {
    clusters_of(matches).take(min_of(clusters_of(matches).len() as int, MAX_CLUSTERS as int))
}

/// The number of characters in `clusters`.
pub open spec fn cluster_chars(clusters: Seq<(usize, usize)>) -> int
    decreases clusters.len(),
{
    if clusters.len() == 0 {
        0
    } else {
        cluster_chars(clusters.drop_last()) + (clusters.last().1 - clusters.last().0)
    }
}

/// The context characters on each side of a cluster: an equal share of what the
/// clusters and the ellipses around them leave of the width.
pub open spec fn padding(clusters: Seq<(usize, usize)>, max_width: int) -> int {
    let count = clusters.len() as int;
    minus(minus(max_width, cluster_chars(clusters)), count + 1) / (count * 2)
}

/// Where the context after `cluster` ends in a text of `len` characters.
pub open spec fn segment_end(cluster: (usize, usize), pad: int, len: int) -> int {
    min_of(cluster.1 + pad, len)
}

/// Where the last segment but one of `clusters` ends, 0 where there is none.
pub open spec fn previous_end(clusters: Seq<(usize, usize)>, pad: int, len: int) -> int {
    if clusters.len() < 2 {
        0
    } else {
        segment_end(clusters[clusters.len() - 2], pad, len)
    }
}

/// Where the last segment of `clusters` starts: its context, as far as the
/// segment before it leaves it.
pub open spec fn segment_start(clusters: Seq<(usize, usize)>, pad: int, len: int) -> int {
    let wanted = minus(clusters.last().0 as int, pad);
    if wanted >= previous_end(clusters, pad, len) {
        wanted
    } else {
        previous_end(clusters, pad, len)
    }
}

/// An ellipsis where `b` holds.
pub open spec fn ellipsis_if(b: bool) -> Seq<char> {
    if b {
        seq!['…']
    } else {
        Seq::empty()
    }
}

/// The clusters with their context, an ellipsis before each that does not start
/// where the one before it ends.
pub open spec fn segments_text(t: Seq<char>, clusters: Seq<(usize, usize)>, pad: int) -> Seq<char>
    decreases clusters.len(),
{
    if clusters.len() == 0 {
        Seq::empty()
    } else {
        let len = t.len() as int;
        let start = segment_start(clusters, pad, len);
        let end = segment_end(clusters.last(), pad, len);
        segments_text(t, clusters.drop_last(), pad) + ellipsis_if(
            start > previous_end(clusters, pad, len),
        ) + t.subrange(start, end)
    }
}

/// The segments of `t` around `clusters`, with an ellipsis where the last one
/// stops short of the end.
pub open spec fn clusters_line(t: Seq<char>, clusters: Seq<(usize, usize)>, max_width: int) -> Seq<
    char,
> {
    let pad = padding(clusters, max_width);
    segments_text(t, clusters, pad) + ellipsis_if(clusters.last().1 + pad < t.len())
}

/// The line that shows the matches `ranges` of `t`: the start of `t` where there
/// is no match, where `t` fits whole, or where all matches fit before the last
/// column; else the segments around the matches; `None` where those are too wide.
pub open spec fn match_line(t: Seq<char>, ranges: Seq<ByteRange>, max_width: usize) -> Option<
    Seq<char>,
> {
    let matches = char_ranges(t, ranges);
    let line = clusters_line(t, shown_clusters(matches), max_width as int);
    if ranges.len() == 0 || display_width(t) <= max_width || matches.last().1 <= minus(
        max_width as int,
        1,
    ) {
        Some(truncated(t, max_width))
    } else if display_width(line) > max_width {
        None
    } else {
        Some(line)
    }
}

/// [`match_line`] for a text of one-column characters.
pub open spec fn plain_match_line(t: Seq<char>, ranges: Seq<ByteRange>, max_width: usize) -> Option<
    Seq<char>,
> {
    let matches = char_ranges(t, ranges);
    let line = clusters_line(t, shown_clusters(matches), max_width as int);
    if ranges.len() == 0 || t.len() <= max_width || matches.last().1 <= minus(max_width as int, 1) {
        Some(plain_truncated(t, max_width))
    } else if line.len() > max_width {
        None
    } else {
        Some(line)
    }
}

/// The line `line` is `shown`, or there is none.
pub open spec fn is_line(line: Option<String>, shown: Option<Seq<char>>) -> bool {
    match shown {
        Some(text) => line is Some && line.unwrap()@ == text,
        None => line is None,
    }
}

/// Groups of matches in a text of `len` characters: in order, further apart than
/// [`MERGE_GAP`].
spec fn clusters_ok(clusters: Seq<(usize, usize)>, len: int) -> bool {
    &&& forall|i: int|
        0 <= i < clusters.len() ==> (#[trigger] clusters[i]).0 <= clusters[i].1 <= len
    &&& forall|i: int, j: int|
        0 <= i < j < clusters.len() ==> (#[trigger] clusters[i]).1 + MERGE_GAP
            < (#[trigger] clusters[j]).0
}

proof fn lemma_add_to_clusters(c: Seq<(usize, usize)>, r: (usize, usize), len: int)
    requires
        clusters_ok(c, len),
        r.0 <= r.1 <= len,
    ensures
        clusters_ok(add_to_clusters(c, r), len),
        add_to_clusters(c, r).len() > 0,
{
    let a = add_to_clusters(c, r);
    if c.len() > 0 {
        assert(c[c.len() - 1] == c.last());
        assert forall|i: int, j: int| 0 <= i < j < a.len() implies (#[trigger] a[i]).1 + MERGE_GAP
            < (#[trigger] a[j]).0 by {
            if j < c.len() {
                assert(c[i].1 + MERGE_GAP < c[j].0);
            } else if i < c.len() - 1 {
                assert(c[i].1 + MERGE_GAP < c[c.len() - 1].0);
            }
        }
    }
}

proof fn lemma_clusters_prefix_ok(c: Seq<(usize, usize)>, n: int, len: int)
    requires
        clusters_ok(c, len),
        0 <= n <= c.len(),
    ensures
        clusters_ok(c.take(n), len),
{
    let f = c.take(n);
    assert forall|i: int| 0 <= i < f.len() implies (#[trigger] f[i]).0 <= f[i].1 <= len by {
        assert(f[i] == c[i]);
    }
    assert forall|i: int, j: int| 0 <= i < j < f.len() implies (#[trigger] f[i]).1 + MERGE_GAP
        < (#[trigger] f[j]).0 by {
        assert(c[i].1 + MERGE_GAP < c[j].0);
    }
}

proof fn lemma_cluster_chars(c: Seq<(usize, usize)>, len: int)
    requires
        clusters_ok(c, len),
    ensures
        0 <= cluster_chars(c),
        c.len() > 0 ==> cluster_chars(c) <= c.last().1,
        c.len() == 0 ==> cluster_chars(c) == 0,
    decreases c.len(),
{
    if c.len() > 0 {
        let front = c.drop_last();
        assert(c.take(c.len() - 1) =~= front);
        lemma_clusters_prefix_ok(c, c.len() - 1, len);
        lemma_cluster_chars(front, len);
        assert(c[c.len() - 1].0 <= c[c.len() - 1].1);
        if front.len() > 0 {
            assert(c[c.len() - 2].1 + MERGE_GAP < c[c.len() - 1].0);
        }
    }
}

/// The bounds of the last segment are in order and inside the text.
proof fn lemma_segment_bounds(c: Seq<(usize, usize)>, pad: int, len: int)
    requires
        clusters_ok(c, len),
        c.len() > 0,
        pad >= 0,
    ensures
        0 <= previous_end(c, pad, len) <= segment_start(c, pad, len) <= segment_end(
            c.last(),
            pad,
            len,
        ) <= len,
{
    assert(c[c.len() - 1].0 <= c[c.len() - 1].1 <= len);
    if c.len() > 1 {
        assert(c[c.len() - 2].1 + MERGE_GAP < c[c.len() - 1].0);
    }
}

pub proof fn lemma_plain_concat(a: Seq<char>, b: Seq<char>)
    requires
        all_plain(a),
        all_plain(b),
    ensures
        all_plain(a + b),
{
    assert forall|i: int| 0 <= i < (a + b).len() implies is_plain(#[trigger] (a + b)[i]) by {
        if i < a.len() {
            assert((a + b)[i] == a[i]);
        } else {
            assert((a + b)[i] == b[i - a.len()]);
        }
    }
}

proof fn lemma_plain_subrange(t: Seq<char>, i: int, j: int)
    requires
        all_plain(t),
        0 <= i <= j <= t.len(),
    ensures
        all_plain(t.subrange(i, j)),
{
    assert forall|k: int| 0 <= k < j - i implies is_plain(#[trigger] t.subrange(i, j)[k]) by {
        assert(t.subrange(i, j)[k] == t[i + k]);
    }
}

/// The matches of a text in groups.
fn group_matches(matches: &Vec<(usize, usize)>, Ghost(len): Ghost<int>) -> (clusters: Vec<
    (usize, usize),
>)
    requires
        forall|i: int| 0 <= i < matches.len() ==> (#[trigger] matches@[i]).0 <= matches@[i].1 <= len,
    ensures
        clusters@ == clusters_of(matches@),
        clusters_ok(clusters@, len),
        matches.len() > 0 ==> clusters.len() > 0,
{
    let mut clusters: Vec<(usize, usize)> = Vec::new();
    let mut i: usize = 0;
    assert(matches@.take(0) =~= Seq::<(usize, usize)>::empty());
    while i < matches.len()
        invariant
            i <= matches.len(),
            forall|i: int|
                0 <= i < matches.len() ==> (#[trigger] matches@[i]).0 <= matches@[i].1 <= len,
            clusters@ == clusters_of(matches@.take(i as int)),
            clusters_ok(clusters@, len),
            i > 0 ==> clusters.len() > 0,
        decreases matches.len() - i,
    {
        let (start, end) = matches[i];
        let ghost before = clusters@;
        proof {
            assert(matches@.take(i + 1).drop_last() =~= matches@.take(i as int));
            assert(matches@[i as int].0 <= matches@[i as int].1 <= len);
            lemma_add_to_clusters(before, matches@[i as int], len);
        }
        i = i + 1;
        let count: usize = clusters.len();
        if count > 0 && start <= clusters[count - 1].1.saturating_add(MERGE_GAP) {
            let (first, last) = clusters[count - 1];
            clusters.pop();
            clusters.push((first, if last >= end { last } else { end }));
            assert(clusters@ =~= add_to_clusters(before, (start, end)));
        } else {
            clusters.push((start, end));
        }
    }
    assert(matches@.take(i as int) =~= matches@);
    clusters
}

/// The context characters on each side of each of `clusters`.
fn padding_for(clusters: &Vec<(usize, usize)>, max_width: usize, Ghost(len): Ghost<int>) -> (pad:
    usize)
    requires
        clusters_ok(clusters@, len),
        0 < clusters.len() <= MAX_CLUSTERS,
    ensures
        pad == padding(clusters@, max_width as int),
{
    let mut match_chars: usize = 0;
    let mut i: usize = 0;
    assert(clusters@.take(0) =~= Seq::<(usize, usize)>::empty());
    while i < clusters.len()
        invariant
            i <= clusters.len(),
            clusters_ok(clusters@, len),
            match_chars == cluster_chars(clusters@.take(i as int)),
        decreases clusters.len() - i,
    {
        proof {
            let next = clusters@.take(i + 1);
            assert(next.drop_last() =~= clusters@.take(i as int));
            lemma_clusters_prefix_ok(clusters@, i + 1, len);
            lemma_cluster_chars(next, len);
            assert(clusters@[i as int].0 <= clusters@[i as int].1);
        }
        match_chars = match_chars + (clusters[i].1 - clusters[i].0);
        i = i + 1;
    }
    assert(clusters@.take(i as int) =~= clusters@);
    let available: usize = max_width.saturating_sub(match_chars).saturating_sub(clusters.len() + 1);
    available / (clusters.len() * 2)
}

/// The segments of a text around `clusters`.
fn write_segments(text: &IndexedText, clusters: &Vec<(usize, usize)>, pad: usize) -> (line: String)
    requires
        clusters_ok(clusters@, text@.len() as int),
        clusters.len() > 0,
    ensures
        line@ == segments_text(text@, clusters@, pad as int) + ellipsis_if(
            clusters@.last().1 + pad < text@.len(),
        ),
        all_plain(text@) ==> all_plain(line@),
{
    let len: usize = text.len();
    let mut line = String::new();
    let mut last_end: usize = 0;
    let mut i: usize = 0;
    assert(clusters@.take(0) =~= Seq::<(usize, usize)>::empty());
    while i < clusters.len()
        invariant
            i <= clusters.len(),
            len == text@.len(),
            clusters_ok(clusters@, len as int),
            line@ == segments_text(text@, clusters@.take(i as int), pad as int),
            last_end == (if i == 0 {
                0
            } else {
                segment_end(clusters@[i - 1], pad as int, len as int)
            }),
            all_plain(text@) ==> all_plain(line@),
        decreases clusters.len() - i,
    {
        let ghost shown = clusters@.take(i + 1);
        let ghost before = line@;
        proof {
            assert(shown.drop_last() =~= clusters@.take(i as int));
            lemma_clusters_prefix_ok(clusters@, i + 1, len as int);
            lemma_segment_bounds(shown, pad as int, len as int);
        }
        let (cluster_start, cluster_end) = clusters[i];
        let wanted: usize = cluster_start.saturating_sub(pad);
        let start: usize = if wanted >= last_end { wanted } else { last_end };
        let sum: usize = cluster_end.saturating_add(pad);
        let end: usize = if sum <= len { sum } else { len };
        assert(start == segment_start(shown, pad as int, len as int));
        assert(end == segment_end(shown.last(), pad as int, len as int));
        if start > last_end {
            line.push('…');
        }
        assert(line@ =~= before + ellipsis_if(start > last_end));
        let ghost with_ellipsis = line@;
        let segment = text.substring(start, end);
        line.append(segment.as_str());
        proof {
            assert(line@ =~= with_ellipsis + text@.subrange(start as int, end as int));
            if all_plain(text@) {
                lemma_plain_concat(before, ellipsis_if(start > last_end));
                lemma_plain_subrange(text@, start as int, end as int);
                lemma_plain_concat(with_ellipsis, segment@);
            }
        }
        last_end = end;
        i = i + 1;
    }
    assert(clusters@.take(i as int) =~= clusters@);
    let ghost before = line@;
    let last = clusters[clusters.len() - 1].1;
    let short = last.saturating_add(pad) < len;
    if short {
        line.push('…');
    }
    proof {
        assert(line@ =~= before + ellipsis_if(short));
        if all_plain(text@) {
            lemma_plain_concat(before, ellipsis_if(short));
        }
    }
    line
}

/// The line that shows the matches `ranges` of `text`, `None` where the segments
/// around the matches are too wide.
pub fn build_match_segments_with_ranges(
    text: &str,
    ranges: Vec<(usize, usize)>,
    max_width: usize,
) -> (line: Option<String>)
    requires
        ranges.len() > 0 && char_index(text@, ranges@.last().1 as int) > minus(max_width as int, 1)
            ==> forall|i: int| 0 <= i < ranges.len() ==> (#[trigger] ranges@[i]).0 <= ranges@[i].1,
    ensures
        is_line(line, match_line(text@, ranges@, max_width)),
        line is Some ==> fits_width(line.unwrap()@, max_width),
        all_plain(text@) ==> is_line(line, plain_match_line(text@, ranges@, max_width)),
        all_plain(text@) && line is Some ==> all_plain(line.unwrap()@) && line.unwrap()@.len()
            <= max_width,
{
    if ranges.len() == 0 || text_width(text) <= max_width {
        return Some(simple_truncate(text, max_width));
    }
    let indexed = IndexedText::new(text);
    let ghost len = text@.len() as int;
    let mut matches: Vec<(usize, usize)> = Vec::new();
    let mut i: usize = 0;
    while i < ranges.len()
        invariant
            i <= ranges.len(),
            indexed@ == text@,
            len == text@.len(),
            matches@ == char_ranges(text@, ranges@).take(i as int),
            forall|k: int|
                0 <= k < i ==> (#[trigger] matches@[k]).0 == char_index(text@, ranges@[k].0 as int)
                    && matches@[k].1 == char_index(text@, ranges@[k].1 as int) && matches@[k].1
                    <= len,
        decreases ranges.len() - i,
    {
        let (start, end) = ranges[i];
        let range = (indexed.char_index(start), indexed.char_index(end));
        matches.push(range);
        i = i + 1;
        assert(matches@ =~= char_ranges(text@, ranges@).take(i as int));
    }
    assert(matches@ =~= char_ranges(text@, ranges@));
    let last_match_end: usize = matches[matches.len() - 1].1;
    if last_match_end <= max_width.saturating_sub(1) {
        return Some(simple_truncate(text, max_width));
    }
    assert forall|k: int| 0 <= k < matches.len() implies (#[trigger] matches@[k]).0
        <= matches@[k].1 <= len by {
        assert(ranges@[k].0 <= ranges@[k].1);
        lemma_char_index_monotone(text@, ranges@[k].0 as int, ranges@[k].1 as int);
    }
    let mut clusters = group_matches(&matches, Ghost(len));
    let ghost all = clusters@;
    clusters.truncate(MAX_CLUSTERS);
    proof {
        assert(clusters@ =~= shown_clusters(matches@));
        lemma_clusters_prefix_ok(all, clusters@.len() as int, len);
        assert(all.take(clusters@.len() as int) =~= clusters@);
    }
    let pad = padding_for(&clusters, max_width, Ghost(len));
    let line = write_segments(&indexed, &clusters, pad);
    if text_width(line.as_str()) > max_width {
        return None;
    }
    Some(line)
}

/// The columns that the ellipses on the two sides of a match take: one on each
/// side where something is left out.
pub open spec fn side_columns(before: bool, after: bool) -> int {
    (if before {
        1int
    } else {
        0
    }) + (if after {
        1int
    } else {
        0
    })
}

/// The width of the match `r` of `t`, of width `matched`, and of an ellipsis on
/// each side where `t` goes on.
pub open spec fn width_with_sides(t: Seq<char>, r: ByteRange, matched: int) -> int {
    matched + side_columns(r.0 > 0, r.1 < byte_len(t))
}

/// The columns for the text before the match `r` of `t`: half of what the match
/// and its ellipses leave, and the ellipsis.
pub open spec fn left_columns(t: Seq<char>, r: ByteRange, matched: int, max_width: int) -> int {
    minus(max_width, width_with_sides(t, r, matched)) / 2 + side_columns(r.0 > 0, false)
}

/// The columns for the text after the match `r` of `t`: what is left.
pub open spec fn right_columns(t: Seq<char>, r: ByteRange, matched: int, max_width: int) -> int {
    let context = minus(max_width, width_with_sides(t, r, matched));
    context - context / 2 + side_columns(false, r.1 < byte_len(t))
}

/// The match `r` of `t` with an equal share of context on its two sides, or the
/// match alone where it fills the width or its ellipses do not fit beside it.
pub open spec fn around_range(t: Seq<char>, r: ByteRange, max_width: usize) -> Seq<char> {
    let matched = slice(t, r.0 as int, r.1 as int);
    let width = display_width(matched) as int;
    let before = t.take(char_index(t, r.0 as int));
    let after = t.skip(char_index(t, r.1 as int));
    if width >= max_width || width_with_sides(t, r, width) > max_width {
        truncated(matched, max_width)
    } else {
        start_truncated(before, left_columns(t, r, width, max_width as int) as usize) + matched
            + truncated(after, right_columns(t, r, width, max_width as int) as usize)
    }
}

/// [`around_range`] for a text of one-column characters.
pub open spec fn plain_around_range(t: Seq<char>, r: ByteRange, max_width: usize) -> Seq<char> {
    let matched = slice(t, r.0 as int, r.1 as int);
    let width = matched.len() as int;
    let before = t.take(char_index(t, r.0 as int));
    let after = t.skip(char_index(t, r.1 as int));
    if width >= max_width || width_with_sides(t, r, width) > max_width {
        plain_truncated(matched, max_width)
    } else {
        plain_start_truncated(before, left_columns(t, r, width, max_width as int) as usize)
            + matched + plain_truncated(
            after,
            right_columns(t, r, width, max_width as int) as usize,
        )
    }
}

/// The first match of a query in `t` with its context, or the start of `t` where
/// there is none.
pub open spec fn around_match(t: Seq<char>, query: Seq<char>, max_width: usize) -> Seq<char> {
    let ranges = query_ranges(t, query);
    if max_width == 0 {
        Seq::empty()
    } else if ranges.len() == 0 {
        truncated(t, max_width)
    } else {
        around_range(t, ranges[0], max_width)
    }
}

/// [`around_match`] for a text of one-column characters.
pub open spec fn plain_around_match(t: Seq<char>, query: Seq<char>, max_width: usize) -> Seq<char> {
    let ranges = query_ranges(t, query);
    if max_width == 0 {
        Seq::empty()
    } else if ranges.len() == 0 {
        plain_truncated(t, max_width)
    } else {
        plain_around_range(t, ranges[0], max_width)
    }
}

/// The line that shows the matches of a query in `t`.
pub open spec fn query_line(t: Seq<char>, query: Seq<char>, max_width: usize) -> Seq<char> {
    if query.len() == 0 || max_width == 0 {
        truncated(t, max_width)
    } else {
        match match_line(t, query_ranges(t, query), max_width) {
            Some(line) => line,
            None => around_match(t, query, max_width),
        }
    }
}

/// [`query_line`] for a text of one-column characters.
pub open spec fn plain_query_line(t: Seq<char>, query: Seq<char>, max_width: usize) -> Seq<char> {
    if query.len() == 0 || max_width == 0 {
        plain_truncated(t, max_width)
    } else {
        match plain_match_line(t, query_ranges(t, query), max_width) {
            Some(line) => line,
            None => plain_around_match(t, query, max_width),
        }
    }
}

/// `line` consists of three parts of `widths` columns, which together take no
/// more than `max_width`.
pub open spec fn parts_fit(
    line: Seq<char>,
    parts: (Seq<char>, Seq<char>, Seq<char>),
    widths: (usize, usize, usize),
    max_width: usize,
) -> bool {
    &&& line == parts.0 + parts.1 + parts.2
    &&& fits_width(parts.0, widths.0)
    &&& fits_width(parts.1, widths.1)
    &&& fits_width(parts.2, widths.2)
    &&& widths.0 + widths.1 + widths.2 <= max_width
}

/// `line` takes no more than `max_width` columns, measured at once or as a match
/// and what stands on its two sides.
pub open spec fn fits_in_parts(line: Seq<char>, max_width: usize) -> bool {
    fits_width(line, max_width) || exists|
        parts: (Seq<char>, Seq<char>, Seq<char>),
        widths: (usize, usize, usize),
    | #[trigger]
        parts_fit(line, parts, widths, max_width)
}

/// Where `t` has one-column characters only, so has `line`, and no more of them
/// than the width has columns.
pub open spec fn fits(t: Seq<char>, max_width: usize, line: Seq<char>) -> bool {
    all_plain(t) ==> all_plain(line) && line.len() <= max_width
}

/// The match `range` of `text` with its context.
fn show_around(text: &IndexedText, range: (usize, usize), max_width: usize) -> (line: String)
    requires
        valid_range(text@, range),
        max_width > 0,
    ensures
        line@ == around_range(text@, range, max_width),
        all_plain(text@) ==> line@ == plain_around_range(text@, range, max_width),
        fits(text@, max_width, line@),
        fits_in_parts(line@, max_width),
{
    let (start, end) = range;
    proof {
        lemma_boundary_order(text@, start as int, end as int);
        lemma_boundary_char_index(text@, start as int);
        lemma_boundary_char_index(text@, end as int);
    }
    let from: usize = text.char_index(start);
    let to: usize = text.char_index(end);
    let matched = text.substring(from, to);
    let matched_width: usize = text_width(matched.as_str());
    proof {
        if all_plain(text@) {
            lemma_plain_subrange(text@, from as int, to as int);
            lemma_plain_subrange(text@, 0, from as int);
            lemma_plain_subrange(text@, to as int, text@.len() as int);
        }
    }
    let total: usize = text.byte_len();
    let one_before: usize = if start > 0 { 1 } else { 0 };
    let one_after: usize = if end < total { 1 } else { 0 };
    let sides: usize = one_before + one_after;
    if matched_width >= max_width || sides > max_width - matched_width {
        return simple_truncate(matched.as_str(), max_width);
    }
    let context: usize = max_width - matched_width - sides;
    let left_budget: usize = context / 2;
    let right_budget: usize = context - left_budget;
    let before = text.substring(0, from);
    let after = text.substring(to, text.len());
    assert(before@ =~= text@.take(from as int));
    assert(after@ =~= text@.skip(to as int));
    let left = truncate_start(before.as_str(), left_budget + one_before);
    let right = simple_truncate(after.as_str(), right_budget + one_after);
    let mut line = left;
    let ghost first = line@;
    line.append(matched.as_str());
    let ghost second = line@;
    line.append(right.as_str());
    proof {
        assert(line@ =~= first + matched@ + right@);
        let widths = (
            (left_budget + one_before) as usize,
            matched_width,
            (right_budget + one_after) as usize,
        );
        assert(parts_fit(line@, (first, matched@, right@), widths, max_width));
        if all_plain(text@) {
            lemma_plain_concat(first, matched@);
            lemma_plain_concat(second, right@);
        }
    }
    line
}

/// The first match of a query in `text` with its context. Of printable ASCII,
/// no more than `max_width` characters come out.
pub fn truncate_around_match(text: &str, query: &str, max_width: usize) -> (line: String)
    ensures
        line@ == around_match(text@, query@, max_width),
        all_plain(text@) ==> line@ == plain_around_match(text@, query@, max_width),
        fits(text@, max_width, line@),
        fits_in_parts(line@, max_width),
        max_width > 0 ==> ascii_known(text@),
{
    if max_width == 0 {
        assert(total_columns(Seq::<char>::empty()) == 0);
        return String::new();
    }
    let ranges = find_normalized_match_ranges(text, query);
    if ranges.len() == 0 {
        return simple_truncate(text, max_width);
    }
    assert(valid_range(text@, ranges@[0]));
    show_around(&IndexedText::new(text), ranges[0], max_width)
}

/// The line that shows the matches of `query` in `text`: context around each
/// match, joined by ellipses. Of printable ASCII, no more than `max_width`
/// characters come out.
pub fn build_match_segments(text: &str, query: &str, max_width: usize) -> (line: String)
    ensures
        line@ == query_line(text@, query@, max_width),
        all_plain(text@) ==> line@ == plain_query_line(text@, query@, max_width),
        fits(text@, max_width, line@),
        fits_in_parts(line@, max_width),
        query@.len() > 0 && max_width > 0 ==> ascii_known(text@),
{
    if query.is_empty() || max_width == 0 {
        return simple_truncate(text, max_width);
    }
    let ranges = find_normalized_match_ranges(text, query);
    assert forall|i: int| 0 <= i < ranges.len() implies (#[trigger] ranges@[i]).0
        <= ranges@[i].1 by {
        assert(valid_range(text@, ranges@[i]));
    }
    match build_match_segments_with_ranges(text, ranges, max_width) {
        Some(line) => line,
        None => truncate_around_match(text, query, max_width),
    }
}

/// The line that shows the matches of a parsed query in `text`, or the start of
/// the text where the segments around the matches are too wide. Of printable
/// ASCII, no more than `max_width` characters come out.
pub fn build_match_segments_for_query(text: &str, query: &HighlightQuery, max_width: usize) -> (line:
    String)
    ensures
        line@ == match match_line(
            text@,
            highlight_ranges(text@, query.unquoted@, literal_texts(query.literals@)),
            max_width,
        ) {
            Some(shown) => shown,
            None => truncated(text@, max_width),
        },
        all_plain(text@) ==> line@ == match plain_match_line(
            text@,
            highlight_ranges(text@, query.unquoted@, literal_texts(query.literals@)),
            max_width,
        ) {
            Some(shown) => shown,
            None => plain_truncated(text@, max_width),
        },
        fits_width(line@, max_width),
        fits(text@, max_width, line@),
        ascii_known(text@),
{
    let ranges = query.match_ranges(text);
    assert forall|i: int| 0 <= i < ranges.len() implies (#[trigger] ranges@[i]).0
        <= ranges@[i].1 by {
        assert(valid_range(text@, ranges@[i]));
    }
    match build_match_segments_with_ranges(text, ranges, max_width) {
        Some(line) => line,
        None => simple_truncate(text, max_width),
    }
}

proof fn lemma_clusters_of_ok(matches: Seq<(usize, usize)>, len: int)
    requires
        forall|i: int| 0 <= i < matches.len() ==> (#[trigger] matches[i]).0 <= matches[i].1 <= len,
    ensures
        clusters_ok(clusters_of(matches), len),
        matches.len() > 0 ==> clusters_of(matches).len() > 0,
    decreases matches.len(),
{
    if matches.len() > 0 {
        let front = matches.drop_last();
        assert forall|i: int| 0 <= i < front.len() implies (#[trigger] front[i]).0 <= front[i].1
            <= len by {
            assert(front[i] == matches[i]);
        }
        lemma_clusters_of_ok(front, len);
        assert(matches[matches.len() - 1].0 <= matches[matches.len() - 1].1 <= len);
        lemma_add_to_clusters(clusters_of(front), matches.last(), len);
    }
}

/// The segments end with an unbroken part of `t` that starts no later than the
/// last cluster.
proof fn lemma_segments_suffix(t: Seq<char>, c: Seq<(usize, usize)>, pad: int) -> (from: int)
    requires
        clusters_ok(c, t.len() as int),
        c.len() > 0,
        pad >= 0,
    ensures
        0 <= from <= c.last().0,
        from <= segment_end(c.last(), pad, t.len() as int) <= t.len(),
        segments_text(t, c, pad).len() >= segment_end(c.last(), pad, t.len() as int) - from,
        segments_text(t, c, pad).skip(
            segments_text(t, c, pad).len() - (segment_end(c.last(), pad, t.len() as int) - from),
        ) == t.subrange(from, segment_end(c.last(), pad, t.len() as int)),
    decreases c.len(),
{
    let len = t.len() as int;
    let front = c.drop_last();
    let line = segments_text(t, c, pad);
    let start = segment_start(c, pad, len);
    let end = segment_end(c.last(), pad, len);
    lemma_segment_bounds(c, pad, len);
    let head = segments_text(t, front, pad) + ellipsis_if(start > previous_end(c, pad, len));
    assert(line =~= head + t.subrange(start, end));
    assert(c[c.len() - 1] == c.last());
    if start <= c.last().0 {
        assert(line.skip(line.len() - (end - start)) =~= t.subrange(start, end));
        start
    } else {
        assert(c.len() > 1);
        assert(c.take(c.len() - 1) =~= front);
        lemma_clusters_prefix_ok(c, c.len() - 1, len);
        let from = lemma_segments_suffix(t, front, pad);
        let before = segments_text(t, front, pad);
        assert(front.last() == c[c.len() - 2]);
        assert(previous_end(c, pad, len) == segment_end(front.last(), pad, len));
        assert(c[c.len() - 2].1 + MERGE_GAP < c[c.len() - 1].0);
        assert(c[c.len() - 2].0 <= c[c.len() - 2].1);
        assert(head =~= before);
        assert(line.skip(line.len() - (end - from)) =~= before.skip(
            before.len() - (start - from),
        ) + t.subrange(start, end));
        assert(t.subrange(from, start) + t.subrange(start, end) =~= t.subrange(from, end));
        from
    }
}

proof fn lemma_segments_show(t: Seq<char>, c: Seq<(usize, usize)>, pad: int, k: int)
    requires
        clusters_ok(c, t.len() as int),
        0 <= k < c.len(),
        pad >= 0,
    ensures
        shows(segments_text(t, c, pad), t.subrange(c[k].0 as int, c[k].1 as int)),
    decreases c.len(),
{
    let len = t.len() as int;
    let line = segments_text(t, c, pad);
    let part = t.subrange(c[k].0 as int, c[k].1 as int);
    if k == c.len() - 1 {
        let from = lemma_segments_suffix(t, c, pad);
        let end = segment_end(c.last(), pad, len);
        let p = line.len() - (end - from) + (c[k].0 - from);
        assert(c[k].0 <= c[k].1 <= len);
        let tail = line.skip(line.len() - (end - from));
        assert(line.subrange(p, p + part.len()) =~= tail.subrange(c[k].0 - from, c[k].1 - from));
        assert(tail.subrange(c[k].0 - from, c[k].1 - from) =~= part);
        lemma_shows_at(line, part, p);
    } else {
        let front = c.drop_last();
        assert(c.take(c.len() - 1) =~= front);
        lemma_clusters_prefix_ok(c, c.len() - 1, len);
        lemma_segments_show(t, front, pad, k);
        assert(front[k] == c[k]);
        let start = segment_start(c, pad, len);
        let end = segment_end(c.last(), pad, len);
        lemma_shows_concat(
            segments_text(t, front, pad),
            ellipsis_if(start > previous_end(c, pad, len)),
            part,
        );
        lemma_shows_concat(
            segments_text(t, front, pad) + ellipsis_if(start > previous_end(c, pad, len)),
            t.subrange(start, end),
            part,
        );
    }
}

proof fn lemma_char_ranges(t: Seq<char>, ranges: Seq<ByteRange>)
    requires
        t.len() <= usize::MAX,
        forall|i: int| 0 <= i < ranges.len() ==> (#[trigger] ranges[i]).0 <= ranges[i].1,
    ensures
        forall|i: int|
            0 <= i < ranges.len() ==> {
                &&& (#[trigger] char_ranges(t, ranges)[i]).0 == char_index(t, ranges[i].0 as int)
                &&& char_ranges(t, ranges)[i].1 == char_index(t, ranges[i].1 as int)
                &&& char_ranges(t, ranges)[i].0 <= char_ranges(t, ranges)[i].1 <= t.len()
            },
{
    assert forall|i: int| 0 <= i < ranges.len() implies {
        &&& (#[trigger] char_ranges(t, ranges)[i]).0 == char_index(t, ranges[i].0 as int)
        &&& char_ranges(t, ranges)[i].1 == char_index(t, ranges[i].1 as int)
        &&& char_ranges(t, ranges)[i].0 <= char_ranges(t, ranges)[i].1 <= t.len()
    } by {
        assert(ranges[i].0 <= ranges[i].1);
        lemma_char_index_monotone(t, ranges[i].0 as int, ranges[i].1 as int);
    }
}

/// Where the text fits whole or the matches reach beyond its start, the line
/// shows each of the first groups of matches, in one piece.
pub proof fn law_match_line_shows_clusters(
    t: Seq<char>,
    ranges: Seq<ByteRange>,
    max_width: usize,
    k: int,
)
    requires
        t.len() <= usize::MAX,
        forall|i: int| 0 <= i < ranges.len() ==> (#[trigger] ranges[i]).0 <= ranges[i].1,
        ranges.len() > 0,
        display_width(t) <= max_width || char_ranges(t, ranges).last().1 > minus(
            max_width as int,
            1,
        ),
        0 <= k < shown_clusters(char_ranges(t, ranges)).len(),
    ensures
        match_line(t, ranges, max_width) matches Some(line) ==> shows(
            line,
            t.subrange(
                shown_clusters(char_ranges(t, ranges))[k].0 as int,
                shown_clusters(char_ranges(t, ranges))[k].1 as int,
            ),
        ),
{
    let matches = char_ranges(t, ranges);
    let c = shown_clusters(matches);
    let len = t.len() as int;
    lemma_char_ranges(t, ranges);
    lemma_clusters_of_ok(matches, len);
    lemma_clusters_prefix_ok(clusters_of(matches), c.len() as int, len);
    assert(clusters_of(matches).take(c.len() as int) =~= c);
    let pad = padding(c, max_width as int);
    assert(pad >= 0) by {
        let count = c.len() as int;
        let room = minus(minus(max_width as int, cluster_chars(c)), count + 1);
        assert(room / (count * 2) >= 0) by (nonlinear_arith)
            requires
                room >= 0,
                count > 0,
        ;
    }
    lemma_segments_show(t, c, pad, k);
    lemma_shows_concat(
        segments_text(t, c, pad),
        ellipsis_if(c.last().1 + pad < t.len()),
        t.subrange(c[k].0 as int, c[k].1 as int),
    );
    assert(c[k].0 <= c[k].1 <= len);
    lemma_shows_at(t, t.subrange(c[k].0 as int, c[k].1 as int), c[k].0 as int);
}

/// Of matches in the order of their starts, each lies inside one of the groups.
pub proof fn law_clusters_hold_matches(matches: Seq<(usize, usize)>, m: int)
    requires
        forall|i: int, j: int|
            0 <= i < j < matches.len() ==> (#[trigger] matches[i]).0 <= (#[trigger] matches[j]).0,
        0 <= m < matches.len(),
    ensures
        inside_one(clusters_of(matches), matches[m]),
        clusters_of(matches).last().0 <= matches.last().0,
    decreases matches.len(),
{
    let front = matches.drop_last();
    let old = clusters_of(front);
    let new = clusters_of(matches);
    let r = matches.last();
    assert forall|i: int, j: int| 0 <= i < j < front.len() implies (#[trigger] front[i]).0 <= (
    #[trigger] front[j]).0 by {
        assert(matches[i].0 <= matches[j].0);
    }
    if front.len() > 0 {
        law_clusters_hold_matches(front, front.len() - 1);
        assert(matches[matches.len() - 2].0 <= matches[matches.len() - 1].0);
        assert(front.last() == matches[matches.len() - 2]);
    }
    let last = new.len() - 1;
    assert(new[last].0 <= r.0 && r.1 <= new[last].1);
    if m < front.len() {
        law_clusters_hold_matches(front, m);
        let k = choose|k: int|
            0 <= k < old.len() && (#[trigger] old[k]).0 <= front[m].0 && front[m].1 <= old[k].1;
        assert(new[k].0 <= matches[m].0 && matches[m].1 <= new[k].1);
    }
}

/// Where the text fits whole or the matches reach beyond its start, and no group
/// of them is left out, the line shows each match.
pub proof fn law_match_line_shows_matches(
    t: Seq<char>,
    ranges: Seq<ByteRange>,
    max_width: usize,
    m: int,
)
    requires
        t.len() <= usize::MAX,
        forall|i: int| 0 <= i < ranges.len() ==> (#[trigger] ranges[i]).0 <= ranges[i].1,
        forall|i: int, j: int|
            0 <= i < j < ranges.len() ==> (#[trigger] ranges[i]).0 <= (#[trigger] ranges[j]).0,
        ranges.len() > 0,
        display_width(t) <= max_width || char_ranges(t, ranges).last().1 > minus(
            max_width as int,
            1,
        ),
        clusters_of(char_ranges(t, ranges)).len() <= MAX_CLUSTERS,
        0 <= m < ranges.len(),
    ensures
        match_line(t, ranges, max_width) matches Some(line) ==> shows(
            line,
            slice(t, ranges[m].0 as int, ranges[m].1 as int),
        ),
{
    let matches = char_ranges(t, ranges);
    let c = clusters_of(matches);
    let len = t.len() as int;
    let r = matches[m];
    lemma_char_ranges(t, ranges);
    assert forall|i: int, j: int| 0 <= i < j < matches.len() implies (#[trigger] matches[i]).0 <= (
    #[trigger] matches[j]).0 by {
        assert(ranges[i].0 <= ranges[j].0);
        lemma_char_index_monotone(t, ranges[i].0 as int, ranges[j].0 as int);
    }
    law_clusters_hold_matches(matches, m);
    let k = choose|k: int| 0 <= k < c.len() && (#[trigger] c[k]).0 <= r.0 && r.1 <= c[k].1;
    assert(c[k].1 <= len) by {
        lemma_clusters_of_ok(matches, len);
    }
    assert(shown_clusters(matches) =~= c);
    law_match_line_shows_clusters(t, ranges, max_width, k);
    if let Some(line) = match_line(t, ranges, max_width) {
        lemma_shows_inner(t, line, c[k], r);
    }
}

/// A line that shows the characters `outer` of `t` shows the characters `inner`
/// inside them.
proof fn lemma_shows_inner(
    t: Seq<char>,
    line: Seq<char>,
    outer: (usize, usize),
    inner: (usize, usize),
)
    requires
        outer.0 <= inner.0 <= inner.1 <= outer.1 <= t.len(),
        shows(line, t.subrange(outer.0 as int, outer.1 as int)),
    ensures
        shows(line, t.subrange(inner.0 as int, inner.1 as int)),
{
    let whole = t.subrange(outer.0 as int, outer.1 as int);
    lemma_shows_part(line, whole, inner.0 - outer.0, inner.1 - outer.0);
    assert(whole.subrange(inner.0 - outer.0, inner.1 - outer.0) =~= t.subrange(
        inner.0 as int,
        inner.1 as int,
    ));
}

/// Of one-column characters, the start of the text that is shown where all
/// matches end before the last column shows each of them.
pub proof fn law_start_shows_matches(t: Seq<char>, range: (usize, usize), max_width: usize)
    requires
        range.0 <= range.1 <= t.len(),
        range.1 < max_width,
    ensures
        shows(
            plain_truncated(t, max_width),
            t.subrange(range.0 as int, range.1 as int),
        ),
{
    let line = plain_truncated(t, max_width);
    let part = t.subrange(range.0 as int, range.1 as int);
    assert(line.subrange(range.0 as int, range.1 as int) =~= part);
    lemma_shows_at(line, part, range.0 as int);
}

/// The segments take no more than the characters of the clusters, their context
/// and an ellipsis each.
proof fn lemma_segments_len(t: Seq<char>, c: Seq<(usize, usize)>, pad: int)
    requires
        clusters_ok(c, t.len() as int),
        pad >= 0,
    ensures
        segments_text(t, c, pad).len() <= cluster_chars(c) + c.len() * (2 * pad + 1),
    decreases c.len(),
{
    if c.len() > 0 {
        let len = t.len() as int;
        let count = c.len() as int;
        let front = c.drop_last();
        assert(c.take(count - 1) =~= front);
        lemma_clusters_prefix_ok(c, count - 1, len);
        lemma_segments_len(t, front, pad);
        lemma_segment_bounds(c, pad, len);
        assert((count - 1) * (2 * pad + 1) + (2 * pad + 1) == count * (2 * pad + 1))
            by (nonlinear_arith);
    }
}

/// In a text of one-column characters a line comes out wherever the characters of
/// the shown groups and an ellipsis around each of them fit into the width.
pub proof fn law_plain_segments_fit(t: Seq<char>, ranges: Seq<ByteRange>, max_width: usize)
    requires
        t.len() <= usize::MAX,
        forall|i: int| 0 <= i < ranges.len() ==> (#[trigger] ranges[i]).0 <= ranges[i].1,
        cluster_chars(shown_clusters(char_ranges(t, ranges))) + shown_clusters(
            char_ranges(t, ranges),
        ).len() + 1 <= max_width,
    ensures
        plain_match_line(t, ranges, max_width) is Some,
{
    if ranges.len() > 0 {
        let matches = char_ranges(t, ranges);
        let c = shown_clusters(matches);
        let len = t.len() as int;
        let count = c.len() as int;
        lemma_char_ranges(t, ranges);
        lemma_clusters_of_ok(matches, len);
        lemma_clusters_prefix_ok(clusters_of(matches), count, len);
        assert(clusters_of(matches).take(count) =~= c);
        let pad = padding(c, max_width as int);
        let room = max_width - cluster_chars(c) - (count + 1);
        assert(pad >= 0 && count * (2 * pad) <= room) by (nonlinear_arith)
            requires
                pad == room / (count * 2),
                room >= 0,
                count > 0,
        ;
        assert(count * (2 * pad + 1) == count * (2 * pad) + count) by (nonlinear_arith);
        lemma_segments_len(t, c, pad);
    }
}

/// A text that fits into the width is shown whole, whatever matches in it.
pub proof fn law_fitting_text_is_whole(t: Seq<char>, ranges: Seq<ByteRange>, max_width: usize)
    requires
        display_width(t) <= max_width,
    ensures
        match_line(t, ranges, max_width) == Some(t),
{
}

/// A line is the one that is meant where both are there and read the same, or
/// neither is there.
pub proof fn law_is_line(line: Option<String>, shown: Option<Seq<char>>)
    ensures
        is_line(line, shown) <==> {
            ||| line is None && shown is None
            ||| line is Some && shown is Some && line.unwrap()@ == shown.unwrap()
        },
{
}

/// A byte range of whole characters stands for the characters that its bytes hold.
pub proof fn law_char_ranges(t: Seq<char>, ranges: Seq<ByteRange>, i: int, from: int, to: int)
    requires
        t.len() <= usize::MAX,
        0 <= i < ranges.len(),
        0 <= from <= t.len(),
        0 <= to <= t.len(),
        ranges[i].0 == byte_len(t.take(from)),
        ranges[i].1 == byte_len(t.take(to)),
    ensures
        char_ranges(t, ranges).len() == ranges.len(),
        char_ranges(t, ranges)[i] == (from as usize, to as usize),
        slice(t, ranges[i].0 as int, ranges[i].1 as int) == t.subrange(from, to),
{
    lemma_char_index_of_offset(t, from);
    lemma_char_index_of_offset(t, to);
}

proof fn lemma_cluster_ends(matches: Seq<(usize, usize)>)
    ensures
        forall|k: int|
            0 <= k < clusters_of(matches).len() ==> {
                &&& exists|i: int|
                    0 <= i < matches.len() && (#[trigger] matches[i]).0 == (
                    #[trigger] clusters_of(matches)[k]).0
                &&& exists|i: int|
                    0 <= i < matches.len() && (#[trigger] matches[i]).1 == clusters_of(
                        matches,
                    )[k].1
            },
    decreases matches.len(),
{
    if matches.len() > 0 {
        let front = matches.drop_last();
        let old = clusters_of(front);
        let new = clusters_of(matches);
        let end = matches.len() - 1;
        lemma_cluster_ends(front);
        assert forall|k: int| 0 <= k < new.len() implies {
            &&& exists|i: int|
                0 <= i < matches.len() && (#[trigger] matches[i]).0 == (#[trigger] new[k]).0
            &&& exists|i: int| 0 <= i < matches.len() && (#[trigger] matches[i]).1 == new[k].1
        } by {
            if k < old.len() {
                let x = choose|i: int|
                    0 <= i < front.len() && (#[trigger] front[i]).0 == (#[trigger] old[k]).0;
                let y = choose|i: int| 0 <= i < front.len() && (#[trigger] front[i]).1 == old[k].1;
                assert(matches[x].0 == new[k].0);
                assert(matches[y].1 == old[k].1);
                assert(new[k].1 == old[k].1 || new[k].1 == matches[end].1);
            } else {
                assert(matches[end] == new[k]);
            }
        }
    }
}

/// A group of matches starts where a match starts and ends where one ends, and the
/// next group starts more than twenty characters behind it.
pub proof fn law_clusters(matches: Seq<(usize, usize)>, k: int) -> (r: (int, int))
    requires
        forall|i: int| 0 <= i < matches.len() ==> (#[trigger] matches[i]).0 <= matches[i].1,
        0 <= k < clusters_of(matches).len(),
    ensures
        0 <= r.0 < matches.len(),
        0 <= r.1 < matches.len(),
        clusters_of(matches)[k].0 == matches[r.0].0,
        clusters_of(matches)[k].1 == matches[r.1].1,
        clusters_of(matches)[k].0 <= clusters_of(matches)[k].1,
        k + 1 < clusters_of(matches).len() ==> clusters_of(matches)[k].1 + 20 < clusters_of(
            matches,
        )[k + 1].0,
{
    let c = clusters_of(matches);
    lemma_cluster_ends(matches);
    lemma_clusters_of_ok(matches, usize::MAX as int);
    let x = choose|i: int| 0 <= i < matches.len() && (#[trigger] matches[i]).0 == c[k].0;
    let y = choose|i: int| 0 <= i < matches.len() && (#[trigger] matches[i]).1 == c[k].1;
    assert(c[k].0 <= c[k].1);
    if k + 1 < c.len() {
        assert(c[k].1 + MERGE_GAP < c[k + 1].0);
    }
    (x, y)
}

/// A match that starts no group starts no more than twenty characters behind the end
/// of an earlier one.
pub proof fn law_clusters_are_connected(matches: Seq<(usize, usize)>, m: int)
    requires
        0 <= m < matches.len(),
    ensures
        ({
            ||| exists|k: int|
                0 <= k < clusters_of(matches).len() && (#[trigger] clusters_of(matches)[k]).0
                    == matches[m].0
            ||| exists|i: int|
                0 <= i < m && matches[m].0 <= (#[trigger] matches[i]).1 + 20
        }),
    decreases matches.len(),
{
    let front = matches.drop_last();
    let old = clusters_of(front);
    let new = clusters_of(matches);
    if m < front.len() {
        law_clusters_are_connected(front, m);
        if exists|k: int| 0 <= k < old.len() && (#[trigger] old[k]).0 == front[m].0 {
            let k = choose|k: int| 0 <= k < old.len() && (#[trigger] old[k]).0 == front[m].0;
            assert(new[k].0 == matches[m].0);
        } else {
            let i = choose|i: int| 0 <= i < m && front[m].0 <= (#[trigger] front[i]).1 + 20;
            assert(matches[m].0 <= matches[i].1 + 20);
        }
    } else if new.len() == old.len() {
        lemma_cluster_ends(front);
        let last = old.len() - 1;
        assert(old[last] == old.last());
        let i = choose|i: int| 0 <= i < front.len() && (#[trigger] front[i]).1 == old[last].1;
        assert(matches[m].0 <= matches[i].1 + 20);
    } else {
        assert(new[new.len() - 1].0 == matches[m].0);
    }
}

/// The first three groups are shown.
pub proof fn law_shown_clusters(matches: Seq<(usize, usize)>)
    ensures
        clusters_of(matches).len() <= 3 ==> shown_clusters(matches) == clusters_of(matches),
        clusters_of(matches).len() > 3 ==> shown_clusters(matches) == clusters_of(matches).take(3),
{
    let c = clusters_of(matches);
    assert(c.take(c.len() as int) =~= c);
}

/// The characters of groups add up.
pub proof fn law_cluster_chars(a: Seq<(usize, usize)>, c: (usize, usize))
    ensures
        cluster_chars(a.push(c)) == cluster_chars(a) + (c.1 - c.0),
        cluster_chars(Seq::empty()) == 0,
{
    assert(a.push(c).drop_last() =~= a);
}

/// The context of the groups is as wide as it can be: on each of their sides there
/// is room for that many characters and an ellipsis around each group, and not for
/// one more on each side; and there is none where not even the ellipses fit.
pub proof fn law_padding(c: Seq<(usize, usize)>, max_width: int)
    requires
        c.len() > 0,
        0 <= cluster_chars(c),
        0 <= max_width,
    ensures
        padding(c, max_width) >= 0,
        ({
            let needed = cluster_chars(c) + c.len() + 1;
            let pad = padding(c, max_width);
            if needed <= max_width {
                needed + c.len() * 2 * pad <= max_width < needed + c.len() * 2 * (pad + 1)
            } else {
                pad == 0
            }
        }),
{
    let count = c.len() as int;
    let needed = cluster_chars(c) + count + 1;
    let pad = padding(c, max_width);
    let room = minus(minus(max_width, cluster_chars(c)), count + 1);
    assert(pad >= 0 && count * 2 * pad <= room < count * 2 * (pad + 1)) by (nonlinear_arith)
        requires
            pad == room / (count * 2),
            room >= 0,
            count > 0,
    ;
    if needed > max_width {
        assert(pad == 0) by (nonlinear_arith)
            requires
                pad == 0int / (count * 2),
                count > 0,
        ;
    }
}

/// A group is added to the segments with its context, cut to the text and to what the
/// segment before it leaves, behind an ellipsis where something lies between.
pub proof fn law_segments_text(
    t: Seq<char>,
    c: Seq<(usize, usize)>,
    d: (usize, usize),
    pad: int,
)
    requires
        pad >= 0,
    ensures
        ({
            let len = t.len() as int;
            let to = if d.1 + pad <= len {
                d.1 + pad
            } else {
                len
            };
            let last = if c.len() == 0 {
                0
            } else if c.last().1 + pad <= len {
                c.last().1 + pad
            } else {
                len
            };
            let from = if d.0 - pad >= last {
                d.0 - pad
            } else {
                last
            };
            let gap = if from > last {
                seq!['…']
            } else {
                Seq::empty()
            };
            segments_text(t, c.push(d), pad) == segments_text(t, c, pad) + gap + t.subrange(
                from,
                to,
            )
        }),
        segments_text(t, Seq::empty(), pad) == Seq::<char>::empty(),
{
    let all = c.push(d);
    assert(all.drop_last() =~= c);
    if c.len() > 0 {
        assert(all[all.len() - 2] == c.last());
    }
}

/// The line of segments ends with an ellipsis exactly where the context of the last
/// group stops short of the end of the text.
pub proof fn law_clusters_line(t: Seq<char>, c: Seq<(usize, usize)>, max_width: int)
    requires
        c.len() > 0,
    ensures
        ({
            let pad = padding(c, max_width);
            if c.last().1 + pad < t.len() {
                clusters_line(t, c, max_width) == segments_text(t, c, pad) + seq!['…']
            } else {
                clusters_line(t, c, max_width) == segments_text(t, c, pad)
            }
        }),
{
    let pad = padding(c, max_width);
    assert(segments_text(t, c, pad) + Seq::<char>::empty() =~= segments_text(t, c, pad));
}

/// The segments show the group `k` with all of its context in one piece.
pub proof fn law_segments_show_context(t: Seq<char>, c: Seq<(usize, usize)>, pad: int, k: int)
    requires
        pad >= 0,
        0 <= k < c.len(),
        forall|i: int| 0 <= i < c.len() ==> (#[trigger] c[i]).0 <= c[i].1 <= t.len(),
        forall|i: int, j: int|
            0 <= i < j < c.len() ==> (#[trigger] c[i]).1 + 20 < (#[trigger] c[j]).0,
    ensures
        ({
            let len = t.len() as int;
            let from = if c[k].0 >= pad {
                c[k].0 - pad
            } else {
                0
            };
            let to = if c[k].1 + pad <= len {
                c[k].1 + pad
            } else {
                len
            };
            shows(segments_text(t, c, pad), t.subrange(from, to))
        }),
    decreases c.len(),
{
    let len = t.len() as int;
    let from = minus(c[k].0 as int, pad);
    let to = min_of(c[k].1 + pad, len);
    let part = t.subrange(from, to);
    let line = segments_text(t, c, pad);
    let front = c.drop_last();
    assert(clusters_ok(c, len));
    assert(c.take(c.len() - 1) =~= front);
    lemma_clusters_prefix_ok(c, c.len() - 1, len);
    if k == c.len() - 1 {
        let start = lemma_segments_context(t, c, pad);
        let tail = line.skip(line.len() - (to - start));
        let p = line.len() - (to - start) + (from - start);
        assert(c.last() == c[k]);
        assert(line.subrange(p, p + part.len()) =~= tail.subrange(from - start, to - start));
        assert(tail.subrange(from - start, to - start) =~= part);
        lemma_shows_at(line, part, p);
    } else {
        assert forall|i: int| 0 <= i < front.len() implies (#[trigger] front[i]).0 <= front[i].1
            <= t.len() by {
            assert(front[i] == c[i]);
        }
        assert forall|i: int, j: int| 0 <= i < j < front.len() implies (#[trigger] front[i]).1 + 20
            < (#[trigger] front[j]).0 by {
            assert(front[i] == c[i] && front[j] == c[j]);
        }
        law_segments_show_context(t, front, pad, k);
        assert(front[k] == c[k]);
        let start = segment_start(c, pad, len);
        let gap = ellipsis_if(start > previous_end(c, pad, len));
        let before = segments_text(t, front, pad);
        lemma_shows_concat(before, gap, part);
        lemma_shows_concat(
            before + gap,
            t.subrange(start, segment_end(c.last(), pad, len)),
            part,
        );
    }
}

/// The segments end with an unbroken part of `t` that starts no later than the
/// context of the last group.
proof fn lemma_segments_context(t: Seq<char>, c: Seq<(usize, usize)>, pad: int) -> (from: int)
    requires
        clusters_ok(c, t.len() as int),
        c.len() > 0,
        pad >= 0,
    ensures
        0 <= from <= minus(c.last().0 as int, pad),
        from <= segment_end(c.last(), pad, t.len() as int) <= t.len(),
        segments_text(t, c, pad).len() >= segment_end(c.last(), pad, t.len() as int) - from,
        segments_text(t, c, pad).skip(
            segments_text(t, c, pad).len() - (segment_end(c.last(), pad, t.len() as int) - from),
        ) == t.subrange(from, segment_end(c.last(), pad, t.len() as int)),
    decreases c.len(),
{
    let len = t.len() as int;
    let front = c.drop_last();
    let line = segments_text(t, c, pad);
    let start = segment_start(c, pad, len);
    let end = segment_end(c.last(), pad, len);
    lemma_segment_bounds(c, pad, len);
    let head = segments_text(t, front, pad) + ellipsis_if(start > previous_end(c, pad, len));
    assert(line =~= head + t.subrange(start, end));
    assert(c[c.len() - 1] == c.last());
    if start <= minus(c.last().0 as int, pad) {
        assert(line.skip(line.len() - (end - start)) =~= t.subrange(start, end));
        start
    } else {
        assert(c.len() > 1);
        assert(c.take(c.len() - 1) =~= front);
        lemma_clusters_prefix_ok(c, c.len() - 1, len);
        let from = lemma_segments_context(t, front, pad);
        let before = segments_text(t, front, pad);
        assert(front.last() == c[c.len() - 2]);
        assert(previous_end(c, pad, len) == segment_end(front.last(), pad, len));
        assert(c[c.len() - 2].1 + MERGE_GAP < c[c.len() - 1].0);
        assert(c[c.len() - 2].0 <= c[c.len() - 2].1);
        assert(head =~= before);
        assert(line.skip(line.len() - (end - from)) =~= before.skip(
            before.len() - (start - from),
        ) + t.subrange(start, end));
        assert(t.subrange(from, start) + t.subrange(start, end) =~= t.subrange(from, end));
        from
    }
}

/// What the line of matches is: the start of the text where nothing matches, where
/// the text fits, or where the last match ends before the last column; else the
/// segments around the first groups where they fit, and nothing where they do not.
pub proof fn law_match_line(t: Seq<char>, ranges: Seq<ByteRange>, max_width: usize)
    ensures
        ranges.len() == 0 ==> match_line(t, ranges, max_width) == Some(truncated(t, max_width))
            && plain_match_line(t, ranges, max_width) == Some(plain_truncated(t, max_width)),
        display_width(t) <= max_width ==> match_line(t, ranges, max_width) == Some(t),
        t.len() <= max_width ==> plain_match_line(t, ranges, max_width) == Some(t),
        ranges.len() > 0 && (char_ranges(t, ranges).last().1 < max_width || char_ranges(
            t,
            ranges,
        ).last().1 == 0) ==> match_line(t, ranges, max_width) == Some(truncated(t, max_width))
            && plain_match_line(t, ranges, max_width) == Some(
            plain_truncated(t, max_width),
        ),
        ranges.len() > 0 && char_ranges(t, ranges).last().1 >= max_width && char_ranges(
            t,
            ranges,
        ).last().1 > 0 ==> {
            let line = clusters_line(t, shown_clusters(char_ranges(t, ranges)), max_width as int);
            &&& display_width(t) > max_width && display_width(line) <= max_width ==> match_line(
                t,
                ranges,
                max_width,
            ) == Some(line)
            &&& display_width(t) > max_width && display_width(line) > max_width ==> match_line(
                t,
                ranges,
                max_width,
            ) is None
            &&& t.len() > max_width && line.len() <= max_width ==> plain_match_line(
                t,
                ranges,
                max_width,
            ) == Some(line)
            &&& t.len() > max_width && line.len() > max_width ==> plain_match_line(
                t,
                ranges,
                max_width,
            ) is None
        },
{
}

/// In a text of one-column characters the line shows each match of the first three
/// groups, wherever the line comes from; and each match at all where the text fits,
/// or where the last match ends before the last column.
pub proof fn law_plain_line_shows_matches(
    t: Seq<char>,
    ranges: Seq<ByteRange>,
    max_width: usize,
    m: int,
)
    requires
        t.len() <= usize::MAX,
        forall|i: int| 0 <= i < ranges.len() ==> (#[trigger] ranges[i]).0 <= ranges[i].1,
        forall|i: int, j: int|
            0 <= i < j < ranges.len() ==> (#[trigger] ranges[i]).0 <= (#[trigger] ranges[j]).0
                && ranges[i].1 <= ranges[j].1,
        max_width > 0,
        0 <= m < ranges.len(),
        ({
            let matches = char_ranges(t, ranges);
            let groups = clusters_of(matches);
            ||| t.len() <= max_width
            ||| matches.last().1 < max_width
            ||| groups.len() <= 3
            ||| matches[m].1 <= groups[2].1
        }),
    ensures
        plain_match_line(t, ranges, max_width) matches Some(line) ==> shows(
            line,
            slice(t, ranges[m].0 as int, ranges[m].1 as int),
        ),
{
    let matches = char_ranges(t, ranges);
    let part = slice(t, ranges[m].0 as int, ranges[m].1 as int);
    let r = matches[m];
    lemma_char_ranges(t, ranges);
    assert(ranges[m].0 <= ranges[m].1);
    assert(r.0 <= r.1 <= t.len());
    if t.len() <= max_width {
        lemma_shows_at(t, part, r.0 as int);
    } else if matches.last().1 < max_width {
        let last = ranges.len() - 1;
        if m < last {
            assert(ranges[m].1 <= ranges[last].1);
            lemma_char_index_monotone(t, ranges[m].1 as int, ranges[last].1 as int);
        }
        assert(matches[last] == matches.last());
        law_start_shows_matches(t, r, max_width);
    } else {
        lemma_plain_segments_show(t, ranges, max_width, m);
    }
}

proof fn lemma_plain_segments_show(
    t: Seq<char>,
    ranges: Seq<ByteRange>,
    max_width: usize,
    m: int,
)
    requires
        t.len() <= usize::MAX,
        forall|i: int| 0 <= i < ranges.len() ==> (#[trigger] ranges[i]).0 <= ranges[i].1,
        forall|i: int, j: int|
            0 <= i < j < ranges.len() ==> (#[trigger] ranges[i]).0 <= (#[trigger] ranges[j]).0,
        0 <= m < ranges.len(),
        clusters_of(char_ranges(t, ranges)).len() <= 3 || char_ranges(t, ranges)[m].1
            <= clusters_of(char_ranges(t, ranges))[2].1,
    ensures
        shows(
            clusters_line(t, shown_clusters(char_ranges(t, ranges)), max_width as int),
            slice(t, ranges[m].0 as int, ranges[m].1 as int),
        ),
{
    let matches = char_ranges(t, ranges);
    let all = clusters_of(matches);
    let c = shown_clusters(matches);
    let len = t.len() as int;
    let r = matches[m];
    lemma_char_ranges(t, ranges);
    assert forall|i: int, j: int| 0 <= i < j < matches.len() implies (#[trigger] matches[i]).0 <= (
    #[trigger] matches[j]).0 by {
        assert(ranges[i].0 <= ranges[j].0);
        lemma_char_index_monotone(t, ranges[i].0 as int, ranges[j].0 as int);
    }
    law_clusters_hold_matches(matches, m);
    let k = choose|k: int| 0 <= k < all.len() && (#[trigger] all[k]).0 <= r.0 && r.1 <= all[k].1;
    lemma_clusters_of_ok(matches, len);
    assert(r.0 <= r.1);
    if k > 2 {
        assert(all[2].1 + MERGE_GAP < all[k].0);
    }
    lemma_clusters_prefix_ok(all, c.len() as int, len);
    assert(all.take(c.len() as int) =~= c);
    assert(c[k] == all[k]);
    assert(c[k].1 <= len);
    lemma_cluster_chars(c, len);
    law_padding(c, max_width as int);
    let pad = padding(c, max_width as int);
    lemma_segments_show(t, c, pad, k);
    lemma_shows_inner(t, segments_text(t, c, pad), c[k], r);
    lemma_shows_concat(
        segments_text(t, c, pad),
        ellipsis_if(c.last().1 + pad < t.len()),
        t.subrange(r.0 as int, r.1 as int),
    );
}

/// A single group of matches is shown as one piece of the text around it, between
/// ellipses where the text goes on: the piece holds the group, and as much on each
/// side as the width leaves, up to the ends of the text.
pub proof fn law_one_group(t: Seq<char>, c: (usize, usize), max_width: int) -> (piece: (int, int))
    requires
        c.0 <= c.1 <= t.len(),
        0 <= max_width,
    ensures
        0 <= piece.0 <= c.0,
        c.1 <= piece.1 <= t.len(),
        clusters_line(t, seq![c], max_width) == (if piece.0 > 0 {
            seq!['…']
        } else {
            Seq::empty()
        }) + t.subrange(piece.0, piece.1) + (if piece.1 < t.len() {
            seq!['…']
        } else {
            Seq::empty()
        }),
        ({
            let spare = max_width - (c.1 - c.0) - 2;
            let side = if spare >= 0 {
                spare / 2
            } else {
                0
            };
            &&& piece.0 > 0 ==> c.0 - piece.0 == side
            &&& piece.1 < t.len() ==> piece.1 - c.1 == side
            &&& c.0 - piece.0 <= side
            &&& piece.1 - c.1 <= side
        }),
{
    let one = seq![c];
    let empty = Seq::<(usize, usize)>::empty();
    let len = t.len() as int;
    assert(one.drop_last() =~= empty);
    assert(empty.push(c) =~= one);
    law_cluster_chars(empty, c);
    law_padding(one, max_width);
    let pad = padding(one, max_width);
    law_segments_text(t, empty, c, pad);
    law_clusters_line(t, one, max_width);
    let from = minus(c.0 as int, pad);
    let to = min_of(c.1 + pad, len);
    let gap = ellipsis_if(from > 0);
    assert(Seq::<char>::empty() + gap + t.subrange(from, to) =~= gap + t.subrange(from, to));
    assert(gap + t.subrange(from, to) + Seq::<char>::empty() =~= gap + t.subrange(from, to));
    if c.1 + pad == len {
        assert(to == len);
    }
    (from, to)
}

/// The match stands between what is left of the text before it and of the text after
/// it, where its ellipses fit beside it. The three take the whole width; and what the
/// match and the ellipses leave is shared, the odd column going to the right.
pub proof fn law_around_range(t: Seq<char>, r: ByteRange, max_width: usize) -> (widths: (int, int))
    requires
        byte_len(t) <= usize::MAX,
    ensures
        ({
            let matched = slice(t, r.0 as int, r.1 as int);
            let before = t.take(char_index(t, r.0 as int));
            let after = t.skip(char_index(t, r.1 as int));
            let left = if r.0 > 0 {
                1int
            } else {
                0
            };
            let right = if r.1 < byte_len(t) {
                1int
            } else {
                0
            };
            &&& display_width(matched) >= max_width || display_width(matched) + left + right
                > max_width ==> around_range(t, r, max_width) == truncated(matched, max_width)
            &&& display_width(matched) < max_width && display_width(matched) + left + right
                <= max_width ==> {
                &&& widths.0 + display_width(matched) + widths.1 == max_width
                &&& left <= widths.0
                &&& right <= widths.1
                &&& 0 <= (widths.1 - right) - (widths.0 - left) <= 1
                &&& around_range(t, r, max_width) == start_truncated(before, widths.0 as usize)
                    + matched + truncated(after, widths.1 as usize)
            }
        }),
{
    let width = display_width(slice(t, r.0 as int, r.1 as int)) as int;
    (left_columns(t, r, width, max_width as int), right_columns(t, r, width, max_width as int))
}

/// As [`law_around_range`], for a text of one-column characters.
pub proof fn law_plain_around_range(t: Seq<char>, r: ByteRange, max_width: usize) -> (widths: (
    int,
    int,
))
    requires
        byte_len(t) <= usize::MAX,
    ensures
        ({
            let matched = slice(t, r.0 as int, r.1 as int);
            let before = t.take(char_index(t, r.0 as int));
            let after = t.skip(char_index(t, r.1 as int));
            let left = if r.0 > 0 {
                1int
            } else {
                0
            };
            let right = if r.1 < byte_len(t) {
                1int
            } else {
                0
            };
            &&& matched.len() >= max_width || matched.len() + left + right > max_width
                ==> plain_around_range(t, r, max_width) == plain_truncated(matched, max_width)
            &&& matched.len() < max_width && matched.len() + left + right <= max_width ==> {
                &&& widths.0 + matched.len() + widths.1 == max_width
                &&& left <= widths.0
                &&& right <= widths.1
                &&& 0 <= (widths.1 - right) - (widths.0 - left) <= 1
                &&& plain_around_range(t, r, max_width) == plain_start_truncated(
                    before,
                    widths.0 as usize,
                ) + matched + plain_truncated(after, widths.1 as usize)
            }
        }),
{
    let width = slice(t, r.0 as int, r.1 as int).len() as int;
    (left_columns(t, r, width, max_width as int), right_columns(t, r, width, max_width as int))
}

/// In a text of one-column characters, a match whose ellipses fit beside it is shown
/// inside one piece of the text, between ellipses where the text goes on; the line
/// keeps to the width, and fills it unless the piece reaches an end of the text.
pub proof fn law_plain_around_is_a_piece(t: Seq<char>, r: ByteRange, max_width: usize) -> (piece: (
    int,
    int,
))
    requires
        byte_len(t) <= usize::MAX,
        r.0 < r.1,
        on_boundary(t, r.0 as int),
        on_boundary(t, r.1 as int),
        slice(t, r.0 as int, r.1 as int).len() + 2 <= max_width,
    ensures
        0 <= piece.0 <= char_index(t, r.0 as int),
        char_index(t, r.1 as int) <= piece.1 <= t.len(),
        plain_around_range(t, r, max_width) == (if piece.0 > 0 {
            seq!['…']
        } else {
            Seq::empty()
        }) + t.subrange(piece.0, piece.1) + (if piece.1 < t.len() {
            seq!['…']
        } else {
            Seq::empty()
        }),
        plain_around_range(t, r, max_width).len() <= max_width,
        piece.0 == 0 || piece.1 == t.len() || plain_around_range(t, r, max_width).len()
            == max_width,
{
    let from = char_index(t, r.0 as int);
    let to = char_index(t, r.1 as int);
    let len = t.len() as int;
    lemma_side_ends(t, r);
    let (a, b) = law_plain_around_range(t, r, max_width);
    let line = plain_around_range(t, r, max_width);
    let x = lemma_left_piece(t, from, a as usize);
    let y = lemma_right_piece(t, to, b as usize);
    lemma_three_pieces(t, x, from, to, y);
    assert(line == ellipsis_if(x > 0) + t.subrange(x, y) + ellipsis_if(y < len));
    (x, y)
}

/// A range of whole characters has text before it and behind it exactly where its
/// characters have.
proof fn lemma_side_ends(t: Seq<char>, r: ByteRange)
    requires
        r.0 < r.1,
        on_boundary(t, r.0 as int),
        on_boundary(t, r.1 as int),
    ensures
        0 <= char_index(t, r.0 as int) < char_index(t, r.1 as int) <= t.len(),
        r.0 > 0 <==> char_index(t, r.0 as int) > 0,
        r.1 < byte_len(t) <==> char_index(t, r.1 as int) < t.len(),
{
    lemma_boundary_char_index(t, r.0 as int);
    lemma_boundary_char_index(t, r.1 as int);
    lemma_boundary_order(t, r.0 as int, r.1 as int);
    lemma_offset_ends(t);
    lemma_char_index_of_offset(t, t.len() as int);
    lemma_char_index_of_offset(t, 0);
}

proof fn lemma_left_piece(t: Seq<char>, from: int, width: usize) -> (x: int)
    requires
        0 <= from <= t.len(),
        from > 0 ==> width > 0,
    ensures
        0 <= x <= from,
        plain_start_truncated(t.take(from), width) == ellipsis_if(x > 0) + t.subrange(x, from),
        (ellipsis_if(x > 0) + t.subrange(x, from)).len() <= width,
        x > 0 ==> (ellipsis_if(x > 0) + t.subrange(x, from)).len() == width,
{
    let before = t.take(from);
    let x = if from <= width {
        0
    } else {
        from - (width - 1)
    };
    assert(plain_start_truncated(before, width) =~= ellipsis_if(x > 0) + t.subrange(x, from));
    x
}

proof fn lemma_right_piece(t: Seq<char>, to: int, width: usize) -> (y: int)
    requires
        0 <= to <= t.len(),
        to < t.len() ==> width > 0,
    ensures
        to <= y <= t.len(),
        plain_truncated(t.skip(to), width) == t.subrange(to, y) + ellipsis_if(y < t.len()),
        (t.subrange(to, y) + ellipsis_if(y < t.len())).len() <= width,
        y < t.len() ==> (t.subrange(to, y) + ellipsis_if(y < t.len())).len() == width,
{
    let after = t.skip(to);
    let y = if after.len() <= width {
        t.len() as int
    } else {
        to + (width - 1)
    };
    assert(plain_truncated(after, width) =~= t.subrange(to, y) + ellipsis_if(y < t.len()));
    y
}

proof fn lemma_three_pieces(t: Seq<char>, x: int, from: int, to: int, y: int)
    requires
        0 <= x <= from <= to <= y <= t.len(),
    ensures
        (ellipsis_if(x > 0) + t.subrange(x, from)) + t.subrange(from, to) + (t.subrange(to, y)
            + ellipsis_if(y < t.len())) == ellipsis_if(x > 0) + t.subrange(x, y) + ellipsis_if(
            y < t.len(),
        ),
{
    assert(t.subrange(x, y) =~= t.subrange(x, from) + t.subrange(from, to) + t.subrange(to, y));
    assert((ellipsis_if(x > 0) + t.subrange(x, from)) + t.subrange(from, to) + (t.subrange(to, y)
        + ellipsis_if(y < t.len())) =~= ellipsis_if(x > 0) + (t.subrange(x, from) + t.subrange(
        from,
        to,
    ) + t.subrange(to, y)) + ellipsis_if(y < t.len()));
}

/// In a text of one-column characters, the line of a query shows its first match
/// wherever that is no wider than the line.
pub proof fn law_plain_query_line_shows_first_match(
    t: Seq<char>,
    query: Seq<char>,
    max_width: usize,
)
    requires
        byte_len(t) <= usize::MAX,
        query.len() > 0,
        max_width > 0,
        query_ranges(t, query).len() > 0,
        slice(
            t,
            query_ranges(t, query)[0].0 as int,
            query_ranges(t, query)[0].1 as int,
        ).len() <= max_width,
    ensures
        shows(
            plain_query_line(t, query, max_width),
            slice(t, query_ranges(t, query)[0].0 as int, query_ranges(t, query)[0].1 as int),
        ),
{
    let ranges = query_ranges(t, query);
    lemma_offset_increasing(t, 0, t.len() as int);
    lemma_offset_ends(t);
    lemma_query_ranges_in_order(t, query);
    match plain_match_line(t, ranges, max_width) {
        Some(line) => {
            lemma_first_match_in_groups(t, ranges);
            law_plain_line_shows_matches(t, ranges, max_width, 0);
        },
        None => {
            lemma_plain_around_shows(t, ranges[0], max_width);
        },
    }
}

proof fn lemma_query_ranges_in_order(t: Seq<char>, query: Seq<char>)
    requires
        byte_len(t) <= usize::MAX,
    ensures
        forall|i: int|
            0 <= i < query_ranges(t, query).len() ==> (#[trigger] query_ranges(t, query)[i]).0
                <= query_ranges(t, query)[i].1,
        forall|i: int, j: int|
            0 <= i < j < query_ranges(t, query).len() ==> (#[trigger] query_ranges(t, query)[i]).0
                <= (#[trigger] query_ranges(t, query)[j]).0 && query_ranges(t, query)[i].1
                <= query_ranges(t, query)[j].1,
{
    let ranges = query_ranges(t, query);
    law_query_ranges(t, query);
    assert forall|i: int| 0 <= i < ranges.len() implies (#[trigger] ranges[i]).0
        <= ranges[i].1 by {
        assert(valid_range(t, ranges[i]));
    }
    assert forall|i: int, j: int| 0 <= i < j < ranges.len() implies (#[trigger] ranges[i]).0 <= (
    #[trigger] ranges[j]).0 && ranges[i].1 <= ranges[j].1 by {
        assert(ranges[i].1 < ranges[j].0);
        assert(valid_range(t, ranges[i]) && valid_range(t, ranges[j]));
    }
}

proof fn lemma_plain_around_shows(t: Seq<char>, r: ByteRange, max_width: usize)
    requires
        slice(t, r.0 as int, r.1 as int).len() <= max_width,
    ensures
        shows(plain_around_range(t, r, max_width), slice(t, r.0 as int, r.1 as int)),
{
    let part = slice(t, r.0 as int, r.1 as int);
    let line = plain_around_range(t, r, max_width);
    let width = part.len() as int;
    if width >= max_width || width_with_sides(t, r, width) > max_width {
        assert(line.subrange(0, part.len() as int) =~= part);
        lemma_shows_at(line, part, 0);
    } else {
        let p = plain_start_truncated(
            t.take(char_index(t, r.0 as int)),
            left_columns(t, r, width, max_width as int) as usize,
        ).len() as int;
        assert(line.subrange(p, p + part.len()) =~= part);
        lemma_shows_at(line, part, p);
    }
}

proof fn lemma_first_match_in_groups(t: Seq<char>, ranges: Seq<ByteRange>)
    requires
        t.len() <= usize::MAX,
        ranges.len() > 0,
        forall|i: int| 0 <= i < ranges.len() ==> (#[trigger] ranges[i]).0 <= ranges[i].1,
        forall|i: int, j: int|
            0 <= i < j < ranges.len() ==> (#[trigger] ranges[i]).0 <= (#[trigger] ranges[j]).0
                && ranges[i].1 <= ranges[j].1,
    ensures
        clusters_of(char_ranges(t, ranges)).len() > 2 ==> char_ranges(t, ranges)[0].1
            <= clusters_of(char_ranges(t, ranges))[2].1,
{
    let matches = char_ranges(t, ranges);
    let all = clusters_of(matches);
    lemma_char_ranges(t, ranges);
    lemma_cluster_ends(matches);
    if all.len() > 2 {
        let i = choose|i: int| 0 <= i < matches.len() && (#[trigger] matches[i]).1 == all[2].1;
        if i > 0 {
            assert(ranges[0].1 <= ranges[i].1);
            lemma_char_index_monotone(t, ranges[0].1 as int, ranges[i].1 as int);
        }
        assert(matches[i].1 == char_index(t, ranges[i].1 as int));
        assert(matches[0].1 == char_index(t, ranges[0].1 as int));
    }
}

/// What the line of a query is: without a query or a width, the start of the text;
/// else the line of its matches, and where that is too wide, its first match with
/// context.
pub proof fn law_query_line(t: Seq<char>, query: Seq<char>, max_width: usize)
    ensures
        query.len() == 0 || max_width == 0 ==> query_line(t, query, max_width) == truncated(
            t,
            max_width,
        ) && plain_query_line(t, query, max_width) == plain_truncated(t, max_width),
        query.len() > 0 && max_width > 0 ==> {
            &&& match_line(t, query_ranges(t, query), max_width) matches Some(line) ==> query_line(
                t,
                query,
                max_width,
            ) == line
            &&& plain_match_line(t, query_ranges(t, query), max_width) matches Some(line)
                ==> plain_query_line(t, query, max_width) == line
            &&& match_line(t, query_ranges(t, query), max_width) is None ==> query_line(
                t,
                query,
                max_width,
            ) == around_range(t, query_ranges(t, query)[0], max_width)
            &&& plain_match_line(t, query_ranges(t, query), max_width) is None
                ==> plain_query_line(t, query, max_width) == plain_around_range(
                t,
                query_ranges(t, query)[0],
                max_width,
            )
        },
        max_width > 0 && query_ranges(t, query).len() == 0 ==> around_match(t, query, max_width)
            == truncated(t, max_width) && plain_around_match(t, query, max_width)
            == plain_truncated(t, max_width),
        max_width > 0 && query_ranges(t, query).len() > 0 ==> around_match(t, query, max_width)
            == around_range(t, query_ranges(t, query)[0], max_width) && plain_around_match(
            t,
            query,
            max_width,
        ) == plain_around_range(t, query_ranges(t, query)[0], max_width),
        max_width == 0 ==> around_match(t, query, max_width) == Seq::<char>::empty()
            && plain_around_match(t, query, max_width) == Seq::<char>::empty(),
{
}

/// A match that is no wider than the line is shown in one piece.
pub proof fn law_around_range_shows_match(t: Seq<char>, r: ByteRange, max_width: usize)
    requires
        display_width(slice(t, r.0 as int, r.1 as int)) <= max_width,
    ensures
        shows(around_range(t, r, max_width), slice(t, r.0 as int, r.1 as int)),
{
    let matched = slice(t, r.0 as int, r.1 as int);
    let width = display_width(matched) as int;
    let line = around_range(t, r, max_width);
    if width >= max_width || width_with_sides(t, r, width) > max_width {
        assert(line.subrange(0, matched.len() as int) =~= matched);
        lemma_shows_at(line, matched, 0);
    } else {
        let p = start_truncated(
            t.take(char_index(t, r.0 as int)),
            left_columns(t, r, width, max_width as int) as usize,
        ).len() as int;
        assert(line.subrange(p, p + matched.len()) =~= matched);
        lemma_shows_at(line, matched, p);
    }
}

} // verus!
