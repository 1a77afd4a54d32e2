//! Case-insensitive matching of query terms, with underscores read as spaces.

use crate::literal::ascii_lower;
use crate::ranges::{covers, max_of, separated, ByteRange};
use crate::sorting::{
    lemma_contains_sorted, lemma_sorted, lemma_sorted_contains, merge_sort, sorted, Ordered,
};
use crate::text::{
    byte_len, chars_of, lemma_byte_len_push, lemma_char_index_of_offset, lemma_offset_increasing,
    lemma_offsets, lemma_shows_at, offset, on_boundary, shows, slice, string_of, IndexedText,
};
use crate::words::{
    contents, is_white, join_with_spaces, join_words, law_join_words, law_one_word,
    law_split_join_split, law_words_around_whitespace, split_whitespace, words,
};
use vstd::prelude::*;

verus! {

pub open spec fn is_ascii(c: char) -> bool {
    c <= '\u{7f}'
}

/// An ASCII letter or digit.
pub open spec fn ascii_alphanumeric(c: char) -> bool {
    '0' <= c <= '9' || 'A' <= c <= 'Z' || 'a' <= c <= 'z'
}

/// The lowercase mapping of a character.
pub uninterp spec fn lowercase(c: char) -> Seq<char>;

/// `char::to_lowercase`: the characters of the lowercase mapping of `c`, which
/// Unicode fixes and [`lowercase`] names. Of ASCII, the letters `A` to `Z` are
/// mapped to `a` to `z`, and all else to itself.
#[verifier::external_body]
fn char_to_lowercase(c: char) -> (mapped: Vec<char>)
    ensures
        mapped@ == lowercase(c),
        is_ascii(c) ==> mapped@ == seq![ascii_lower(c)],
{
    c.to_lowercase().collect()
}

/// Whether a character is a letter or a number.
pub uninterp spec fn alphanumeric(c: char) -> bool;

/// `char::is_alphanumeric`: whether Unicode counts `c` as alphabetic or
/// numeric, which [`alphanumeric`] names. Of ASCII, these are the letters and the
/// digits.
#[verifier::external_body]
pub(crate) fn char_is_alphanumeric(c: char) -> (b: bool)
    ensures
        b == alphanumeric(c),
        is_ascii(c) ==> b == ascii_alphanumeric(c),
{
    c.is_alphanumeric()
}

/// The characters that `c` is matched as.
pub open spec fn fold_char(c: char) -> Seq<char> {
    if c == '_' {
        seq![' ']
    } else {
        lowercase(c)
    }
}

/// The characters that the text `t` is matched as.
pub open spec fn normal_chars(t: Seq<char>) -> Seq<char>
    decreases t.len(),
{
    if t.len() == 0 {
        Seq::empty()
    } else {
        normal_chars(t.drop_last()) + fold_char(t.last())
    }
}

/// For each character of [`normal_chars`], the bytes of the character of `t`
/// that it comes from.
pub open spec fn normal_spans(t: Seq<char>) -> Seq<ByteRange>
    decreases t.len(),
{
    if t.len() == 0 {
        Seq::empty()
    } else {
        let span = (byte_len(t.drop_last()) as usize, byte_len(t) as usize);
        normal_spans(t.drop_last()) + Seq::new(fold_char(t.last()).len(), |i: int| span)
    }
}

/// The term `q` stands at position `i` of `n`, at the start of a word where it
/// starts with a letter or a number.
pub open spec fn is_hit(n: Seq<char>, q: Seq<char>, i: int) -> bool {
    &&& q.len() > 0
    &&& 0 <= i <= i + q.len() <= n.len()
    &&& n.subrange(i, i + q.len()) == q
    &&& alphanumeric(q[0]) && i > 0 ==> !alphanumeric(n[i - 1])
}

/// The hits of `q` in `n` from position `i` on: the first one, and then those
/// after its end.
pub open spec fn hit_positions(n: Seq<char>, q: Seq<char>, i: int) -> Seq<int>
    decreases n.len() - i,
{
    if q.len() == 0 || i + q.len() > n.len() {
        Seq::empty()
    } else if is_hit(n, q, i) {
        seq![i] + hit_positions(n, q, i + q.len())
    } else {
        hit_positions(n, q, i + 1)
    }
}

/// The bytes that `len` normalized characters from position `i` on come from.
pub open spec fn span_from(spans: Seq<ByteRange>, i: int, len: nat) -> ByteRange {
    (spans[i].0, spans[i + len - 1].1)
}

/// The character that an ASCII character is matched as.
pub open spec fn ascii_fold(c: char) -> char {
    if c == '_' {
        ' '
    } else {
        ascii_lower(c)
    }
}

/// What is known of the ASCII characters of `t`: what they are matched as, and
/// which of them, and of the characters that `t` is matched as, are letters or
/// digits.
pub open spec fn ascii_known(t: Seq<char>) -> bool {
    &&& forall|i: int|
        0 <= i < t.len() && is_ascii(#[trigger] t[i]) ==> {
            &&& fold_char(t[i]) == seq![ascii_fold(t[i])]
            &&& alphanumeric(t[i]) <==> ascii_alphanumeric(t[i])
        }
    &&& forall|k: int|
        0 <= k < normal_chars(t).len() && is_ascii(#[trigger] normal_chars(t)[k]) ==> (alphanumeric(
            normal_chars(t)[k],
        ) <==> ascii_alphanumeric(normal_chars(t)[k]))
}

/// [`is_hit`] for a text of ASCII.
pub open spec fn is_ascii_hit(n: Seq<char>, q: Seq<char>, i: int) -> bool {
    &&& q.len() > 0
    &&& 0 <= i <= i + q.len() <= n.len()
    &&& n.subrange(i, i + q.len()) == q
    &&& ascii_alphanumeric(q[0]) && i > 0 ==> !ascii_alphanumeric(n[i - 1])
}

/// The byte ranges of the hits of one term in the text `t`.
pub open spec fn term_ranges(t: Seq<char>, q: Seq<char>) -> Seq<ByteRange> {
    hit_positions(normal_chars(t), q, 0).map_values(
        |i: int| span_from(normal_spans(t), i, q.len()),
    )
}

/// The byte ranges of the hits of each of `terms`, term by term.
pub open spec fn terms_ranges(t: Seq<char>, terms: Seq<Seq<char>>) -> Seq<ByteRange>
    decreases terms.len(),
{
    if terms.len() == 0 {
        Seq::empty()
    } else {
        terms_ranges(t, terms.drop_last()) + term_ranges(t, terms.last())
    }
}

/// `k` is the first of `spans` that starts at or after byte `b`, or their
/// number where none does.
pub open spec fn is_span_index(spans: Seq<ByteRange>, b: int, k: int) -> bool {
    &&& 0 <= k <= spans.len()
    &&& k < spans.len() ==> spans[k].0 >= b
    &&& forall|j: int| 0 <= j < k ==> (#[trigger] spans[j]).0 < b
}

/// The position in the normalized text that byte offset `b` stands for.
pub open spec fn span_index(spans: Seq<ByteRange>, b: int) -> int {
    choose|k: int| is_span_index(spans, b, k)
}

/// A character that joins the matches on its two sides into one.
pub open spec fn is_separator(c: char) -> bool {
    c == ' ' || c == '_' || c == '-' || c == '/'
}

/// Between the bytes `a` and `b` of `t` there is something, and only separators.
pub open spec fn separator_gap(t: Seq<char>, a: int, b: int) -> bool {
    let from = span_index(normal_spans(t), a);
    let to = span_index(normal_spans(t), b);
    &&& from < to
    &&& forall|k: int| from <= k < to ==> is_separator(#[trigger] normal_chars(t)[k])
}

/// `joined` with the match `r` added: the last range extended where `r` starts
/// inside it or at its end, or where only separators lie between; a new range
/// otherwise.
pub open spec fn join_range(t: Seq<char>, joined: Seq<ByteRange>, r: ByteRange) -> Seq<ByteRange> {
    if joined.len() > 0 && r.0 <= joined.last().1 {
        joined.drop_last().push((joined.last().0, max_of(joined.last().1, r.1)))
    } else if joined.len() > 0 && separator_gap(t, joined.last().1 as int, r.0 as int) {
        joined.drop_last().push((joined.last().0, r.1))
    } else {
        joined.push(r)
    }
}

/// The matches `s`, joined in turn.
pub open spec fn join_ranges(t: Seq<char>, s: Seq<ByteRange>) -> Seq<ByteRange>
    decreases s.len(),
{
    if s.len() == 0 {
        Seq::empty()
    } else {
        join_range(t, join_ranges(t, s.drop_last()), s.last())
    }
}

/// The byte ranges of `t` that a query matches: the hits of all its words, in
/// order and joined.
pub open spec fn query_ranges(t: Seq<char>, query: Seq<char>) -> Seq<ByteRange> {
    join_ranges(t, sorted(terms_ranges(t, words(query))))
}

/// A nonempty range of whole characters of `t`.
pub open spec fn valid_range(t: Seq<char>, r: ByteRange) -> bool {
    &&& r.0 < r.1
    &&& on_boundary(t, r.0 as int)
    &&& on_boundary(t, r.1 as int)
}

pub open spec fn valid_ranges(t: Seq<char>, ranges: Seq<ByteRange>) -> bool {
    forall|i: int| 0 <= i < ranges.len() ==> valid_range(t, #[trigger] ranges[i])
}

pub proof fn lemma_valid_concat(t: Seq<char>, a: Seq<ByteRange>, b: Seq<ByteRange>)
    requires
        valid_ranges(t, a),
        valid_ranges(t, b),
    ensures
        valid_ranges(t, a + b),
{
    assert forall|i: int| 0 <= i < (a + b).len() implies valid_range(t, #[trigger] (a + b)[i]) by {
        if i < a.len() {
            assert((a + b)[i] == a[i]);
        } else {
            assert((a + b)[i] == b[i - a.len()]);
        }
    }
}

proof fn lemma_normal_lens(t: Seq<char>)
    ensures
        normal_chars(t).len() == normal_spans(t).len(),
    decreases t.len(),
{
    if t.len() > 0 {
        lemma_normal_lens(t.drop_last());
    }
}

/// Span `p` covers the character `k`.
spec fn span_at(t: Seq<char>, p: int, k: int) -> bool {
    &&& 0 <= k < t.len()
    &&& normal_spans(t)[p] == (offset(t, k) as usize, offset(t, k + 1) as usize)
}

proof fn lemma_span_at_prefix(t: Seq<char>, p: int, k: int)
    requires
        t.len() > 0,
        0 <= p < normal_spans(t.drop_last()).len(),
        span_at(t.drop_last(), p, k),
    ensures
        span_at(t, p, k),
{
    assert(t.drop_last().take(k) =~= t.take(k));
    assert(t.drop_last().take(k + 1) =~= t.take(k + 1));
}

/// Each span covers one character of the text.
proof fn lemma_span_owner(t: Seq<char>, p: int) -> (k: int)
    requires
        0 <= p < normal_spans(t).len(),
    ensures
        span_at(t, p, k),
    decreases t.len(),
{
    let front = t.drop_last();
    if p < normal_spans(front).len() {
        let k = lemma_span_owner(front, p);
        lemma_span_at_prefix(t, p, k);
        k
    } else {
        let k = t.len() - 1;
        assert(t.take(k) =~= front);
        assert(t.take(k + 1) =~= t);
        k
    }
}

/// Each span is one whole character, and spans do not go back.
proof fn lemma_spans_ordered(t: Seq<char>, p: int, q: int)
    requires
        0 <= p <= q < normal_spans(t).len(),
        byte_len(t) <= usize::MAX,
    ensures
        valid_range(t, normal_spans(t)[p]),
        normal_spans(t)[p].0 <= normal_spans(t)[q].0,
        normal_spans(t)[p].1 <= normal_spans(t)[q].1,
        normal_spans(t)[p].1 <= byte_len(t),
    decreases t.len(),
{
    let front = t.drop_last();
    let k = lemma_span_owner(t, p);
    lemma_offsets(t);
    lemma_offset_increasing(t, k, t.len() as int);
    lemma_offset_increasing(t, k + 1, t.len() as int);
    assert(offset(t, k) < offset(t, k + 1));
    assert(on_boundary(t, offset(t, k) as int));
    assert(on_boundary(t, offset(t, k + 1) as int));
    assert(front.push(t.last()) =~= t);
    lemma_byte_len_push(front, t.last());
    if q < normal_spans(front).len() {
        lemma_spans_ordered(front, p, q);
    } else if p < normal_spans(front).len() {
        lemma_spans_ordered(front, p, p);
    }
}

proof fn lemma_span_index_exists(spans: Seq<ByteRange>, b: int, n: int) -> (k: int)
    requires
        0 <= n <= spans.len(),
    ensures
        0 <= k <= n,
        k < n ==> spans[k].0 >= b,
        forall|j: int| 0 <= j < k ==> (#[trigger] spans[j]).0 < b,
    decreases n,
{
    if n == 0 {
        0
    } else {
        let k = lemma_span_index_exists(spans, b, n - 1);
        if k < n - 1 || spans[n - 1].0 >= b {
            k
        } else {
            n
        }
    }
}

/// [`span_index`] is well defined.
proof fn lemma_span_index(spans: Seq<ByteRange>, b: int)
    ensures
        is_span_index(spans, b, span_index(spans, b)),
        forall|k: int| #[trigger] is_span_index(spans, b, k) ==> k == span_index(spans, b),
{
    let w = lemma_span_index_exists(spans, b, spans.len() as int);
    assert(is_span_index(spans, b, w));
    let c = span_index(spans, b);
    assert forall|k: int| #[trigger] is_span_index(spans, b, k) implies k == c by {
        if k < c {
            assert(spans[k].0 < b);
        }
        if c < k {
            assert(spans[c].0 < b);
        }
    }
}

/// What is listed as the hits of a term are hits, so each one that starts with a
/// letter or a number stands at the start of a word; they come in order and
/// without overlap.
pub proof fn law_hit_positions(n: Seq<char>, q: Seq<char>, i: int)
    requires
        0 <= i,
    ensures
        forall|k: int|
            0 <= k < hit_positions(n, q, i).len() ==> is_hit(n, q, #[trigger] hit_positions(n, q, i)[k])
                && i <= hit_positions(n, q, i)[k],
        forall|k: int, m: int|
            0 <= k < m < hit_positions(n, q, i).len() ==> #[trigger] hit_positions(n, q, i)[k]
                + q.len() <= #[trigger] hit_positions(n, q, i)[m],
    decreases n.len() - i,
{
    if q.len() == 0 || i + q.len() > n.len() {
    } else if is_hit(n, q, i) {
        let rest = hit_positions(n, q, i + q.len());
        law_hit_positions(n, q, i + q.len() as int);
        assert forall|k: int| 0 <= k < hit_positions(n, q, i).len() implies is_hit(
            n,
            q,
            #[trigger] hit_positions(n, q, i)[k],
        ) && i <= hit_positions(n, q, i)[k] by {
            if k > 0 {
                assert(hit_positions(n, q, i)[k] == rest[k - 1]);
            }
        }
        assert forall|k: int, m: int| 0 <= k < m < hit_positions(n, q, i).len() implies
            #[trigger] hit_positions(n, q, i)[k] + q.len() <= #[trigger] hit_positions(n, q, i)[m] by {
            assert(hit_positions(n, q, i)[m] == rest[m - 1]);
            if k > 0 {
                assert(hit_positions(n, q, i)[k] == rest[k - 1]);
            }
        }
    } else {
        law_hit_positions(n, q, i + 1);
        assert(hit_positions(n, q, i) == hit_positions(n, q, i + 1));
    }
}

/// No hit is missed: each one overlaps a listed hit that starts no later.
pub proof fn law_hit_positions_complete(n: Seq<char>, q: Seq<char>, i: int, p: int) -> (k: int)
    requires
        0 <= i <= p,
        is_hit(n, q, p),
    ensures
        0 <= k < hit_positions(n, q, i).len(),
        hit_positions(n, q, i)[k] <= p < hit_positions(n, q, i)[k] + q.len(),
    decreases n.len() - i,
{
    if is_hit(n, q, i) {
        if p < i + q.len() {
            0
        } else {
            let k = law_hit_positions_complete(n, q, i + q.len() as int, p);
            assert(hit_positions(n, q, i)[k + 1] == hit_positions(n, q, i + q.len())[k]);
            k + 1
        }
    } else {
        let k = law_hit_positions_complete(n, q, i + 1, p);
        assert(hit_positions(n, q, i) == hit_positions(n, q, i + 1));
        k
    }
}

/// The ranges of a term are whole characters of the text.
pub proof fn lemma_term_ranges_valid(t: Seq<char>, q: Seq<char>)
    requires
        byte_len(t) <= usize::MAX,
    ensures
        valid_ranges(t, term_ranges(t, q)),
{
    let n = normal_chars(t);
    let spans = normal_spans(t);
    lemma_normal_lens(t);
    law_hit_positions(n, q, 0);
    assert forall|i: int| 0 <= i < term_ranges(t, q).len() implies valid_range(
        t,
        #[trigger] term_ranges(t, q)[i],
    ) by {
        let p = hit_positions(n, q, 0)[i];
        assert(is_hit(n, q, p));
        lemma_spans_ordered(t, p, p + q.len() - 1);
        lemma_spans_ordered(t, p + q.len() - 1, p + q.len() - 1);
    }
}

pub proof fn lemma_terms_ranges_valid(t: Seq<char>, terms: Seq<Seq<char>>)
    requires
        byte_len(t) <= usize::MAX,
    ensures
        valid_ranges(t, terms_ranges(t, terms)),
    decreases terms.len(),
{
    if terms.len() > 0 {
        lemma_terms_ranges_valid(t, terms.drop_last());
        lemma_term_ranges_valid(t, terms.last());
        lemma_valid_concat(t, terms_ranges(t, terms.drop_last()), term_ranges(t, terms.last()));
    }
}

/// `r` lies inside one of `ranges`.
pub open spec fn inside_one(ranges: Seq<ByteRange>, r: ByteRange) -> bool {
    exists|k: int|
        0 <= k < ranges.len() && (#[trigger] ranges[k]).0 <= r.0 && r.1 <= ranges[k].1
}

/// Some hit of `hits` starts where `r` starts, and some hit ends where it ends.
pub open spec fn spans_hits(hits: Seq<ByteRange>, r: ByteRange) -> bool {
    &&& exists|i: int| 0 <= i < hits.len() && (#[trigger] hits[i]).0 == r.0
    &&& exists|i: int| 0 <= i < hits.len() && (#[trigger] hits[i]).1 == r.1
}

/// Something other than separators lies between each two neighbours.
pub open spec fn kept_apart(t: Seq<char>, ranges: Seq<ByteRange>) -> bool {
    forall|i: int, j: int|
        0 <= i && j == i + 1 && j < ranges.len() ==> !separator_gap(
            t,
            (#[trigger] ranges[i]).1 as int,
            (#[trigger] ranges[j]).0 as int,
        )
}

proof fn lemma_join_range(t: Seq<char>, m: Seq<ByteRange>, r: ByteRange)
    requires
        valid_ranges(t, m),
        separated(m),
        kept_apart(t, m),
        valid_range(t, r),
        m.len() > 0 ==> m.last().0 <= r.0,
    ensures
        valid_ranges(t, join_range(t, m, r)),
        separated(join_range(t, m, r)),
        kept_apart(t, join_range(t, m, r)),
        join_range(t, m, r).len() > 0,
        join_range(t, m, r).last().0 <= r.0,
        inside_one(join_range(t, m, r), r),
        forall|x: ByteRange| #[trigger] inside_one(m, x) ==> inside_one(join_range(t, m, r), x),
{
    let a = join_range(t, m, r);
    let last = a.len() - 1;
    assert(a[last].0 <= r.0 && r.1 <= a[last].1);
    if a.len() == m.len() {
        assert(valid_range(t, m.last()));
        assert forall|i: int| 0 <= i < a.len() implies valid_range(t, #[trigger] a[i]) by {
            assert(valid_range(t, m[i]));
        }
    }
    assert forall|i: int, j: int| 0 <= i && j == i + 1 && j < a.len() implies !separator_gap(
        t,
        (#[trigger] a[i]).1 as int,
        (#[trigger] a[j]).0 as int,
    ) by {
        assert(a[i] == m[i]);
        if j < m.len() {
            assert(a[j].0 == m[j].0);
        }
    }
    assert forall|x: ByteRange| #[trigger] inside_one(m, x) implies inside_one(a, x) by {
        let k = choose|k: int| 0 <= k < m.len() && (#[trigger] m[k]).0 <= x.0 && x.1 <= m[k].1;
        assert(a[k].0 <= x.0 && x.1 <= a[k].1);
    }
}

proof fn lemma_join_ranges(t: Seq<char>, s: Seq<ByteRange>)
    requires
        valid_ranges(t, s),
        forall|i: int, j: int|
            0 <= i < j < s.len() ==> (#[trigger] s[i]).before(#[trigger] s[j]),
    ensures
        valid_ranges(t, join_ranges(t, s)),
        separated(join_ranges(t, s)),
        kept_apart(t, join_ranges(t, s)),
        s.len() > 0 ==> join_ranges(t, s).len() > 0 && join_ranges(t, s).last().0 <= s.last().0,
        s.len() == 0 ==> join_ranges(t, s).len() == 0,
        forall|i: int| 0 <= i < s.len() ==> inside_one(join_ranges(t, s), #[trigger] s[i]),
    decreases s.len(),
{
    if s.len() > 0 {
        let front = s.drop_last();
        let old = join_ranges(t, front);
        let new = join_ranges(t, s);
        let end = s.len() - 1;
        assert forall|i: int| 0 <= i < front.len() implies valid_range(t, #[trigger] front[i]) by {
            assert(front[i] == s[i]);
        }
        assert forall|i: int, j: int| 0 <= i < j < front.len() implies (#[trigger] front[i]).before(
            #[trigger] front[j],
        ) by {
            assert(s[i].before(s[j]));
        }
        lemma_join_ranges(t, front);
        assert(valid_range(t, s[end]));
        if front.len() > 0 {
            assert(s[end - 1].before(s[end]));
            assert(front.last() == s[end - 1]);
        }
        lemma_join_range(t, old, s.last());
        assert forall|i: int| 0 <= i < s.len() implies inside_one(new, #[trigger] s[i]) by {
            if i < end {
                assert(front[i] == s[i]);
                assert(inside_one(old, front[i]));
            }
        }
    }
}

/// Each joined range starts where a hit starts and ends where one ends.
proof fn lemma_join_spans(t: Seq<char>, s: Seq<ByteRange>)
    ensures
        forall|k: int|
            0 <= k < join_ranges(t, s).len() ==> spans_hits(s, #[trigger] join_ranges(t, s)[k]),
    decreases s.len(),
{
    if s.len() > 0 {
        let front = s.drop_last();
        let old = join_ranges(t, front);
        let new = join_ranges(t, s);
        let end = s.len() - 1;
        lemma_join_spans(t, front);
        assert(new == join_range(t, old, s[end]));
        assert forall|k: int| 0 <= k < new.len() implies spans_hits(s, #[trigger] new[k]) by {
            if k < old.len() {
                assert(spans_hits(front, old[k]));
                let x = choose|i: int| 0 <= i < front.len() && (#[trigger] front[i]).0 == old[k].0;
                let y = choose|i: int| 0 <= i < front.len() && (#[trigger] front[i]).1 == old[k].1;
                assert(s[x].0 == old[k].0 && s[y].1 == old[k].1);
                assert(new[k].0 == old[k].0);
                assert(new[k].1 == old[k].1 || new[k].1 == s[end].1);
            } else {
                assert(new[k] == s[end]);
            }
        }
    }
}

/// What a query matches is a list of separated ranges of whole characters. Each
/// hit of each word of the query lies inside one of them; each of them starts
/// where a hit starts and ends where a hit ends; and no two neighbours have only
/// separators between them.
pub proof fn law_query_ranges(t: Seq<char>, query: Seq<char>)
    requires
        byte_len(t) <= usize::MAX,
    ensures
        valid_ranges(t, query_ranges(t, query)),
        separated(query_ranges(t, query)),
        kept_apart(t, query_ranges(t, query)),
        forall|i: int|
            0 <= i < terms_ranges(t, words(query)).len() ==> inside_one(
                query_ranges(t, query),
                #[trigger] terms_ranges(t, words(query))[i],
            ),
        forall|k: int|
            0 <= k < query_ranges(t, query).len() ==> spans_hits(
                terms_ranges(t, words(query)),
                #[trigger] query_ranges(t, query)[k],
            ),
{
    let hits = terms_ranges(t, words(query));
    let s = sorted(hits);
    lemma_terms_ranges_valid(t, words(query));
    lemma_sorted(hits);
    assert forall|i: int| 0 <= i < s.len() implies valid_range(t, #[trigger] s[i]) by {
        lemma_sorted_contains(hits, i);
        let k = choose|k: int| 0 <= k < hits.len() && hits[k] == s[i];
        assert(valid_range(t, hits[k]));
    }
    lemma_join_ranges(t, s);
    lemma_join_spans(t, s);
    assert forall|i: int| 0 <= i < hits.len() implies inside_one(
        query_ranges(t, query),
        #[trigger] hits[i],
    ) by {
        lemma_contains_sorted(hits, i);
        let k = choose|k: int| 0 <= k < s.len() && s[k] == hits[i];
        assert(inside_one(join_ranges(t, s), s[k]));
    }
    assert forall|k: int| 0 <= k < query_ranges(t, query).len() implies spans_hits(
        hits,
        #[trigger] query_ranges(t, query)[k],
    ) by {
        let r = query_ranges(t, query)[k];
        assert(spans_hits(s, r));
        let x = choose|i: int| 0 <= i < s.len() && (#[trigger] s[i]).0 == r.0;
        let y = choose|i: int| 0 <= i < s.len() && (#[trigger] s[i]).1 == r.1;
        lemma_sorted_contains(hits, x);
        lemma_sorted_contains(hits, y);
        let u = choose|i: int| 0 <= i < hits.len() && hits[i] == s[x];
        let v = choose|i: int| 0 <= i < hits.len() && hits[i] == s[y];
        assert(hits[u].0 == r.0 && hits[v].1 == r.1);
    }
}

proof fn lemma_join_cover(t: Seq<char>, s: Seq<ByteRange>, p: int)
    requires
        byte_len(t) <= usize::MAX,
        0 <= p < normal_spans(t).len(),
        covers(join_ranges(t, s), normal_spans(t)[p].0 as int),
    ensures
        covers(s, normal_spans(t)[p].0 as int) || is_separator(normal_chars(t)[p]),
    decreases s.len(),
{
    let spans = normal_spans(t);
    let x = spans[p].0 as int;
    let front = s.drop_last();
    let old = join_ranges(t, front);
    let new = join_ranges(t, s);
    let r = s.last();
    let end = s.len() - 1;
    let i = choose|i: int| 0 <= i < new.len() && (#[trigger] new[i]).0 <= x < new[i].1;
    if covers(old, x) {
        lemma_join_cover(t, front, p);
        if covers(front, x) {
            let j = choose|j: int| 0 <= j < front.len() && (#[trigger] front[j]).0 <= x < front[j].1;
            assert(s[j].0 <= x < s[j].1);
        }
    } else if r.0 <= x < r.1 {
        assert(s[end].0 <= x < s[end].1);
    } else {
        if i < old.len() - 1 {
            assert(old[i].0 <= x < old[i].1);
        }
        let last = old.last();
        assert(old[old.len() - 1] == last);
        assert(!(last.0 <= x < last.1));
        let from = span_index(spans, last.1 as int);
        let to = span_index(spans, r.0 as int);
        lemma_span_index(spans, last.1 as int);
        lemma_span_index(spans, r.0 as int);
        if p < from {
            assert(spans[p].0 < last.1);
        }
        if to <= p {
            lemma_spans_ordered(t, to, p);
        }
        assert(from <= p < to);
    }
}

/// A range that a query matches holds nothing but hits of its words and
/// separators.
pub proof fn law_query_ranges_hold_hits_and_separators(t: Seq<char>, query: Seq<char>, p: int)
    requires
        byte_len(t) <= usize::MAX,
        0 <= p < normal_chars(t).len(),
        covers(query_ranges(t, query), normal_spans(t)[p].0 as int),
    ensures
        covers(terms_ranges(t, words(query)), normal_spans(t)[p].0 as int) || is_separator(
            normal_chars(t)[p],
        ),
{
    let hits = terms_ranges(t, words(query));
    let s = sorted(hits);
    let x = normal_spans(t)[p].0 as int;
    lemma_normal_lens(t);
    lemma_join_cover(t, s, p);
    if covers(s, x) {
        let i = choose|i: int| 0 <= i < s.len() && (#[trigger] s[i]).0 <= x < s[i].1;
        lemma_sorted_contains(hits, i);
        let k = choose|k: int| 0 <= k < hits.len() && hits[k] == s[i];
        assert(hits[k].0 <= x < hits[k].1);
    }
}

/// A match that is repeated in the order of matches changes nothing.
proof fn lemma_join_repeated(t: Seq<char>, s: Seq<ByteRange>)
    requires
        s.len() >= 2,
        s[s.len() - 2] == s.last(),
        s.last().0 <= s.last().1,
    ensures
        join_ranges(t, s) == join_ranges(t, s.drop_last()),
{
    let front = s.drop_last();
    assert(front.last() == s.last());
    let joined = join_ranges(t, front);
    assert(joined == join_range(t, join_ranges(t, front.drop_last()), front.last()));
    assert(join_range(t, joined, s.last()) =~= joined);
}

spec fn in_order(s: Seq<ByteRange>) -> bool {
    forall|i: int, j: int| 0 <= i < j < s.len() ==> (#[trigger] s[i]).before(#[trigger] s[j])
}

/// The values of `a` occur in `b`.
spec fn all_in(a: Seq<ByteRange>, b: Seq<ByteRange>) -> bool {
    forall|i: int| 0 <= i < a.len() ==> b.contains(#[trigger] a[i])
}

proof fn lemma_repeated_last(a: Seq<ByteRange>, b: Seq<ByteRange>)
    requires
        a.len() >= 2,
        a[a.len() - 2] == a.last(),
        all_in(a, b),
        all_in(b, a),
    ensures
        all_in(a.drop_last(), b),
        all_in(b, a.drop_last()),
{
    let front = a.drop_last();
    assert forall|i: int| 0 <= i < front.len() implies b.contains(#[trigger] front[i]) by {
        assert(front[i] == a[i]);
    }
    assert forall|i: int| 0 <= i < b.len() implies front.contains(#[trigger] b[i]) by {
        let k = choose|k: int| 0 <= k < a.len() && a[k] == b[i];
        if k == a.len() - 1 {
            assert(front[a.len() - 2] == b[i]);
        } else {
            assert(front[k] == b[i]);
        }
    }
}

/// What is left of `a` occurs in what is left of `b` when the last value, which
/// occurs once in `a`, is taken off both.
proof fn lemma_without_last(a: Seq<ByteRange>, b: Seq<ByteRange>)
    requires
        a.len() > 0,
        b.len() > 0,
        in_order(a),
        a.len() >= 2 ==> a[a.len() - 2] != a.last(),
        a.last() == b.last(),
        all_in(a, b),
    ensures
        all_in(a.drop_last(), b.drop_last()),
        in_order(a.drop_last()),
{
    let fa = a.drop_last();
    let fb = b.drop_last();
    assert forall|i: int| 0 <= i < fa.len() implies fb.contains(#[trigger] fa[i]) by {
        assert(b.contains(a[i]));
        let k = choose|k: int| 0 <= k < b.len() && b[k] == a[i];
        if i < a.len() - 2 {
            assert(a[i].before(a[a.len() - 2]));
        }
        assert(a[a.len() - 2].before(a[a.len() - 1]));
        assert(a[i] != a.last());
        assert(fb[k] == fa[i]);
    }
    assert forall|i: int, j: int| 0 <= i < j < fa.len() implies (#[trigger] fa[i]).before(
        #[trigger] fa[j],
    ) by {
        assert(a[i].before(a[j]));
    }
}

proof fn lemma_join_same(t: Seq<char>, a: Seq<ByteRange>, b: Seq<ByteRange>)
    requires
        in_order(a),
        in_order(b),
        all_in(a, b),
        all_in(b, a),
        forall|i: int| 0 <= i < a.len() ==> (#[trigger] a[i]).0 <= a[i].1,
        forall|i: int| 0 <= i < b.len() ==> (#[trigger] b[i]).0 <= b[i].1,
    ensures
        join_ranges(t, a) == join_ranges(t, b),
    decreases a.len() + b.len(),
{
    if a.len() == 0 {
        if b.len() > 0 {
            assert(a.contains(b[0]));
        }
        assert(a =~= b);
    } else if b.len() == 0 {
        assert(b.contains(a[0]));
    } else {
        let fa = a.drop_last();
        let fb = b.drop_last();
        assert(a[a.len() - 1].0 <= a[a.len() - 1].1);
        assert(b[b.len() - 1].0 <= b[b.len() - 1].1);
        assert(forall|i: int| 0 <= i < fa.len() ==> #[trigger] fa[i] == a[i]);
        assert(forall|i: int| 0 <= i < fb.len() ==> #[trigger] fb[i] == b[i]);
        if a.len() >= 2 && a[a.len() - 2] == a.last() {
            lemma_join_repeated(t, a);
            lemma_repeated_last(a, b);
            lemma_join_same(t, fa, b);
        } else if b.len() >= 2 && b[b.len() - 2] == b.last() {
            lemma_join_repeated(t, b);
            lemma_repeated_last(b, a);
            lemma_join_same(t, a, fb);
        } else {
            assert(b.contains(a[a.len() - 1]));
            assert(a.contains(b[b.len() - 1]));
            let i = choose|i: int| 0 <= i < b.len() && b[i] == a.last();
            let j = choose|j: int| 0 <= j < a.len() && a[j] == b.last();
            if i < b.len() - 1 {
                assert(b[i].before(b[b.len() - 1]));
            }
            if j < a.len() - 1 {
                assert(a[j].before(a[a.len() - 1]));
            }
            assert(a.last() == b.last());
            lemma_without_last(a, b);
            lemma_without_last(b, a);
            lemma_join_same(t, fa, fb);
        }
    }
}

/// A range is a hit of `terms` where it is a hit of one of them.
proof fn lemma_terms_ranges_contain(t: Seq<char>, terms: Seq<Seq<char>>, r: ByteRange)
    ensures
        terms_ranges(t, terms).contains(r) <==> exists|i: int|
            0 <= i < terms.len() && term_ranges(t, #[trigger] terms[i]).contains(r),
    decreases terms.len(),
{
    if terms.len() > 0 {
        let front = terms.drop_last();
        let old = terms_ranges(t, front);
        let added = term_ranges(t, terms.last());
        let all = terms_ranges(t, terms);
        let end = terms.len() - 1;
        lemma_terms_ranges_contain(t, front, r);
        assert(all == old + added);
        if all.contains(r) {
            let k = choose|k: int| 0 <= k < all.len() && all[k] == r;
            if k < old.len() {
                assert(old[k] == r);
                let i = choose|i: int|
                    0 <= i < front.len() && term_ranges(t, #[trigger] front[i]).contains(r);
                assert(terms[i] == front[i]);
            } else {
                assert(added[k - old.len()] == r);
                assert(term_ranges(t, terms[end]).contains(r));
            }
        }
        if exists|i: int| 0 <= i < terms.len() && term_ranges(t, #[trigger] terms[i]).contains(r) {
            let i = choose|i: int|
                0 <= i < terms.len() && term_ranges(t, #[trigger] terms[i]).contains(r);
            if i < end {
                assert(term_ranges(t, front[i]).contains(r));
                let k = choose|k: int| 0 <= k < old.len() && old[k] == r;
                assert(all[k] == r);
            } else {
                let k = choose|k: int| 0 <= k < added.len() && added[k] == r;
                assert(all[old.len() + k] == r);
            }
        }
    }
}

proof fn lemma_sorted_hits_in(t: Seq<char>, a: Seq<Seq<char>>, b: Seq<Seq<char>>)
    requires
        forall|i: int| 0 <= i < a.len() ==> b.contains(#[trigger] a[i]),
    ensures
        all_in(sorted(terms_ranges(t, a)), sorted(terms_ranges(t, b))),
{
    let x = terms_ranges(t, a);
    let y = terms_ranges(t, b);
    assert forall|i: int| 0 <= i < sorted(x).len() implies sorted(y).contains(
        #[trigger] sorted(x)[i],
    ) by {
        let r = sorted(x)[i];
        lemma_sorted_contains(x, i);
        lemma_terms_ranges_contain(t, a, r);
        lemma_terms_ranges_contain(t, b, r);
        let k = choose|k: int| 0 <= k < a.len() && term_ranges(t, #[trigger] a[k]).contains(r);
        assert(b.contains(a[k]));
        let j = choose|j: int| 0 <= j < b.len() && b[j] == a[k];
        assert(term_ranges(t, b[j]).contains(r));
        let m = choose|m: int| 0 <= m < y.len() && y[m] == r;
        lemma_contains_sorted(y, m);
    }
}

/// What a query matches depends only on which words it has, not on their order
/// nor on how often they occur.
pub proof fn law_query_ranges_depend_on_words(t: Seq<char>, a: Seq<char>, b: Seq<char>)
    requires
        byte_len(t) <= usize::MAX,
        forall|i: int| 0 <= i < words(a).len() ==> words(b).contains(#[trigger] words(a)[i]),
        forall|i: int| 0 <= i < words(b).len() ==> words(a).contains(#[trigger] words(b)[i]),
    ensures
        query_ranges(t, a) == query_ranges(t, b),
{
    let x = terms_ranges(t, words(a));
    let y = terms_ranges(t, words(b));
    lemma_sorted(x);
    lemma_sorted(y);
    lemma_sorted_hits_in(t, words(a), words(b));
    lemma_sorted_hits_in(t, words(b), words(a));
    lemma_sorted_forward(t, words(a));
    lemma_sorted_forward(t, words(b));
    lemma_join_same(t, sorted(x), sorted(y));
}

proof fn lemma_sorted_forward(t: Seq<char>, terms: Seq<Seq<char>>)
    requires
        byte_len(t) <= usize::MAX,
    ensures
        forall|i: int|
            0 <= i < sorted(terms_ranges(t, terms)).len() ==> (#[trigger] sorted(
                terms_ranges(t, terms),
            )[i]).0 <= sorted(terms_ranges(t, terms))[i].1,
{
    let hits = terms_ranges(t, terms);
    lemma_terms_ranges_valid(t, terms);
    assert forall|i: int| 0 <= i < sorted(hits).len() implies (#[trigger] sorted(hits)[i]).0
        <= sorted(hits)[i].1 by {
        lemma_sorted_contains(hits, i);
        let k = choose|k: int| 0 <= k < hits.len() && hits[k] == sorted(hits)[i];
        assert(valid_range(t, hits[k]));
    }
}

/// Texts are normalized part by part, and character by character: an underscore to
/// a space, each other character to its lowercase mapping.
pub proof fn law_normal_chars(a: Seq<char>, b: Seq<char>, c: char)
    ensures
        normal_chars(a + b) == normal_chars(a) + normal_chars(b),
        normal_chars(seq![c]) == if c == '_' {
            seq![' ']
        } else {
            lowercase(c)
        },
        normal_chars(Seq::empty()) == Seq::<char>::empty(),
    decreases b.len(),
{
    let one = seq![c];
    let empty = Seq::<char>::empty();
    assert(one.drop_last() =~= empty);
    assert(normal_chars(empty) =~= empty);
    assert(normal_chars(one) =~= fold_char(c));
    if b.len() == 0 {
        assert(a + b =~= a);
        assert(normal_chars(a) + normal_chars(b) =~= normal_chars(a));
    } else {
        law_normal_chars(a, b.drop_last(), c);
        assert((a + b).drop_last() =~= a + b.drop_last());
        assert(normal_chars(a + b) =~= normal_chars(a) + normal_chars(b));
    }
}

/// Each normalized character stands for the bytes of the character of the text
/// that it comes from.
pub proof fn law_normal_spans(t: Seq<char>, k: int, p: int)
    requires
        0 <= k < t.len(),
        normal_chars(t.take(k)).len() <= p < normal_chars(t.take(k + 1)).len(),
    ensures
        normal_spans(t).len() == normal_chars(t).len(),
        p < normal_spans(t).len(),
        normal_spans(t)[p] == (byte_len(t.take(k)) as usize, byte_len(t.take(k + 1)) as usize),
    decreases t.len(),
{
    let front = t.drop_last();
    lemma_normal_lens(t);
    lemma_normal_lens(front);
    if k < t.len() - 1 {
        assert(front.take(k) =~= t.take(k));
        assert(front.take(k + 1) =~= t.take(k + 1));
        law_normal_spans(front, k, p);
    } else {
        assert(t.take(k) =~= front);
        assert(t.take(k + 1) =~= t);
    }
}

/// The character of the text that a normalized character comes from.
proof fn lemma_normal_owner(t: Seq<char>, p: int) -> (k: int)
    requires
        0 <= p < normal_chars(t).len(),
    ensures
        0 <= k < t.len(),
        normal_chars(t.take(k)).len() <= p < normal_chars(t.take(k + 1)).len(),
    decreases t.len(),
{
    let front = t.drop_last();
    if t.len() == 0 {
        0
    } else if p < normal_chars(front).len() {
        let k = lemma_normal_owner(front, p);
        assert(front.take(k) =~= t.take(k));
        assert(front.take(k + 1) =~= t.take(k + 1));
        k
    } else {
        assert(t.take(t.len() - 1) =~= front);
        assert(t.take(t.len() as int) =~= t);
        t.len() - 1
    }
}

proof fn lemma_normal_take(t: Seq<char>, i: int, j: int)
    requires
        0 <= i <= j <= t.len(),
    ensures
        normal_chars(t.take(j)) == normal_chars(t.take(i)) + normal_chars(t.subrange(i, j)),
{
    law_normal_chars(t.take(i), t.subrange(i, j), ' ');
    assert(t.take(i) + t.subrange(i, j) =~= t.take(j));
}

/// A byte offset stands for the first normalized character that does not come from
/// before it.
pub proof fn law_span_index(t: Seq<char>, b: int)
    ensures
        0 <= span_index(normal_spans(t), b) <= normal_chars(t).len(),
        span_index(normal_spans(t), b) < normal_chars(t).len() ==> normal_spans(t)[span_index(
            normal_spans(t),
            b,
        )].0 >= b,
        forall|j: int|
            0 <= j < span_index(normal_spans(t), b) ==> (#[trigger] normal_spans(t)[j]).0 < b,
{
    lemma_normal_lens(t);
    lemma_span_index(normal_spans(t), b);
}

/// A listed hit is the term itself, at the start of a word where it starts with a
/// letter or a number; hits come in order and do not overlap.
pub proof fn law_hits_are_the_term(n: Seq<char>, q: Seq<char>, k: int)
    requires
        0 <= k < hit_positions(n, q, 0).len(),
    ensures
        q.len() > 0,
        0 <= hit_positions(n, q, 0)[k],
        hit_positions(n, q, 0)[k] + q.len() <= n.len(),
        n.subrange(hit_positions(n, q, 0)[k], hit_positions(n, q, 0)[k] + q.len()) == q,
        hit_positions(n, q, 0)[k] == 0 || !alphanumeric(q[0]) || !alphanumeric(
            n[hit_positions(n, q, 0)[k] - 1],
        ),
        k > 0 ==> hit_positions(n, q, 0)[k - 1] + q.len() <= hit_positions(n, q, 0)[k],
{
    law_hit_positions(n, q, 0);
    assert(is_hit(n, q, hit_positions(n, q, 0)[k]));
}

/// Wherever a term stands at the start of a word, or starts with something else
/// than a letter or a number, a hit is listed that covers the place.
pub proof fn law_no_hit_is_missed(n: Seq<char>, q: Seq<char>, p: int) -> (k: int)
    requires
        q.len() > 0,
        0 <= p,
        p + q.len() <= n.len(),
        n.subrange(p, p + q.len()) == q,
        p == 0 || !alphanumeric(q[0]) || !alphanumeric(n[p - 1]),
    ensures
        0 <= k < hit_positions(n, q, 0).len(),
        hit_positions(n, q, 0)[k] <= p < hit_positions(n, q, 0)[k] + q.len(),
{
    assert(is_hit(n, q, p));
    law_hit_positions_complete(n, q, 0, p)
}

/// The range of a hit goes from the character `r.0` that its first normalized
/// character comes from to the end of the character `r.1` that its last one comes
/// from; and there is one range for each hit.
pub proof fn law_term_ranges(t: Seq<char>, q: Seq<char>, k: int) -> (r: (int, int))
    requires
        0 <= k < hit_positions(normal_chars(t), q, 0).len(),
    ensures
        term_ranges(t, q).len() == hit_positions(normal_chars(t), q, 0).len(),
        0 <= r.0 <= r.1 < t.len(),
        ({
            let i = hit_positions(normal_chars(t), q, 0)[k];
            &&& normal_chars(t.take(r.0)).len() <= i < normal_chars(t.take(r.0 + 1)).len()
            &&& normal_chars(t.take(r.1)).len() < i + q.len() <= normal_chars(
                t.take(r.1 + 1),
            ).len()
        }),
        term_ranges(t, q)[k] == (
            byte_len(t.take(r.0)) as usize,
            byte_len(t.take(r.1 + 1)) as usize,
        ),
{
    let n = normal_chars(t);
    let i = hit_positions(n, q, 0)[k];
    law_hits_are_the_term(n, q, k);
    let a = lemma_normal_owner(t, i);
    let b = lemma_normal_owner(t, i + q.len() - 1);
    law_normal_spans(t, a, i);
    law_normal_spans(t, b, i + q.len() - 1);
    if b < a {
        lemma_normal_take(t, b + 1, a);
    }
    (a, b)
}

/// The text in the range of a hit, normalized, holds the whole term; and where each
/// character of the text is normalized to one character, it is the term.
pub proof fn law_term_range_text(t: Seq<char>, q: Seq<char>, k: int)
    requires
        byte_len(t) <= usize::MAX,
        0 <= k < term_ranges(t, q).len(),
    ensures
        shows(
            normal_chars(
                slice(t, term_ranges(t, q)[k].0 as int, term_ranges(t, q)[k].1 as int),
            ),
            q,
        ),
        (forall|i: int| 0 <= i < t.len() ==> normal_chars(seq![#[trigger] t[i]]).len() == 1)
            ==> normal_chars(
            slice(t, term_ranges(t, q)[k].0 as int, term_ranges(t, q)[k].1 as int),
        ) == q,
{
    let n = normal_chars(t);
    let (a, b) = law_term_ranges(t, q, k);
    let i = hit_positions(n, q, 0)[k];
    law_hits_are_the_term(n, q, k);
    lemma_offset_increasing(t, a, t.len() as int);
    lemma_offset_increasing(t, b + 1, t.len() as int);
    lemma_offsets(t);
    lemma_char_index_of_offset(t, a);
    lemma_char_index_of_offset(t, b + 1);
    let part = slice(t, term_ranges(t, q)[k].0 as int, term_ranges(t, q)[k].1 as int);
    assert(part == t.subrange(a, b + 1));
    let m = normal_chars(part);
    let start = normal_chars(t.take(a)).len() as int;
    lemma_normal_take(t, a, b + 1);
    lemma_normal_take(t, b + 1, t.len() as int);
    assert(t.take(t.len() as int) =~= t);
    assert(m =~= n.subrange(start, start + m.len()));
    assert(m.subrange(i - start, i - start + q.len()) =~= n.subrange(i, i + q.len()));
    lemma_shows_at(m, q, i - start);
    if forall|x: int| 0 <= x < t.len() ==> normal_chars(seq![#[trigger] t[x]]).len() == 1 {
        lemma_normal_single(t, a);
        lemma_normal_single(t, a + 1);
        lemma_normal_single(t, b);
        lemma_normal_single(t, b + 1);
        assert(m =~= q);
    }
}

proof fn lemma_normal_single(t: Seq<char>, k: int)
    requires
        0 <= k <= t.len(),
        forall|i: int| 0 <= i < t.len() ==> normal_chars(seq![#[trigger] t[i]]).len() == 1,
    ensures
        normal_chars(t.take(k)).len() == k,
    decreases k,
{
    if k == 0 {
        assert(t.take(0) =~= Seq::<char>::empty());
    } else {
        lemma_normal_single(t, k - 1);
        lemma_normal_take(t, k - 1, k);
        assert(t.subrange(k - 1, k) =~= seq![t[k - 1]]);
        assert(normal_chars(seq![t[k - 1]]).len() == 1);
    }
}

/// Each hit of each word of a query lies inside one of the ranges that the query
/// matches.
pub proof fn law_query_covers_words(t: Seq<char>, query: Seq<char>, w: int, k: int) -> (m: int)
    requires
        byte_len(t) <= usize::MAX,
        0 <= w < words(query).len(),
        0 <= k < term_ranges(t, words(query)[w]).len(),
    ensures
        0 <= m < query_ranges(t, query).len(),
        query_ranges(t, query)[m].0 <= term_ranges(t, words(query)[w])[k].0,
        term_ranges(t, words(query)[w])[k].1 <= query_ranges(t, query)[m].1,
{
    let r = term_ranges(t, words(query)[w])[k];
    let hits = terms_ranges(t, words(query));
    lemma_terms_ranges_contain(t, words(query), r);
    assert(term_ranges(t, words(query)[w]).contains(r));
    let i = choose|i: int| 0 <= i < hits.len() && hits[i] == r;
    law_query_ranges(t, query);
    assert(inside_one(query_ranges(t, query), hits[i]));
    choose|m: int|
        0 <= m < query_ranges(t, query).len() && (#[trigger] query_ranges(t, query)[m]).0 <= r.0
            && r.1 <= query_ranges(t, query)[m].1
}

proof fn lemma_hit_of_word(t: Seq<char>, query: Seq<char>, i: int) -> (r: (int, int))
    requires
        0 <= i < terms_ranges(t, words(query)).len(),
    ensures
        0 <= r.0 < words(query).len(),
        0 <= r.1 < term_ranges(t, words(query)[r.0]).len(),
        term_ranges(t, words(query)[r.0])[r.1] == terms_ranges(t, words(query))[i],
{
    let hits = terms_ranges(t, words(query));
    let x = hits[i];
    assert(hits.contains(x));
    lemma_terms_ranges_contain(t, words(query), x);
    let w = choose|w: int|
        0 <= w < words(query).len() && term_ranges(t, #[trigger] words(query)[w]).contains(x);
    let list = term_ranges(t, words(query)[w]);
    let k = choose|k: int| 0 <= k < list.len() && list[k] == x;
    (w, k)
}

/// Each range that a query matches starts where a hit `r.1` of a word `r.0` starts,
/// and ends where a hit `r.3` of a word `r.2` ends.
pub proof fn law_query_ranges_start_and_end_with_hits(t: Seq<char>, query: Seq<char>, m: int) -> (r: (
    int,
    int,
    int,
    int,
))
    requires
        byte_len(t) <= usize::MAX,
        0 <= m < query_ranges(t, query).len(),
    ensures
        0 <= r.0 < words(query).len(),
        0 <= r.1 < term_ranges(t, words(query)[r.0]).len(),
        query_ranges(t, query)[m].0 == term_ranges(t, words(query)[r.0])[r.1].0,
        0 <= r.2 < words(query).len(),
        0 <= r.3 < term_ranges(t, words(query)[r.2]).len(),
        query_ranges(t, query)[m].1 == term_ranges(t, words(query)[r.2])[r.3].1,
{
    let hits = terms_ranges(t, words(query));
    let x = query_ranges(t, query)[m];
    law_query_ranges(t, query);
    assert(spans_hits(hits, x));
    let i = choose|i: int| 0 <= i < hits.len() && (#[trigger] hits[i]).0 == x.0;
    let j = choose|j: int| 0 <= j < hits.len() && (#[trigger] hits[j]).1 == x.1;
    let (a, b) = lemma_hit_of_word(t, query, i);
    let (c, d) = lemma_hit_of_word(t, query, j);
    (a, b, c, d)
}

/// What a range holds between hits are spaces, underscores, hyphens and slashes:
/// each normalized character in it belongs to a hit `r.1` of a word `r.0`, or is
/// one of these.
pub proof fn law_ranges_hold_hits_and_separators(t: Seq<char>, query: Seq<char>, m: int, p: int) -> (r: (
    int,
    int,
))
    requires
        byte_len(t) <= usize::MAX,
        0 <= m < query_ranges(t, query).len(),
        0 <= p < normal_chars(t).len(),
        query_ranges(t, query)[m].0 <= normal_spans(t)[p].0 < query_ranges(t, query)[m].1,
    ensures
        ({
            let c = normal_chars(t)[p];
            ||| c == ' ' || c == '_' || c == '-' || c == '/'
            ||| {
                &&& 0 <= r.0 < words(query).len()
                &&& 0 <= r.1 < term_ranges(t, words(query)[r.0]).len()
                &&& term_ranges(t, words(query)[r.0])[r.1].0 <= normal_spans(t)[p].0
                &&& normal_spans(t)[p].0 < term_ranges(t, words(query)[r.0])[r.1].1
            }
        }),
{
    let x = normal_spans(t)[p].0 as int;
    let hits = terms_ranges(t, words(query));
    assert(covers(query_ranges(t, query), x));
    law_query_ranges_hold_hits_and_separators(t, query, p);
    if covers(hits, x) {
        let i = choose|i: int| 0 <= i < hits.len() && (#[trigger] hits[i]).0 <= x < hits[i].1;
        lemma_hit_of_word(t, query, i)
    } else {
        (0, 0)
    }
}

/// Between two neighbouring ranges something keeps them apart: a normalized
/// character `p` that is no space, underscore, hyphen or slash, unless no
/// normalized character comes from between them.
pub proof fn law_ranges_are_kept_apart(t: Seq<char>, query: Seq<char>, m: int) -> (p: int)
    requires
        byte_len(t) <= usize::MAX,
        0 <= m,
        m + 1 < query_ranges(t, query).len(),
    ensures
        query_ranges(t, query)[m].0 < query_ranges(t, query)[m].1,
        query_ranges(t, query)[m].1 < query_ranges(t, query)[m + 1].0,
        ({
            let a = query_ranges(t, query)[m].1;
            let b = query_ranges(t, query)[m + 1].0;
            ||| {
                &&& 0 <= p < normal_chars(t).len()
                &&& a <= normal_spans(t)[p].0 < b
                &&& normal_chars(t)[p] != ' '
                &&& normal_chars(t)[p] != '_'
                &&& normal_chars(t)[p] != '-'
                &&& normal_chars(t)[p] != '/'
            }
            ||| forall|x: int|
                0 <= x < normal_chars(t).len() ==> !(a <= (#[trigger] normal_spans(t)[x]).0 < b)
        }),
{
    let ranges = query_ranges(t, query);
    law_query_ranges(t, query);
    assert(ranges[m].0 < ranges[m].1);
    assert(ranges[m].1 < ranges[m + 1].0);
    assert(!separator_gap(t, ranges[m].1 as int, ranges[m + 1].0 as int));
    lemma_gap_char(t, ranges[m].1 as int, ranges[m + 1].0 as int)
}

proof fn lemma_gap_char(t: Seq<char>, a: int, b: int) -> (p: int)
    requires
        byte_len(t) <= usize::MAX,
        !separator_gap(t, a, b),
    ensures
        ({
            ||| {
                &&& 0 <= p < normal_chars(t).len()
                &&& a <= normal_spans(t)[p].0 < b
                &&& !is_separator(normal_chars(t)[p])
            }
            ||| forall|x: int|
                0 <= x < normal_chars(t).len() ==> !(a <= (#[trigger] normal_spans(t)[x]).0 < b)
        }),
{
    let n = normal_chars(t);
    let spans = normal_spans(t);
    let from = span_index(spans, a);
    let to = span_index(spans, b);
    lemma_normal_lens(t);
    lemma_span_index(spans, a);
    lemma_span_index(spans, b);
    if from < to {
        let p = choose|p: int| from <= p < to && !is_separator(#[trigger] n[p]);
        lemma_spans_ordered(t, from, p);
        assert(spans[p].0 < b);
        p
    } else {
        assert forall|x: int| 0 <= x < n.len() implies !(a <= (#[trigger] spans[x]).0 < b) by {
            if x < from {
                assert(spans[x].0 < a);
            }
            if to <= x {
                lemma_spans_ordered(t, to, x);
            }
        }
        0
    }
}

/// A text whose whitespace is normalized to itself has the words of its words: what
/// is looked up for it is what is looked up for each of its words.
pub proof fn law_normal_words(t: Seq<char>)
    requires
        forall|i: int|
            0 <= i < t.len() && is_white(#[trigger] t[i]) ==> normal_chars(seq![t[i]]) == seq![t[i]],
    ensures
        words(normal_chars(t)) == words(t).map_values(
            |w: Seq<char>| words(normal_chars(w)),
        ).flatten(),
    decreases t.len(),
{
    let look = |w: Seq<char>| words(normal_chars(w));
    if exists|i: int| 0 <= i < t.len() && is_white(#[trigger] t[i]) {
        let i = choose|i: int| 0 <= i < t.len() && is_white(#[trigger] t[i]);
        let a = t.take(i);
        let b = t.skip(i + 1);
        let gap = seq![t[i]];
        assert(a.push(t[i]) + b =~= t);
        assert(a + gap + b =~= t);
        assert forall|x: int| 0 <= x < a.len() && is_white(#[trigger] a[x]) implies normal_chars(
            seq![a[x]],
        ) == seq![a[x]] by {
            assert(a[x] == t[x]);
        }
        assert forall|x: int| 0 <= x < b.len() && is_white(#[trigger] b[x]) implies normal_chars(
            seq![b[x]],
        ) == seq![b[x]] by {
            assert(b[x] == t[i + 1 + x]);
        }
        law_normal_words(a);
        law_normal_words(b);
        law_normal_chars(a, gap, ' ');
        law_normal_chars(a + gap, b, ' ');
        law_words_around_whitespace(a, t[i], b);
        law_words_around_whitespace(normal_chars(a), t[i], normal_chars(b));
        assert(normal_chars(a) + gap =~= normal_chars(a).push(t[i]));
        assert((words(a) + words(b)).map_values(look) =~= words(a).map_values(look) + words(
            b,
        ).map_values(look));
        vstd::seq_lib::lemma_flatten_concat(words(a).map_values(look), words(b).map_values(look));
    } else {
        law_one_word(t);
        if t.len() > 0 {
            assert(words(t).map_values(look) =~= seq![look(t)]);
            seq![look(t)].lemma_flatten_singleton();
        } else {
            assert(t =~= Seq::<char>::empty());
            law_one_word(normal_chars(t));
            assert(words(t).map_values(look) =~= Seq::<Seq<Seq<char>>>::empty());
        }
    }
}

/// What is looked up for parts that are joined is what is looked up for each part,
/// in order, where a space is normalized to itself.
pub proof fn law_normal_words_of_parts(parts: Seq<Seq<char>>)
    requires
        parts.len() > 1 ==> normal_chars(seq![' ']) == seq![' '],
    ensures
        words(normal_chars(join_words(parts))) == parts.map_values(
            |p: Seq<char>| words(normal_chars(p)),
        ).flatten(),
    decreases parts.len(),
{
    let look = |p: Seq<char>| words(normal_chars(p));
    let looked = parts.map_values(look);
    if parts.len() == 0 {
        assert(looked =~= Seq::<Seq<Seq<char>>>::empty());
        law_join_words(parts, parts);
        law_one_word(normal_chars(join_words(parts)));
    } else if parts.len() == 1 {
        assert(looked =~= seq![look(parts[0])]);
        seq![look(parts[0])].lemma_flatten_singleton();
        law_join_words(parts, parts);
    } else {
        let front = parts.drop_last();
        let last = seq![parts.last()];
        assert(front + last =~= parts);
        law_join_words(front, last);
        law_join_words(last, front);
        law_normal_words_of_parts(front);
        let a = join_words(front);
        let b = parts.last();
        law_normal_chars(a, seq![' '], ' ');
        law_normal_chars(a + seq![' '], b, ' ');
        law_words_around_whitespace(normal_chars(a), ' ', normal_chars(b));
        assert(normal_chars(a) + seq![' '] =~= normal_chars(a).push(' '));
        assert(looked =~= front.map_values(look).push(look(b)));
        front.map_values(look).lemma_flatten_push(look(b));
    }
}

/// A text of ASCII is matched character by character, in lower case and with
/// underscores as spaces; a hit of a letter or a digit is preceded by neither.
pub proof fn law_ascii_text(t: Seq<char>)
    requires
        ascii_known(t),
        forall|i: int| 0 <= i < t.len() ==> is_ascii(#[trigger] t[i]),
        t.len() <= usize::MAX,
    ensures
        byte_len(t) == t.len(),
        normal_chars(t) == t.map_values(|c: char| ascii_fold(c)),
        normal_spans(t) == Seq::new(t.len(), |i: int| (i as usize, (i + 1) as usize)),
        forall|q: Seq<char>, i: int| #[trigger]
            is_hit(normal_chars(t), q, i) <==> is_ascii_hit(normal_chars(t), q, i),
{
    lemma_ascii_prefix(t, t.len() as int);
    assert(t.take(t.len() as int) =~= t);
    let n = normal_chars(t);
    assert forall|k: int| 0 <= k < n.len() implies is_ascii(#[trigger] n[k]) by {
        assert(n[k] == ascii_fold(t[k]));
        assert(is_ascii(t[k]));
    }
    assert forall|q: Seq<char>, i: int| #[trigger]
        is_hit(n, q, i) <==> is_ascii_hit(n, q, i) by {
        if q.len() > 0 && 0 <= i <= i + q.len() <= n.len() && n.subrange(i, i + q.len()) == q {
            assert(q[0] == n[i]);
            assert(is_ascii(n[i]));
            if i > 0 {
                assert(is_ascii(n[i - 1]));
            }
        }
    }
}

proof fn lemma_ascii_prefix(t: Seq<char>, n: int)
    requires
        ascii_known(t),
        forall|i: int| 0 <= i < t.len() ==> is_ascii(#[trigger] t[i]),
        t.len() <= usize::MAX,
        0 <= n <= t.len(),
    ensures
        byte_len(t.take(n)) == n,
        normal_chars(t.take(n)) == t.take(n).map_values(|c: char| ascii_fold(c)),
        normal_spans(t.take(n)) == Seq::new(n as nat, |i: int| (i as usize, (i + 1) as usize)),
    decreases n,
{
    let part = t.take(n);
    if n == 0 {
        assert(part =~= Seq::<char>::empty());
        lemma_offsets(part);
        assert(normal_chars(part) =~= part.map_values(|c: char| ascii_fold(c)));
        assert(normal_spans(part) =~= Seq::new(0, |i: int| (i as usize, (i + 1) as usize)));
    } else {
        let front = t.take(n - 1);
        assert(part.drop_last() =~= front);
        assert(front.push(t[n - 1]) =~= part);
        lemma_ascii_prefix(t, n - 1);
        lemma_byte_len_push(front, t[n - 1]);
        assert(is_ascii(t[n - 1]));
        assert(normal_chars(part) =~= part.map_values(|c: char| ascii_fold(c)));
        assert(normal_spans(part) =~= Seq::new(
            n as nat,
            |i: int| (i as usize, (i + 1) as usize),
        ));
    }
}

/// A text in the form in which terms are looked up in it.
pub struct NormalizedText {
    norm_chars: Vec<char>,
    char_map: Vec<(usize, usize)>,
    word_chars: Vec<bool>,
    source: Ghost<Seq<char>>,
}

/// `flags` says which of the characters `n` are letters or numbers.
spec fn word_flags(n: Seq<char>, flags: Seq<bool>) -> bool {
    &&& flags.len() == n.len()
    &&& forall|k: int| 0 <= k < n.len() ==> #[trigger] flags[k] == alphanumeric(n[k])
    &&& forall|k: int|
        0 <= k < n.len() && is_ascii(#[trigger] n[k]) ==> (alphanumeric(n[k])
            <==> ascii_alphanumeric(n[k]))
}

impl View for NormalizedText {
    type V = Seq<char>;

    closed spec fn view(&self) -> Seq<char> {
        self.source@
    }
}

impl NormalizedText {
    #[verifier::type_invariant]
    spec fn well_formed(&self) -> bool {
        &&& self.norm_chars@ == normal_chars(self.source@)
        &&& self.char_map@ == normal_spans(self.source@)
        &&& word_flags(self.norm_chars@, self.word_chars@)
        &&& ascii_known(self.source@)
        &&& byte_len(self.source@) <= usize::MAX
    }

    pub fn new(text: &str) -> (normalized: Self)
        ensures
            normalized@ == text@,
            ascii_known(text@),
    {
        let indexed = IndexedText::new(text);
        let mut norm_chars: Vec<char> = Vec::new();
        let mut char_map: Vec<(usize, usize)> = Vec::new();
        let mut word_chars: Vec<bool> = Vec::new();
        let mut i: usize = 0;
        assert(text@.take(0) =~= Seq::<char>::empty());
        while i < indexed.len()
            invariant
                indexed@ == text@,
                i <= text@.len(),
                norm_chars@ == normal_chars(text@.take(i as int)),
                char_map@ == normal_spans(text@.take(i as int)),
                word_flags(norm_chars@, word_chars@),
                forall|k: int|
                    0 <= k < i && is_ascii(#[trigger] text@[k]) ==> {
                        &&& fold_char(text@[k]) == seq![ascii_fold(text@[k])]
                        &&& alphanumeric(text@[k]) <==> ascii_alphanumeric(text@[k])
                    },
            decreases text@.len() - i,
        {
            let ch = indexed.char_at(i);
            let span = (indexed.offset(i), indexed.offset(i + 1));
            let ghost next = text@.take(i + 1);
            assert(next.drop_last() =~= text@.take(i as int));
            let ghost chars_before = norm_chars@;
            let ghost map_before = char_map@;
            let in_word = char_is_alphanumeric(ch);
            let mut mapped: Vec<char> = Vec::new();
            if ch == '_' {
                mapped.push(' ');
                assert(mapped@ =~= fold_char(ch));
            } else {
                mapped = char_to_lowercase(ch);
            }
            let mut j: usize = 0;
            while j < mapped.len()
                invariant
                    j <= mapped.len(),
                    norm_chars@ == chars_before + mapped@.take(j as int),
                    char_map@ == map_before + Seq::new(j as nat, |x: int| span),
                    word_flags(norm_chars@, word_chars@),
                    in_word == alphanumeric(ch),
                    is_ascii(ch) ==> in_word == ascii_alphanumeric(ch),
                decreases mapped.len() - j,
            {
                norm_chars.push(mapped[j]);
                char_map.push(span);
                word_chars.push(
                    if mapped[j] == ch {
                        in_word
                    } else {
                        char_is_alphanumeric(mapped[j])
                    },
                );
                j = j + 1;
                assert(norm_chars@ =~= chars_before + mapped@.take(j as int));
                assert(char_map@ =~= map_before + Seq::new(j as nat, |x: int| span));
            }
            assert(mapped@.take(j as int) =~= mapped@);
            assert(char_map@ =~= normal_spans(next));
            i = i + 1;
        }
        assert(text@.take(i as int) =~= text@);
        NormalizedText { norm_chars, char_map, word_chars, source: Ghost(text@) }
    }

    /// The byte ranges of the non-overlapping hits of one term, each at the
    /// start of a word where the term starts with a letter or a number.
    pub fn find_term_ranges(&self, term: &str) -> (matches: Vec<(usize, usize)>)
        ensures
            matches@ == term_ranges(self@, term@),
            valid_ranges(self@, matches@),
            ascii_known(self@),
    {
        let query_chars = chars_of(term);
        let ghost n = self.norm_chars@;
        let ghost spans = self.char_map@;
        let ghost q = term@;
        proof {
            use_type_invariant(self);
            lemma_normal_lens(self@);
            lemma_term_ranges_valid(self@, term@);
        }
        let mut matches: Vec<(usize, usize)> = Vec::new();
        let len: usize = query_chars.len();
        if len == 0 {
            assert(matches@ =~= term_ranges(self@, term@));
            return matches;
        }
        let starts_alnum = char_is_alphanumeric(query_chars[0]);
        let mut i: usize = 0;
        let ghost span = |p: int| span_from(spans, p, q.len());
        assert(matches@ + hit_positions(n, q, 0).map_values(span) =~= term_ranges(self@, term@));
        while len <= self.norm_chars.len() && i <= self.norm_chars.len() - len
            invariant
                n == self.norm_chars@,
                spans == self.char_map@,
                word_flags(n, self.word_chars@),
                q == query_chars@,
                len == q.len(),
                len > 0,
                starts_alnum == alphanumeric(q[0]),
                n.len() == spans.len(),
                i <= n.len(),
                span == (|p: int| span_from(spans, p, q.len())),
                matches@ + hit_positions(n, q, i as int).map_values(span) == term_ranges(
                    self@,
                    term@,
                ),
            decreases n.len() - i,
        {
            let ghost before = matches@;
            let same = same_chars_at(&self.norm_chars, i, &query_chars);
            let valid_start = !starts_alnum || i == 0 || !self.word_chars[i - 1];
            if same && valid_start {
                let start_byte = self.char_map[i].0;
                let end_byte = self.char_map[i + len - 1].1;
                matches.push((start_byte, end_byte));
                proof {
                    assert(is_hit(n, q, i as int));
                    let rest = hit_positions(n, q, i + len);
                    assert(hit_positions(n, q, i as int) =~= seq![i as int] + rest);
                    assert(matches@ + rest.map_values(span) =~= before + hit_positions(
                        n,
                        q,
                        i as int,
                    ).map_values(span));
                }
                i = i + len;
            } else {
                assert(!is_hit(n, q, i as int));
                i = i + 1;
            }
        }
        proof {
            assert(hit_positions(n, q, i as int) =~= Seq::<int>::empty());
            assert(matches@ =~= term_ranges(self@, term@));
        }
        matches
    }

    /// The byte ranges that a query of several words matches, in order, with
    /// those that overlap or lie only separators apart joined into one.
    pub fn find_all_ranges(&self, query_normalized: &str) -> (merged: Vec<(usize, usize)>)
        ensures
            merged@ == query_ranges(self@, query_normalized@),
            valid_ranges(self@, merged@),
            separated(merged@),
            ascii_known(self@),
    {
        let terms = split_whitespace(query_normalized);
        let ghost list = contents(terms@);
        let mut all_matches: Vec<(usize, usize)> = Vec::new();
        let mut i: usize = 0;
        assert(list.take(0) =~= Seq::<Seq<char>>::empty());
        while i < terms.len()
            invariant
                i <= terms.len(),
                list == contents(terms@),
                all_matches@ == terms_ranges(self@, list.take(i as int)),
            decreases terms.len() - i,
        {
            let mut found = self.find_term_ranges(terms[i].as_str());
            all_matches.append(&mut found);
            assert(list.take(i + 1).drop_last() =~= list.take(i as int));
            i = i + 1;
        }
        assert(list.take(i as int) =~= words(query_normalized@));

        let in_order = merge_sort(&all_matches);
        let mut merged: Vec<(usize, usize)> = Vec::new();
        let mut j: usize = 0;
        assert(in_order@.take(0) =~= Seq::<ByteRange>::empty());
        while j < in_order.len()
            invariant
                j <= in_order.len(),
                merged@ == join_ranges(self@, in_order@.take(j as int)),
            decreases in_order.len() - j,
        {
            let m = in_order[j];
            let ghost before = merged@;
            assert(in_order@.take(j + 1).drop_last() =~= in_order@.take(j as int));
            j = j + 1;
            let count: usize = merged.len();
            if count > 0 {
                let (first, last) = merged[count - 1];
                if m.0 <= last {
                    merged.pop();
                    merged.push((first, if last >= m.1 { last } else { m.1 }));
                    assert(merged@ =~= join_range(self@, before, m));
                    continue;
                }
                if self.only_separators(last, m.0) {
                    merged.pop();
                    merged.push((first, m.1));
                    assert(merged@ =~= join_range(self@, before, m));
                    continue;
                }
            }
            merged.push(m);
        }
        proof {
            use_type_invariant(self);
            assert(in_order@.take(j as int) =~= in_order@);
            law_query_ranges(self@, query_normalized@);
        }
        merged
    }

    /// Whether something lies between two byte offsets, and only separators.
    fn only_separators(&self, from_byte: usize, to_byte: usize) -> (b: bool)
        ensures
            b == separator_gap(self@, from_byte as int, to_byte as int),
    {
        let from = self.byte_to_char_index(from_byte);
        let to = self.byte_to_char_index(to_byte);
        if from >= to {
            return false;
        }
        proof {
            use_type_invariant(self);
        }
        let mut k: usize = from;
        while k < to
            invariant
                from <= k <= to <= self.norm_chars@.len(),
                from == span_index(normal_spans(self@), from_byte as int),
                to == span_index(normal_spans(self@), to_byte as int),
                self.norm_chars@ == normal_chars(self@),
                forall|x: int| from <= x < k ==> is_separator(#[trigger] self.norm_chars@[x]),
            decreases to - k,
        {
            let c = self.norm_chars[k];
            if !(c == ' ' || c == '_' || c == '-' || c == '/') {
                assert(!is_separator(normal_chars(self@)[k as int]));
                return false;
            }
            k = k + 1;
        }
        true
    }

    /// Converts a byte offset in the text to an index into its normalized
    /// characters.
    pub fn byte_to_char_index(&self, byte_offset: usize) -> (k: usize)
        ensures
            k == span_index(normal_spans(self@), byte_offset as int),
            k <= normal_chars(self@).len(),
    {
        proof {
            use_type_invariant(self);
            lemma_normal_lens(self@);
            lemma_span_index(self.char_map@, byte_offset as int);
        }
        let mut k: usize = 0;
        while k < self.char_map.len() && self.char_map[k].0 < byte_offset
            invariant
                k <= self.char_map@.len(),
                forall|j: int| 0 <= j < k ==> (#[trigger] self.char_map@[j]).0 < byte_offset,
            ensures
                is_span_index(self.char_map@, byte_offset as int, k as int),
            decreases self.char_map@.len() - k,
        {
            k = k + 1;
        }
        k
    }
}

/// Whether `part` stands in `chars` at position `at`.
fn same_chars_at(chars: &Vec<char>, at: usize, part: &Vec<char>) -> (same: bool)
    requires
        at + part.len() <= chars.len(),
    ensures
        same == (chars@.subrange(at as int, at + part@.len()) == part@),
{
    let mut j: usize = 0;
    while j < part.len()
        invariant
            j <= part.len(),
            at + part.len() <= chars.len(),
            forall|x: int| 0 <= x < j ==> chars@[at + x] == #[trigger] part@[x],
        decreases part.len() - j,
    {
        if chars[at + j] != part[j] {
            assert(chars@.subrange(at as int, at + part@.len())[j as int] == chars@[at + j]);
            return false;
        }
        j = j + 1;
    }
    assert(chars@.subrange(at as int, at + part@.len()) =~= part@);
    true
}

/// The byte ranges of `text` that `query_normalized` matches.
pub fn find_normalized_match_ranges(text: &str, query_normalized: &str) -> (ranges: Vec<
    (usize, usize),
>)
    ensures
        ranges@ == query_ranges(text@, query_normalized@),
        valid_ranges(text@, ranges@),
        separated(ranges@),
        ascii_known(text@),
{
    NormalizedText::new(text).find_all_ranges(query_normalized)
}

/// `text` in lower case, with underscores as spaces.
pub fn normalize_for_search(text: &str) -> (normalized: String)
    ensures
        normalized@ == normal_chars(text@),
        ascii_known(text@),
{
    let normalized = NormalizedText::new(text);
    proof {
        use_type_invariant(&normalized);
    }
    let chars = normalized.norm_chars;
    let end: usize = chars.len();
    assert(chars@.subrange(0, end as int) =~= chars@);
    string_of(&chars, 0, end)
}

/// `query` in the form in which its words are looked up: normalized, with one
/// space between each two words.
pub fn normalize_highlight_query(query: &str) -> (normalized: String)
    ensures
        normalized@ == join_words(words(normal_chars(query@))),
        words(normalized@) == words(normal_chars(query@)),
        ascii_known(query@),
{
    let parts = split_whitespace(normalize_for_search(query).as_str());
    proof {
        law_split_join_split(normal_chars(query@));
    }
    join_with_spaces(&parts)
}

} // verus!
