//! Which hits of a text are the best evidence for a query.
//!
//! Nearby hits form a cluster. Clusters are ranked by how many terms they cover
//! that are still missing, by how many pairs of adjacent terms they hold, by how
//! many terms they cover, then a tighter span and an earlier place decide.

use crate::context_spec::{valid_hit, valid_hits, TermHit};
use crate::normalize::{
    alphanumeric, ascii_alphanumeric, char_is_alphanumeric, is_ascii, valid_range,
};
use crate::ranges::{max_of, ByteRange};
use crate::text::{char_index, lemma_char_index_monotone, slice, IndexedText};
use vstd::prelude::*;

verus! {

/// Hits with no more than this many bytes between them belong together.
pub const CLUSTER_GAP: usize = 50;

/// Where the hits `c` end.
pub open spec fn hits_end(c: Seq<TermHit>) -> usize
    decreases c.len(),
{
    if c.len() == 0 {
        0
    } else {
        max_of(hits_end(c.drop_last()), c.last().end)
    }
}

/// `clusters` with the hit `h` added, to the last of them where `h` is near it.
pub open spec fn add_hit(clusters: Seq<Seq<TermHit>>, h: TermHit) -> Seq<Seq<TermHit>> {
    if clusters.len() > 0 && h.start <= hits_end(clusters.last()) + CLUSTER_GAP {
        clusters.drop_last().push(clusters.last().push(h))
    } else {
        clusters.push(seq![h])
    }
}

/// The clusters of nearby hits.
pub open spec fn hit_clusters(hits: Seq<TermHit>) -> Seq<Seq<TermHit>>
    decreases hits.len(),
{
    if hits.len() == 0 {
        Seq::empty()
    } else {
        add_hit(hit_clusters(hits.drop_last()), hits.last())
    }
}

/// The terms that occur in `c`, each once.
pub open spec fn terms_in(c: Seq<TermHit>) -> Seq<usize>
    decreases c.len(),
{
    if c.len() == 0 {
        Seq::empty()
    } else {
        let front = terms_in(c.drop_last());
        if front.contains(c.last().term_idx) {
            front
        } else {
            front.push(c.last().term_idx)
        }
    }
}

/// Bit number `term` of `mask` is set.
pub open spec fn in_mask(mask: u64, term: usize) -> bool {
    term < 64 && (mask >> (term as u64)) & 1 == 1
}

/// How many of `terms` are in `mask`.
pub open spec fn count_in_mask(terms: Seq<usize>, mask: u64) -> nat
    decreases terms.len(),
{
    if terms.len() == 0 {
        0
    } else {
        count_in_mask(terms.drop_last(), mask) + if in_mask(mask, terms.last()) {
            1nat
        } else {
            0
        }
    }
}

/// `b` is the term after `a`, and only punctuation or spaces lie between them.
pub open spec fn adjacent(t: Seq<char>, a: TermHit, b: TermHit) -> bool {
    let gap = slice(t, a.end as int, b.start as int);
    &&& in_sequence(a, b)
    &&& forall|i: int| 0 <= i < gap.len() ==> !alphanumeric(#[trigger] gap[i])
}

/// The hits `a` and `b` are hits of neighbouring terms, in order.
pub open spec fn in_sequence(a: TermHit, b: TermHit) -> bool {
    b.term_idx == a.term_idx + 1 && a.end <= b.start
}

/// What was read of the gap between `a` and `b`: all of it where they are
/// adjacent, of which no ASCII character is a letter or a digit; else a letter or
/// a number, which is an ASCII letter or digit where it is ASCII.
pub open spec fn gap_read(t: Seq<char>, a: TermHit, b: TermHit) -> bool {
    let gap = slice(t, a.end as int, b.start as int);
    if adjacent(t, a, b) {
        forall|i: int|
            0 <= i < gap.len() && is_ascii(#[trigger] gap[i]) ==> !ascii_alphanumeric(gap[i])
    } else {
        in_sequence(a, b) ==> exists|i: int|
            0 <= i < gap.len() && alphanumeric(#[trigger] gap[i]) && (is_ascii(gap[i])
                ==> ascii_alphanumeric(gap[i]))
    }
}

/// The gaps between neighbouring hits in each cluster of `hits` were read.
pub open spec fn gaps_read(t: Seq<char>, hits: Seq<TermHit>) -> bool {
    forall|k: int|
        0 <= k < hit_clusters(hits).len() ==> cluster_gaps_read(t, #[trigger] hit_clusters(hits)[k])
}

pub open spec fn cluster_gaps_read(t: Seq<char>, c: Seq<TermHit>) -> bool {
    forall|i: int, j: int|
        0 <= i && j == i + 1 && j < c.len() ==> gap_read(t, #[trigger] c[i], #[trigger] c[j])
}

/// [`adjacent`] for a text of ASCII.
pub open spec fn ascii_adjacent(t: Seq<char>, a: TermHit, b: TermHit) -> bool {
    let gap = slice(t, a.end as int, b.start as int);
    in_sequence(a, b) && forall|i: int|
        0 <= i < gap.len() ==> !ascii_alphanumeric(#[trigger] gap[i])
}

/// In a text of ASCII, a gap that was read keeps hits apart exactly by a letter or
/// a digit of ASCII.
pub proof fn law_ascii_gap(t: Seq<char>, a: TermHit, b: TermHit)
    requires
        gap_read(t, a, b),
        forall|i: int| 0 <= i < t.len() ==> is_ascii(#[trigger] t[i]),
    ensures
        adjacent(t, a, b) <==> ascii_adjacent(t, a, b),
{
    let gap = slice(t, a.end as int, b.start as int);
    if in_sequence(a, b) {
        lemma_char_index_monotone(t, a.end as int, b.start as int);
        assert forall|i: int| 0 <= i < gap.len() implies is_ascii(#[trigger] gap[i]) by {
            assert(gap[i] == t[char_index(t, a.end as int) + i]);
        }
    }
}

/// How many hits of `c` are adjacent to the hit before them.
pub open spec fn adjacent_pairs(t: Seq<char>, c: Seq<TermHit>) -> nat
    decreases c.len(),
{
    if c.len() < 2 {
        0
    } else {
        adjacent_pairs(t, c.drop_last()) + if adjacent(t, c[c.len() - 2], c.last()) {
            1nat
        } else {
            0
        }
    }
}

/// What a cluster is ranked by.
#[derive(Clone, Copy)]
pub struct ClusterScore {
    pub missing: usize,
    pub adjacent: usize,
    pub unique: usize,
    pub span: usize,
    pub start: usize,
}

pub open spec fn score_of(t: Seq<char>, c: Seq<TermHit>, mask: u64) -> ClusterScore {
    ClusterScore {
        missing: count_in_mask(terms_in(c), mask) as usize,
        adjacent: adjacent_pairs(t, c) as usize,
        unique: terms_in(c).len() as usize,
        span: (hits_end(c) - c[0].start) as usize,
        start: c[0].start,
    }
}

/// `a` ranks before `b`.
pub open spec fn better(a: ClusterScore, b: ClusterScore) -> bool {
    if a.missing != b.missing {
        a.missing > b.missing
    } else if a.adjacent != b.adjacent {
        a.adjacent > b.adjacent
    } else if a.unique != b.unique {
        a.unique > b.unique
    } else if a.span != b.span {
        a.span < b.span
    } else {
        a.start < b.start
    }
}

/// The cluster `c` may be shown: where terms are missing, it covers one of them.
pub open spec fn eligible(c: Seq<TermHit>, mask: u64, missing_count: u32) -> bool {
    missing_count == 0 || count_in_mask(terms_in(c), mask) > 0
}

/// Cluster `i` may be shown, and no other one that may be shown ranks before it.
pub open spec fn is_best(
    t: Seq<char>,
    clusters: Seq<Seq<TermHit>>,
    mask: u64,
    missing_count: u32,
    i: int,
) -> bool {
    &&& 0 <= i < clusters.len()
    &&& eligible(clusters[i], mask, missing_count)
    &&& forall|j: int|
        0 <= j < clusters.len() && eligible(#[trigger] clusters[j], mask, missing_count)
            ==> !better(score_of(t, clusters[j], mask), score_of(t, clusters[i], mask))
}

/// The bytes from the start of the first hit of `c` to the end of its hits.
pub open spec fn cluster_range(c: Seq<TermHit>) -> ByteRange {
    (c[0].start, hits_end(c))
}

/// The range of the best cluster of `hits`, `None` where no cluster may be shown.
pub open spec fn selected_ranges(
    t: Seq<char>,
    hits: Seq<TermHit>,
    mask: u64,
    missing_count: u32,
) -> Option<Seq<ByteRange>> {
    let clusters = hit_clusters(hits);
    if exists|i: int|
        0 <= i < clusters.len() && eligible(#[trigger] clusters[i], mask, missing_count) {
        let best = choose|i: int| is_best(t, clusters, mask, missing_count, i);
        Some(seq![cluster_range(clusters[best])])
    } else {
        None
    }
}

/// No hit of `hits` ends before it starts.
pub open spec fn forward_hits(hits: Seq<TermHit>) -> bool {
    forall|i: int| 0 <= i < hits.len() ==> (#[trigger] hits[i]).start <= hits[i].end
}

/// Nonempty clusters of forward hits, each starting after the one before it.
spec fn clusters_ok(clusters: Seq<Seq<TermHit>>) -> bool {
    &&& forall|i: int|
        0 <= i < clusters.len() ==> (#[trigger] clusters[i]).len() > 0 && clusters[i][0].start
            <= hits_end(clusters[i])
    &&& forall|i: int, j: int|
        0 <= i < j < clusters.len() ==> (#[trigger] clusters[i])[0].start < (
        #[trigger] clusters[j])[0].start
}

proof fn lemma_add_hit(clusters: Seq<Seq<TermHit>>, h: TermHit)
    requires
        clusters_ok(clusters),
        h.start <= h.end,
    ensures
        clusters_ok(add_hit(clusters, h)),
        add_hit(clusters, h).len() > 0,
{
    let a = add_hit(clusters, h);
    let last = a.len() - 1;
    if a.len() == clusters.len() {
        let c = clusters.last();
        assert(clusters[clusters.len() - 1] == c);
        assert(c.push(h).drop_last() =~= c);
        assert forall|i: int| 0 <= i < a.len() implies (#[trigger] a[i]).len() > 0
            && a[i][0].start <= hits_end(a[i]) by {
            if i < last {
                assert(a[i] == clusters[i]);
            }
        }
        assert forall|i: int, j: int| 0 <= i < j < a.len() implies (#[trigger] a[i])[0].start < (
        #[trigger] a[j])[0].start by {
            assert(clusters[i][0].start < clusters[j][0].start);
        }
    } else {
        let one = seq![h];
        assert(one.drop_last() =~= Seq::<TermHit>::empty());
        assert(hits_end(one.drop_last()) == 0);
        assert(hits_end(one) == h.end);
        assert forall|i: int| 0 <= i < a.len() implies (#[trigger] a[i]).len() > 0
            && a[i][0].start <= hits_end(a[i]) by {
            if i < last {
                assert(a[i] == clusters[i]);
            }
        }
        assert forall|i: int, j: int| 0 <= i < j < a.len() implies (#[trigger] a[i])[0].start < (
        #[trigger] a[j])[0].start by {
            let k = clusters.len() - 1;
            assert(clusters[k].len() > 0 && clusters[k][0].start <= hits_end(clusters[k]));
            if j < last {
                assert(clusters[i][0].start < clusters[j][0].start);
            } else if i < k {
                assert(clusters[i][0].start < clusters[k][0].start);
            }
        }
    }
}

proof fn lemma_hit_clusters_ok(hits: Seq<TermHit>)
    requires
        forward_hits(hits),
    ensures
        clusters_ok(hit_clusters(hits)),
        hits.len() > 0 ==> hit_clusters(hits).len() > 0,
    decreases hits.len(),
{
    if hits.len() > 0 {
        let front = hits.drop_last();
        assert(forward_hits(front)) by {
            assert forall|i: int| 0 <= i < front.len() implies (#[trigger] front[i]).start
                <= front[i].end by {
                assert(front[i] == hits[i]);
            }
        }
        lemma_hit_clusters_ok(front);
        assert(hits[hits.len() - 1].start <= hits[hits.len() - 1].end);
        lemma_add_hit(hit_clusters(front), hits.last());
    }
}

/// Only one cluster is the best.
proof fn lemma_best_unique(
    t: Seq<char>,
    clusters: Seq<Seq<TermHit>>,
    mask: u64,
    missing_count: u32,
    i: int,
    j: int,
)
    requires
        clusters_ok(clusters),
        is_best(t, clusters, mask, missing_count, i),
        is_best(t, clusters, mask, missing_count, j),
    ensures
        i == j,
{
    let a = score_of(t, clusters[i], mask);
    let b = score_of(t, clusters[j], mask);
    assert(!better(a, b) && !better(b, a));
    if i < j {
        assert(clusters[i][0].start < clusters[j][0].start);
    } else if j < i {
        assert(clusters[j][0].start < clusters[i][0].start);
    }
}

/// Among clusters of which one may be shown, one is the best.
proof fn lemma_best_exists(
    t: Seq<char>,
    clusters: Seq<Seq<TermHit>>,
    mask: u64,
    missing_count: u32,
    n: int,
) -> (best: int)
    requires
        0 <= n <= clusters.len(),
        exists|i: int| 0 <= i < n && eligible(#[trigger] clusters[i], mask, missing_count),
    ensures
        0 <= best < n,
        eligible(clusters[best], mask, missing_count),
        forall|j: int|
            0 <= j < n && eligible(#[trigger] clusters[j], mask, missing_count) ==> !better(
                score_of(t, clusters[j], mask),
                score_of(t, clusters[best], mask),
            ),
    decreases n,
{
    let last = n - 1;
    if exists|i: int| 0 <= i < last && eligible(#[trigger] clusters[i], mask, missing_count) {
        let best = lemma_best_exists(t, clusters, mask, missing_count, last);
        if eligible(clusters[last], mask, missing_count) && better(
            score_of(t, clusters[last], mask),
            score_of(t, clusters[best], mask),
        ) {
            last
        } else {
            best
        }
    } else {
        assert(eligible(clusters[last], mask, missing_count));
        last
    }
}

/// The clusters hold the hits, each once and in their order, and each cluster
/// starts more than [`CLUSTER_GAP`] bytes after the end of the one before it.
pub proof fn law_hit_clusters(hits: Seq<TermHit>)
    ensures
        hit_clusters(hits).flatten() == hits,
        forall|i: int|
            0 <= i < hit_clusters(hits).len() ==> (#[trigger] hit_clusters(hits)[i]).len() > 0,
        forall|i: int, j: int|
            0 <= i && j == i + 1 && j < hit_clusters(hits).len() ==> hits_end(
                #[trigger] hit_clusters(hits)[i],
            ) + CLUSTER_GAP < (#[trigger] hit_clusters(hits)[j])[0].start,
    decreases hits.len(),
{
    if hits.len() > 0 {
        let front = hits.drop_last();
        let old = hit_clusters(front);
        let new = hit_clusters(hits);
        let h = hits.last();
        law_hit_clusters(front);
        assert(front.push(h) =~= hits);
        if new.len() == old.len() {
            let c = old.last();
            let rest = old.drop_last();
            assert(rest.push(c) =~= old);
            assert(old[old.len() - 1] == c);
            rest.lemma_flatten_push(c);
            rest.lemma_flatten_push(c.push(h));
            assert(rest.flatten() + c.push(h) =~= (rest.flatten() + c).push(h));
            assert forall|i: int, j: int| 0 <= i && j == i + 1 && j < new.len() implies hits_end(
                #[trigger] new[i],
            ) + CLUSTER_GAP < (#[trigger] new[j])[0].start by {
                assert(new[i] == old[i]);
                assert(hits_end(old[i]) + CLUSTER_GAP < old[j][0].start);
            }
        } else {
            old.lemma_flatten_push(seq![h]);
            assert(old.flatten() + seq![h] =~= hits);
            assert forall|i: int, j: int| 0 <= i && j == i + 1 && j < new.len() implies hits_end(
                #[trigger] new[i],
            ) + CLUSTER_GAP < (#[trigger] new[j])[0].start by {
                assert(new[i] == old[i]);
                if j < old.len() {
                    assert(new[j] == old[j]);
                }
            }
        }
    } else {
        assert(hit_clusters(hits).flatten() =~= hits);
    }
}

/// What is selected is the range of one cluster that may be shown, and no other
/// one that may be shown covers more missing terms, nor as many with more
/// adjacent pairs, nor as many of both with more terms, nor ties on all of these
/// with a tighter span or an earlier start. Nothing is selected only where no
/// cluster may be shown.
pub proof fn law_selected_ranges(t: Seq<char>, hits: Seq<TermHit>, mask: u64, missing_count: u32)
    ensures
        match selected_ranges(t, hits, mask, missing_count) {
            Some(ranges) => exists|i: int|
                #[trigger] is_best(t, hit_clusters(hits), mask, missing_count, i) && ranges
                    == seq![cluster_range(hit_clusters(hits)[i])],
            None => forall|i: int|
                0 <= i < hit_clusters(hits).len() ==> !eligible(
                    #[trigger] hit_clusters(hits)[i],
                    mask,
                    missing_count,
                ),
        },
{
    let clusters = hit_clusters(hits);
    if exists|i: int|
        0 <= i < clusters.len() && eligible(#[trigger] clusters[i], mask, missing_count) {
        let b = lemma_best_exists(t, clusters, mask, missing_count, clusters.len() as int);
        assert(is_best(t, clusters, mask, missing_count, b));
        let best = choose|i: int| is_best(t, clusters, mask, missing_count, i);
        assert(is_best(t, clusters, mask, missing_count, best));
    }
}

/// Whatever holds of all hits holds of the hits in each cluster.
pub proof fn lemma_cluster_members(hits: Seq<TermHit>, p: spec_fn(TermHit) -> bool)
    requires
        forall|i: int| 0 <= i < hits.len() ==> p(#[trigger] hits[i]),
    ensures
        forall|i: int, k: int|
            #![trigger hit_clusters(hits)[i][k]]
            0 <= i < hit_clusters(hits).len() && 0 <= k < hit_clusters(hits)[i].len() ==> p(
                hit_clusters(hits)[i][k],
            ),
    decreases hits.len(),
{
    if hits.len() > 0 {
        let front = hits.drop_last();
        let old = hit_clusters(front);
        let new = hit_clusters(hits);
        assert forall|i: int| 0 <= i < front.len() implies p(#[trigger] front[i]) by {
            assert(front[i] == hits[i]);
        }
        lemma_cluster_members(front, p);
        assert(p(hits[hits.len() - 1]));
        assert forall|i: int, k: int|
            #![trigger new[i][k]]
            0 <= i < new.len() && 0 <= k < new[i].len() implies p(new[i][k]) by {
            if i < old.len() && k < old[i].len() {
                assert(new[i][k] == old[i][k]);
            }
        }
    }
}

/// Of hits in the order of their starts, no hit of a cluster starts before the
/// first one.
proof fn lemma_cluster_starts(hits: Seq<TermHit>)
    requires
        forall|i: int, j: int|
            0 <= i < j < hits.len() ==> (#[trigger] hits[i]).start <= (#[trigger] hits[j]).start,
    ensures
        forall|i: int, k: int|
            #![trigger hit_clusters(hits)[i][k]]
            0 <= i < hit_clusters(hits).len() && 0 <= k < hit_clusters(hits)[i].len()
                ==> hit_clusters(hits)[i][0].start <= hit_clusters(hits)[i][k].start,
    decreases hits.len(),
{
    if hits.len() > 0 {
        let front = hits.drop_last();
        let old = hit_clusters(front);
        let new = hit_clusters(hits);
        let h = hits.last();
        assert forall|i: int, j: int| 0 <= i < j < front.len() implies (#[trigger] front[i]).start
            <= (#[trigger] front[j]).start by {
            assert(hits[i].start <= hits[j].start);
        }
        lemma_cluster_starts(front);
        let p = |x: TermHit| x.start <= h.start;
        assert forall|i: int| 0 <= i < front.len() implies p(#[trigger] front[i]) by {
            assert(hits[i].start <= hits[hits.len() - 1].start);
        }
        lemma_cluster_members(front, p);
        law_hit_clusters(front);
        assert forall|i: int, k: int|
            #![trigger new[i][k]]
            0 <= i < new.len() && 0 <= k < new[i].len() implies new[i][0].start
            <= new[i][k].start by {
            if i < old.len() {
                assert(old[i].len() > 0);
                assert(new[i][0] == old[i][0]);
                assert(p(old[i][0]));
                if k < old[i].len() {
                    assert(new[i][k] == old[i][k]);
                }
            }
        }
    }
}

/// A term counted in a cluster is a term of one of its hits.
proof fn lemma_terms_in(c: Seq<TermHit>)
    ensures
        forall|i: int|
            0 <= i < terms_in(c).len() ==> exists|k: int|
                0 <= k < c.len() && (#[trigger] c[k]).term_idx == #[trigger] terms_in(c)[i],
    decreases c.len(),
{
    if c.len() > 0 {
        let front = c.drop_last();
        lemma_terms_in(front);
        assert forall|i: int| 0 <= i < terms_in(c).len() implies exists|k: int|
            0 <= k < c.len() && (#[trigger] c[k]).term_idx == #[trigger] terms_in(c)[i] by {
            if i < terms_in(front).len() {
                assert(terms_in(c)[i] == terms_in(front)[i]);
                let k = choose|k: int|
                    0 <= k < front.len() && (#[trigger] front[k]).term_idx == terms_in(front)[i];
                assert(c[k].term_idx == terms_in(c)[i]);
            } else {
                assert(c[c.len() - 1].term_idx == terms_in(c)[i]);
            }
        }
    }
}

proof fn lemma_count_in_mask(terms: Seq<usize>, mask: u64)
    ensures
        count_in_mask(terms, mask) > 0 ==> exists|i: int|
            0 <= i < terms.len() && in_mask(mask, #[trigger] terms[i]),
    decreases terms.len(),
{
    if terms.len() > 0 {
        let front = terms.drop_last();
        lemma_count_in_mask(front, mask);
        if in_mask(mask, terms.last()) {
            assert(in_mask(mask, terms[terms.len() - 1]));
        } else if count_in_mask(front, mask) > 0 {
            let i = choose|i: int| 0 <= i < front.len() && in_mask(mask, #[trigger] front[i]);
            assert(in_mask(mask, terms[i]));
        }
    }
}

/// A cluster that covers a missing term has a hit of one.
pub proof fn lemma_covers_missing(c: Seq<TermHit>, mask: u64)
    requires
        count_in_mask(terms_in(c), mask) > 0,
    ensures
        exists|k: int| 0 <= k < c.len() && in_mask(mask, (#[trigger] c[k]).term_idx),
{
    lemma_count_in_mask(terms_in(c), mask);
    lemma_terms_in(c);
    let i = choose|i: int|
        0 <= i < terms_in(c).len() && in_mask(mask, #[trigger] terms_in(c)[i]);
    let k = choose|k: int|
        0 <= k < c.len() && (#[trigger] c[k]).term_idx == terms_in(c)[i];
    assert(in_mask(mask, c[k].term_idx));
}

/// Where terms are missing, what is selected holds a hit of a missing term.
pub proof fn law_selected_covers_missing(
    t: Seq<char>,
    hits: Seq<TermHit>,
    mask: u64,
    missing_count: u32,
)
    requires
        missing_count > 0,
        forall|i: int, j: int|
            0 <= i < j < hits.len() ==> (#[trigger] hits[i]).start <= (#[trigger] hits[j]).start,
    ensures
        selected_ranges(t, hits, mask, missing_count) matches Some(ranges) ==> exists|k: int|
            0 <= k < hits.len() && in_mask(mask, (#[trigger] hits[k]).term_idx) && ranges[0].0
                <= hits[k].start && hits[k].end <= ranges[0].1,
{
    law_selected_ranges(t, hits, mask, missing_count);
    if let Some(ranges) = selected_ranges(t, hits, mask, missing_count) {
        let clusters = hit_clusters(hits);
        let i = choose|i: int|
            #[trigger] is_best(t, clusters, mask, missing_count, i) && ranges
                == seq![cluster_range(clusters[i])];
        let c = clusters[i];
        lemma_covers_missing(c, mask);
        let j = choose|j: int| 0 <= j < c.len() && in_mask(mask, (#[trigger] c[j]).term_idx);
        let member = |h: TermHit| hits.contains(h);
        assert forall|x: int| 0 <= x < hits.len() implies member(#[trigger] hits[x]) by {
            assert(hits.contains(hits[x]));
        }
        lemma_cluster_members(hits, member);
        lemma_cluster_starts(hits);
        lemma_hits_end(c);
        assert(clusters[i][j] == c[j]);
        assert(member(clusters[i][j]));
        let k = choose|k: int| 0 <= k < hits.len() && hits[k] == c[j];
        assert(in_mask(mask, hits[k].term_idx));
    }
}

proof fn lemma_hits_end(c: Seq<TermHit>)
    requires
        c.len() > 0,
    ensures
        exists|k: int| 0 <= k < c.len() && (#[trigger] c[k]).end == hits_end(c),
        forall|k: int| 0 <= k < c.len() ==> (#[trigger] c[k]).end <= hits_end(c),
    decreases c.len(),
{
    let front = c.drop_last();
    if front.len() > 0 {
        lemma_hits_end(front);
        let k = choose|k: int| 0 <= k < front.len() && (#[trigger] front[k]).end == hits_end(front);
        assert(c[k].end == hits_end(front));
        assert forall|k: int| 0 <= k < c.len() implies (#[trigger] c[k]).end <= hits_end(c) by {
            if k < front.len() {
                assert(front[k].end <= hits_end(front));
            }
        }
    }
    assert(c[c.len() - 1].end == c.last().end);
    assert(front.len() == 0 ==> hits_end(front) == 0);
}

proof fn lemma_clusters_connected(hits: Seq<TermHit>)
    ensures
        forall|k: int, i: int|
            #![trigger hit_clusters(hits)[k][i]]
            0 <= k < hit_clusters(hits).len() && 0 < i < hit_clusters(hits)[k].len()
                ==> hit_clusters(hits)[k][i].start <= hits_end(hit_clusters(hits)[k].take(i))
                + CLUSTER_GAP,
    decreases hits.len(),
{
    if hits.len() > 0 {
        let front = hits.drop_last();
        let old = hit_clusters(front);
        let new = hit_clusters(hits);
        let h = hits.last();
        lemma_clusters_connected(front);
        assert forall|k: int, i: int|
            #![trigger new[k][i]]
            0 <= k < new.len() && 0 < i < new[k].len() implies new[k][i].start <= hits_end(
            new[k].take(i),
        ) + CLUSTER_GAP by {
            if k < old.len() {
                if i < old[k].len() {
                    assert(new[k][i] == old[k][i]);
                    assert(new[k].take(i) =~= old[k].take(i));
                } else {
                    assert(new[k].take(i) =~= old.last());
                    assert(new[k][i] == h);
                }
            }
        }
    }
}

/// A hit that is not the first of its cluster starts no more than fifty bytes behind
/// the end of an earlier one of it.
pub proof fn law_cluster_is_connected(hits: Seq<TermHit>, k: int, i: int) -> (j: int)
    requires
        0 <= k < hit_clusters(hits).len(),
        0 < i < hit_clusters(hits)[k].len(),
    ensures
        0 <= j < i,
        hit_clusters(hits)[k][i].start <= hit_clusters(hits)[k][j].end + 50,
{
    let c = hit_clusters(hits)[k];
    lemma_clusters_connected(hits);
    assert(hit_clusters(hits)[k][i].start <= hits_end(c.take(i)) + CLUSTER_GAP);
    lemma_hits_end(c.take(i));
    let j = choose|j: int| 0 <= j < i && (#[trigger] c.take(i)[j]).end == hits_end(c.take(i));
    assert(c.take(i)[j] == c[j]);
    j
}

/// The clusters hold the hits, each once and in their order; none is empty; and a
/// cluster starts more than fifty bytes behind the end of each hit of the one before
/// it.
pub proof fn law_clusters_are_apart(hits: Seq<TermHit>, k: int, i: int)
    requires
        0 <= k < hit_clusters(hits).len(),
        0 <= i < hit_clusters(hits)[k].len(),
    ensures
        hit_clusters(hits).flatten() == hits,
        forall|x: int| 0 <= x < hit_clusters(hits).len() ==> (#[trigger] hit_clusters(hits)[x]).len() > 0,
        k + 1 < hit_clusters(hits).len() ==> hit_clusters(hits)[k][i].end + 50 < hit_clusters(
            hits,
        )[k + 1][0].start,
{
    let c = hit_clusters(hits)[k];
    law_hit_clusters(hits);
    lemma_hits_end(c);
    assert(c[i].end <= hits_end(c));
    if k + 1 < hit_clusters(hits).len() {
        assert(hits_end(hit_clusters(hits)[k]) + CLUSTER_GAP < hit_clusters(hits)[k + 1][0].start);
    }
}

/// The terms of a cluster are those that its hits name, each once.
pub proof fn law_terms_in(c: Seq<TermHit>, term: usize)
    ensures
        terms_in(c).no_duplicates(),
        terms_in(c).contains(term) <==> exists|i: int|
            0 <= i < c.len() && (#[trigger] c[i]).term_idx == term,
        terms_in(c).len() <= c.len(),
    decreases c.len(),
{
    if c.len() > 0 {
        let front = c.drop_last();
        let old = terms_in(front);
        let new = terms_in(c);
        let last = c.len() - 1;
        law_terms_in(front, term);
        law_terms_in(front, c.last().term_idx);
        if new.contains(term) {
            let k = choose|k: int| 0 <= k < new.len() && new[k] == term;
            if k < old.len() {
                assert(old[k] == term);
                let i = choose|i: int| 0 <= i < front.len() && (#[trigger] front[i]).term_idx == term;
                assert(c[i].term_idx == term);
            } else {
                assert(c[last].term_idx == term);
            }
        }
        if exists|i: int| 0 <= i < c.len() && (#[trigger] c[i]).term_idx == term {
            let i = choose|i: int| 0 <= i < c.len() && (#[trigger] c[i]).term_idx == term;
            if i < last {
                assert(front[i].term_idx == term);
                let k = choose|k: int| 0 <= k < old.len() && old[k] == term;
                assert(new[k] == term);
            } else if old.contains(term) {
                let k = choose|k: int| 0 <= k < old.len() && old[k] == term;
                assert(new[k] == term);
            } else {
                assert(new[old.len() as int] == term);
            }
        }
    }
}

/// The missing terms among `terms` are those whose bit of the mask is set.
pub proof fn law_count_in_mask(terms: Seq<usize>, mask: u64)
    ensures
        count_in_mask(terms, mask) == terms.filter(
            |x: usize| x < 64 && (mask >> (x as u64)) & 1 == 1,
        ).len(),
        count_in_mask(terms, mask) <= terms.len(),
    decreases terms.len(),
{
    reveal(Seq::filter);
    if terms.len() > 0 {
        law_count_in_mask(terms.drop_last(), mask);
    }
}

/// A hit adds an adjacent pair to those before it where it is of the term after that
/// of the last one, and no letter or number lies between the two.
pub proof fn law_adjacent_pairs(t: Seq<char>, c: Seq<TermHit>, h: TermHit)
    ensures
        adjacent_pairs(t, c.push(h)) == adjacent_pairs(t, c) + if c.len() > 0 && h.term_idx
            == c.last().term_idx + 1 && c.last().end <= h.start && (forall|i: int|
            0 <= i < slice(t, c.last().end as int, h.start as int).len() ==> !alphanumeric(
                #[trigger] slice(t, c.last().end as int, h.start as int)[i],
            )) {
            1nat
        } else {
            0
        },
        c.len() <= 1 ==> adjacent_pairs(t, c) == 0,
        adjacent_pairs(t, c) <= c.len(),
    decreases c.len(),
{
    assert(c.push(h).drop_last() =~= c);
    if c.len() > 0 {
        assert(c.push(h)[c.len() - 1] == c.last());
    }
    lemma_adjacent_pairs_bound(t, c);
}

proof fn lemma_adjacent_pairs_bound(t: Seq<char>, c: Seq<TermHit>)
    ensures
        adjacent_pairs(t, c) <= c.len(),
    decreases c.len(),
{
    if c.len() >= 2 {
        lemma_adjacent_pairs_bound(t, c.drop_last());
    }
}

proof fn lemma_hit_in_cluster(hits: Seq<TermHit>, i: int) -> (r: (int, int))
    requires
        0 <= i < hits.len(),
    ensures
        0 <= r.0 < hit_clusters(hits).len(),
        0 <= r.1 < hit_clusters(hits)[r.0].len(),
        hit_clusters(hits)[r.0][r.1] == hits[i],
    decreases hits.len(),
{
    let front = hits.drop_last();
    let old = hit_clusters(front);
    let new = hit_clusters(hits);
    if i < front.len() {
        let (k, j) = lemma_hit_in_cluster(front, i);
        assert(new[k][j] == old[k][j]);
        (k, j)
    } else {
        let k = new.len() - 1;
        assert(new[k].last() == hits[i]);
        (k, new[k].len() - 1)
    }
}

proof fn lemma_count_some(terms: Seq<usize>, mask: u64, i: int)
    requires
        0 <= i < terms.len(),
        in_mask(mask, terms[i]),
    ensures
        count_in_mask(terms, mask) > 0,
    decreases terms.len(),
{
    if i < terms.len() - 1 {
        lemma_count_some(terms.drop_last(), mask, i);
    }
}

proof fn lemma_eligible(c: Seq<TermHit>, mask: u64, missing_count: u32)
    ensures
        eligible(c, mask, missing_count) <==> missing_count == 0 || exists|i: int|
            0 <= i < c.len() && in_mask(mask, (#[trigger] c[i]).term_idx),
{
    if missing_count > 0 && eligible(c, mask, missing_count) {
        lemma_covers_missing(c, mask);
    }
    if exists|i: int| 0 <= i < c.len() && in_mask(mask, (#[trigger] c[i]).term_idx) {
        let i = choose|i: int| 0 <= i < c.len() && in_mask(mask, (#[trigger] c[i]).term_idx);
        let term = c[i].term_idx;
        law_terms_in(c, term);
        let k = choose|k: int| 0 <= k < terms_in(c).len() && terms_in(c)[k] == term;
        lemma_count_some(terms_in(c), mask, k);
    }
}

/// Something is selected exactly where there is a hit and no term is missing, or a
/// hit of a missing term, one whose bit of the mask is set.
pub proof fn law_when_a_cluster_is_selected(
    t: Seq<char>,
    hits: Seq<TermHit>,
    mask: u64,
    missing_count: u32,
)
    ensures
        selected_ranges(t, hits, mask, missing_count) is Some <==> {
            ||| missing_count == 0 && hits.len() > 0
            ||| missing_count > 0 && exists|i: int|
                0 <= i < hits.len() && (#[trigger] hits[i]).term_idx < 64 && (mask >> (
                hits[i].term_idx as u64)) & 1 == 1
        },
{
    let clusters = hit_clusters(hits);
    let member = |h: TermHit| hits.contains(h);
    law_selected_ranges(t, hits, mask, missing_count);
    assert forall|x: int| 0 <= x < hits.len() implies member(#[trigger] hits[x]) by {
        assert(hits.contains(hits[x]));
    }
    lemma_cluster_members(hits, member);
    law_hit_clusters(hits);
    if selected_ranges(t, hits, mask, missing_count) is Some {
        let b = choose|b: int| #[trigger] is_best(t, clusters, mask, missing_count, b);
        let c = clusters[b];
        lemma_eligible(c, mask, missing_count);
        if missing_count == 0 {
            assert(c.len() > 0);
            assert(member(clusters[b][0]));
        } else {
            let j = choose|j: int| 0 <= j < c.len() && in_mask(mask, (#[trigger] c[j]).term_idx);
            assert(member(clusters[b][j]));
            let x = choose|x: int| 0 <= x < hits.len() && hits[x] == c[j];
            assert(in_mask(mask, hits[x].term_idx));
        }
    }
    if missing_count == 0 && hits.len() > 0 {
        let (k, j) = lemma_hit_in_cluster(hits, 0);
        assert(eligible(clusters[k], mask, missing_count));
    }
    if missing_count > 0 && exists|i: int|
        0 <= i < hits.len() && in_mask(mask, (#[trigger] hits[i]).term_idx) {
        let i = choose|i: int| 0 <= i < hits.len() && in_mask(mask, (#[trigger] hits[i]).term_idx);
        let (k, j) = lemma_hit_in_cluster(hits, i);
        lemma_eligible(clusters[k], mask, missing_count);
        assert(in_mask(mask, clusters[k][j].term_idx));
        assert(eligible(clusters[k], mask, missing_count));
    }
}

/// The cluster `b` that is selected is the best one: against each cluster `k` that
/// holds a hit of a missing term, or against each one where no term is missing, it
/// has more missing terms; or as many, and more adjacent pairs; or as many, and more
/// terms; or as many, and a shorter extent; or as short a one, and no later start.
/// What is selected reaches from its first hit to the end of the hit that ends last.
pub proof fn law_the_best_cluster_is_selected(
    t: Seq<char>,
    hits: Seq<TermHit>,
    mask: u64,
    missing_count: u32,
    k: int,
) -> (r: (int, int))
    requires
        hits.len() <= usize::MAX,
        forall|i: int| 0 <= i < hits.len() ==> (#[trigger] hits[i]).start <= hits[i].end,
        selected_ranges(t, hits, mask, missing_count) is Some,
    ensures
        0 <= r.0 < hit_clusters(hits).len(),
        0 <= r.1 < hit_clusters(hits)[r.0].len(),
        selected_ranges(t, hits, mask, missing_count) == Some(
            seq![(hit_clusters(hits)[r.0][0].start, hit_clusters(hits)[r.0][r.1].end)],
        ),
        forall|i: int|
            0 <= i < hit_clusters(hits)[r.0].len() ==> (#[trigger] hit_clusters(hits)[r.0][i]).end
                <= hit_clusters(hits)[r.0][r.1].end,
        0 <= k < hit_clusters(hits).len() && (missing_count == 0 || exists|i: int|
            0 <= i < hit_clusters(hits)[k].len() && in_mask(
                mask,
                (#[trigger] hit_clusters(hits)[k][i]).term_idx,
            )) ==> {
            let b = hit_clusters(hits)[r.0];
            let c = hit_clusters(hits)[k];
            let missing_b = count_in_mask(terms_in(b), mask);
            let missing_c = count_in_mask(terms_in(c), mask);
            let pairs_b = adjacent_pairs(t, b);
            let pairs_c = adjacent_pairs(t, c);
            let terms_b = terms_in(b).len();
            let terms_c = terms_in(c).len();
            let extent_b = b[r.1].end - b[0].start;
            ||| missing_b > missing_c
            ||| missing_b == missing_c && pairs_b > pairs_c
            ||| missing_b == missing_c && pairs_b == pairs_c && terms_b > terms_c
            ||| missing_b == missing_c && pairs_b == pairs_c && terms_b == terms_c && exists|i: int|
                0 <= i < c.len() && {
                    ||| extent_b < (#[trigger] c[i]).end - c[0].start
                    ||| extent_b <= c[i].end - c[0].start && b[0].start <= c[0].start
                }
        },
        missing_count > 0 ==> exists|i: int|
            0 <= i < hit_clusters(hits)[r.0].len() && in_mask(
                mask,
                (#[trigger] hit_clusters(hits)[r.0][i]).term_idx,
            ),
{
    let clusters = hit_clusters(hits);
    law_selected_ranges(t, hits, mask, missing_count);
    let x = choose|x: int|
        #[trigger] is_best(t, clusters, mask, missing_count, x) && selected_ranges(
            t,
            hits,
            mask,
            missing_count,
        ) == Some(seq![cluster_range(clusters[x])]);
    let b = clusters[x];
    law_hit_clusters(hits);
    assert(b.len() > 0);
    lemma_hits_end(b);
    let e = choose|e: int| 0 <= e < b.len() && (#[trigger] b[e]).end == hits_end(b);
    assert(forall|i: int| 0 <= i < b.len() ==> (#[trigger] clusters[x][i]).end <= hits_end(b));
    lemma_eligible(b, mask, missing_count);
    if 0 <= k < clusters.len() && (missing_count == 0 || exists|i: int|
        0 <= i < clusters[k].len() && in_mask(mask, (#[trigger] clusters[k][i]).term_idx)) {
        let c = clusters[k];
        lemma_eligible(c, mask, missing_count);
        assert(eligible(clusters[k], mask, missing_count));
        lemma_score_exact(t, hits, mask, x);
        lemma_score_exact(t, hits, mask, k);
        assert(c.len() > 0);
        lemma_hits_end(c);
        let y = choose|y: int| 0 <= y < c.len() && (#[trigger] c[y]).end == hits_end(c);
        assert(!better(score_of(t, c, mask), score_of(t, b, mask)));
        assert(c[y].end - c[0].start == score_of(t, c, mask).span);
    }
    (x, e)
}

proof fn lemma_cluster_len(hits: Seq<TermHit>, k: int)
    requires
        0 <= k < hit_clusters(hits).len(),
    ensures
        hit_clusters(hits)[k].len() <= hits.len(),
    decreases hits.len(),
{
    if hits.len() > 0 {
        let front = hits.drop_last();
        if k < hit_clusters(front).len() {
            lemma_cluster_len(front, k);
        }
    }
}

proof fn lemma_score_exact(t: Seq<char>, hits: Seq<TermHit>, mask: u64, k: int)
    requires
        hits.len() <= usize::MAX,
        0 <= k < hit_clusters(hits).len(),
        forall|i: int| 0 <= i < hits.len() ==> (#[trigger] hits[i]).start <= hits[i].end,
    ensures
        ({
            let c = hit_clusters(hits)[k];
            let s = score_of(t, c, mask);
            &&& s.missing == count_in_mask(terms_in(c), mask)
            &&& s.adjacent == adjacent_pairs(t, c)
            &&& s.unique == terms_in(c).len()
            &&& s.span == hits_end(c) - c[0].start
            &&& s.start == c[0].start
        }),
{
    let c = hit_clusters(hits)[k];
    lemma_cluster_len(hits, k);
    law_terms_in(c, 0);
    law_count_in_mask(terms_in(c), mask);
    lemma_adjacent_pairs_bound(t, c);
    lemma_hit_clusters_ok(hits);
    assert(c.len() > 0 && c[0].start <= hits_end(c));
}

/// Of hits of whole characters, the selected range is a range of whole
/// characters.
pub proof fn lemma_selected_valid(
    t: Seq<char>,
    hits: Seq<TermHit>,
    count: int,
    mask: u64,
    missing_count: u32,
)
    requires
        valid_hits(t, hits, count),
    ensures
        selected_ranges(t, hits, mask, missing_count) matches Some(ranges) ==> ranges.len() == 1
            && valid_range(t, ranges[0]),
{
    law_selected_ranges(t, hits, mask, missing_count);
    if let Some(ranges) = selected_ranges(t, hits, mask, missing_count) {
        let clusters = hit_clusters(hits);
        let i = choose|i: int|
            #[trigger] is_best(t, clusters, mask, missing_count, i) && ranges
                == seq![cluster_range(clusters[i])];
        let c = clusters[i];
        let valid = |h: TermHit| valid_hit(t, h, count);
        assert forall|x: int| 0 <= x < hits.len() implies valid(#[trigger] hits[x]) by {
            assert(valid_hit(t, hits[x], count));
        }
        lemma_cluster_members(hits, valid);
        law_hit_clusters(hits);
        assert(c.len() > 0);
        lemma_hits_end(c);
        let k = choose|k: int| 0 <= k < c.len() && (#[trigger] c[k]).end == hits_end(c);
        assert(valid(clusters[i][k]));
        assert(valid(clusters[i][0]));
        assert(c[0].end <= hits_end(c));
    }
}

fn is_in_mask(mask: u64, term: usize) -> (b: bool)
    ensures
        b == in_mask(mask, term),
{
    term < 64 && (mask >> (term as u64)) & 1 == 1
}

fn are_adjacent(text: &IndexedText, a: &TermHit, b: &TermHit) -> (yes: bool)
    ensures
        yes == adjacent(text@, *a, *b),
        gap_read(text@, *a, *b),
{
    if b.term_idx == 0 || b.term_idx - 1 != a.term_idx || a.end > b.start {
        return false;
    }
    proof {
        lemma_char_index_monotone(text@, a.end as int, b.start as int);
    }
    let from: usize = text.char_index(a.end);
    let to: usize = text.char_index(b.start);
    let ghost gap = slice(text@, a.end as int, b.start as int);
    let mut i: usize = from;
    while i < to
        invariant
            from <= i <= to <= text@.len(),
            gap == text@.subrange(from as int, to as int),
            gap == slice(text@, a.end as int, b.start as int),
            in_sequence(*a, *b),
            forall|k: int|
                0 <= k < i - from ==> !alphanumeric(#[trigger] gap[k]) && (is_ascii(gap[k])
                    ==> !ascii_alphanumeric(gap[k])),
        decreases to - i,
    {
        if char_is_alphanumeric(text.char_at(i)) {
            assert(alphanumeric(gap[i - from]));
            return false;
        }
        i = i + 1;
    }
    true
}

fn score_cluster(text: &IndexedText, c: &Vec<TermHit>, mask: u64) -> (score: ClusterScore)
    requires
        c.len() > 0,
        c@[0].start <= hits_end(c@),
    ensures
        score == score_of(text@, c@, mask),
        score.missing == count_in_mask(terms_in(c@), mask),
        score.adjacent == adjacent_pairs(text@, c@),
        score.unique == terms_in(c@).len(),
        cluster_gaps_read(text@, c@),
{
    let mut terms: Vec<usize> = Vec::new();
    let mut missing: usize = 0;
    let mut pairs: usize = 0;
    let mut end: usize = 0;
    let mut i: usize = 0;
    assert(c@.take(0) =~= Seq::<TermHit>::empty());
    while i < c.len()
        invariant
            i <= c.len(),
            terms@ == terms_in(c@.take(i as int)),
            missing == count_in_mask(terms@, mask),
            missing <= i,
            pairs == adjacent_pairs(text@, c@.take(i as int)),
            pairs <= i,
            end == hits_end(c@.take(i as int)),
            forall|k: int, j: int|
                0 <= k && j == k + 1 && j < i ==> gap_read(
                    text@,
                    #[trigger] c@[k],
                    #[trigger] c@[j],
                ),
        decreases c.len() - i,
    {
        let hit = c[i];
        let ghost next = c@.take(i + 1);
        assert(next.drop_last() =~= c@.take(i as int));
        if i > 0 {
            assert(next[next.len() - 2] == c@[i - 1]);
            if are_adjacent(text, &c[i - 1], &hit) {
                pairs = pairs + 1;
            }
        }
        if end < hit.end {
            end = hit.end;
        }
        if !contains_term(&terms, hit.term_idx) {
            let ghost before = terms@;
            terms.push(hit.term_idx);
            assert(terms@.drop_last() =~= before);
            if is_in_mask(mask, hit.term_idx) {
                missing = missing + 1;
            }
        }
        i = i + 1;
    }
    assert(c@.take(i as int) =~= c@);
    ClusterScore {
        missing,
        adjacent: pairs,
        unique: terms.len(),
        span: end - c[0].start,
        start: c[0].start,
    }
}

fn contains_term(terms: &Vec<usize>, wanted: usize) -> (found: bool)
    ensures
        found == terms@.contains(wanted),
{
    let mut i: usize = 0;
    while i < terms.len()
        invariant
            i <= terms.len(),
            forall|k: int| 0 <= k < i ==> #[trigger] terms@[k] != wanted,
        decreases terms.len() - i,
    {
        if terms[i] == wanted {
            return true;
        }
        i = i + 1;
    }
    false
}

fn ranks_before(a: &ClusterScore, b: &ClusterScore) -> (yes: bool)
    ensures
        yes == better(*a, *b),
{
    if a.missing != b.missing {
        a.missing > b.missing
    } else if a.adjacent != b.adjacent {
        a.adjacent > b.adjacent
    } else if a.unique != b.unique {
        a.unique > b.unique
    } else if a.span != b.span {
        a.span < b.span
    } else {
        a.start < b.start
    }
}

/// The contents of clusters.
pub open spec fn cluster_views(clusters: Seq<Vec<TermHit>>) -> Seq<Seq<TermHit>> {
    clusters.map_values(|c: Vec<TermHit>| c@)
}

/// The clusters of `hits`.
fn cluster_hits(hits: &Vec<TermHit>) -> (clusters: Vec<Vec<TermHit>>)
    requires
        forward_hits(hits@),
    ensures
        cluster_views(clusters@) == hit_clusters(hits@),
        clusters_ok(cluster_views(clusters@)),
{
    let mut clusters: Vec<Vec<TermHit>> = Vec::new();
    let mut end: usize = 0;
    let mut i: usize = 0;
    assert(hits@.take(0) =~= Seq::<TermHit>::empty());
    assert(cluster_views(clusters@) =~= hit_clusters(hits@.take(0)));
    while i < hits.len()
        invariant
            i <= hits.len(),
            forward_hits(hits@),
            cluster_views(clusters@) == hit_clusters(hits@.take(i as int)),
            clusters.len() > 0 ==> end == hits_end(cluster_views(clusters@).last()),
        decreases hits.len() - i,
    {
        let hit = hits[i];
        let ghost before = cluster_views(clusters@);
        assert(hits@.take(i + 1).drop_last() =~= hits@.take(i as int));
        if clusters.len() > 0 && hit.start <= end.saturating_add(CLUSTER_GAP) {
            match clusters.pop() {
                Some(mut last) => {
                    let ghost c = last@;
                    assert(before.last() == c);
                    last.push(hit);
                    clusters.push(last);
                    assert(last@.drop_last() =~= c);
                    assert(cluster_views(clusters@) =~= add_hit(before, hit));
                    if end < hit.end {
                        end = hit.end;
                    }
                },
                None => {},
            }
        } else {
            let mut one: Vec<TermHit> = Vec::new();
            one.push(hit);
            assert(one@ =~= seq![hit]);
            assert(one@.drop_last() =~= Seq::<TermHit>::empty());
            assert(hits_end(one@.drop_last()) == 0);
            clusters.push(one);
            assert(cluster_views(clusters@) =~= before.push(seq![hit]));
            end = hit.end;
        }
        i = i + 1;
    }
    proof {
        assert(hits@.take(i as int) =~= hits@);
        lemma_hit_clusters_ok(hits@);
    }
    clusters
}

/// The range of the best cluster of `hits` in `full_text`, `None` where none may
/// be shown: where there is no hit, or where terms are missing and no cluster
/// covers one of them.
pub fn select_hidden_context_ranges(
    full_text: &str,
    hits: &Vec<TermHit>,
    missing_mask: u64,
    missing_count: u32,
) -> (ranges: Option<Vec<(usize, usize)>>)
    requires
        forward_hits(hits@),
    ensures
        match selected_ranges(full_text@, hits@, missing_mask, missing_count) {
            Some(selected) => ranges is Some && ranges.unwrap()@ == selected,
            None => ranges is None,
        },
        gaps_read(full_text@, hits@),
{
    let text = IndexedText::new(full_text);
    let clusters = cluster_hits(hits);
    let ghost views = cluster_views(clusters@);
    let ghost t = full_text@;
    let mut best: Option<(usize, ClusterScore)> = None;
    let mut i: usize = 0;
    while i < clusters.len()
        invariant
            i <= clusters.len(),
            t == text@,
            views == cluster_views(clusters@),
            clusters_ok(views),
            forall|k: int| 0 <= k < i ==> cluster_gaps_read(t, #[trigger] views[k]),
            match best {
                Some((b, score)) => {
                    &&& b < i
                    &&& score == score_of(t, views[b as int], missing_mask)
                    &&& eligible(views[b as int], missing_mask, missing_count)
                    &&& forall|j: int|
                        0 <= j < i && eligible(#[trigger] views[j], missing_mask, missing_count)
                            ==> !better(score_of(t, views[j], missing_mask), score)
                },
                None => forall|j: int|
                    0 <= j < i ==> !eligible(#[trigger] views[j], missing_mask, missing_count),
            },
        decreases clusters.len() - i,
    {
        assert(views[i as int] == clusters@[i as int]@);
        let score = score_cluster(&text, &clusters[i], missing_mask);
        if missing_count == 0 || score.missing > 0 {
            match best {
                Some((b, top)) => {
                    if ranks_before(&score, &top) {
                        best = Some((i, score));
                    }
                },
                None => {
                    best = Some((i, score));
                },
            }
        }
        i = i + 1;
    }
    match best {
        Some((b, score)) => {
            proof {
                assert(is_best(t, views, missing_mask, missing_count, b as int));
                let chosen = choose|k: int| is_best(t, views, missing_mask, missing_count, k);
                lemma_best_unique(t, views, missing_mask, missing_count, b as int, chosen);
                assert(views[b as int] == clusters@[b as int]@);
            }
            let mut ranges: Vec<(usize, usize)> = Vec::new();
            ranges.push((score.start, score.start + score.span));
            proof {
                assert(views[b as int][0].start <= hits_end(views[b as int]));
                assert(ranges@ =~= seq![cluster_range(views[b as int])]);
            }
            Some(ranges)
        },
        None => None,
    }
}

} // verus!
