//! Byte ranges `(start, end)`, the end excluded, and their unions.

use crate::sorting::{
    lemma_contains_sorted, lemma_sorted, lemma_sorted_contains, merge_sort, sorted, Ordered,
};
use vstd::prelude::*;

verus! {

pub type ByteRange = (usize, usize);

/// Ranges in the order of their starts, and of their ends where the starts are
/// equal.
impl Ordered for (usize, usize) {
    open spec fn before(self, other: Self) -> bool {
        self.0 < other.0 || (self.0 == other.0 && self.1 <= other.1)
    }

    proof fn total_order() {
    }

    fn comes_before(&self, other: &Self) -> (b: bool) {
        self.0 < other.0 || (self.0 == other.0 && self.1 <= other.1)
    }
}

/// Byte `b` lies in one of `ranges`.
pub open spec fn covers(ranges: Seq<ByteRange>, b: int) -> bool {
    exists|i: int| 0 <= i < ranges.len() && (#[trigger] ranges[i]).0 <= b < ranges[i].1
}

/// `a` and `b` cover the same bytes.
pub open spec fn same_cover(a: Seq<ByteRange>, b: Seq<ByteRange>) -> bool {
    forall|x: int| #[trigger] covers(a, x) <==> covers(b, x)
}

/// Nonempty ranges in order, each two with at least one byte between them.
pub open spec fn separated(ranges: Seq<ByteRange>) -> bool {
    &&& forall|i: int| 0 <= i < ranges.len() ==> (#[trigger] ranges[i]).0 < ranges[i].1
    &&& forall|i: int, j: int|
        0 <= i < j < ranges.len() ==> (#[trigger] ranges[i]).1 < (#[trigger] ranges[j]).0
}

pub open spec fn max_of(a: usize, b: usize) -> usize {
    if a >= b {
        a
    } else {
        b
    }
}

/// `merged` with `r` added: nothing where `r` is empty, the last range extended
/// where `r` starts inside it or right at its end, a new range otherwise.
pub open spec fn add_range(merged: Seq<ByteRange>, r: ByteRange) -> Seq<ByteRange> {
    if r.0 >= r.1 {
        merged
    } else if merged.len() > 0 && r.0 <= merged.last().1 {
        merged.drop_last().push((merged.last().0, max_of(merged.last().1, r.1)))
    } else {
        merged.push(r)
    }
}

/// The ranges of `s`, added in turn.
pub open spec fn add_ranges(s: Seq<ByteRange>) -> Seq<ByteRange>
    decreases s.len(),
{
    if s.len() == 0 {
        Seq::empty()
    } else {
        add_range(add_ranges(s.drop_last()), s.last())
    }
}

/// The union of `ranges`, as separated ranges.
pub open spec fn merged_ranges(ranges: Seq<ByteRange>) -> Seq<ByteRange> {
    add_ranges(sorted(ranges))
}

proof fn lemma_covers_push(s: Seq<ByteRange>, r: ByteRange, b: int)
    ensures
        covers(s.push(r), b) <==> covers(s, b) || r.0 <= b < r.1,
{
    let p = s.push(r);
    if covers(s, b) {
        let i = choose|i: int| 0 <= i < s.len() && (#[trigger] s[i]).0 <= b < s[i].1;
        assert(p[i] == s[i]);
    }
    if r.0 <= b < r.1 {
        assert(p[s.len() as int] == r);
    }
    if covers(p, b) {
        let i = choose|i: int| 0 <= i < p.len() && (#[trigger] p[i]).0 <= b < p[i].1;
        if i < s.len() {
            assert(s[i] == p[i]);
        }
    }
}

proof fn lemma_add_range(m: Seq<ByteRange>, r: ByteRange)
    requires
        separated(m),
        m.len() > 0 ==> m.last().0 <= r.0,
    ensures
        separated(add_range(m, r)),
        forall|b: int|
            #[trigger] covers(add_range(m, r), b) <==> covers(m, b) || r.0 <= b < r.1,
        r.0 < r.1 ==> add_range(m, r).len() > 0 && add_range(m, r).last().0 <= r.0,
        r.0 >= r.1 ==> add_range(m, r) == m,
{
    let a = add_range(m, r);
    if r.0 >= r.1 {
    } else if m.len() > 0 && r.0 <= m.last().1 {
        let front = m.drop_last();
        let last = (m.last().0, max_of(m.last().1, r.1));
        assert(front.push(m.last()) =~= m);
        assert forall|b: int| #[trigger] covers(a, b) <==> covers(m, b) || r.0 <= b < r.1 by {
            lemma_covers_push(front, last, b);
            lemma_covers_push(front, m.last(), b);
        }
    } else {
        assert forall|b: int| #[trigger] covers(a, b) <==> covers(m, b) || r.0 <= b < r.1 by {
            lemma_covers_push(m, r, b);
        }
    }
}

proof fn lemma_add_ranges(s: Seq<ByteRange>)
    requires
        forall|i: int, j: int|
            0 <= i < j < s.len() ==> (#[trigger] s[i]).before(#[trigger] s[j]),
    ensures
        separated(add_ranges(s)),
        same_cover(add_ranges(s), s),
        forall|r: ByteRange|
            #![trigger r.0]
            add_ranges(s).len() > 0 && (forall|i: int| 0 <= i < s.len() ==> (#[trigger] s[i]).0 <= r.0)
                ==> add_ranges(s).last().0 <= r.0,
    decreases s.len(),
{
    if s.len() > 0 {
        let front = s.drop_last();
        let last = s.last();
        assert forall|i: int, j: int| 0 <= i < j < front.len() implies (#[trigger] front[i]).before(
            #[trigger] front[j],
        ) by {
            assert(s[i].before(s[j]));
        }
        lemma_add_ranges(front);
        assert forall|i: int| 0 <= i < front.len() implies (#[trigger] front[i]).0 <= last.0 by {
            assert(s[i].before(s[s.len() - 1]));
        }
        assert(add_ranges(front).len() > 0 ==> add_ranges(front).last().0 <= last.0);
        lemma_add_range(add_ranges(front), last);
        assert(front.push(last) =~= s);
        assert forall|b: int| #[trigger] covers(add_ranges(s), b) <==> covers(s, b) by {
            lemma_covers_push(front, last, b);
        }
        assert forall|r: ByteRange|
            #![trigger r.0]
            add_ranges(s).len() > 0 && (forall|i: int|
                0 <= i < s.len() ==> (#[trigger] s[i]).0 <= r.0) implies add_ranges(s).last().0
            <= r.0 by {
            assert(s[s.len() - 1].0 <= r.0);
            if last.0 >= last.1 {
                assert forall|i: int| 0 <= i < front.len() implies (#[trigger] front[i]).0
                    <= r.0 by {
                    assert(s[i].0 <= r.0);
                }
            }
        }
    }
}

/// The union of ranges is separated, and covers exactly the bytes that they
/// cover.
pub proof fn law_merged_ranges(ranges: Seq<ByteRange>)
    ensures
        separated(merged_ranges(ranges)),
        same_cover(merged_ranges(ranges), ranges),
{
    let s = sorted(ranges);
    lemma_sorted(ranges);
    lemma_add_ranges(s);
    assert forall|b: int| #[trigger] covers(merged_ranges(ranges), b) <==> covers(ranges, b) by {
        if covers(s, b) {
            let i = choose|i: int| 0 <= i < s.len() && (#[trigger] s[i]).0 <= b < s[i].1;
            lemma_sorted_contains(ranges, i);
            let k = choose|k: int| 0 <= k < ranges.len() && ranges[k] == s[i];
            assert(ranges[k].0 <= b < ranges[k].1);
        }
        if covers(ranges, b) {
            let i = choose|i: int|
                0 <= i < ranges.len() && (#[trigger] ranges[i]).0 <= b < ranges[i].1;
            lemma_contains_sorted(ranges, i);
            let k = choose|k: int| 0 <= k < s.len() && s[k] == ranges[i];
            assert(s[k].0 <= b < s[k].1);
        }
    }
}

/// Separated ranges are determined by the bytes that they cover.
pub proof fn lemma_separated_unique(a: Seq<ByteRange>, b: Seq<ByteRange>)
    requires
        separated(a),
        separated(b),
        same_cover(a, b),
    ensures
        a == b,
    decreases a.len(),
{
    if a.len() == 0 {
        if b.len() > 0 {
            assert(covers(b, b[0].0 as int));
            assert(covers(a, b[0].0 as int));
        }
        assert(a =~= b);
    } else {
        assert(covers(a, a[0].0 as int));
        assert(covers(b, a[0].0 as int));
        assert(b.len() > 0);
        lemma_first_range(a, b);
        lemma_first_range(b, a);
        assert(a[0] == b[0]);
        let ta = a.drop_first();
        let tb = b.drop_first();
        lemma_separated_tail(a);
        lemma_separated_tail(b);
        assert forall|x: int| #[trigger] covers(ta, x) <==> covers(tb, x) by {
            assert(covers(a, x) <==> covers(b, x));
        }
        lemma_separated_unique(ta, tb);
        assert(a =~= seq![a[0]] + ta);
        assert(b =~= seq![b[0]] + tb);
    }
}

proof fn lemma_separated_tail(a: Seq<ByteRange>)
    requires
        separated(a),
        a.len() > 0,
    ensures
        separated(a.drop_first()),
        forall|x: int|
            #[trigger] covers(a.drop_first(), x) <==> covers(a, x) && !(a[0].0 <= x < a[0].1),
{
    let t = a.drop_first();
    assert forall|i: int| 0 <= i < t.len() implies (#[trigger] t[i]).0 < t[i].1 by {
        assert(a[i + 1].0 < a[i + 1].1);
    }
    assert forall|i: int, j: int| 0 <= i < j < t.len() implies (#[trigger] t[i]).1
        < (#[trigger] t[j]).0 by {
        assert(a[i + 1].1 < a[j + 1].0);
    }
    assert forall|x: int| #[trigger] covers(t, x) <==> covers(a, x) && !(a[0].0 <= x
        < a[0].1) by {
        if covers(t, x) {
            let i = choose|i: int| 0 <= i < t.len() && (#[trigger] t[i]).0 <= x < t[i].1;
            assert(a[i + 1].0 <= x < a[i + 1].1);
            assert(a[0].1 < a[i + 1].0);
        }
        if covers(a, x) && !(a[0].0 <= x < a[0].1) {
            let i = choose|i: int| 0 <= i < a.len() && (#[trigger] a[i]).0 <= x < a[i].1;
            assert(t[i - 1].0 <= x < t[i - 1].1);
        }
    }
}

proof fn lemma_first_range(a: Seq<ByteRange>, b: Seq<ByteRange>)
    requires
        separated(a),
        separated(b),
        same_cover(a, b),
        a.len() > 0,
        b.len() > 0,
    ensures
        b[0].0 <= a[0].0,
        b[0].0 == a[0].0 ==> b[0].1 >= a[0].1,
{
    let x = a[0].0 as int;
    assert(covers(a, x));
    assert(covers(b, x));
    let i = choose|i: int| 0 <= i < b.len() && (#[trigger] b[i]).0 <= x < b[i].1;
    if i > 0 {
        assert(b[0].1 < b[i].0);
        assert(b[0].0 < b[0].1);
    }
    if b[0].0 == a[0].0 && b[0].1 < a[0].1 {
        let y = b[0].1 as int;
        assert(a[0].0 <= y < a[0].1);
        assert(covers(a, y));
        assert(covers(b, y));
        let k = choose|k: int| 0 <= k < b.len() && (#[trigger] b[k]).0 <= y < b[k].1;
        if k > 0 {
            assert(b[0].1 < b[k].0);
        }
    }
}

/// Ranges that cover the same bytes have the same union, so neither the order
/// of the ranges nor a repetition matters.
pub proof fn law_merged_ranges_depend_on_cover(a: Seq<ByteRange>, b: Seq<ByteRange>)
    requires
        same_cover(a, b),
    ensures
        merged_ranges(a) == merged_ranges(b),
{
    law_merged_ranges(a);
    law_merged_ranges(b);
    assert forall|x: int| #[trigger] covers(merged_ranges(a), x) <==> covers(
        merged_ranges(b),
        x,
    ) by {
        assert(covers(a, x) <==> covers(b, x));
    }
    lemma_separated_unique(merged_ranges(a), merged_ranges(b));
}

/// Merging merged ranges changes nothing.
pub proof fn law_merged_ranges_idempotent(ranges: Seq<ByteRange>)
    ensures
        merged_ranges(merged_ranges(ranges)) == merged_ranges(ranges),
{
    law_merged_ranges(ranges);
    law_merged_ranges_depend_on_cover(merged_ranges(ranges), ranges);
}

/// A byte lies in one of the merged ranges exactly where it lies in one of the given
/// ones; and the merged ranges are not empty, in order, and do not touch.
pub proof fn law_merged_is_the_union(ranges: Seq<ByteRange>, b: int)
    ensures
        (exists|i: int|
            0 <= i < merged_ranges(ranges).len() && (#[trigger] merged_ranges(ranges)[i]).0 <= b
                < merged_ranges(ranges)[i].1) <==> (exists|i: int|
            0 <= i < ranges.len() && (#[trigger] ranges[i]).0 <= b < ranges[i].1),
        forall|i: int|
            0 <= i < merged_ranges(ranges).len() ==> (#[trigger] merged_ranges(ranges)[i]).0
                < merged_ranges(ranges)[i].1,
        forall|i: int, j: int|
            0 <= i < j < merged_ranges(ranges).len() ==> (#[trigger] merged_ranges(ranges)[i]).1 < (
            #[trigger] merged_ranges(ranges)[j]).0,
{
    law_merged_ranges(ranges);
    assert(covers(merged_ranges(ranges), b) <==> covers(ranges, b));
}

/// The union of `ranges`, in order.
pub fn merge_match_ranges(ranges: Vec<(usize, usize)>) -> (merged: Vec<(usize, usize)>)
    ensures
        merged@ == merged_ranges(ranges@),
        separated(merged@),
        same_cover(merged@, ranges@),
{
    let in_order = merge_sort(&ranges);
    let mut merged: Vec<(usize, usize)> = Vec::new();
    let mut i: usize = 0;
    assert(in_order@.take(0) =~= Seq::<ByteRange>::empty());
    while i < in_order.len()
        invariant
            i <= in_order.len(),
            merged@ == add_ranges(in_order@.take(i as int)),
        decreases in_order.len() - i,
    {
        let (start, end) = in_order[i];
        proof {
            assert(in_order@.take(i + 1).drop_last() =~= in_order@.take(i as int));
        }
        let ghost before = merged@;
        i = i + 1;
        if start >= end {
            continue;
        }
        let n: usize = merged.len();
        if n > 0 && start <= merged[n - 1].1 {
            let (first, last) = merged[n - 1];
            merged.pop();
            merged.push((first, if last >= end { last } else { end }));
            assert(merged@ =~= add_range(before, (start, end)));
        } else {
            merged.push((start, end));
        }
    }
    proof {
        assert(in_order@.take(i as int) =~= in_order@);
        law_merged_ranges(ranges@);
    }
    merged
}

} // verus!
