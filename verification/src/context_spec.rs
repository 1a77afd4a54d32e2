//! The terms that a context line looks for, and their hits.

use crate::literal::{
    ascii_lower, eq_ignore_ascii_case, law_literal_ranges, literal_ranges, same_ignoring_case,
    Literal,
};
use crate::normalize::{
    ascii_known, find_normalized_match_ranges, law_query_ranges, query_ranges, valid_range,
    valid_ranges, NormalizedText,
};
use crate::ranges::ByteRange;
use crate::sorting::{
    lemma_contains_sorted, lemma_sorted, lemma_sorted_contains, merge_sort, sorted, Ordered,
};
use crate::text::byte_len;
use vstd::prelude::*;

verus! {

/// No more than this many terms are looked for.
pub const MAX_SPECS: usize = 64;

/// A term to look for: normalized, or as it stands.
pub enum ContextMatchSpec {
    Normalized(String),
    Literal(Literal),
}

/// The text of the term, and whether it is a literal.
pub type SpecKey = (Seq<char>, bool);

impl View for ContextMatchSpec {
    type V = (Seq<char>, bool);

    open spec fn view(&self) -> (Seq<char>, bool) {
        match self {
            ContextMatchSpec::Normalized(term) => (term@, false),
            ContextMatchSpec::Literal(literal) => (literal@, true),
        }
    }
}

impl Clone for ContextMatchSpec {
    fn clone(&self) -> (copy: Self)
        ensures
            copy@ == self@,
    {
        match self {
            ContextMatchSpec::Normalized(term) => ContextMatchSpec::Normalized(term.clone()),
            ContextMatchSpec::Literal(literal) => ContextMatchSpec::Literal(literal.clone()),
        }
    }
}

pub open spec fn keys(specs: Seq<ContextMatchSpec>) -> Seq<SpecKey> {
    specs.map_values(|s: ContextMatchSpec| s@)
}

/// The ranges of a term, where `t` is searched for literals and `normal` for
/// normalized terms.
pub open spec fn key_ranges(t: Seq<char>, normal: Seq<char>, key: SpecKey) -> Seq<ByteRange> {
    if key.1 {
        literal_ranges(t, key.0)
    } else {
        query_ranges(normal, key.0)
    }
}

/// The text that normalized terms are looked up in.
pub open spec fn normal_source(t: Seq<char>, normalized: Option<&NormalizedText>) -> Seq<char> {
    match normalized {
        Some(n) => n@,
        None => t,
    }
}

impl ContextMatchSpec {
    /// The text of the term, and whether it is a literal.
    pub fn key(&self) -> (key: (&str, bool))
        ensures
            key.0@ == self@.0,
            key.1 == self@.1,
    {
        match self {
            ContextMatchSpec::Normalized(term) => (term.as_str(), false),
            ContextMatchSpec::Literal(literal) => (literal.text(), true),
        }
    }

    /// The byte ranges of the term in `text`, or, for a normalized term, in
    /// `normalized` where it is given.
    pub fn find_ranges(&self, text: &str, normalized: Option<&NormalizedText>) -> (ranges: Vec<
        (usize, usize),
    >)
        ensures
            ranges@ == key_ranges(text@, normal_source(text@, normalized), self@),
            normal_source(text@, normalized) == text@ ==> valid_ranges(text@, ranges@),
            !self@.1 ==> ascii_known(normal_source(text@, normalized)),
    {
        match self {
            ContextMatchSpec::Normalized(term) => match normalized {
                Some(n) => n.find_all_ranges(term.as_str()),
                None => find_normalized_match_ranges(text, term.as_str()),
            },
            ContextMatchSpec::Literal(literal) => literal.match_ranges(text),
        }
    }
}

/// Two terms of one kind that differ in the case of ASCII letters at most.
pub open spec fn same_key(a: SpecKey, b: SpecKey) -> bool {
    a.1 == b.1 && same_ignoring_case(a.0, b.0)
}

/// One of `list` is a normalized term.
pub open spec fn has_normal(list: Seq<SpecKey>) -> bool {
    exists|i: int| 0 <= i < list.len() && !(#[trigger] list[i]).1
}

/// One of `list` is the same term as `key`.
pub open spec fn has_key(list: Seq<SpecKey>, key: SpecKey) -> bool {
    exists|i: int| 0 <= i < list.len() && same_key(#[trigger] list[i], key)
}

/// The first terms of `list` that are not the same as an earlier one, no more
/// than [`MAX_SPECS`].
pub open spec fn distinct_keys(list: Seq<SpecKey>) -> Seq<SpecKey>
    decreases list.len(),
{
    if list.len() == 0 {
        Seq::empty()
    } else {
        let front = distinct_keys(list.drop_last());
        if front.len() >= MAX_SPECS || has_key(front, list.last()) {
            front
        } else {
            front.push(list.last())
        }
    }
}

/// The kept terms are terms of the list, no two of them the same, and no more
/// than [`MAX_SPECS`]; where fewer are kept, each term of the list is the same
/// as a kept one.
pub proof fn law_distinct_keys(list: Seq<SpecKey>)
    ensures
        distinct_keys(list).len() <= MAX_SPECS,
        forall|i: int|
            0 <= i < distinct_keys(list).len() ==> list.contains(#[trigger] distinct_keys(list)[i]),
        forall|i: int, j: int|
            0 <= i < j < distinct_keys(list).len() ==> !same_key(
                #[trigger] distinct_keys(list)[i],
                #[trigger] distinct_keys(list)[j],
            ),
        distinct_keys(list).len() < MAX_SPECS ==> forall|i: int|
            0 <= i < list.len() ==> has_key(distinct_keys(list), #[trigger] list[i]),
        list.len() > 0 ==> distinct_keys(list).len() > 0,
    decreases list.len(),
{
    if list.len() > 0 {
        let front_list = list.drop_last();
        let front = distinct_keys(front_list);
        let all = distinct_keys(list);
        let last = list.last();
        law_distinct_keys(front_list);
        assert forall|i: int| 0 <= i < all.len() implies list.contains(#[trigger] all[i]) by {
            if i < front.len() {
                assert(all[i] == front[i]);
                let k = choose|k: int| 0 <= k < front_list.len() && front_list[k] == front[i];
                assert(list[k] == all[i]);
            } else {
                assert(list[list.len() - 1] == all[i]);
            }
        }
        assert forall|i: int, j: int| 0 <= i < j < all.len() implies !same_key(
            #[trigger] all[i],
            #[trigger] all[j],
        ) by {
            assert(all[i] == front[i]);
            if j < front.len() {
                assert(all[j] == front[j]);
            }
        }
        if all.len() < MAX_SPECS {
            assert forall|i: int| 0 <= i < list.len() implies has_key(all, #[trigger] list[i]) by {
                if i < front_list.len() {
                    assert(list[i] == front_list[i]);
                    assert(has_key(front, front_list[i]));
                    let k = choose|k: int|
                        0 <= k < front.len() && same_key(#[trigger] front[k], list[i]);
                    assert(all[k] == front[k]);
                } else if !has_key(front, last) {
                    assert(all[all.len() - 1] == last);
                    assert(same_key(last, last));
                }
            }
        }
    }
}

/// Dropping repeated terms again changes nothing.
pub proof fn law_distinct_keys_idempotent(list: Seq<SpecKey>)
    ensures
        distinct_keys(distinct_keys(list)) == distinct_keys(list),
{
    law_distinct_keys(list);
    lemma_distinct_of_distinct(distinct_keys(list));
}

/// What is kept of a longer list depends on its start only through what is kept
/// of the start.
proof fn lemma_distinct_concat(a: Seq<SpecKey>, b: Seq<SpecKey>, rest: Seq<SpecKey>)
    requires
        distinct_keys(a) == distinct_keys(b),
    ensures
        distinct_keys(a + rest) == distinct_keys(b + rest),
    decreases rest.len(),
{
    if rest.len() == 0 {
        assert(a + rest =~= a);
        assert(b + rest =~= b);
    } else {
        let front = rest.drop_last();
        lemma_distinct_concat(a, b, front);
        assert((a + rest).drop_last() =~= a + front);
        assert((b + rest).drop_last() =~= b + front);
        assert((a + rest).last() == rest.last());
        assert((b + rest).last() == rest.last());
    }
}

/// A term that is the same as an earlier one changes nothing, wherever it stands.
pub proof fn law_repeated_key(before: Seq<SpecKey>, key: SpecKey, after: Seq<SpecKey>)
    requires
        has_key(before, key),
    ensures
        distinct_keys(before.push(key) + after) == distinct_keys(before + after),
{
    let kept = distinct_keys(before);
    law_distinct_keys(before);
    if kept.len() < MAX_SPECS {
        let i = choose|i: int| 0 <= i < before.len() && same_key(#[trigger] before[i], key);
        assert(has_key(kept, before[i]));
        let k = choose|k: int| 0 <= k < kept.len() && same_key(#[trigger] kept[k], before[i]);
        assert(same_key(kept[k], key)) by {
            assert forall|x: int| 0 <= x < kept[k].0.len() implies ascii_lower(
                #[trigger] kept[k].0[x],
            ) == ascii_lower(key.0[x]) by {
                assert(ascii_lower(before[i].0[x]) == ascii_lower(key.0[x]));
            }
        }
        assert(has_key(kept, key));
    }
    assert(before.push(key).drop_last() =~= before);
    lemma_distinct_concat(before.push(key), before, after);
}

proof fn lemma_distinct_of_distinct(list: Seq<SpecKey>)
    requires
        list.len() <= MAX_SPECS,
        forall|i: int, j: int|
            0 <= i < j < list.len() ==> !same_key(#[trigger] list[i], #[trigger] list[j]),
    ensures
        distinct_keys(list) == list,
    decreases list.len(),
{
    if list.len() > 0 {
        let front = list.drop_last();
        assert forall|i: int, j: int| 0 <= i < j < front.len() implies !same_key(
            #[trigger] front[i],
            #[trigger] front[j],
        ) by {
            assert(front[i] == list[i] && front[j] == list[j]);
        }
        lemma_distinct_of_distinct(front);
        assert(!has_key(front, list.last())) by {
            if has_key(front, list.last()) {
                let k = choose|k: int|
                    0 <= k < front.len() && same_key(#[trigger] front[k], list.last());
                assert(!same_key(list[k], list[list.len() - 1]));
            }
        }
        assert(front.push(list.last()) =~= list);
    } else {
        assert(distinct_keys(list) =~= list);
    }
}

/// The first specs that are not the same term as an earlier one, no more than
/// [`MAX_SPECS`].
pub fn dedupe_context_specs(specs: &[ContextMatchSpec]) -> (deduped: Vec<ContextMatchSpec>)
    ensures
        keys(deduped@) == distinct_keys(keys(specs@)),
        deduped.len() <= MAX_SPECS,
{
    let mut deduped: Vec<ContextMatchSpec> = Vec::new();
    let ghost list = keys(specs@);
    let mut i: usize = 0;
    assert(list.take(0) =~= Seq::<SpecKey>::empty());
    assert(keys(deduped@) =~= distinct_keys(list.take(0)));
    while i < specs.len()
        invariant
            i <= specs.len(),
            list == keys(specs@),
            keys(deduped@) == distinct_keys(list.take(i as int)),
            deduped.len() <= MAX_SPECS,
        decreases specs.len() - i,
    {
        let spec_i = &specs[i];
        proof {
            assert(list.take(i + 1).drop_last() =~= list.take(i as int));
            assert(list.take(i + 1).last() == spec_i@);
        }
        let ghost before = keys(deduped@);
        if deduped.len() < MAX_SPECS && !contains_key(&deduped, spec_i) {
            let copy = spec_i.clone();
            deduped.push(copy);
            assert(keys(deduped@) =~= before.push(spec_i@));
        }
        i = i + 1;
    }
    assert(list.take(i as int) =~= list);
    deduped
}

/// Whether one of `list` is the same term as `wanted`.
fn contains_key(list: &Vec<ContextMatchSpec>, wanted: &ContextMatchSpec) -> (found: bool)
    ensures
        found == has_key(keys(list@), wanted@),
{
    let (text, is_literal) = wanted.key();
    let mut i: usize = 0;
    while i < list.len()
        invariant
            i <= list.len(),
            text@ == wanted@.0,
            is_literal == wanted@.1,
            forall|k: int| 0 <= k < i ==> !same_key(#[trigger] keys(list@)[k], wanted@),
        decreases list.len() - i,
    {
        let (existing_text, existing_is_literal) = list[i].key();
        assert(keys(list@)[i as int] == list@[i as int]@);
        if existing_is_literal == is_literal && eq_ignore_ascii_case(existing_text, text) {
            return true;
        }
        i = i + 1;
    }
    false
}

/// One hit of a term.
#[derive(Clone, Copy, Debug)]
pub struct TermHit {
    pub start: usize,
    pub end: usize,
    pub term_idx: usize,
}

/// Hits in the order of their starts, then of their ends, then of their terms.
impl Ordered for TermHit {
    open spec fn before(self, other: Self) -> bool {
        ||| self.start < other.start
        ||| self.start == other.start && self.end < other.end
        ||| self.start == other.start && self.end == other.end && self.term_idx <= other.term_idx
    }

    proof fn total_order() {
    }

    fn comes_before(&self, other: &Self) -> (b: bool) {
        self.start < other.start || (self.start == other.start && (self.end < other.end || (
        self.end == other.end && self.term_idx <= other.term_idx)))
    }
}

/// `ranges` as hits of term number `term_idx`.
pub open spec fn as_hits(ranges: Seq<ByteRange>, term_idx: usize) -> Seq<TermHit> {
    ranges.map_values(|r: ByteRange| TermHit { start: r.0, end: r.1, term_idx })
}

/// The hits of each of the terms `list`, term by term.
pub open spec fn all_hits(t: Seq<char>, normal: Seq<char>, list: Seq<SpecKey>) -> Seq<TermHit>
    decreases list.len(),
{
    if list.len() == 0 {
        Seq::empty()
    } else {
        all_hits(t, normal, list.drop_last()) + as_hits(
            key_ranges(t, normal, list.last()),
            (list.len() - 1) as usize,
        )
    }
}

/// The hits of the terms `list`, in order.
pub open spec fn ordered_hits(t: Seq<char>, normal: Seq<char>, list: Seq<SpecKey>) -> Seq<TermHit> {
    sorted(all_hits(t, normal, list))
}

/// A nonempty hit of whole characters of `t`, of one of `count` terms.
pub open spec fn valid_hit(t: Seq<char>, hit: TermHit, count: int) -> bool {
    &&& valid_range(t, (hit.start, hit.end))
    &&& hit.term_idx < count
}

pub open spec fn valid_hits(t: Seq<char>, hits: Seq<TermHit>, count: int) -> bool {
    forall|i: int| 0 <= i < hits.len() ==> valid_hit(t, #[trigger] hits[i], count)
}

/// The ranges of a term in `t` are whole characters of it.
pub proof fn lemma_key_ranges_valid(t: Seq<char>, key: SpecKey)
    requires
        byte_len(t) <= usize::MAX,
    ensures
        valid_ranges(t, key_ranges(t, t, key)),
{
    law_literal_ranges(t, key.0);
    law_query_ranges(t, key.0);
}

proof fn lemma_all_hits_valid(t: Seq<char>, list: Seq<SpecKey>)
    requires
        byte_len(t) <= usize::MAX,
        list.len() <= usize::MAX,
    ensures
        valid_hits(t, all_hits(t, t, list), list.len() as int),
    decreases list.len(),
{
    if list.len() > 0 {
        let n = list.len() as int;
        let front = all_hits(t, t, list.drop_last());
        let ranges = key_ranges(t, t, list.last());
        let all = all_hits(t, t, list);
        lemma_all_hits_valid(t, list.drop_last());
        lemma_key_ranges_valid(t, list.last());
        assert forall|i: int| 0 <= i < all.len() implies valid_hit(t, #[trigger] all[i], n) by {
            if i < front.len() {
                assert(all[i] == front[i]);
                assert(valid_hit(t, front[i], n - 1));
            } else {
                assert(valid_range(t, ranges[i - front.len()]));
            }
        }
    }
}

/// Each hit is a hit of the term that it names.
proof fn lemma_all_hits_terms(t: Seq<char>, list: Seq<SpecKey>)
    requires
        list.len() <= usize::MAX,
    ensures
        forall|i: int|
            0 <= i < all_hits(t, t, list).len() ==> names_found_term(
                t,
                list,
                #[trigger] all_hits(t, t, list)[i],
            ),
    decreases list.len(),
{
    if list.len() > 0 {
        let front = list.drop_last();
        let old = all_hits(t, t, front);
        let new = all_hits(t, t, list);
        lemma_all_hits_terms(t, front);
        assert forall|i: int| 0 <= i < new.len() implies names_found_term(
            t,
            list,
            #[trigger] new[i],
        ) by {
            if i < old.len() {
                assert(new[i] == old[i]);
                assert(names_found_term(t, front, old[i]));
            }
        }
    }
}

/// `hit` names a term of `list` that is found in `t`.
pub open spec fn names_found_term(t: Seq<char>, list: Seq<SpecKey>, hit: TermHit) -> bool {
    &&& hit.term_idx < list.len()
    &&& key_ranges(t, t, list[hit.term_idx as int]).len() > 0
}

pub proof fn lemma_ordered_hits_terms(t: Seq<char>, list: Seq<SpecKey>)
    requires
        list.len() <= usize::MAX,
    ensures
        forall|i: int|
            0 <= i < ordered_hits(t, t, list).len() ==> names_found_term(
                t,
                list,
                #[trigger] ordered_hits(t, t, list)[i],
            ),
{
    let all = all_hits(t, t, list);
    lemma_all_hits_terms(t, list);
    assert forall|i: int| 0 <= i < ordered_hits(t, t, list).len() implies names_found_term(
        t,
        list,
        #[trigger] ordered_hits(t, t, list)[i],
    ) by {
        lemma_sorted_contains(all, i);
        let k = choose|k: int| 0 <= k < all.len() && all[k] == ordered_hits(t, t, list)[i];
        assert(names_found_term(t, list, all[k]));
    }
}

/// The hits of terms are whole characters of the text, in the order of their
/// starts.
pub proof fn law_ordered_hits(t: Seq<char>, list: Seq<SpecKey>)
    requires
        byte_len(t) <= usize::MAX,
        list.len() <= usize::MAX,
    ensures
        valid_hits(t, ordered_hits(t, t, list), list.len() as int),
        forall|i: int, j: int|
            0 <= i < j < ordered_hits(t, t, list).len() ==> (#[trigger] ordered_hits(
                t,
                t,
                list,
            )[i]).start <= (#[trigger] ordered_hits(t, t, list)[j]).start,
{
    let all = all_hits(t, t, list);
    let hits = ordered_hits(t, t, list);
    lemma_all_hits_valid(t, list);
    lemma_sorted(all);
    assert forall|i: int| 0 <= i < hits.len() implies valid_hit(
        t,
        #[trigger] hits[i],
        list.len() as int,
    ) by {
        lemma_sorted_contains(all, i);
        let k = choose|k: int| 0 <= k < all.len() && all[k] == hits[i];
        assert(valid_hit(t, all[k], list.len() as int));
    }
    assert forall|i: int, j: int| 0 <= i < j < hits.len() implies (#[trigger] hits[i]).start <= (
    #[trigger] hits[j]).start by {
        assert(hits[i].before(hits[j]));
    }
}

/// The key of a term is its text and whether it is a literal, term by term.
pub proof fn law_keys(specs: Seq<ContextMatchSpec>, term: String, literal: Literal)
    ensures
        keys(specs).len() == specs.len(),
        forall|i: int| 0 <= i < specs.len() ==> #[trigger] keys(specs)[i] == specs[i]@,
        ContextMatchSpec::Normalized(term)@ == (term@, false),
        ContextMatchSpec::Literal(literal)@ == (literal@, true),
{
}

/// Normalized terms are looked up in the normalized text that is given, and in the
/// text itself where none is.
pub proof fn law_normal_source(t: Seq<char>, normalized: NormalizedText)
    ensures
        normal_source(t, Some(&normalized)) == normalized@,
        normal_source(t, None) == t,
{
}

/// A literal is looked up as it stands, and another term as a query.
pub proof fn law_key_ranges(t: Seq<char>, normal: Seq<char>, text: Seq<char>)
    ensures
        key_ranges(t, normal, (text, true)) == literal_ranges(t, text),
        key_ranges(t, normal, (text, false)) == query_ranges(normal, text),
{
}

/// Another term is kept unless sixty-four are, or one that is kept is of its kind and
/// reads the same but for the case of ASCII letters; and none that was kept is given
/// up for it.
pub proof fn law_next_term(list: Seq<SpecKey>, key: SpecKey)
    ensures
        ({
            let kept = distinct_keys(list);
            let same = exists|i: int|
                0 <= i < kept.len() && (#[trigger] kept[i]).1 == key.1 && same_ignoring_case(
                    kept[i].0,
                    key.0,
                );
            distinct_keys(list.push(key)) == if kept.len() >= 64 || same {
                kept
            } else {
                kept.push(key)
            }
        }),
        distinct_keys(Seq::empty()) == Seq::<SpecKey>::empty(),
{
    let kept = distinct_keys(list);
    assert(list.push(key).drop_last() =~= list);
    if has_key(kept, key) {
        let i = choose|i: int| 0 <= i < kept.len() && same_key(#[trigger] kept[i], key);
        assert(kept[i].1 == key.1 && same_ignoring_case(kept[i].0, key.0));
    }
    if exists|i: int|
        0 <= i < kept.len() && (#[trigger] kept[i]).1 == key.1 && same_ignoring_case(
            kept[i].0,
            key.0,
        ) {
        let i = choose|i: int|
            0 <= i < kept.len() && (#[trigger] kept[i]).1 == key.1 && same_ignoring_case(
                kept[i].0,
                key.0,
            );
        assert(same_key(kept[i], key));
    }
}

/// The number of ranges of all the terms `list` in `t`.
pub open spec fn total_ranges(t: Seq<char>, normal: Seq<char>, list: Seq<SpecKey>) -> int {
    list.map_values(|key: SpecKey| key_ranges(t, normal, key).len() as int).fold_left(
        0,
        |a: int, b: int| a + b,
    )
}

proof fn lemma_all_hits_len(t: Seq<char>, normal: Seq<char>, list: Seq<SpecKey>)
    ensures
        all_hits(t, normal, list).len() == total_ranges(t, normal, list),
    decreases list.len(),
{
    let count = |key: SpecKey| key_ranges(t, normal, key).len() as int;
    let plus = |a: int, b: int| a + b;
    if list.len() > 0 {
        let front = list.drop_last();
        lemma_all_hits_len(t, normal, front);
        assert(list.map_values(count).drop_last() =~= front.map_values(count));
        assert(list.map_values(count).last() == count(list.last()));
    } else {
        assert(list.map_values(count) =~= Seq::<int>::empty());
    }
}

proof fn lemma_all_hits_contain(
    t: Seq<char>,
    normal: Seq<char>,
    list: Seq<SpecKey>,
    hit: TermHit,
)
    requires
        list.len() <= usize::MAX,
    ensures
        all_hits(t, normal, list).contains(hit) <==> hit.term_idx < list.len() && key_ranges(
            t,
            normal,
            list[hit.term_idx as int],
        ).contains((hit.start, hit.end)),
    decreases list.len(),
{
    if list.len() > 0 {
        let front = list.drop_last();
        let old = all_hits(t, normal, front);
        let last = list.len() - 1;
        let ranges = key_ranges(t, normal, list.last());
        let added = as_hits(ranges, last as usize);
        let all = all_hits(t, normal, list);
        lemma_all_hits_contain(t, normal, front, hit);
        assert(all == old + added);
        let r = (hit.start, hit.end);
        if all.contains(hit) {
            let k = choose|k: int| 0 <= k < all.len() && all[k] == hit;
            if k < old.len() {
                assert(old[k] == hit);
                assert(list[hit.term_idx as int] == front[hit.term_idx as int]);
            } else {
                assert(added[k - old.len()] == hit);
                assert(ranges[k - old.len()] == r);
            }
        }
        if hit.term_idx < list.len() && key_ranges(
            t,
            normal,
            list[hit.term_idx as int],
        ).contains(r) {
            if hit.term_idx < last {
                assert(list[hit.term_idx as int] == front[hit.term_idx as int]);
                let k = choose|k: int| 0 <= k < old.len() && old[k] == hit;
                assert(all[k] == hit);
            } else {
                let k = choose|k: int| 0 <= k < ranges.len() && ranges[k] == r;
                assert(added[k] == hit);
                assert(all[old.len() + k] == hit);
            }
        }
    }
}

/// The hits are the ranges of the terms: a range of a term is a hit of it, a hit is
/// a range of its term, and there are as many hits as ranges. They come in the order
/// of their starts, then of their ends, then of their terms.
pub proof fn law_hits_are_ranges(
    t: Seq<char>,
    normal: Seq<char>,
    list: Seq<SpecKey>,
    hit: TermHit,
    i: int,
    j: int,
)
    requires
        list.len() <= usize::MAX,
    ensures
        ordered_hits(t, normal, list).contains(hit) <==> hit.term_idx < list.len() && key_ranges(
            t,
            normal,
            list[hit.term_idx as int],
        ).contains((hit.start, hit.end)),
        ordered_hits(t, normal, list).len() == total_ranges(t, normal, list),
        0 <= i < j < ordered_hits(t, normal, list).len() ==> {
            let a = ordered_hits(t, normal, list)[i];
            let b = ordered_hits(t, normal, list)[j];
            ||| a.start < b.start
            ||| a.start == b.start && a.end < b.end
            ||| a.start == b.start && a.end == b.end && a.term_idx <= b.term_idx
        },
{
    let all = all_hits(t, normal, list);
    let hits = ordered_hits(t, normal, list);
    lemma_all_hits_contain(t, normal, list, hit);
    lemma_all_hits_len(t, normal, list);
    lemma_sorted(all);
    if all.contains(hit) {
        let k = choose|k: int| 0 <= k < all.len() && all[k] == hit;
        lemma_contains_sorted(all, k);
    }
    if hits.contains(hit) {
        let k = choose|k: int| 0 <= k < hits.len() && hits[k] == hit;
        lemma_sorted_contains(all, k);
    }
    if 0 <= i < j < hits.len() {
        assert(hits[i].before(hits[j]));
    }
}

/// The hits of all `specs`, in order.
pub fn find_all_spec_hits(
    text: &str,
    specs: &[ContextMatchSpec],
    normalized: Option<&NormalizedText>,
) -> (hits: Vec<TermHit>)
    ensures
        hits@ == ordered_hits(text@, normal_source(text@, normalized), keys(specs@)),
{
    let ghost list = keys(specs@);
    let ghost normal = normal_source(text@, normalized);
    let mut found: Vec<TermHit> = Vec::new();
    let mut i: usize = 0;
    assert(list.take(0) =~= Seq::<SpecKey>::empty());
    while i < specs.len()
        invariant
            i <= specs.len(),
            list == keys(specs@),
            normal == normal_source(text@, normalized),
            found@ == all_hits(text@, normal, list.take(i as int)),
        decreases specs.len() - i,
    {
        let ranges = specs[i].find_ranges(text, normalized);
        let ghost before = found@;
        let mut j: usize = 0;
        assert(before + as_hits(ranges@, i).take(0) =~= before);
        while j < ranges.len()
            invariant
                j <= ranges.len(),
                found@ == before + as_hits(ranges@, i).take(j as int),
            decreases ranges.len() - j,
        {
            let (start, end) = ranges[j];
            found.push(TermHit { start, end, term_idx: i });
            j = j + 1;
            assert(found@ =~= before + as_hits(ranges@, i).take(j as int));
        }
        proof {
            assert(as_hits(ranges@, i).take(j as int) =~= as_hits(ranges@, i));
            assert(list.take(i + 1).drop_last() =~= list.take(i as int));
            assert(list.take(i + 1).last() == specs@[i as int]@);
        }
        i = i + 1;
    }
    assert(list.take(i as int) =~= list);
    merge_sort(&found)
}

} // verus!
