//! A query in the form in which its matches are highlighted.

use crate::context_spec::{keys, ContextMatchSpec, SpecKey};
use crate::literal::{
    is_literal_at, law_literal_ranges, literal_ranges, literal_texts, literals_ranges,
    match_literal_ranges, same_ignoring_case, Literal,
};
use crate::normalize::{
    ascii_fold, ascii_known, find_normalized_match_ranges, fold_char, is_ascii, law_normal_chars,
    law_normal_words, law_normal_words_of_parts, law_query_ranges, lemma_valid_concat,
    normal_chars, normalize_highlight_query, query_ranges, valid_range, valid_ranges,
};
use crate::query::{law_unquoted_query, quoted_parts, unquoted_part, ParsedQuery};
use crate::ranges::{
    add_ranges, covers, law_merged_ranges, merge_match_ranges, merged_ranges, separated, ByteRange,
};
use crate::sorting::{lemma_sorted, lemma_sorted_contains, sorted};
use crate::text::{byte_len, chars_of, on_boundary};
use crate::words::{
    contents, is_white, join_with_spaces, join_words, law_join_words, law_one_word,
    law_split_join_split, law_words_around_whitespace, split_whitespace, words,
};
use vstd::prelude::*;

verus! {

/// The words with an underscore, which are matched as they stand.
pub open spec fn identifier_words(list: Seq<Seq<char>>) -> Seq<Seq<char>> {
    list.filter(|w: Seq<char>| w.contains('_'))
}

/// The words without an underscore.
pub open spec fn plain_words(list: Seq<Seq<char>>) -> Seq<Seq<char>> {
    list.filter(|w: Seq<char>| !w.contains('_'))
}

/// The form in which the words of a query are looked up.
pub open spec fn normal_query(query: Seq<char>) -> Seq<char> {
    join_words(words(normal_chars(query)))
}

/// The ranges of `t` that the words of `unquoted` or one of `literals` match.
pub open spec fn highlight_ranges(
    t: Seq<char>,
    unquoted: Seq<char>,
    literals: Seq<Seq<char>>,
) -> Seq<ByteRange> {
    merged_ranges(query_ranges(t, unquoted) + literals_ranges(t, literals))
}

/// The literal `q` stands somewhere in `t`.
pub open spec fn literal_found(t: Seq<char>, q: Seq<char>) -> bool {
    literal_ranges(t, q).len() > 0
}

/// `words` as normalized terms.
pub open spec fn normal_keys(list: Seq<Seq<char>>) -> Seq<SpecKey> {
    list.map_values(|w: Seq<char>| (w, false))
}

/// `literals` as literal terms.
pub open spec fn literal_keys(list: Seq<Seq<char>>) -> Seq<SpecKey> {
    list.map_values(|w: Seq<char>| (w, true))
}

/// A query: the words to look up, normalized, and the literals.
#[derive(Debug)]
pub struct HighlightQuery {
    pub unquoted: String,
    pub literals: Vec<Literal>,
}

impl Default for HighlightQuery {
    fn default() -> (query: Self)
        ensures
            query.unquoted@ == Seq::<char>::empty(),
            query.literals@ == Seq::<Literal>::empty(),
    {
        HighlightQuery { unquoted: String::new(), literals: Vec::new() }
    }
}

fn has_underscore(text: &str) -> (found: bool)
    ensures
        found == text@.contains('_'),
{
    let chars = chars_of(text);
    let mut i: usize = 0;
    while i < chars.len()
        invariant
            i <= chars.len(),
            chars@ == text@,
            forall|k: int| 0 <= k < i ==> #[trigger] text@[k] != '_',
        decreases chars.len() - i,
    {
        if chars[i] == '_' {
            return true;
        }
        i = i + 1;
    }
    false
}

proof fn lemma_filter_step(list: Seq<Seq<char>>, i: int, pred: spec_fn(Seq<char>) -> bool)
    requires
        0 <= i < list.len(),
    ensures
        list.take(i + 1).filter(pred) == if pred(list[i]) {
            list.take(i).filter(pred).push(list[i])
        } else {
            list.take(i).filter(pred)
        },
{
    reveal(Seq::filter);
    assert(list.take(i + 1).drop_last() =~= list.take(i));
}

impl HighlightQuery {
    /// The query that `query` writes: literals in double quotes, and words, of
    /// which those with an underscore are literals too.
    pub fn parse(query: &str) -> (parsed: Self)
        ensures
            parsed.unquoted@ == normal_query(
                join_words(plain_words(words(unquoted_part(query@, 0)))),
            ),
            literal_texts(parsed.literals@) == quoted_parts(query@, 0) + identifier_words(
                words(unquoted_part(query@, 0)),
            ),
            ascii_known(join_words(plain_words(words(unquoted_part(query@, 0))))),
            words(parsed.unquoted@) == plain_words(words(unquoted_part(query@, 0))).map_values(
                |w: Seq<char>| words(normal_chars(w)),
            ).flatten(),
    {
        HighlightQuery::from_parts(&ParsedQuery::parse(query))
    }

    /// The query with the parts of `parsed`.
    pub fn from_parts(parsed: &ParsedQuery) -> (query: Self)
        ensures
            query.unquoted@ == normal_query(
                join_words(plain_words(words(parsed.unquoted@))),
            ),
            literal_texts(query.literals@) == literal_texts(parsed.literals@) + identifier_words(
                words(parsed.unquoted@),
            ),
            ascii_known(join_words(plain_words(words(parsed.unquoted@)))),
            words(query.unquoted@) == plain_words(words(parsed.unquoted@)).map_values(
                |w: Seq<char>| words(normal_chars(w)),
            ).flatten(),
    {
        let terms = split_whitespace(parsed.unquoted());
        let given = parsed.literals();
        let ghost list = contents(terms@);
        let ghost start = literal_texts(given@);
        let mut literals: Vec<Literal> = Vec::new();
        let mut k: usize = 0;
        while k < given.len()
            invariant
                k <= given.len(),
                start == literal_texts(given@),
                literal_texts(literals@) == start.take(k as int),
            decreases given.len() - k,
        {
            let ghost before = literals@;
            let copy = given[k].clone();
            literals.push(copy);
            assert(literal_texts(literals@) =~= literal_texts(before).push(copy@));
            assert(start.take(k + 1) =~= start.take(k as int).push(start[k as int]));
            k = k + 1;
        }
        assert(start.take(k as int) =~= start);

        let ghost with = |w: Seq<char>| w.contains('_');
        let ghost without = |w: Seq<char>| !w.contains('_');
        let mut plain: Vec<String> = Vec::new();
        let mut i: usize = 0;
        proof {
            reveal(Seq::filter);
            assert(list.take(0) =~= Seq::<Seq<char>>::empty());
            assert(contents(plain@) =~= list.take(0).filter(without));
            assert(start + list.take(0).filter(with) =~= start);
        }
        while i < terms.len()
            invariant
                i <= terms.len(),
                list == contents(terms@),
                with == (|w: Seq<char>| w.contains('_')),
                without == (|w: Seq<char>| !w.contains('_')),
                contents(plain@) == list.take(i as int).filter(without),
                literal_texts(literals@) == start + list.take(i as int).filter(with),
            decreases terms.len() - i,
        {
            let ghost plain_before = plain@;
            let ghost literals_before = literals@;
            proof {
                lemma_filter_step(list, i as int, with);
                lemma_filter_step(list, i as int, without);
                assert(list[i as int] == terms@[i as int]@);
            }
            let term = terms[i].clone();
            if has_underscore(term.as_str()) {
                let ghost text = term@;
                let literal = Literal::new(term);
                literals.push(literal);
                assert(literal_texts(literals@) =~= literal_texts(literals_before).push(text));
                assert(literal_texts(literals@) =~= start + list.take(i + 1).filter(with));
            } else {
                plain.push(term);
                assert(contents(plain@) =~= contents(plain_before).push(term@));
            }
            i = i + 1;
        }
        assert(list.take(i as int) =~= list);
        let unquoted = normalize_highlight_query(join_with_spaces(&plain).as_str());
        proof {
            let parts = contents(plain@);
            if parts.len() > 1 {
                lemma_space_known(parts);
            }
            law_normal_words_of_parts(parts);
        }
        HighlightQuery { unquoted, literals }
    }

    /// All words and literals of the query, normalized.
    pub fn context_text(&self) -> (text: String)
        ensures
            text@ == normal_query(
                join_words(seq![self.unquoted@] + literal_texts(self.literals@)),
            ),
            ascii_known(join_words(seq![self.unquoted@] + literal_texts(self.literals@))),
            words(text@) == (seq![self.unquoted@] + literal_texts(self.literals@)).map_values(
                |p: Seq<char>| words(normal_chars(p)),
            ).flatten(),
    {
        let ghost all = seq![self.unquoted@] + literal_texts(self.literals@);
        let mut parts: Vec<String> = Vec::new();
        parts.push(self.unquoted.clone());
        let mut i: usize = 0;
        assert(contents(parts@) =~= all.take(1));
        while i < self.literals.len()
            invariant
                i <= self.literals.len(),
                all == seq![self.unquoted@] + literal_texts(self.literals@),
                contents(parts@) == all.take(i + 1),
            decreases self.literals.len() - i,
        {
            let ghost before = parts@;
            let part = self.literals[i].text().to_owned();
            parts.push(part);
            assert(contents(parts@) =~= contents(before).push(part@));
            assert(all[i + 1] == literal_texts(self.literals@)[i as int]);
            assert(all.take(i + 2) =~= all.take(i + 1).push(all[i + 1]));
            i = i + 1;
        }
        assert(all.take(i + 1) =~= all);
        let text = normalize_highlight_query(join_with_spaces(&parts).as_str());
        proof {
            if all.len() > 1 {
                lemma_space_known(all);
            }
            law_normal_words_of_parts(all);
        }
        text
    }

    /// The terms of the query: its words, and then its literals.
    pub fn context_specs(&self) -> (specs: Vec<ContextMatchSpec>)
        ensures
            keys(specs@) == normal_keys(words(self.unquoted@)) + literal_keys(
                literal_texts(self.literals@),
            ),
    {
        let mut specs = HighlightQuery::normalized_context_specs(self.unquoted.as_str());
        let mut literals = self.literal_context_specs();
        let ghost before = specs@;
        let ghost added = literals@;
        specs.append(&mut literals);
        assert(keys(specs@) =~= keys(before) + keys(added));
        specs
    }

    /// The literals of the query as terms.
    pub fn literal_context_specs(&self) -> (specs: Vec<ContextMatchSpec>)
        ensures
            keys(specs@) == literal_keys(literal_texts(self.literals@)),
    {
        let ghost all = literal_keys(literal_texts(self.literals@));
        let mut specs: Vec<ContextMatchSpec> = Vec::new();
        let mut i: usize = 0;
        assert(keys(specs@) =~= all.take(0));
        while i < self.literals.len()
            invariant
                i <= self.literals.len(),
                all == literal_keys(literal_texts(self.literals@)),
                keys(specs@) == all.take(i as int),
            decreases self.literals.len() - i,
        {
            let ghost before = specs@;
            let next = ContextMatchSpec::Literal(self.literals[i].clone());
            specs.push(next);
            assert(keys(specs@) =~= keys(before).push(next@));
            assert(all.take(i + 1) =~= all.take(i as int).push(all[i as int]));
            i = i + 1;
        }
        assert(all.take(i as int) =~= all);
        specs
    }

    /// The words of `query` as terms.
    pub fn normalized_context_specs(query: &str) -> (specs: Vec<ContextMatchSpec>)
        ensures
            keys(specs@) == normal_keys(words(query@)),
    {
        let terms = split_whitespace(query);
        let ghost all = normal_keys(contents(terms@));
        let mut specs: Vec<ContextMatchSpec> = Vec::new();
        let mut i: usize = 0;
        assert(keys(specs@) =~= all.take(0));
        while i < terms.len()
            invariant
                i <= terms.len(),
                all == normal_keys(contents(terms@)),
                keys(specs@) == all.take(i as int),
            decreases terms.len() - i,
        {
            let ghost before = specs@;
            let next = ContextMatchSpec::Normalized(terms[i].clone());
            specs.push(next);
            assert(keys(specs@) =~= keys(before).push(next@));
            assert(all.take(i + 1) =~= all.take(i as int).push(all[i as int]));
            i = i + 1;
        }
        assert(all.take(i as int) =~= all);
        specs
    }

    /// Whether one of the literals stands in `text`.
    pub fn has_literal_match(&self, text: &str) -> (found: bool)
        ensures
            found == exists|i: int|
                0 <= i < self.literals@.len() && literal_found(
                    text@,
                    (#[trigger] self.literals@[i])@,
                ),
    {
        let mut i: usize = 0;
        while i < self.literals.len()
            invariant
                i <= self.literals.len(),
                forall|k: int|
                    0 <= k < i ==> !literal_found(text@, (#[trigger] self.literals@[k])@),
            decreases self.literals.len() - i,
        {
            if self.literals[i].matches(text) {
                return true;
            }
            i = i + 1;
        }
        false
    }

    /// Whether the query matches something in `text`.
    pub fn has_match(&self, text: &str) -> (found: bool)
        ensures
            found == (query_ranges(text@, self.unquoted@).len() > 0 || exists|i: int|
                0 <= i < self.literals@.len() && literal_found(
                    text@,
                    (#[trigger] self.literals@[i])@,
                )),
            ascii_known(text@),
    {
        find_normalized_match_ranges(text, self.unquoted.as_str()).len() > 0
            || self.has_literal_match(text)
    }

    /// Whether one of the literals does not stand in `preview`.
    pub fn needs_literal_context(&self, preview: &str) -> (needed: bool)
        ensures
            needed == exists|i: int|
                0 <= i < self.literals@.len() && !literal_found(
                    preview@,
                    (#[trigger] self.literals@[i])@,
                ),
    {
        let mut i: usize = 0;
        while i < self.literals.len()
            invariant
                i <= self.literals.len(),
                forall|k: int|
                    0 <= k < i ==> literal_found(preview@, (#[trigger] self.literals@[k])@),
            decreases self.literals.len() - i,
        {
            if !self.literals[i].matches(preview) {
                return true;
            }
            i = i + 1;
        }
        false
    }

    /// The byte ranges of `text` that the query matches, in order and merged.
    pub fn match_ranges(&self, text: &str) -> (ranges: Vec<(usize, usize)>)
        ensures
            ranges@ == highlight_ranges(text@, self.unquoted@, literal_texts(self.literals@)),
            valid_ranges(text@, ranges@),
            separated(ranges@),
            ascii_known(text@),
    {
        let mut ranges = find_normalized_match_ranges(text, self.unquoted.as_str());
        let mut literal = match_literal_ranges(text, &self.literals);
        proof {
            lemma_valid_concat(text@, ranges@, literal@);
        }
        ranges.append(&mut literal);
        proof {
            lemma_merged_valid(text@, ranges@);
        }
        merge_match_ranges(ranges)
    }
}

proof fn lemma_add_ranges_valid(t: Seq<char>, s: Seq<ByteRange>)
    requires
        valid_ranges(t, s),
    ensures
        s.len() > 0 ==> add_ranges(s).len() > 0,
        forall|i: int|
            0 <= i < add_ranges(s).len() ==> on_boundary(
                t,
                (#[trigger] add_ranges(s)[i]).0 as int,
            ) && on_boundary(t, add_ranges(s)[i].1 as int),
    decreases s.len(),
{
    if s.len() > 0 {
        let front = s.drop_last();
        let old = add_ranges(front);
        let new = add_ranges(s);
        assert forall|i: int| 0 <= i < front.len() implies valid_range(t, #[trigger] front[i]) by {
            assert(front[i] == s[i]);
        }
        lemma_add_ranges_valid(t, front);
        assert(valid_range(t, s[s.len() - 1]));
        assert forall|i: int| 0 <= i < new.len() implies on_boundary(
            t,
            (#[trigger] new[i]).0 as int,
        ) && on_boundary(t, new[i].1 as int) by {
            if i < old.len() {
                assert(on_boundary(t, old[i].0 as int));
            }
        }
    }
}

/// The union of ranges of whole characters consists of such ranges, and is empty
/// only where there is no range.
pub proof fn lemma_merged_valid(t: Seq<char>, ranges: Seq<ByteRange>)
    requires
        valid_ranges(t, ranges),
    ensures
        valid_ranges(t, merged_ranges(ranges)),
        merged_ranges(ranges).len() > 0 <==> ranges.len() > 0,
{
    let s = sorted(ranges);
    lemma_sorted(ranges);
    assert forall|i: int| 0 <= i < s.len() implies valid_range(t, #[trigger] s[i]) by {
        lemma_sorted_contains(ranges, i);
        let k = choose|k: int| 0 <= k < ranges.len() && ranges[k] == s[i];
        assert(valid_range(t, ranges[k]));
    }
    lemma_add_ranges_valid(t, s);
    law_merged_ranges(ranges);
}

proof fn lemma_literals_ranges_some(t: Seq<char>, list: Seq<Seq<char>>)
    ensures
        literals_ranges(t, list).len() > 0 <==> exists|i: int|
            0 <= i < list.len() && literal_found(t, #[trigger] list[i]),
    decreases list.len(),
{
    if list.len() > 0 {
        let front = list.drop_last();
        lemma_literals_ranges_some(t, front);
        assert(list[list.len() - 1] == list.last());
        if exists|i: int| 0 <= i < front.len() && literal_found(t, #[trigger] front[i]) {
            let i = choose|i: int| 0 <= i < front.len() && literal_found(t, #[trigger] front[i]);
            assert(literal_found(t, list[i]));
        }
        if exists|i: int| 0 <= i < list.len() && literal_found(t, #[trigger] list[i]) {
            let i = choose|i: int| 0 <= i < list.len() && literal_found(t, #[trigger] list[i]);
            if i < front.len() {
                assert(literal_found(t, front[i]));
            }
        }
    }
}

/// A query has ranges to highlight exactly where one of its words or literals
/// matches. They are separated ranges of whole characters that cover each match
/// and nothing else.
pub proof fn law_highlight_ranges(t: Seq<char>, unquoted: Seq<char>, literals: Seq<Seq<char>>)
    requires
        byte_len(t) <= usize::MAX,
    ensures
        valid_ranges(t, highlight_ranges(t, unquoted, literals)),
        separated(highlight_ranges(t, unquoted, literals)),
        forall|b: int| #[trigger]
            covers(highlight_ranges(t, unquoted, literals), b) <==> covers(
                query_ranges(t, unquoted),
                b,
            ) || covers(literals_ranges(t, literals), b),
        highlight_ranges(t, unquoted, literals).len() > 0 <==> query_ranges(t, unquoted).len() > 0
            || exists|i: int| 0 <= i < literals.len() && literal_found(t, #[trigger] literals[i]),
{
    let a = query_ranges(t, unquoted);
    let b = literals_ranges(t, literals);
    law_query_ranges(t, unquoted);
    lemma_literals_ranges_valid(t, literals);
    lemma_valid_concat(t, a, b);
    lemma_merged_valid(t, a + b);
    law_merged_ranges(a + b);
    lemma_literals_ranges_some(t, literals);
    assert forall|x: int| #[trigger]
        covers(highlight_ranges(t, unquoted, literals), x) <==> covers(a, x) || covers(b, x) by {
        assert(covers(merged_ranges(a + b), x) <==> covers(a + b, x));
        if covers(a + b, x) {
            let i = choose|i: int|
                0 <= i < (a + b).len() && (#[trigger] (a + b)[i]).0 <= x < (a + b)[i].1;
            if i < a.len() {
                assert(a[i].0 <= x < a[i].1);
            } else {
                assert(b[i - a.len()].0 <= x < b[i - a.len()].1);
            }
        }
        if covers(a, x) {
            let i = choose|i: int| 0 <= i < a.len() && (#[trigger] a[i]).0 <= x < a[i].1;
            assert((a + b)[i].0 <= x < (a + b)[i].1);
        }
        if covers(b, x) {
            let i = choose|i: int| 0 <= i < b.len() && (#[trigger] b[i]).0 <= x < b[i].1;
            assert((a + b)[a.len() + i].0 <= x < (a + b)[a.len() + i].1);
        }
    }
}

/// The words of a query are told apart one by one, in order: those with an
/// underscore are looked up as they stand, and the others are normalized.
pub proof fn law_words_are_told_apart(a: Seq<Seq<char>>, b: Seq<Seq<char>>, w: Seq<char>)
    ensures
        plain_words(a + b) == plain_words(a) + plain_words(b),
        identifier_words(a + b) == identifier_words(a) + identifier_words(b),
        w.contains('_') ==> identifier_words(seq![w]) == seq![w] && plain_words(seq![w])
            == Seq::<Seq<char>>::empty(),
        !w.contains('_') ==> plain_words(seq![w]) == seq![w] && identifier_words(seq![w])
            == Seq::<Seq<char>>::empty(),
        plain_words(Seq::empty()) == Seq::<Seq<char>>::empty(),
        identifier_words(Seq::empty()) == Seq::<Seq<char>>::empty(),
{
    let with = |w: Seq<char>| w.contains('_');
    let without = |w: Seq<char>| !w.contains('_');
    let empty = Seq::<Seq<char>>::empty();
    Seq::filter_distributes_over_add(a, b, with);
    Seq::filter_distributes_over_add(a, b, without);
    reveal(Seq::filter);
    assert(seq![w].drop_last() =~= empty);
    assert(empty.filter(with) =~= empty);
    assert(empty.filter(without) =~= empty);
    assert(seq![w].filter(with) =~= if w.contains('_') {
        seq![w]
    } else {
        empty
    });
    assert(seq![w].filter(without) =~= if w.contains('_') {
        empty
    } else {
        seq![w]
    });
}

/// No word of a query is lost: a word with an underscore is among the literals, and
/// the words that another one is normalized to are among the words to look up.
pub proof fn law_no_word_is_lost(list: Seq<Seq<char>>, i: int)
    requires
        0 <= i < list.len(),
        normal_chars(seq![' ']) == seq![' '],
    ensures
        list[i].contains('_') ==> identifier_words(list).contains(list[i]),
        !list[i].contains('_') ==> forall|k: int|
            0 <= k < words(normal_chars(list[i])).len() ==> words(
                normal_query(join_words(plain_words(list))),
            ).contains(#[trigger] words(normal_chars(list[i]))[k]),
{
    let w = list[i];
    let a = list.take(i);
    let b = list.skip(i + 1);
    let one = seq![w];
    let look = |p: Seq<char>| words(normal_chars(p));
    assert(list =~= a + one + b);
    law_words_are_told_apart(a, one, w);
    law_words_are_told_apart(a + one, b, w);
    if w.contains('_') {
        let k = identifier_words(a).len() as int;
        assert(identifier_words(list)[k] == w);
    } else {
        let plain = plain_words(list);
        let pa = plain_words(a);
        let pb = plain_words(b);
        assert(plain == pa + one + pb);
        law_normal_words_of_parts(plain);
        law_split_join_split(normal_chars(join_words(plain)));
        let x = pa.map_values(look);
        let y = seq![look(w)];
        let z = pb.map_values(look);
        assert(plain.map_values(look) =~= x + y + z);
        vstd::seq_lib::lemma_flatten_concat(x, y);
        vstd::seq_lib::lemma_flatten_concat(x + y, z);
        y.lemma_flatten_singleton();
        let all = words(normal_query(join_words(plain)));
        assert(all =~= x.flatten() + look(w) + z.flatten());
        assert forall|k: int| 0 <= k < look(w).len() implies all.contains(
            #[trigger] words(normal_chars(list[i]))[k],
        ) by {
            assert(all[x.flatten().len() + k] == look(w)[k]);
        }
    }
}

/// Each character of a word of a text is a character of the text.
proof fn lemma_words_chars(s: Seq<char>, i: int, c: char)
    requires
        0 <= i < words(s).len(),
        words(s)[i].contains(c),
    ensures
        s.contains(c),
    decreases s.len(),
{
    if exists|x: int| 0 <= x < s.len() && is_white(#[trigger] s[x]) {
        let x = choose|x: int| 0 <= x < s.len() && is_white(#[trigger] s[x]);
        let a = s.take(x);
        let b = s.skip(x + 1);
        assert(a.push(s[x]) + b =~= s);
        law_words_around_whitespace(a, s[x], b);
        if i < words(a).len() {
            lemma_words_chars(a, i, c);
            let k = choose|k: int| 0 <= k < a.len() && a[k] == c;
            assert(s[k] == c);
        } else {
            lemma_words_chars(b, i - words(a).len(), c);
            let k = choose|k: int| 0 <= k < b.len() && b[k] == c;
            assert(s[x + 1 + k] == c);
        }
    } else {
        law_one_word(s);
    }
}

/// For a query without quotes and underscores, whose whitespace is normalized to
/// itself, the words to look up are the words of the normalized query, and there is
/// no literal.
pub proof fn law_plain_query(query: Seq<char>)
    requires
        forall|i: int| 0 <= i < query.len() ==> #[trigger] query[i] != '"' && query[i] != '_',
        forall|i: int|
            0 <= i < query.len() && is_white(#[trigger] query[i]) ==> normal_chars(seq![query[i]])
                == seq![query[i]],
        normal_chars(seq![' ']) == seq![' '],
    ensures
        words(normal_query(join_words(plain_words(words(unquoted_part(query, 0)))))) == words(
            normal_chars(query),
        ),
        quoted_parts(query, 0) + identifier_words(words(unquoted_part(query, 0))) == Seq::<
            Seq<char>,
        >::empty(),
{
    let list = words(query);
    law_unquoted_query(query);
    assert forall|i: int| 0 <= i < list.len() implies !(#[trigger] list[i]).contains('_') by {
        if list[i].contains('_') {
            lemma_words_chars(query, i, '_');
        }
    }
    lemma_all_plain_words(list);
    law_normal_words_of_parts(list);
    law_normal_words(query);
    law_split_join_split(normal_chars(join_words(list)));
}

proof fn lemma_all_plain_words(list: Seq<Seq<char>>)
    requires
        forall|i: int| 0 <= i < list.len() ==> !(#[trigger] list[i]).contains('_'),
    ensures
        plain_words(list) == list,
        identifier_words(list) == Seq::<Seq<char>>::empty(),
    decreases list.len(),
{
    if list.len() == 0 {
        law_words_are_told_apart(list, list, Seq::empty());
        assert(list =~= Seq::<Seq<char>>::empty());
    } else {
        let front = list.drop_last();
        assert(list[list.len() - 1] == list.last());
        assert forall|i: int| 0 <= i < front.len() implies !(#[trigger] front[i]).contains('_') by {
            assert(front[i] == list[i]);
        }
        lemma_all_plain_words(front);
        assert(front + seq![list.last()] =~= list);
        law_words_are_told_apart(front, seq![list.last()], list.last());
    }
}

/// A literal is found in a text exactly where it stands in it, but for the case of
/// ASCII letters.
pub proof fn law_literal_found(t: Seq<char>, q: Seq<char>)
    requires
        byte_len(t) <= usize::MAX,
    ensures
        literal_found(t, q) <==> q.len() > 0 && exists|p: int|
            0 <= p && p + q.len() <= t.len() && same_ignoring_case(
                #[trigger] t.subrange(p, p + q.len()),
                q,
            ),
{
    law_literal_ranges(t, q);
    if literal_found(t, q) {
        let p = choose|p: int| is_literal_at(t, q, p);
        assert(same_ignoring_case(t.subrange(p, p + q.len()), q));
    }
    if q.len() > 0 && exists|p: int|
        0 <= p && p + q.len() <= t.len() && same_ignoring_case(
            #[trigger] t.subrange(p, p + q.len()),
            q,
        ) {
        let p = choose|p: int|
            0 <= p && p + q.len() <= t.len() && same_ignoring_case(
                #[trigger] t.subrange(p, p + q.len()),
                q,
            );
        assert(is_literal_at(t, q, p));
    }
}

/// Each word is one normalized term, and each literal one literal term, in order.
pub proof fn law_terms_of_a_query(list: Seq<Seq<char>>)
    ensures
        normal_keys(list).len() == list.len(),
        literal_keys(list).len() == list.len(),
        forall|i: int| 0 <= i < list.len() ==> #[trigger] normal_keys(list)[i] == (list[i], false),
        forall|i: int| 0 <= i < list.len() ==> #[trigger] literal_keys(list)[i] == (list[i], true),
{
}

/// Where a joined text has several parts, its spaces are known to stay spaces.
proof fn lemma_space_known(parts: Seq<Seq<char>>)
    requires
        parts.len() > 1,
        ascii_known(join_words(parts)),
    ensures
        normal_chars(seq![' ']) == seq![' '],
{
    let front = parts.drop_last();
    let last = seq![parts.last()];
    assert(front + last =~= parts);
    law_join_words(front, last);
    let t = join_words(parts);
    let i = join_words(front).len() as int;
    assert(t[i] == ' ');
    assert(is_ascii(t[i]));
    assert(fold_char(t[i]) == seq![ascii_fold(' ')]);
    law_normal_chars(t, t, ' ');
}

proof fn lemma_literals_ranges_valid(t: Seq<char>, list: Seq<Seq<char>>)
    requires
        byte_len(t) <= usize::MAX,
    ensures
        valid_ranges(t, literals_ranges(t, list)),
    decreases list.len(),
{
    if list.len() > 0 {
        lemma_literals_ranges_valid(t, list.drop_last());
        law_literal_ranges(t, list.last());
        lemma_valid_concat(
            t,
            literals_ranges(t, list.drop_last()),
            literal_ranges(t, list.last()),
        );
    }
}

} // verus!
