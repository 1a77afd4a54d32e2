//! The parts of a query: literals in double quotes, and the rest.

use crate::literal::{literal_texts, Literal};
use crate::text::{chars_of, string_of};
use crate::words::{law_words_around_whitespace, words};
use vstd::prelude::*;

verus! {

/// The first double quote of `q` at or after position `i`, or the length of `q`
/// where there is none.
pub open spec fn next_quote(q: Seq<char>, i: int) -> int
    decreases q.len() - i,
{
    if i >= q.len() {
        q.len() as int
    } else if q[i] == '"' {
        i
    } else {
        next_quote(q, i + 1)
    }
}

pub proof fn lemma_next_quote(q: Seq<char>, i: int)
    requires
        0 <= i <= q.len(),
    ensures
        i <= next_quote(q, i) <= q.len(),
        next_quote(q, i) < q.len() ==> q[next_quote(q, i)] == '"',
        forall|k: int| i <= k < next_quote(q, i) ==> #[trigger] q[k] != '"',
    decreases q.len() - i,
{
    if i < q.len() && q[i] != '"' {
        lemma_next_quote(q, i + 1);
    }
}

/// The query `q` from position `i` on without its quoted parts, each of which
/// leaves a space. A quote that nothing closes is a space by itself.
pub open spec fn unquoted_part(q: Seq<char>, i: int) -> Seq<char>
    decreases q.len() - i,
{
    let open = next_quote(q, i);
    let close = next_quote(q, open + 1);
    if i < 0 || i > q.len() || open >= q.len() {
        q.subrange(i, q.len() as int)
    } else if close >= q.len() {
        q.subrange(i, open).push(' ') + q.subrange(open + 1, q.len() as int)
    } else {
        proof {
            lemma_next_quote(q, i);
            lemma_next_quote(q, open + 1);
        }
        q.subrange(i, open).push(' ') + unquoted_part(q, close + 1)
    }
}

/// The nonempty quoted parts of `q` from position `i` on.
pub open spec fn quoted_parts(q: Seq<char>, i: int) -> Seq<Seq<char>>
    decreases q.len() - i,
{
    let open = next_quote(q, i);
    let close = next_quote(q, open + 1);
    if i < 0 || i > q.len() || open >= q.len() || close >= q.len() {
        Seq::empty()
    } else {
        proof {
            lemma_next_quote(q, i);
            lemma_next_quote(q, open + 1);
        }
        (if close == open + 1 {
            Seq::empty()
        } else {
            seq![q.subrange(open + 1, close)]
        }) + quoted_parts(q, close + 1)
    }
}

/// A query without quotes is all words.
pub proof fn law_unquoted_query(q: Seq<char>)
    requires
        forall|i: int| 0 <= i < q.len() ==> #[trigger] q[i] != '"',
    ensures
        unquoted_part(q, 0) == q,
        quoted_parts(q, 0) == Seq::<Seq<char>>::empty(),
{
    lemma_next_quote(q, 0);
    assert(q.subrange(0, q.len() as int) =~= q);
}

/// A query that is one quoted text is that literal, and has no words.
pub proof fn law_quoted_query(text: Seq<char>)
    requires
        text.len() > 0,
        forall|i: int| 0 <= i < text.len() ==> #[trigger] text[i] != '"',
    ensures
        quoted_parts(seq!['"'] + text + seq!['"'], 0) == seq![text],
        words(unquoted_part(seq!['"'] + text + seq!['"'], 0)) == Seq::<Seq<char>>::empty(),
{
    let q = seq!['"'] + text + seq!['"'];
    let close = text.len() as int + 1;
    lemma_next_quote(q, 0);
    lemma_next_quote(q, 1);
    assert(q[0] == '"');
    assert(q[close] == '"');
    assert forall|i: int| 1 <= i < close implies #[trigger] q[i] != '"' by {
        assert(q[i] == text[i - 1]);
    }
    assert(next_quote(q, 0) == 0);
    assert(next_quote(q, 1) == close);
    assert(q.subrange(1, close) =~= text);
    let end = q.len() as int;
    assert(close + 1 == end);
    assert(next_quote(q, end) == end);
    assert(quoted_parts(q, end) =~= Seq::<Seq<char>>::empty());
    assert(quoted_parts(q, 0) =~= seq![text]);
    assert(unquoted_part(q, end) =~= Seq::<char>::empty());
    let rest = unquoted_part(q, 0);
    assert(rest =~= seq![' ']);
    assert(rest.drop_first() =~= Seq::<char>::empty());
    assert(words(rest.drop_first()) =~= Seq::<Seq<char>>::empty());
    assert(words(rest) == words(rest.drop_first()));
}

/// Where a quote stands does not depend on what was read before.
proof fn lemma_next_quote_shift(pre: Seq<char>, s: Seq<char>, i: int)
    requires
        0 <= i <= s.len(),
    ensures
        next_quote(pre + s, pre.len() + i) == pre.len() + next_quote(s, i),
    decreases s.len() - i,
{
    if i < s.len() && s[i] != '"' {
        lemma_next_quote_shift(pre, s, i + 1);
        assert((pre + s)[pre.len() + i] == s[i]);
    } else if i < s.len() {
        assert((pre + s)[pre.len() + i] == s[i]);
    }
}

proof fn lemma_parts_shift(pre: Seq<char>, s: Seq<char>, i: int)
    requires
        0 <= i <= s.len(),
    ensures
        quoted_parts(pre + s, pre.len() + i) == quoted_parts(s, i),
        unquoted_part(pre + s, pre.len() + i) == unquoted_part(s, i),
    decreases s.len() - i,
{
    let q = pre + s;
    let n = pre.len() as int;
    let open = next_quote(s, i);
    lemma_next_quote_shift(pre, s, i);
    lemma_next_quote(s, i);
    assert(q.subrange(n + i, q.len() as int) =~= s.subrange(i, s.len() as int));
    if open < s.len() {
        let close = next_quote(s, open + 1);
        lemma_next_quote_shift(pre, s, open + 1);
        lemma_next_quote(s, open + 1);
        assert(q.subrange(n + i, n + open) =~= s.subrange(i, open));
        assert(q.subrange(n + open + 1, q.len() as int) =~= s.subrange(open + 1, s.len() as int));
        if close < s.len() {
            assert(q.subrange(n + open + 1, n + close) =~= s.subrange(open + 1, close));
            lemma_parts_shift(pre, s, close + 1);
        }
    }
}

proof fn lemma_quote_at(q: Seq<char>, i: int, at: int)
    requires
        0 <= i <= at <= q.len(),
        at < q.len() ==> q[at] == '"',
        forall|k: int| i <= k < at ==> #[trigger] q[k] != '"',
    ensures
        next_quote(q, i) == at,
{
    lemma_next_quote(q, i);
    if next_quote(q, i) < at {
        assert(q[next_quote(q, i)] != '"');
    }
}

/// The first quoted text of a query is its first literal, unless it is empty; the
/// words before it, and the words and literals behind it, are read by themselves.
pub proof fn law_quoted_text_is_a_literal(before: Seq<char>, text: Seq<char>, after: Seq<char>)
    requires
        forall|i: int| 0 <= i < before.len() ==> #[trigger] before[i] != '"',
        forall|i: int| 0 <= i < text.len() ==> #[trigger] text[i] != '"',
    ensures
        quoted_parts(before + seq!['"'] + text + seq!['"'] + after, 0) == (if text.len() == 0 {
            Seq::empty()
        } else {
            seq![text]
        }) + quoted_parts(after, 0),
        words(unquoted_part(before + seq!['"'] + text + seq!['"'] + after, 0)) == words(before)
            + words(unquoted_part(after, 0)),
{
    let pre = before + seq!['"'] + text + seq!['"'];
    let q = pre + after;
    let open = before.len() as int;
    let close = open + 1 + text.len();
    assert forall|k: int| 0 <= k < open implies #[trigger] q[k] != '"' by {
        assert(q[k] == before[k]);
    }
    assert forall|k: int| open + 1 <= k < close implies #[trigger] q[k] != '"' by {
        assert(q[k] == text[k - open - 1]);
    }
    assert(q[open] == '"' && q[close] == '"');
    lemma_quote_at(q, 0, open);
    lemma_quote_at(q, open + 1, close);
    lemma_parts_shift(pre, after, 0);
    assert(q.subrange(open + 1, close) =~= text);
    assert(q.subrange(0, open) =~= before);
    law_words_around_whitespace(before, ' ', unquoted_part(after, 0));
}

/// A quote that nothing closes makes no literal, and keeps the words on its two
/// sides apart.
pub proof fn law_open_quote(before: Seq<char>, rest: Seq<char>)
    requires
        forall|i: int| 0 <= i < before.len() ==> #[trigger] before[i] != '"',
        forall|i: int| 0 <= i < rest.len() ==> #[trigger] rest[i] != '"',
    ensures
        quoted_parts(before + seq!['"'] + rest, 0) == Seq::<Seq<char>>::empty(),
        words(unquoted_part(before + seq!['"'] + rest, 0)) == words(before) + words(rest),
{
    let q = before + seq!['"'] + rest;
    let open = before.len() as int;
    assert forall|k: int| 0 <= k < open implies #[trigger] q[k] != '"' by {
        assert(q[k] == before[k]);
    }
    assert forall|k: int| open + 1 <= k < q.len() implies #[trigger] q[k] != '"' by {
        assert(q[k] == rest[k - open - 1]);
    }
    assert(q[open] == '"');
    lemma_quote_at(q, 0, open);
    lemma_quote_at(q, open + 1, q.len() as int);
    assert(q.subrange(0, open) =~= before);
    assert(q.subrange(open + 1, q.len() as int) =~= rest);
    law_words_around_whitespace(before, ' ', rest);
}

/// A query in its parts.
pub struct ParsedQuery {
    pub unquoted: String,
    pub literals: Vec<Literal>,
}

impl ParsedQuery {
    pub fn parse(query: &str) -> (parsed: Self)
        ensures
            parsed.unquoted@ == unquoted_part(query@, 0),
            literal_texts(parsed.literals@) == quoted_parts(query@, 0),
    {
        let chars = chars_of(query);
        let ghost q = query@;
        let mut unquoted = String::new();
        let mut literals: Vec<Literal> = Vec::new();
        let mut i: usize = 0;
        assert(unquoted@ + unquoted_part(q, 0) =~= unquoted_part(q, 0));
        assert(literal_texts(literals@) + quoted_parts(q, 0) =~= quoted_parts(q, 0));
        loop
            invariant_except_break
                chars@ == q,
                i <= q.len(),
                unquoted@ + unquoted_part(q, i as int) == unquoted_part(q, 0),
                literal_texts(literals@) + quoted_parts(q, i as int) == quoted_parts(q, 0),
            ensures
                unquoted@ == unquoted_part(q, 0),
                literal_texts(literals@) == quoted_parts(q, 0),
            decreases q.len() - i,
        {
            let ghost taken = unquoted@;
            let ghost found = literal_texts(literals@);
            let open: usize = find_quote(&chars, i);
            unquoted.append(string_of(&chars, i, open).as_str());
            if open == chars.len() {
                assert(unquoted@ =~= unquoted_part(q, 0));
                assert(literal_texts(literals@) =~= quoted_parts(q, 0));
                break;
            }
            unquoted.push(' ');
            assert(unquoted@ =~= taken + q.subrange(i as int, open as int).push(' '));
            let close: usize = find_quote(&chars, open + 1);
            if close == chars.len() {
                unquoted.append(string_of(&chars, open + 1, close).as_str());
                assert(unquoted@ =~= unquoted_part(q, 0));
                assert(literal_texts(literals@) =~= quoted_parts(q, 0));
                break;
            }
            if close > open + 1 {
                let text = string_of(&chars, open + 1, close);
                literals.push(Literal::new(text));
                assert(literal_texts(literals@) =~= found.push(text@));
            }
            proof {
                assert(unquoted@ + unquoted_part(q, close + 1) =~= taken + unquoted_part(
                    q,
                    i as int,
                ));
                assert(literal_texts(literals@) + quoted_parts(q, close + 1) =~= found
                    + quoted_parts(q, i as int));
            }
            i = close + 1;
        }
        ParsedQuery { unquoted, literals }
    }

    pub fn unquoted(&self) -> (text: &str)
        ensures
            text@ == self.unquoted@,
    {
        self.unquoted.as_str()
    }

    pub fn literals(&self) -> (list: &Vec<Literal>)
        ensures
            list == &self.literals,
    {
        &self.literals
    }
}

fn find_quote(chars: &Vec<char>, from: usize) -> (at: usize)
    requires
        from <= chars.len(),
    ensures
        at == next_quote(chars@, from as int),
        from <= at <= chars.len(),
{
    let mut at: usize = from;
    while at < chars.len() && chars[at] != '"'
        invariant
            from <= at <= chars.len(),
            next_quote(chars@, from as int) == next_quote(chars@, at as int),
        decreases chars.len() - at,
    {
        at = at + 1;
    }
    at
}

} // verus!
