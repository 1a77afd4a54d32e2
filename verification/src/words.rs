//! Words: splitting at whitespace, joining, and trimming.

use crate::text::{chars_of, string_of};
use vstd::prelude::*;

verus! {

/// The Unicode `White_Space` property.
pub open spec fn is_white(c: char) -> bool {
    ||| '\u{9}' <= c <= '\u{d}'
    ||| c == ' '
    ||| c == '\u{85}'
    ||| c == '\u{a0}'
    ||| c == '\u{1680}'
    ||| '\u{2000}' <= c <= '\u{200a}'
    ||| c == '\u{2028}'
    ||| c == '\u{2029}'
    ||| c == '\u{202f}'
    ||| c == '\u{205f}'
    ||| c == '\u{3000}'
}

/// The length of the longest prefix of `s` without whitespace.
pub open spec fn run_len(s: Seq<char>) -> nat
    decreases s.len(),
{
    if s.len() == 0 || is_white(s[0]) {
        0
    } else {
        1 + run_len(s.drop_first())
    }
}

/// The maximal runs of `s` without whitespace, in order.
pub open spec fn words(s: Seq<char>) -> Seq<Seq<char>>
    decreases s.len(),
{
    if s.len() == 0 {
        Seq::empty()
    } else if is_white(s[0]) {
        words(s.drop_first())
    } else {
        proof {
            lemma_run_len(s);
        }
        seq![s.take(run_len(s) as int)] + words(s.skip(run_len(s) as int))
    }
}

/// `parts` with one space between each two.
pub open spec fn join_words(parts: Seq<Seq<char>>) -> Seq<char>
    decreases parts.len(),
{
    if parts.len() == 0 {
        Seq::empty()
    } else if parts.len() == 1 {
        parts[0]
    } else {
        join_words(parts.drop_last()).push(' ') + parts.last()
    }
}

/// `s` without its leading whitespace.
pub open spec fn trim_start(s: Seq<char>) -> Seq<char>
    decreases s.len(),
{
    if s.len() > 0 && is_white(s[0]) {
        trim_start(s.drop_first())
    } else {
        s
    }
}

/// `s` without its trailing whitespace.
pub open spec fn trim_end(s: Seq<char>) -> Seq<char>
    decreases s.len(),
{
    if s.len() > 0 && is_white(s.last()) {
        trim_end(s.drop_last())
    } else {
        s
    }
}

/// `s` without its leading and trailing whitespace.
pub open spec fn trim(s: Seq<char>) -> Seq<char> {
    trim_end(trim_start(s))
}

/// The contents of a list of strings.
pub open spec fn contents(list: Seq<String>) -> Seq<Seq<char>> {
    list.map_values(|s: String| s@)
}

/// Nonempty, and without whitespace.
pub open spec fn is_word(w: Seq<char>) -> bool {
    &&& w.len() > 0
    &&& forall|i: int| 0 <= i < w.len() ==> !is_white(#[trigger] w[i])
}

pub proof fn lemma_run_len(s: Seq<char>)
    ensures
        run_len(s) <= s.len(),
        forall|i: int| 0 <= i < run_len(s) ==> !is_white(#[trigger] s[i]),
        run_len(s) < s.len() ==> is_white(s[run_len(s) as int]),
    decreases s.len(),
{
    if s.len() > 0 && !is_white(s[0]) {
        lemma_run_len(s.drop_first());
        assert forall|i: int| 0 <= i < run_len(s) implies !is_white(#[trigger] s[i]) by {
            if i > 0 {
                assert(s[i] == s.drop_first()[i - 1]);
            }
        }
    }
}

proof fn lemma_run_len_unique(s: Seq<char>, n: int)
    requires
        0 <= n <= s.len(),
        forall|i: int| 0 <= i < n ==> !is_white(#[trigger] s[i]),
        n < s.len() ==> is_white(s[n]),
    ensures
        run_len(s) == n,
{
    lemma_run_len(s);
    if run_len(s) < n {
        assert(!is_white(s[run_len(s) as int]));
    }
}

/// Every element of [`words`] is a nonempty run without whitespace.
pub proof fn lemma_words_are_words(s: Seq<char>)
    ensures
        forall|i: int| 0 <= i < words(s).len() ==> is_word(#[trigger] words(s)[i]),
    decreases s.len(),
{
    if s.len() == 0 {
        assert(words(s).len() == 0);
    } else if is_white(s[0]) {
        lemma_words_are_words(s.drop_first());
        assert(words(s) == words(s.drop_first()));
    } else {
        let n = run_len(s) as int;
        lemma_run_len(s);
        lemma_words_are_words(s.skip(n));
        assert(is_word(s.take(n)));
        assert forall|i: int| 0 <= i < words(s).len() implies is_word(#[trigger] words(s)[i]) by {
            if i > 0 {
                assert(words(s)[i] == words(s.skip(n))[i - 1]);
            }
        }
    }
}

/// Splitting `w` followed by a space and `rest` gives `w` and the words of `rest`.
proof fn lemma_words_cons(w: Seq<char>, rest: Seq<char>)
    requires
        is_word(w),
        rest.len() == 0 || is_white(rest[0]),
    ensures
        words(w + rest) == seq![w] + words(rest),
{
    let s = w + rest;
    lemma_run_len_unique(s, w.len() as int);
    assert(s.take(w.len() as int) =~= w);
    assert(s.skip(w.len() as int) =~= rest);
}

proof fn lemma_join_cons(parts: Seq<Seq<char>>)
    requires
        parts.len() >= 2,
    ensures
        join_words(parts) == parts[0].push(' ') + join_words(parts.drop_first()),
    decreases parts.len(),
{
    let front = parts.drop_last();
    let back = parts.drop_first();
    if parts.len() == 2 {
        assert(front.len() == 1 && back.len() == 1);
        assert(join_words(front) =~= parts[0]);
        assert(join_words(back) =~= parts[1]);
        assert(parts.last() == parts[1]);
    } else {
        lemma_join_cons(front);
        assert(front.drop_first() =~= back.drop_last());
        assert(front[0] == parts[0]);
        assert(back.last() == parts.last());
        assert((parts[0].push(' ') + join_words(back.drop_last())).push(' ') + parts.last()
            =~= parts[0].push(' ') + (join_words(back.drop_last()).push(' ') + parts.last()));
    }
}

/// Splitting what was joined gives the words back.
pub proof fn lemma_split_of_join(parts: Seq<Seq<char>>)
    requires
        forall|i: int| 0 <= i < parts.len() ==> is_word(#[trigger] parts[i]),
    ensures
        words(join_words(parts)) == parts,
    decreases parts.len(),
{
    if parts.len() == 0 {
        assert(words(join_words(parts)) =~= parts);
    } else if parts.len() == 1 {
        let empty = Seq::<char>::empty();
        assert(is_word(parts[0]));
        lemma_words_cons(parts[0], empty);
        assert(parts[0] + empty =~= parts[0]);
        assert(words(join_words(parts)) =~= parts);
    } else {
        let tail = parts.drop_first();
        assert forall|i: int| 0 <= i < tail.len() implies is_word(#[trigger] tail[i]) by {
            assert(tail[i] == parts[i + 1]);
        }
        lemma_split_of_join(tail);
        lemma_join_cons(parts);
        let rest = seq![' '] + join_words(tail);
        assert(is_word(parts[0]));
        assert(join_words(parts) =~= parts[0] + rest);
        lemma_words_cons(parts[0], rest);
        assert(rest.drop_first() =~= join_words(tail));
        assert(words(rest) == words(join_words(tail)));
        assert(seq![parts[0]] + tail =~= parts);
    }
}

/// Splitting is settled by one split: joining the words and splitting again
/// changes nothing.
pub proof fn law_split_join_split(s: Seq<char>)
    ensures
        words(join_words(words(s))) == words(s),
{
    lemma_words_are_words(s);
    lemma_split_of_join(words(s));
}

/// A text is split at each whitespace character: what stands before it and what
/// stands behind it are split by themselves.
pub proof fn law_words_around_whitespace(before: Seq<char>, white: char, after: Seq<char>)
    requires
        is_white(white),
    ensures
        words(before.push(white) + after) == words(before) + words(after),
    decreases before.len(),
{
    let s = before.push(white) + after;
    if before.len() == 0 {
        assert(s.drop_first() =~= after);
        assert(words(before) + words(after) =~= words(after));
    } else if is_white(before[0]) {
        let rest = before.drop_first();
        assert(s.drop_first() =~= rest.push(white) + after);
        law_words_around_whitespace(rest, white, after);
    } else {
        let n = run_len(before) as int;
        lemma_run_len(before);
        if n == before.len() {
            let rest = seq![white] + after;
            assert(s =~= before + rest);
            lemma_words_cons(before, rest);
            assert(rest.drop_first() =~= after);
            law_one_word(before);
        } else {
            let rest = before.skip(n);
            assert forall|i: int| 0 <= i < n implies !is_white(#[trigger] s[i]) by {
                assert(s[i] == before[i]);
            }
            assert(s[n] == before[n]);
            lemma_run_len_unique(s, n);
            assert(s.take(n) =~= before.take(n));
            assert(s.skip(n) =~= rest.push(white) + after);
            law_words_around_whitespace(rest, white, after);
            assert(words(s) =~= words(before) + words(after));
        }
    }
}

/// A text without whitespace is one word, and an empty text has none.
pub proof fn law_one_word(w: Seq<char>)
    requires
        forall|i: int| 0 <= i < w.len() ==> !is_white(#[trigger] w[i]),
    ensures
        w.len() > 0 ==> words(w) == seq![w],
        w.len() == 0 ==> words(w) == Seq::<Seq<char>>::empty(),
{
    if w.len() > 0 {
        let empty = Seq::<char>::empty();
        lemma_words_cons(w, empty);
        assert(w + empty =~= w);
        assert(words(w) =~= seq![w]);
    }
}

/// What is joined of two lists is what is joined of each, with a space between;
/// one part is joined to itself, and no part to nothing.
pub proof fn law_join_words(a: Seq<Seq<char>>, b: Seq<Seq<char>>)
    ensures
        a.len() > 0 && b.len() > 0 ==> join_words(a + b) == join_words(a) + seq![' ']
            + join_words(b),
        a.len() == 1 ==> join_words(a) == a[0],
        a.len() == 0 ==> join_words(a) == Seq::<char>::empty(),
    decreases b.len(),
{
    if a.len() > 0 && b.len() > 0 {
        let all = a + b;
        assert(all.last() == b.last());
        if b.len() == 1 {
            assert(all.drop_last() =~= a);
            assert(join_words(b) == b[0]);
            assert(join_words(all) =~= join_words(a) + seq![' '] + join_words(b));
        } else {
            let front = b.drop_last();
            law_join_words(a, front);
            assert(all.drop_last() =~= a + front);
            assert(join_words(all) =~= join_words(a) + seq![' '] + join_words(b));
        }
    }
}

/// The contents of a list are the contents of each of its strings, in order.
pub proof fn law_contents(list: Seq<String>)
    ensures
        contents(list).len() == list.len(),
        forall|i: int| 0 <= i < list.len() ==> #[trigger] contents(list)[i] == list[i]@,
{
}

pub proof fn lemma_trim_start(s: Seq<char>) -> (n: int)
    ensures
        0 <= n <= s.len(),
        trim_start(s) == s.skip(n),
        forall|i: int| 0 <= i < n ==> is_white(#[trigger] s[i]),
        n < s.len() ==> !is_white(s[n]),
    decreases s.len(),
{
    if s.len() > 0 && is_white(s[0]) {
        let m = lemma_trim_start(s.drop_first());
        assert(s.drop_first().skip(m) =~= s.skip(m + 1));
        assert forall|i: int| 0 <= i < m + 1 implies is_white(#[trigger] s[i]) by {
            if i > 0 {
                assert(s[i] == s.drop_first()[i - 1]);
            }
        }
        m + 1
    } else {
        assert(s.skip(0) =~= s);
        0
    }
}

pub proof fn lemma_trim_end(s: Seq<char>) -> (n: int)
    ensures
        0 <= n <= s.len(),
        trim_end(s) == s.take(n),
        forall|i: int| n <= i < s.len() ==> is_white(#[trigger] s[i]),
        n > 0 ==> !is_white(s[n - 1]),
    decreases s.len(),
{
    if s.len() > 0 && is_white(s.last()) {
        let m = lemma_trim_end(s.drop_last());
        assert(s.drop_last().take(m) =~= s.take(m));
        assert forall|i: int| m <= i < s.len() implies is_white(#[trigger] s[i]) by {
            if i < s.len() - 1 {
                assert(s[i] == s.drop_last()[i]);
            }
        }
        m
    } else {
        assert(s.take(s.len() as int) =~= s);
        s.len() as int
    }
}

/// A trimmed text is a part of the text, and neither starts nor ends with
/// whitespace.
pub proof fn lemma_trim(s: Seq<char>) -> (r: (int, int))
    ensures
        0 <= r.0 <= r.1 <= s.len(),
        trim(s) == s.subrange(r.0, r.1),
        trim(s).len() > 0 ==> !is_white(trim(s)[0]) && !is_white(trim(s).last()),
        forall|i: int| 0 <= i < s.len() && !is_white(#[trigger] s[i]) ==> r.0 <= i < r.1,
{
    let a = lemma_trim_start(s);
    let b = lemma_trim_end(trim_start(s));
    assert(s.skip(a).take(b) =~= s.subrange(a, a + b));
    assert forall|i: int| 0 <= i < s.len() && !is_white(#[trigger] s[i]) implies a <= i < a + b by {
        if i >= a + b {
            assert(trim_start(s)[i - a] == s[i]);
        }
    }
    if b > 0 {
        assert(trim(s)[0] == s[a]);
        assert(trim(s).last() == trim_start(s)[b - 1]);
    }
    (a, a + b)
}

/// Whitespace at either end of a text changes nothing about what is left of it
/// by trimming.
pub proof fn law_trim_ends(s: Seq<char>, white: char)
    requires
        is_white(white),
    ensures
        trim(seq![white] + s) == trim(s),
        trim(s.push(white)) == trim(s),
{
    let front = seq![white] + s;
    assert(front.drop_first() =~= s);
    let back = s.push(white);
    let (a, b) = lemma_trim(s);
    let (c, d) = lemma_trim(back);
    if exists|i: int| 0 <= i < s.len() && !is_white(#[trigger] s[i]) {
        let i = choose|i: int| 0 <= i < s.len() && !is_white(#[trigger] s[i]);
        assert(back[i] == s[i]);
        assert(trim(s)[0] == s[a]);
        assert(trim(s).last() == s[b - 1]);
        assert(trim(back)[0] == back[c]);
        assert(trim(back).last() == back[d - 1]);
        assert(back[a] == s[a] && back[b - 1] == s[b - 1]);
        assert(d - 1 < s.len());
        assert(s[c] == back[c] && s[d - 1] == back[d - 1]);
        assert(a == c && b == d);
        assert(trim(back) =~= trim(s));
    } else {
        if trim(s).len() > 0 {
            assert(trim(s)[0] == s[a]);
        }
        if trim(back).len() > 0 {
            assert(trim(back)[0] == back[c]);
            if c < s.len() {
                assert(back[c] == s[c]);
            }
        }
        assert(trim(back) =~= trim(s));
    }
}

/// A text that neither starts nor ends with whitespace is left as it is.
pub proof fn law_trimmed_text(s: Seq<char>)
    requires
        s.len() > 0 ==> !is_white(s[0]) && !is_white(s.last()),
    ensures
        trim(s) == s,
{
}

/// Whether `c` is whitespace.
pub fn is_whitespace(c: char) -> (b: bool)
    ensures
        b == is_white(c),
{
    ('\u{9}' <= c && c <= '\u{d}') || c == ' ' || c == '\u{85}' || c == '\u{a0}' || c == '\u{1680}'
        || ('\u{2000}' <= c && c <= '\u{200a}') || c == '\u{2028}' || c == '\u{2029}' || c
        == '\u{202f}' || c == '\u{205f}' || c == '\u{3000}'
}

/// The words of `chars`.
pub fn split_words(chars: &Vec<char>) -> (list: Vec<String>)
    ensures
        contents(list@) == words(chars@),
{
    let mut list: Vec<String> = Vec::new();
    let mut i: usize = 0;
    assert(chars@.skip(0) =~= chars@);
    assert(contents(list@) + words(chars@) =~= words(chars@));
    while i < chars.len()
        invariant
            i <= chars.len(),
            contents(list@) + words(chars@.skip(i as int)) == words(chars@),
        decreases chars.len() - i,
    {
        let ghost rest = chars@.skip(i as int);
        if is_whitespace(chars[i]) {
            assert(rest.drop_first() =~= chars@.skip(i + 1));
            i = i + 1;
        } else {
            let start: usize = i;
            while i < chars.len() && !is_whitespace(chars[i])
                invariant
                    start <= i <= chars.len(),
                    rest == chars@.skip(start as int),
                    forall|j: int| start <= j < i ==> !is_white(#[trigger] chars@[j]),
                ensures
                    start <= i <= chars.len(),
                    forall|j: int| start <= j < i ==> !is_white(#[trigger] chars@[j]),
                    i < chars.len() ==> is_white(chars@[i as int]),
                decreases chars.len() - i,
            {
                i = i + 1;
            }
            let word = string_of(chars, start, i);
            let ghost before = list@;
            proof {
                lemma_run_len_unique(rest, i - start);
                assert(!is_white(rest[0]));
                assert(rest.take(i - start) =~= word@);
                assert(rest.skip(i - start) =~= chars@.skip(i as int));
            }
            list.push(word);
            assert(contents(list@) =~= contents(before).push(word@));
            assert(contents(list@) + words(chars@.skip(i as int)) =~= contents(before) + words(
                rest,
            ));
        }
    }
    assert(words(chars@.skip(i as int)) =~= Seq::<Seq<char>>::empty());
    assert(contents(list@) =~= words(chars@));
    list
}

/// `list` with one space between each two.
pub fn join_with_spaces(list: &Vec<String>) -> (s: String)
    ensures
        s@ == join_words(contents(list@)),
{
    let mut s = String::new();
    let mut i: usize = 0;
    assert(contents(list@).take(0) =~= Seq::<Seq<char>>::empty());
    while i < list.len()
        invariant
            i <= list.len(),
            s@ == join_words(contents(list@).take(i as int)),
        decreases list.len() - i,
    {
        let ghost parts = contents(list@).take(i + 1);
        assert(parts.drop_last() =~= contents(list@).take(i as int));
        assert(parts.last() == list@[i as int]@);
        if i > 0 {
            s.push(' ');
        }
        let ghost before = s@;
        s.append(list[i].as_str());
        assert(s@ =~= before + list@[i as int]@);
        assert(s@ =~= join_words(parts));
        i = i + 1;
    }
    assert(contents(list@).take(i as int) =~= contents(list@));
    s
}

/// The text made of `chars` without leading and trailing whitespace.
pub fn trimmed(chars: &Vec<char>) -> (s: String)
    ensures
        s@ == trim(chars@),
{
    let mut from: usize = 0;
    assert(chars@.skip(0) =~= chars@);
    while from < chars.len() && is_whitespace(chars[from])
        invariant
            from <= chars.len(),
            trim_start(chars@) == trim_start(chars@.skip(from as int)),
        ensures
            from <= chars.len(),
            trim_start(chars@) == chars@.skip(from as int),
        decreases chars.len() - from,
    {
        assert(chars@.skip(from as int).drop_first() =~= chars@.skip(from + 1));
        from = from + 1;
    }
    let mut to: usize = chars.len();
    let ghost left = chars@.skip(from as int);
    assert(chars@.subrange(from as int, to as int) =~= left);
    while from < to && is_whitespace(chars[to - 1])
        invariant
            from <= to <= chars.len(),
            trim_end(left) == trim_end(chars@.subrange(from as int, to as int)),
        ensures
            from <= to <= chars.len(),
            trim_end(left) == chars@.subrange(from as int, to as int),
        decreases to - from,
    {
        assert(chars@.subrange(from as int, to as int).drop_last() =~= chars@.subrange(
            from as int,
            to - 1,
        ));
        to = to - 1;
    }
    string_of(chars, from, to)
}

/// The words of `text`.
pub fn split_whitespace(text: &str) -> (list: Vec<String>)
    ensures
        contents(list@) == words(text@),
{
    split_words(&chars_of(text))
}

} // verus!
