//! Cleaning a text for one line of display.

use crate::text::{chars_of, lemma_shows_at, shows};
use crate::truncate::{all_plain, is_plain};
use crate::words::{is_white, law_trim_ends, lemma_trim, trim, trim_end, trim_start, trimmed};
use vstd::prelude::*;

verus! {

/// `t` ends inside a tag: its last angle bracket opens one.
pub open spec fn in_tag(t: Seq<char>) -> bool
    decreases t.len(),
{
    if t.len() == 0 || t.last() == '>' {
        false
    } else if t.last() == '<' {
        true
    } else {
        in_tag(t.drop_last())
    }
}

/// `t` without its tags and without angle brackets.
pub open spec fn strip_tags(t: Seq<char>) -> Seq<char>
    decreases t.len(),
{
    if t.len() == 0 {
        Seq::empty()
    } else if t.last() == '<' || t.last() == '>' || in_tag(t) {
        strip_tags(t.drop_last())
    } else {
        strip_tags(t.drop_last()).push(t.last())
    }
}

/// A character that is shown as a space.
pub open spec fn is_gap(c: char) -> bool {
    c == ' ' || c == '\n' || c == '\r' || c == '\t'
}

/// `s` with one space for each run of gap characters.
pub open spec fn collapse_gaps(s: Seq<char>) -> Seq<char>
    decreases s.len(),
{
    if s.len() == 0 {
        Seq::empty()
    } else if !is_gap(s.last()) {
        collapse_gaps(s.drop_last()).push(s.last())
    } else if s.len() > 1 && is_gap(s[s.len() - 2]) {
        collapse_gaps(s.drop_last())
    } else {
        collapse_gaps(s.drop_last()).push(' ')
    }
}

/// `t` without tags, with single spaces, and trimmed.
pub open spec fn sanitized(t: Seq<char>) -> Seq<char> {
    trim(collapse_gaps(strip_tags(t)))
}

/// No angle bracket, no line break or tab, no two spaces in a row.
pub open spec fn is_clean(s: Seq<char>) -> bool {
    &&& forall|i: int|
        0 <= i < s.len() ==> {
            &&& #[trigger] s[i] != '<'
            &&& s[i] != '>'
            &&& is_gap(s[i]) ==> s[i] == ' '
        }
    &&& forall|i: int, j: int|
        0 <= i && j == i + 1 && j < s.len() ==> !(#[trigger] s[i] == ' ' && #[trigger] s[j] == ' ')
}

proof fn lemma_strip_tags(t: Seq<char>)
    ensures
        strip_tags(t).len() <= t.len(),
        forall|i: int| 0 <= i < strip_tags(t).len() ==> t.contains(#[trigger] strip_tags(t)[i]),
        forall|i: int|
            0 <= i < strip_tags(t).len() ==> #[trigger] strip_tags(t)[i] != '<' && strip_tags(t)[i]
                != '>',
    decreases t.len(),
{
    if t.len() > 0 {
        let front = t.drop_last();
        lemma_strip_tags(front);
        assert forall|i: int| 0 <= i < strip_tags(t).len() implies t.contains(
            #[trigger] strip_tags(t)[i],
        ) && strip_tags(t)[i] != '<' && strip_tags(t)[i] != '>' by {
            if i < strip_tags(front).len() {
                let c = strip_tags(front)[i];
                assert(strip_tags(t)[i] == c);
                let k = choose|k: int| 0 <= k < front.len() && front[k] == c;
                assert(t[k] == c);
            } else {
                assert(t[t.len() - 1] == strip_tags(t)[i]);
            }
        }
    }
}

proof fn lemma_collapse_gaps(s: Seq<char>)
    requires
        forall|i: int| 0 <= i < s.len() ==> #[trigger] s[i] != '<' && s[i] != '>',
    ensures
        collapse_gaps(s).len() <= s.len(),
        is_clean(collapse_gaps(s)),
        s.len() > 0 ==> collapse_gaps(s).len() > 0 && (collapse_gaps(s).last() == ' ' <==> is_gap(
            s.last(),
        )),
        forall|i: int|
            0 <= i < collapse_gaps(s).len() ==> #[trigger] collapse_gaps(s)[i] == ' '
                || s.contains(collapse_gaps(s)[i]) && !is_gap(collapse_gaps(s)[i]),
    decreases s.len(),
{
    if s.len() > 0 {
        let front = s.drop_last();
        let c = collapse_gaps(s);
        let f = collapse_gaps(front);
        lemma_collapse_gaps(front);
        assert(s[s.len() - 1] == s.last());
        if s.len() > 1 {
            assert(front.last() == s[s.len() - 2]);
        }
        assert forall|i: int| 0 <= i < c.len() implies #[trigger] c[i] == ' ' || s.contains(c[i])
            && !is_gap(c[i]) by {
            if i < f.len() {
                assert(c[i] == f[i]);
                if f[i] != ' ' {
                    let k = choose|k: int| 0 <= k < front.len() && front[k] == f[i];
                    assert(s[k] == c[i]);
                }
            } else {
                assert(s[s.len() - 1] == s.last());
            }
        }
        assert forall|i: int, j: int| 0 <= i && j == i + 1 && j < c.len() implies !(#[trigger] c[i]
            == ' ' && #[trigger] c[j] == ' ') by {
            assert(c[i] == f[i]);
            if j < f.len() {
                assert(c[j] == f[j]);
            } else {
                assert(c[i] == f.last());
            }
        }
    }
}

proof fn lemma_collapse_of_clean(s: Seq<char>)
    requires
        is_clean(s),
    ensures
        collapse_gaps(s) == s,
    decreases s.len(),
{
    if s.len() > 0 {
        let front = s.drop_last();
        assert(front.push(s.last()) =~= s);
        assert forall|i: int| 0 <= i < front.len() implies {
            &&& #[trigger] front[i] != '<'
            &&& front[i] != '>'
            &&& is_gap(front[i]) ==> front[i] == ' '
        } by {
            assert(front[i] == s[i]);
        }
        assert forall|i: int, j: int| 0 <= i && j == i + 1 && j < front.len() implies !(
        #[trigger] front[i] == ' ' && #[trigger] front[j] == ' ') by {
            assert(front[i] == s[i] && front[j] == s[j]);
        }
        lemma_collapse_of_clean(front);
        assert(s[s.len() - 1] == s.last());
        if s.len() > 1 {
            assert(!(s[s.len() - 2] == ' ' && s[s.len() - 1] == ' '));
        }
    } else {
        assert(collapse_gaps(s) =~= s);
    }
}

proof fn lemma_strip_of_clean(s: Seq<char>)
    requires
        forall|i: int| 0 <= i < s.len() ==> #[trigger] s[i] != '<' && s[i] != '>',
    ensures
        strip_tags(s) == s,
        !in_tag(s),
    decreases s.len(),
{
    if s.len() > 0 {
        let front = s.drop_last();
        assert(front.push(s.last()) =~= s);
        assert forall|i: int| 0 <= i < front.len() implies #[trigger] front[i] != '<' && front[i]
            != '>' by {
            assert(front[i] == s[i]);
        }
        lemma_strip_of_clean(front);
        assert(s[s.len() - 1] == s.last());
    } else {
        assert(strip_tags(s) =~= s);
    }
}

/// A sanitized text is clean, and neither starts nor ends with whitespace. All
/// its characters but its spaces come from the text, and it is no longer.
pub proof fn law_sanitized(t: Seq<char>)
    ensures
        is_clean(sanitized(t)),
        sanitized(t).len() > 0 ==> !is_white(sanitized(t)[0]) && !is_white(sanitized(t).last()),
        forall|i: int|
            0 <= i < sanitized(t).len() ==> #[trigger] sanitized(t)[i] == ' ' || t.contains(
                sanitized(t)[i],
            ) && !is_gap(sanitized(t)[i]),
        sanitized(t).len() <= t.len(),
{
    let stripped = strip_tags(t);
    let collapsed = collapse_gaps(stripped);
    lemma_strip_tags(t);
    lemma_collapse_gaps(stripped);
    let (a, b) = lemma_trim(collapsed);
    let r = sanitized(t);
    assert(r == collapsed.subrange(a, b));
    assert forall|i: int| 0 <= i < r.len() implies #[trigger] r[i] == ' ' || t.contains(r[i])
        && !is_gap(r[i]) by {
        assert(r[i] == collapsed[a + i]);
        if r[i] != ' ' {
            let k = choose|k: int| 0 <= k < stripped.len() && stripped[k] == r[i];
            assert(t.contains(stripped[k]));
        }
    }
    assert forall|i: int| 0 <= i < r.len() implies {
        &&& #[trigger] r[i] != '<'
        &&& r[i] != '>'
        &&& is_gap(r[i]) ==> r[i] == ' '
    } by {
        assert(r[i] == collapsed[a + i]);
    }
    assert forall|i: int, j: int| 0 <= i && j == i + 1 && j < r.len() implies !(#[trigger] r[i]
        == ' ' && #[trigger] r[j] == ' ') by {
        assert(r[i] == collapsed[a + i] && r[j] == collapsed[a + j]);
    }
}

/// Sanitizing a sanitized text changes nothing.
pub proof fn law_sanitized_idempotent(t: Seq<char>)
    ensures
        sanitized(sanitized(t)) == sanitized(t),
{
    let r = sanitized(t);
    law_sanitized(t);
    lemma_strip_of_clean(r);
    lemma_collapse_of_clean(r);
    assert(trim_start(r) =~= r);
    assert(trim_end(r) =~= r);
}

/// What was collapsed stays, whatever follows.
proof fn lemma_collapse_prefix(s: Seq<char>, rest: Seq<char>)
    ensures
        collapse_gaps(s).is_prefix_of(collapse_gaps(s + rest)),
    decreases rest.len(),
{
    if rest.len() == 0 {
        assert(s + rest =~= s);
    } else {
        assert((s + rest).drop_last() =~= s + rest.drop_last());
        lemma_collapse_prefix(s, rest.drop_last());
    }
}

/// A clean part that does not start with a gap stays as it is.
proof fn lemma_collapse_clean_part(s: Seq<char>, part: Seq<char>)
    requires
        is_clean(part),
        part.len() > 0 ==> !is_gap(part[0]),
    ensures
        collapse_gaps(s + part) == collapse_gaps(s) + part,
    decreases part.len(),
{
    if part.len() == 0 {
        assert(s + part =~= s);
        assert(collapse_gaps(s) + part =~= collapse_gaps(s));
    } else {
        let front = part.drop_last();
        assert((s + part).drop_last() =~= s + front);
        assert(is_clean(front)) by {
            assert forall|i: int| 0 <= i < front.len() implies {
                &&& #[trigger] front[i] != '<'
                &&& front[i] != '>'
                &&& is_gap(front[i]) ==> front[i] == ' '
            } by {
                assert(front[i] == part[i]);
            }
            assert forall|i: int, j: int| 0 <= i && j == i + 1 && j < front.len() implies !(
            #[trigger] front[i] == ' ' && #[trigger] front[j] == ' ') by {
                assert(front[i] == part[i] && front[j] == part[j]);
            }
        }
        lemma_collapse_clean_part(s, front);
        assert(part[part.len() - 1] == part.last());
        if is_gap(part.last()) {
            assert(part.len() > 1);
            assert(part[part.len() - 2] != ' ');
            assert((s + part)[(s + part).len() - 2] == part[part.len() - 2]);
        }
        assert(collapse_gaps(s + part) =~= collapse_gaps(s) + part);
    }
}

/// In a text without tags, a clean part that neither starts nor ends with
/// whitespace comes through sanitizing in one piece.
pub proof fn law_sanitized_keeps(before: Seq<char>, part: Seq<char>, after: Seq<char>)
    requires
        forall|i: int| 0 <= i < before.len() ==> #[trigger] before[i] != '<' && before[i] != '>',
        forall|i: int| 0 <= i < after.len() ==> #[trigger] after[i] != '<' && after[i] != '>',
        is_clean(part),
        part.len() > 0,
        !is_white(part[0]),
        !is_white(part.last()),
    ensures
        shows(sanitized(before + part + after), part),
{
    let t = before + part + after;
    assert forall|i: int| 0 <= i < t.len() implies #[trigger] t[i] != '<' && t[i] != '>' by {
        if i < before.len() {
            assert(t[i] == before[i]);
        } else if i < before.len() + part.len() {
            assert(t[i] == part[i - before.len()]);
        } else {
            assert(t[i] == after[i - before.len() - part.len()]);
        }
    }
    lemma_strip_of_clean(t);
    lemma_collapse_clean_part(before, part);
    lemma_collapse_prefix(before + part, after);
    let c = collapse_gaps(t);
    let p = collapse_gaps(before).len() as int;
    assert(c.take(p + part.len()) =~= collapse_gaps(before) + part);
    assert(c.subrange(p, p + part.len()) =~= part) by {
        assert(c.subrange(p, p + part.len()) =~= c.take(p + part.len()).skip(p));
    }
    assert(c[p] == c.subrange(p, p + part.len())[0]);
    assert(c[p + part.len() - 1] == c.subrange(p, p + part.len())[part.len() - 1]);
    let (a, b) = lemma_trim(c);
    assert(trim(c).subrange(p - a, p - a + part.len()) =~= part);
    lemma_shows_at(trim(c), part, p - a);
}

/// A text without an opening bracket ends outside all tags.
proof fn lemma_no_open_tag(t: Seq<char>)
    requires
        forall|i: int| 0 <= i < t.len() ==> #[trigger] t[i] != '<',
    ensures
        !in_tag(t),
    decreases t.len(),
{
    if t.len() > 0 {
        let front = t.drop_last();
        assert forall|i: int| 0 <= i < front.len() implies #[trigger] front[i] != '<' by {
            assert(front[i] == t[i]);
        }
        lemma_no_open_tag(front);
        assert(t[t.len() - 1] == t.last());
    }
}

/// Behind an opening bracket, everything but a closing one is dropped.
proof fn lemma_inside_tag(before: Seq<char>, body: Seq<char>)
    requires
        forall|i: int| 0 <= i < body.len() ==> #[trigger] body[i] != '>',
    ensures
        in_tag(before.push('<') + body),
        strip_tags(before.push('<') + body) == strip_tags(before),
    decreases body.len(),
{
    let t = before.push('<') + body;
    if body.len() == 0 {
        assert(t =~= before.push('<'));
        assert(t.drop_last() =~= before);
    } else {
        let front = body.drop_last();
        assert forall|i: int| 0 <= i < front.len() implies #[trigger] front[i] != '>' by {
            assert(front[i] == body[i]);
        }
        lemma_inside_tag(before, front);
        assert(t.drop_last() =~= before.push('<') + front);
        assert(body[body.len() - 1] == body.last());
    }
}

/// Outside all tags, what follows is stripped by itself.
proof fn lemma_strip_behind(t: Seq<char>, after: Seq<char>)
    requires
        !in_tag(t),
    ensures
        strip_tags(t + after) == strip_tags(t) + strip_tags(after),
        in_tag(t + after) == in_tag(after),
    decreases after.len(),
{
    if after.len() == 0 {
        assert(t + after =~= t);
        assert(strip_tags(t) + strip_tags(after) =~= strip_tags(t));
    } else {
        let front = after.drop_last();
        assert((t + after).drop_last() =~= t + front);
        lemma_strip_behind(t, front);
        assert(strip_tags(t + after) =~= strip_tags(t) + strip_tags(after));
    }
}

/// Nothing of a tag comes through: a text with a tag, from an opening bracket to
/// the next closing one, is shown as the text without it.
pub proof fn law_tag_is_dropped(before: Seq<char>, body: Seq<char>, after: Seq<char>)
    requires
        forall|i: int| 0 <= i < before.len() ==> #[trigger] before[i] != '<',
        forall|i: int| 0 <= i < body.len() ==> #[trigger] body[i] != '>',
    ensures
        sanitized(before + seq!['<'] + body + seq!['>'] + after) == sanitized(before + after),
{
    let open = before.push('<') + body;
    let tag = open.push('>');
    assert(before + seq!['<'] + body + seq!['>'] + after =~= tag + after);
    lemma_no_open_tag(before);
    lemma_inside_tag(before, body);
    assert(tag.drop_last() =~= open);
    lemma_strip_behind(tag, after);
    lemma_strip_behind(before, after);
}

/// A bracket that nothing closes drops the rest of the text.
pub proof fn law_open_tag_drops_rest(before: Seq<char>, rest: Seq<char>)
    requires
        forall|i: int| 0 <= i < rest.len() ==> #[trigger] rest[i] != '>',
    ensures
        sanitized(before + seq!['<'] + rest) == sanitized(before),
{
    assert(before + seq!['<'] + rest =~= before.push('<') + rest);
    lemma_inside_tag(before, rest);
}

/// A closing bracket that closes nothing is dropped.
pub proof fn law_stray_bracket_is_dropped(before: Seq<char>, after: Seq<char>)
    requires
        forall|i: int| 0 <= i < before.len() ==> #[trigger] before[i] != '<',
    ensures
        sanitized(before + seq!['>'] + after) == sanitized(before + after),
{
    let closed = before.push('>');
    assert(before + seq!['>'] + after =~= closed + after);
    assert(closed.drop_last() =~= before);
    lemma_no_open_tag(before);
    lemma_strip_behind(closed, after);
    lemma_strip_behind(before, after);
}

spec fn no_brackets(t: Seq<char>) -> bool {
    forall|i: int| 0 <= i < t.len() ==> #[trigger] t[i] != '<' && t[i] != '>'
}

proof fn lemma_no_brackets_concat(a: Seq<char>, b: Seq<char>)
    requires
        no_brackets(a),
        no_brackets(b),
    ensures
        no_brackets(a + b),
        strip_tags(a + b) == a + b,
{
    let t = a + b;
    assert forall|i: int| 0 <= i < t.len() implies #[trigger] t[i] != '<' && t[i] != '>' by {
        if i < a.len() {
            assert(t[i] == a[i]);
        } else {
            assert(t[i] == b[i - a.len()]);
        }
    }
    lemma_strip_of_clean(t);
}

/// Texts that collapse to the same, both ending with a gap, still do with the same
/// text behind them.
proof fn lemma_collapse_alike(x: Seq<char>, y: Seq<char>, rest: Seq<char>)
    requires
        x.len() > 0,
        y.len() > 0,
        is_gap(x.last()),
        is_gap(y.last()),
        collapse_gaps(x) == collapse_gaps(y),
    ensures
        collapse_gaps(x + rest) == collapse_gaps(y + rest),
    decreases rest.len(),
{
    if rest.len() == 0 {
        assert(x + rest =~= x);
        assert(y + rest =~= y);
    } else {
        let front = rest.drop_last();
        assert((x + rest).drop_last() =~= x + front);
        assert((y + rest).drop_last() =~= y + front);
        lemma_collapse_alike(x, y, front);
    }
}

/// A line break, a carriage return or a tab outside tags is shown as a space is.
pub proof fn law_gap_is_a_space(before: Seq<char>, gap: char, after: Seq<char>)
    requires
        gap == '\n' || gap == '\r' || gap == '\t',
        forall|i: int| 0 <= i < before.len() ==> #[trigger] before[i] != '<' && before[i] != '>',
        forall|i: int| 0 <= i < after.len() ==> #[trigger] after[i] != '<' && after[i] != '>',
    ensures
        sanitized(before.push(gap) + after) == sanitized(before.push(' ') + after),
{
    let x = before.push(gap);
    let y = before.push(' ');
    assert(x =~= before + seq![gap] && y =~= before + seq![' ']);
    lemma_no_brackets_concat(before, seq![gap]);
    lemma_no_brackets_concat(before, seq![' ']);
    lemma_no_brackets_concat(x, after);
    lemma_no_brackets_concat(y, after);
    assert(x.drop_last() =~= before && y.drop_last() =~= before);
    if before.len() > 0 {
        assert(x[x.len() - 2] == before.last() && y[y.len() - 2] == before.last());
    }
    lemma_collapse_alike(x, y, after);
}

/// Two spaces in a row outside tags are shown as one.
pub proof fn law_spaces_are_one_space(before: Seq<char>, after: Seq<char>)
    requires
        forall|i: int| 0 <= i < before.len() ==> #[trigger] before[i] != '<' && before[i] != '>',
        forall|i: int| 0 <= i < after.len() ==> #[trigger] after[i] != '<' && after[i] != '>',
    ensures
        sanitized(before.push(' ').push(' ') + after) == sanitized(before.push(' ') + after),
{
    let y = before.push(' ');
    let x = y.push(' ');
    assert(y =~= before + seq![' '] && x =~= y + seq![' ']);
    lemma_no_brackets_concat(before, seq![' ']);
    lemma_no_brackets_concat(y, seq![' ']);
    lemma_no_brackets_concat(x, after);
    lemma_no_brackets_concat(y, after);
    assert(x.drop_last() =~= y);
    assert(x[x.len() - 2] == ' ');
    lemma_collapse_alike(x, y, after);
}

proof fn lemma_collapse_prepend(c: char, s: Seq<char>)
    requires
        s.len() > 0 && is_gap(s[0]) ==> !is_gap(c),
    ensures
        collapse_gaps(seq![c] + s) == collapse_gaps(seq![c]) + collapse_gaps(s),
    decreases s.len(),
{
    let t = seq![c] + s;
    if s.len() == 0 {
        assert(t =~= seq![c]);
        assert(collapse_gaps(seq![c]) + collapse_gaps(s) =~= collapse_gaps(seq![c]));
    } else {
        let front = s.drop_last();
        assert(t.drop_last() =~= seq![c] + front);
        if front.len() > 0 {
            assert(front[0] == s[0]);
            assert(t[t.len() - 2] == s[s.len() - 2]);
        } else {
            assert(t[t.len() - 2] == c);
        }
        lemma_collapse_prepend(c, front);
        assert(collapse_gaps(t) =~= collapse_gaps(seq![c]) + collapse_gaps(s));
    }
}

proof fn lemma_collapse_one(c: char)
    ensures
        collapse_gaps(seq![c]) == if is_gap(c) {
            seq![' ']
        } else {
            seq![c]
        },
{
    assert(seq![c].drop_last() =~= Seq::<char>::empty());
    assert(collapse_gaps(seq![c].drop_last()) =~= Seq::<char>::empty());
    assert(Seq::<char>::empty().push(' ') =~= seq![' ']);
    assert(Seq::<char>::empty().push(c) =~= seq![c]);
}

/// Whitespace at either end of a text without tags is not shown.
pub proof fn law_outer_whitespace_is_dropped(s: Seq<char>, white: char)
    requires
        is_white(white),
        forall|i: int| 0 <= i < s.len() ==> #[trigger] s[i] != '<' && s[i] != '>',
    ensures
        sanitized(seq![white] + s) == sanitized(s),
        sanitized(s.push(white)) == sanitized(s),
{
    let empty = Seq::<char>::empty();
    assert(s + empty =~= s);
    lemma_no_brackets_concat(s, empty);
    lemma_no_brackets_concat(seq![white], s);
    assert(s.push(white) =~= s + seq![white]);
    lemma_no_brackets_concat(s, seq![white]);
    let c = collapse_gaps(s);
    let shown = if is_gap(white) {
        ' '
    } else {
        white
    };
    lemma_collapse_one(white);
    law_trim_ends(c, shown);
    if s.len() > 0 && is_gap(s[0]) && is_gap(white) {
        let rest = s.drop_first();
        let one = seq![s[0]];
        let two = seq![white, s[0]];
        assert(two.drop_last() =~= seq![white]);
        assert(two[two.len() - 2] == white);
        lemma_collapse_one(s[0]);
        assert(collapse_gaps(two) == collapse_gaps(one));
        lemma_collapse_alike(two, one, rest);
        assert(two + rest =~= seq![white] + s);
        assert(one + rest =~= s);
    } else {
        lemma_collapse_prepend(white, s);
    }
    assert(s.push(white).drop_last() =~= s);
}

/// A text that is clean already is shown as it is: without brackets, line breaks,
/// carriage returns and tabs, without two spaces in a row, and with neither its
/// first nor its last character whitespace.
pub proof fn law_clean_text_stays(s: Seq<char>)
    requires
        forall|i: int| 0 <= i < s.len() ==> #[trigger] s[i] != '<' && s[i] != '>',
        forall|i: int|
            0 <= i < s.len() ==> #[trigger] s[i] != '\n' && s[i] != '\r' && s[i] != '\t',
        forall|i: int, j: int|
            0 <= i && j == i + 1 && j < s.len() ==> !(#[trigger] s[i] == ' ' && #[trigger] s[j]
                == ' '),
        s.len() > 0 ==> !is_white(s[0]) && !is_white(s.last()),
    ensures
        sanitized(s) == s,
{
    lemma_strip_of_clean(s);
    lemma_collapse_of_clean(s);
}

/// What is left of printable ASCII with line breaks and tabs is printable ASCII.
pub proof fn lemma_sanitized_plain(t: Seq<char>)
    requires
        forall|i: int| 0 <= i < t.len() ==> is_plain(#[trigger] t[i]) || is_gap(t[i]),
    ensures
        all_plain(sanitized(t)),
{
    let r = sanitized(t);
    law_sanitized(t);
    assert forall|i: int| 0 <= i < r.len() implies is_plain(#[trigger] r[i]) by {
        if r[i] != ' ' {
            let k = choose|k: int| 0 <= k < t.len() && t[k] == r[i];
            assert(is_plain(t[k]) || is_gap(t[k]));
        }
    }
}

/// `text` without XML-like tags, with whitespace normalized.
pub fn sanitize_preview(text: &str) -> (clean: String)
    ensures
        clean@ == sanitized(text@),
        is_clean(clean@),
{
    let chars = chars_of(text);
    let mut result: Vec<char> = Vec::new();
    let mut inside_tag = false;
    let mut last_was_space = false;
    let mut i: usize = 0;
    let ghost empty = Seq::<char>::empty();
    assert(text@.take(0) =~= empty);
    assert(collapse_gaps(strip_tags(empty)) =~= empty);
    while i < chars.len()
        invariant
            chars@ == text@,
            i <= chars.len(),
            inside_tag == in_tag(text@.take(i as int)),
            result@ == collapse_gaps(strip_tags(text@.take(i as int))),
            last_was_space == (strip_tags(text@.take(i as int)).len() > 0 && is_gap(
                strip_tags(text@.take(i as int)).last(),
            )),
        decreases chars.len() - i,
    {
        let ch = chars[i];
        let ghost front = text@.take(i as int);
        let ghost next = text@.take(i + 1);
        let ghost before = strip_tags(front);
        assert(next.drop_last() =~= front);
        assert(next.last() == ch);
        assert(before.push(ch).drop_last() =~= before);
        if ch == '<' {
            inside_tag = true;
        } else if ch == '>' {
            inside_tag = false;
        } else if inside_tag {
        } else if ch == '\n' || ch == '\r' || ch == '\t' || ch == ' ' {
            if !last_was_space {
                result.push(' ');
                last_was_space = true;
            }
        } else {
            result.push(ch);
            last_was_space = false;
        }
        i = i + 1;
    }
    assert(text@.take(i as int) =~= text@);
    proof {
        law_sanitized(text@);
    }
    trimmed(&result)
}

} // verus!
