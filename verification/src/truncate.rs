//! Cutting a text to a display width.

use crate::text::{chars_of, string_of};
use unicode_width::{UnicodeWidthChar, UnicodeWidthStr};
use vstd::prelude::*;

verus! {

/// The display width of a text, in columns.
pub uninterp spec fn display_width(t: Seq<char>) -> usize;

/// The display width of a character in columns, `None` for a control character.
pub uninterp spec fn char_columns(c: char) -> Option<usize>;

/// Printable ASCII, or the ellipsis: a character of one column.
pub open spec fn is_plain(c: char) -> bool {
    ' ' <= c <= '~' || c == '…'
}

pub open spec fn all_plain(t: Seq<char>) -> bool {
    forall|i: int| 0 <= i < t.len() ==> is_plain(#[trigger] t[i])
}

/// `unicode_width::UnicodeWidthStr::width`: the display width of a text, which
/// [`display_width`] names. It is a function of the characters alone. A text of
/// printable ASCII and ellipses is as wide as it has characters.
#[verifier::external_body]
pub(crate) fn text_width(text: &str) -> (w: usize)
    ensures
        w == display_width(text@),
        all_plain(text@) ==> w == text@.len(),
{
    UnicodeWidthStr::width(text)
}

/// `unicode_width::UnicodeWidthChar::width`: the display width of a character,
/// which [`char_columns`] names. It is `None` exactly for the control
/// characters, and one column for printable ASCII and for the ellipsis.
#[verifier::external_body]
fn char_width(c: char) -> (w: Option<usize>)
    ensures
        w == char_columns(c),
        w is None <==> c < ' ' || '\u{7f}' <= c < '\u{a0}',
        is_plain(c) ==> w == Some(1usize),
{
    UnicodeWidthChar::width(c)
}

/// The columns that `c` is counted with: none for a control character.
pub open spec fn columns(c: char) -> nat {
    match char_columns(c) {
        Some(w) => w as nat,
        None => 0,
    }
}

/// The columns that the ellipsis is counted with.
pub open spec fn ellipsis_columns() -> nat {
    match char_columns('…') {
        Some(w) => w as nat,
        None => 1,
    }
}

/// The columns of all characters of `t` together.
pub open spec fn total_columns(t: Seq<char>) -> nat
    decreases t.len(),
{
    if t.len() == 0 {
        0
    } else {
        total_columns(t.drop_last()) + columns(t.last())
    }
}

/// `t` takes no more than `max_width` columns, measured as a whole or character
/// by character.
pub open spec fn fits_width(t: Seq<char>, max_width: usize) -> bool {
    display_width(t) <= max_width || total_columns(t) <= max_width
}

/// How many characters of `t`, from its start, fit into `budget` columns.
pub open spec fn fitting(t: Seq<char>, budget: int) -> nat
    decreases t.len(),
{
    if t.len() == 0 || columns(t[0]) > budget {
        0
    } else {
        1 + fitting(t.drop_first(), budget - columns(t[0]))
    }
}

/// `t` cut at its end to `max_width` columns, the last of which an ellipsis
/// takes where something was cut.
pub open spec fn truncated(t: Seq<char>, max_width: usize) -> Seq<char> {
    if display_width(t) <= max_width {
        t
    } else if max_width == 0 {
        Seq::empty()
    } else {
        t.take(fitting(t, max_width - ellipsis_columns()) as int).push('…')
    }
}

/// `t` cut at its start to `max_width` columns, the first of which an ellipsis
/// takes where something was cut.
pub open spec fn start_truncated(t: Seq<char>, max_width: usize) -> Seq<char> {
    if display_width(t) <= max_width {
        t
    } else if max_width == 0 {
        Seq::empty()
    } else {
        seq!['…'] + t.skip(t.len() - fitting(t.reverse(), max_width - ellipsis_columns()))
    }
}

/// [`truncated`] for a text of one-column characters.
pub open spec fn plain_truncated(t: Seq<char>, max_width: usize) -> Seq<char> {
    if t.len() <= max_width {
        t
    } else if max_width == 0 {
        Seq::empty()
    } else {
        t.take(max_width - 1).push('…')
    }
}

/// [`start_truncated`] for a text of one-column characters.
pub open spec fn plain_start_truncated(t: Seq<char>, max_width: usize) -> Seq<char> {
    if t.len() <= max_width {
        t
    } else if max_width == 0 {
        Seq::empty()
    } else {
        seq!['…'] + t.skip(t.len() - (max_width - 1))
    }
}

proof fn lemma_total_columns_concat(a: Seq<char>, b: Seq<char>)
    ensures
        total_columns(a + b) == total_columns(a) + total_columns(b),
    decreases b.len(),
{
    if b.len() == 0 {
        assert(a + b =~= a);
    } else {
        assert((a + b).drop_last() =~= a + b.drop_last());
        lemma_total_columns_concat(a, b.drop_last());
    }
}

proof fn lemma_total_columns_one(c: char)
    ensures
        total_columns(seq![c]) == columns(c),
{
    assert(seq![c].drop_last() =~= Seq::<char>::empty());
    assert(total_columns(seq![c].drop_last()) == 0);
}

/// [`fitting`] counts the longest prefix whose columns stay within the budget.
pub proof fn law_fitting_longest(t: Seq<char>, budget: int)
    requires
        budget >= 0,
    ensures
        fitting(t, budget) <= t.len(),
        total_columns(t.take(fitting(t, budget) as int)) <= budget,
        forall|k: int|
            fitting(t, budget) < k <= t.len() ==> total_columns(#[trigger] t.take(k)) > budget,
    decreases t.len(),
{
    let n = fitting(t, budget) as int;
    if t.len() == 0 {
        assert(t.take(0) =~= Seq::<char>::empty());
    } else {
        let tail = t.drop_first();
        let first = seq![t[0]];
        lemma_total_columns_one(t[0]);
        if columns(t[0]) > budget {
            assert(t.take(0) =~= Seq::<char>::empty());
        } else {
            law_fitting_longest(tail, budget - columns(t[0]));
            assert(t.take(n) =~= first + tail.take(n - 1));
            lemma_total_columns_concat(first, tail.take(n - 1));
        }
        assert forall|k: int| n < k <= t.len() implies total_columns(#[trigger] t.take(k))
            > budget by {
            assert(t.take(k) =~= first + tail.take(k - 1));
            lemma_total_columns_concat(first, tail.take(k - 1));
        }
    }
}

/// Columns add up, part by part and character by character; a character without a
/// width counts as none, and the ellipsis as one where it has none.
pub proof fn law_total_columns(a: Seq<char>, b: Seq<char>, c: char)
    ensures
        total_columns(a + b) == total_columns(a) + total_columns(b),
        total_columns(Seq::empty()) == 0,
        char_columns(c) matches Some(w) ==> total_columns(seq![c]) == w,
        char_columns(c) is None ==> total_columns(seq![c]) == 0,
        char_columns('…') matches Some(w) ==> ellipsis_columns() == w,
        char_columns('…') is None ==> ellipsis_columns() == 1,
{
    lemma_total_columns_concat(a, b);
    lemma_total_columns_one(c);
}

/// A text that fits is kept. Of one that does not, the first `k` characters are
/// kept, as many as fit before an ellipsis, and then the ellipsis stands; where
/// there is no column, nothing is left.
pub proof fn law_truncated(t: Seq<char>, max_width: usize) -> (k: int)
    ensures
        display_width(t) <= max_width ==> truncated(t, max_width) == t,
        display_width(t) > max_width && max_width == 0 ==> truncated(t, max_width) == Seq::<
            char,
        >::empty(),
        display_width(t) > max_width && max_width > 0 ==> {
            &&& 0 <= k <= t.len()
            &&& truncated(t, max_width) == t.take(k) + seq!['…']
            &&& k > 0 ==> total_columns(t.take(k)) + ellipsis_columns() <= max_width
            &&& forall|n: int|
                k < n <= t.len() ==> total_columns(#[trigger] t.take(n)) + ellipsis_columns()
                    > max_width
        },
{
    let budget = max_width - ellipsis_columns();
    if budget >= 0 {
        law_fitting_longest(t, budget);
    } else {
        assert(fitting(t, budget) == 0);
    }
    let k = fitting(t, budget) as int;
    assert(t.take(k).push('…') =~= t.take(k) + seq!['…']);
    k
}

proof fn lemma_total_columns_reverse(t: Seq<char>)
    ensures
        total_columns(t.reverse()) == total_columns(t),
    decreases t.len(),
{
    if t.len() == 0 {
        assert(t.reverse() =~= t);
    } else {
        let front = t.drop_last();
        assert(t.reverse() =~= seq![t.last()] + front.reverse());
        lemma_total_columns_concat(seq![t.last()], front.reverse());
        lemma_total_columns_one(t.last());
        lemma_total_columns_reverse(front);
    }
}

proof fn lemma_skip_reverse(t: Seq<char>, n: int)
    requires
        0 <= n <= t.len(),
    ensures
        total_columns(t.skip(t.len() - n)) == total_columns(t.reverse().take(n)),
{
    assert(t.skip(t.len() - n).reverse() =~= t.reverse().take(n));
    lemma_total_columns_reverse(t.skip(t.len() - n));
}

/// As [`law_truncated`], for a text that is cut at its start: its last `k` characters
/// are kept behind an ellipsis.
pub proof fn law_start_truncated(t: Seq<char>, max_width: usize) -> (k: int)
    ensures
        display_width(t) <= max_width ==> start_truncated(t, max_width) == t,
        display_width(t) > max_width && max_width == 0 ==> start_truncated(t, max_width) == Seq::<
            char,
        >::empty(),
        display_width(t) > max_width && max_width > 0 ==> {
            &&& 0 <= k <= t.len()
            &&& start_truncated(t, max_width) == seq!['…'] + t.skip(t.len() - k)
            &&& k > 0 ==> total_columns(t.skip(t.len() - k)) + ellipsis_columns() <= max_width
            &&& forall|n: int|
                0 <= n < t.len() - k ==> total_columns(#[trigger] t.skip(n)) + ellipsis_columns()
                    > max_width
        },
{
    let budget = max_width - ellipsis_columns();
    let r = t.reverse();
    if budget >= 0 {
        law_fitting_longest(r, budget);
    } else {
        assert(fitting(r, budget) == 0);
    }
    let k = fitting(r, budget) as int;
    lemma_skip_reverse(t, k);
    assert forall|n: int| 0 <= n < t.len() - k implies total_columns(#[trigger] t.skip(n))
        + ellipsis_columns() > max_width by {
        lemma_skip_reverse(t, t.len() - n);
        assert(total_columns(r.take(t.len() - n)) + ellipsis_columns() > max_width);
    }
    k
}

/// Of one-column characters a text that fits is kept, and of one that does not, all
/// but the last column at its start, or but the first at its end, show it.
pub proof fn law_plain_truncated(t: Seq<char>, max_width: usize)
    ensures
        t.len() <= max_width ==> plain_truncated(t, max_width) == t && plain_start_truncated(
            t,
            max_width,
        ) == t,
        t.len() > max_width ==> plain_truncated(t, max_width).len() == max_width
            && plain_start_truncated(t, max_width).len() == max_width,
        t.len() > max_width && max_width > 0 ==> {
            &&& plain_truncated(t, max_width).last() == '…'
            &&& plain_start_truncated(t, max_width)[0] == '…'
        },
        t.len() > max_width ==> forall|i: int|
            0 <= i < max_width - 1 ==> #[trigger] plain_truncated(t, max_width)[i] == t[i],
        t.len() > max_width ==> forall|i: int|
            0 < i < max_width ==> #[trigger] plain_start_truncated(t, max_width)[i] == t[t.len()
                - max_width + i],
{
}

/// `text` cut at its end to `max_width` columns, with an ellipsis where
/// something was cut. Of a cut text of printable ASCII, the first
/// `max_width - 1` characters are left before the ellipsis.
pub fn simple_truncate(text: &str, max_width: usize) -> (result: String)
    ensures
        result@ == truncated(text@, max_width),
        fits_width(result@, max_width),
        all_plain(text@) ==> result@ == plain_truncated(text@, max_width) && all_plain(result@)
            && result@.len() <= max_width,
        ellipsis_columns() == 1,
{
    let ellipsis_width: usize = match char_width('…') {
        Some(w) => w,
        None => 1,
    };
    if text_width(text) <= max_width {
        return text.to_owned();
    }
    if max_width == 0 {
        assert(total_columns(Seq::<char>::empty()) == 0);
        return String::new();
    }
    let mut result = String::new();
    let chars = chars_of(text);
    let mut width: usize = 0;
    let mut i: usize = 0;
    let ghost budget = max_width - ellipsis_columns();
    assert(text@.take(0) =~= Seq::<char>::empty());
    assert(text@.skip(0) =~= text@);
    while i < chars.len()
        invariant
            chars@ == text@,
            i <= chars.len(),
            budget == max_width - ellipsis_columns(),
            ellipsis_width == ellipsis_columns(),
            ellipsis_columns() == 1,
            max_width > 0,
            result@ == text@.take(i as int),
            width == total_columns(text@.take(i as int)),
            width <= budget,
            fitting(text@, budget) == i + fitting(text@.skip(i as int), budget - width),
            all_plain(text@) ==> width == i,
        ensures
            i <= chars.len(),
            result@ == text@.take(i as int),
            width == total_columns(text@.take(i as int)),
            width <= budget,
            fitting(text@, budget) == i,
            all_plain(text@) ==> width == i && (i == chars.len() || i == budget),
        decreases chars.len() - i,
    {
        let ch = chars[i];
        let ch_width: usize = match char_width(ch) {
            Some(w) => w,
            None => 0,
        };
        let ghost rest = text@.skip(i as int);
        let left: usize = max_width - ellipsis_width - width;
        if ch_width > left {
            assert(fitting(rest, budget - width) == 0);
            break;
        }
        result.push(ch);
        width = width + ch_width;
        assert(rest.drop_first() =~= text@.skip(i + 1));
        assert(text@.take(i + 1) =~= text@.take(i as int).push(ch));
        assert(text@.take(i + 1).drop_last() =~= text@.take(i as int));
        i = i + 1;
    }
    let ghost kept = result@;
    result.push('…');
    proof {
        assert(result@.drop_last() =~= kept);
        assert(columns('…') == 1);
        if all_plain(text@) {
            assert forall|k: int| 0 <= k < result@.len() implies is_plain(#[trigger] result@[k]) by {
                if k < i {
                    assert(result@[k] == text@[k]);
                }
            }
        }
    }
    result
}

/// `text` cut at its start to `max_width` columns, with an ellipsis where
/// something was cut, under the same bounds as [`simple_truncate`].
pub fn truncate_start(text: &str, max_width: usize) -> (result: String)
    ensures
        result@ == start_truncated(text@, max_width),
        fits_width(result@, max_width),
        all_plain(text@) ==> result@ == plain_start_truncated(text@, max_width) && all_plain(result@)
            && result@.len() <= max_width,
        ellipsis_columns() == 1,
{
    let ellipsis_width: usize = match char_width('…') {
        Some(w) => w,
        None => 1,
    };
    if text_width(text) <= max_width {
        return text.to_owned();
    }
    if max_width == 0 {
        assert(total_columns(Seq::<char>::empty()) == 0);
        return String::new();
    }
    let chars = chars_of(text);
    let mut width: usize = 0;
    let mut i: usize = chars.len();
    let ghost backwards = text@.reverse();
    let ghost budget = max_width - ellipsis_columns();
    assert(backwards.skip(0) =~= backwards);
    assert(text@.skip(i as int) =~= Seq::<char>::empty());
    while i > 0
        invariant
            chars@ == text@,
            i <= chars.len(),
            backwards == text@.reverse(),
            budget == max_width - ellipsis_columns(),
            ellipsis_width == ellipsis_columns(),
            ellipsis_columns() == 1,
            max_width > 0,
            width == total_columns(text@.skip(i as int)),
            width <= budget,
            fitting(backwards, budget) == chars.len() - i + fitting(
                backwards.skip(chars.len() - i),
                budget - width,
            ),
            all_plain(text@) ==> width == chars.len() - i,
        ensures
            i <= chars.len(),
            width == total_columns(text@.skip(i as int)),
            width <= budget,
            fitting(backwards, budget) == chars.len() - i,
            all_plain(text@) ==> width == chars.len() - i && (i == 0 || width == budget),
        decreases i,
    {
        let ch = chars[i - 1];
        let ch_width: usize = match char_width(ch) {
            Some(w) => w,
            None => 0,
        };
        let ghost rest = backwards.skip(chars.len() - i);
        assert(rest[0] == ch);
        let left: usize = max_width - ellipsis_width - width;
        if ch_width > left {
            assert(fitting(rest, budget - width) == 0);
            break;
        }
        width = width + ch_width;
        proof {
            assert(rest.drop_first() =~= backwards.skip(chars.len() - i + 1));
            assert(text@.skip(i - 1) =~= seq![ch] + text@.skip(i as int));
            lemma_total_columns_one(ch);
            lemma_total_columns_concat(seq![ch], text@.skip(i as int));
        }
        i = i - 1;
    }
    let mut result = String::new();
    result.push('…');
    let tail = string_of(&chars, i, chars.len());
    result.append(tail.as_str());
    proof {
        assert(tail@ =~= text@.skip(i as int));
        assert(result@ =~= seq!['…'] + tail@);
        lemma_total_columns_one('…');
        lemma_total_columns_concat(seq!['…'], tail@);
        if all_plain(text@) {
            assert forall|k: int| 0 <= k < result@.len() implies is_plain(#[trigger] result@[k]) by {
                if k > 0 {
                    assert(result@[k] == text@[i + k - 1]);
                }
            }
        }
    }
    result
}

} // verus!
