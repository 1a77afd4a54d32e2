//! Literal matching: exact but for the case of ASCII letters.

use crate::normalize::{lemma_valid_concat, valid_range, valid_ranges};
use crate::ranges::ByteRange;
use crate::text::{
    byte_len, chars_of, lemma_char_index_of_offset, lemma_offset_ends, lemma_offset_increasing,
    offset, on_boundary, slice, IndexedText,
};
use vstd::prelude::*;

verus! {

/// `c` in lower case, where it is an ASCII letter.
pub open spec fn ascii_lower(c: char) -> char {
    if 'A' <= c <= 'Z' {
        (c as int + 32) as char
    } else {
        c
    }
}

/// `a` and `b` are equal but for the case of ASCII letters.
pub open spec fn same_ignoring_case(a: Seq<char>, b: Seq<char>) -> bool {
    &&& a.len() == b.len()
    &&& forall|i: int| 0 <= i < a.len() ==> ascii_lower(#[trigger] a[i]) == ascii_lower(b[i])
}

/// The literal `q` stands in `t` at position `i`.
pub open spec fn is_literal_at(t: Seq<char>, q: Seq<char>, i: int) -> bool {
    &&& q.len() > 0
    &&& 0 <= i <= i + q.len() <= t.len()
    &&& same_ignoring_case(t.subrange(i, i + q.len()), q)
}

/// Where the literal `q` stands in `t` from position `i` on: the first place,
/// and then those after its end.
pub open spec fn literal_positions(t: Seq<char>, q: Seq<char>, i: int) -> Seq<int>
    decreases t.len() - i,
{
    if q.len() == 0 || i + q.len() > t.len() {
        Seq::empty()
    } else if is_literal_at(t, q, i) {
        seq![i] + literal_positions(t, q, i + q.len())
    } else {
        literal_positions(t, q, i + 1)
    }
}

/// The byte ranges of `t` where the literal `q` stands.
pub open spec fn literal_ranges(t: Seq<char>, q: Seq<char>) -> Seq<ByteRange> {
    literal_positions(t, q, 0).map_values(
        |i: int| (offset(t, i) as usize, offset(t, i + q.len()) as usize),
    )
}

/// The byte ranges of `t` where one of the literals `list` stands, literal by
/// literal.
pub open spec fn literals_ranges(t: Seq<char>, list: Seq<Seq<char>>) -> Seq<ByteRange>
    decreases list.len(),
{
    if list.len() == 0 {
        Seq::empty()
    } else {
        literals_ranges(t, list.drop_last()) + literal_ranges(t, list.last())
    }
}

/// The texts of literals.
pub open spec fn literal_texts(list: Seq<Literal>) -> Seq<Seq<char>> {
    list.map_values(|l: Literal| l@)
}

proof fn lemma_literal_positions(t: Seq<char>, q: Seq<char>, i: int)
    requires
        0 <= i,
    ensures
        forall|k: int|
            0 <= k < literal_positions(t, q, i).len() ==> is_literal_at(
                t,
                q,
                #[trigger] literal_positions(t, q, i)[k],
            ) && i <= literal_positions(t, q, i)[k],
        forall|k: int, m: int|
            0 <= k < m < literal_positions(t, q, i).len() ==> #[trigger] literal_positions(
                t,
                q,
                i,
            )[k] + q.len() <= #[trigger] literal_positions(t, q, i)[m],
    decreases t.len() - i,
{
    if q.len() == 0 || i + q.len() > t.len() {
    } else if is_literal_at(t, q, i) {
        let rest = literal_positions(t, q, i + q.len());
        let all = literal_positions(t, q, i);
        lemma_literal_positions(t, q, i + q.len() as int);
        assert forall|k: int| 0 <= k < all.len() implies is_literal_at(t, q, #[trigger] all[k])
            && i <= all[k] by {
            if k > 0 {
                assert(all[k] == rest[k - 1]);
            }
        }
        assert forall|k: int, m: int| 0 <= k < m < all.len() implies #[trigger] all[k] + q.len()
            <= #[trigger] all[m] by {
            assert(all[m] == rest[m - 1]);
            if k > 0 {
                assert(all[k] == rest[k - 1]);
            }
        }
    } else {
        lemma_literal_positions(t, q, i + 1);
        assert(literal_positions(t, q, i) == literal_positions(t, q, i + 1));
    }
}

proof fn lemma_literal_positions_complete(t: Seq<char>, q: Seq<char>, i: int, p: int) -> (k: int)
    requires
        0 <= i <= p,
        is_literal_at(t, q, p),
    ensures
        0 <= k < literal_positions(t, q, i).len(),
        literal_positions(t, q, i)[k] <= p < literal_positions(t, q, i)[k] + q.len(),
    decreases t.len() - i,
{
    if is_literal_at(t, q, i) {
        if p < i + q.len() {
            0
        } else {
            let k = lemma_literal_positions_complete(t, q, i + q.len() as int, p);
            assert(literal_positions(t, q, i)[k + 1] == literal_positions(t, q, i + q.len())[k]);
            k + 1
        }
    } else {
        let k = lemma_literal_positions_complete(t, q, i + 1, p);
        assert(literal_positions(t, q, i) == literal_positions(t, q, i + 1));
        k
    }
}

proof fn lemma_literal_ranges_some(t: Seq<char>, q: Seq<char>)
    ensures
        literal_ranges(t, q).len() > 0 <==> exists|p: int| is_literal_at(t, q, p),
{
    lemma_literal_positions(t, q, 0);
    if literal_ranges(t, q).len() > 0 {
        assert(is_literal_at(t, q, literal_positions(t, q, 0)[0]));
    }
    if exists|p: int| is_literal_at(t, q, p) {
        let p = choose|p: int| is_literal_at(t, q, p);
        let k = lemma_literal_positions_complete(t, q, 0, p);
    }
}

/// The ranges of a literal are whole characters of the text, in order and
/// without overlap. In each of them the literal stands as it is, but for the case
/// of ASCII letters; there is one exactly where the literal stands somewhere.
pub proof fn law_literal_ranges(t: Seq<char>, q: Seq<char>)
    requires
        byte_len(t) <= usize::MAX,
    ensures
        valid_ranges(t, literal_ranges(t, q)),
        forall|i: int|
            0 <= i < literal_ranges(t, q).len() ==> same_ignoring_case(
                slice(
                    t,
                    (#[trigger] literal_ranges(t, q)[i]).0 as int,
                    literal_ranges(t, q)[i].1 as int,
                ),
                q,
            ),
        forall|i: int, j: int|
            0 <= i < j < literal_ranges(t, q).len() ==> (#[trigger] literal_ranges(t, q)[i]).1 <= (
            #[trigger] literal_ranges(t, q)[j]).0,
        literal_ranges(t, q).len() > 0 <==> exists|p: int| is_literal_at(t, q, p),
{
    let all = literal_positions(t, q, 0);
    let ranges = literal_ranges(t, q);
    lemma_literal_positions(t, q, 0);
    assert forall|i: int| 0 <= i < ranges.len() implies valid_range(t, #[trigger] ranges[i])
        && ranges[i].0 == offset(t, all[i]) && ranges[i].1 == offset(t, all[i] + q.len()) by {
        let p = all[i];
        assert(is_literal_at(t, q, p));
        lemma_offset_ends(t);
        lemma_offset_increasing(t, p, p + q.len());
        lemma_offset_increasing(t, p + q.len(), t.len() as int);
        assert(on_boundary(t, offset(t, p) as int));
        assert(on_boundary(t, offset(t, p + q.len()) as int));
    }
    assert forall|i: int, j: int| 0 <= i < j < ranges.len() implies (#[trigger] ranges[i]).1 <= (
    #[trigger] ranges[j]).0 by {
        assert(is_literal_at(t, q, all[i]) && is_literal_at(t, q, all[j]));
        assert(all[i] + q.len() <= all[j]);
        lemma_offset_increasing(t, all[i] + q.len(), all[j]);
    }
    assert forall|i: int| 0 <= i < ranges.len() implies same_ignoring_case(
        slice(t, (#[trigger] ranges[i]).0 as int, ranges[i].1 as int),
        q,
    ) by {
        assert(valid_range(t, ranges[i]));
        assert(is_literal_at(t, q, all[i]));
        lemma_char_index_of_offset(t, all[i]);
        lemma_char_index_of_offset(t, all[i] + q.len());
    }
    lemma_literal_ranges_some(t, q);
}

proof fn lemma_same_positions(t: Seq<char>, a: Seq<char>, b: Seq<char>, i: int)
    requires
        same_ignoring_case(a, b),
        0 <= i,
    ensures
        literal_positions(t, a, i) == literal_positions(t, b, i),
    decreases t.len() - i,
{
    if a.len() == 0 || i + a.len() > t.len() {
    } else {
        let part = t.subrange(i, i + a.len());
        assert(same_ignoring_case(part, a) <==> same_ignoring_case(part, b)) by {
            if same_ignoring_case(part, a) {
                assert forall|k: int| 0 <= k < part.len() implies ascii_lower(#[trigger] part[k])
                    == ascii_lower(b[k]) by {
                    assert(ascii_lower(a[k]) == ascii_lower(b[k]));
                }
            }
            if same_ignoring_case(part, b) {
                assert forall|k: int| 0 <= k < part.len() implies ascii_lower(#[trigger] part[k])
                    == ascii_lower(a[k]) by {
                    assert(ascii_lower(a[k]) == ascii_lower(b[k]));
                }
            }
        }
        if is_literal_at(t, a, i) {
            lemma_same_positions(t, a, b, i + a.len() as int);
        } else {
            lemma_same_positions(t, a, b, i + 1);
        }
    }
}

/// Literals that are equal but for the case of ASCII letters match the same
/// ranges of every text.
pub proof fn law_same_literals_match_alike(t: Seq<char>, a: Seq<char>, b: Seq<char>)
    requires
        same_ignoring_case(a, b),
    ensures
        literal_ranges(t, a) == literal_ranges(t, b),
{
    lemma_same_positions(t, a, b, 0);
    assert(literal_ranges(t, a) =~= literal_ranges(t, b));
}

/// Two texts are the same but for the case of ASCII letters where they are equally
/// long and each two characters are equal or the two cases of one letter from `a` to
/// `z`.
pub proof fn law_same_ignoring_case(a: Seq<char>, b: Seq<char>)
    ensures
        same_ignoring_case(a, b) <==> a.len() == b.len() && forall|i: int|
            0 <= i < a.len() ==> {
                ||| #[trigger] a[i] == b[i]
                ||| 'A' <= a[i] <= 'Z' && b[i] as int == a[i] as int + 32
                ||| 'A' <= b[i] <= 'Z' && a[i] as int == b[i] as int + 32
            },
{
    if a.len() == b.len() {
        assert forall|i: int| 0 <= i < a.len() implies (ascii_lower(#[trigger] a[i])
            == ascii_lower(b[i]) <==> {
            ||| a[i] == b[i]
            ||| 'A' <= a[i] <= 'Z' && b[i] as int == a[i] as int + 32
            ||| 'A' <= b[i] <= 'Z' && a[i] as int == b[i] as int + 32
        }) by {
            lemma_ascii_lower(a[i], b[i]);
        }
    }
}

proof fn lemma_ascii_lower(a: char, b: char)
    ensures
        ascii_lower(a) == ascii_lower(b) <==> {
            ||| a == b
            ||| 'A' <= a <= 'Z' && b as int == a as int + 32
            ||| 'A' <= b <= 'Z' && a as int == b as int + 32
        },
{
}

/// Wherever a literal stands in a text, a range is listed that covers the place.
pub proof fn law_no_literal_is_missed(t: Seq<char>, q: Seq<char>, p: int) -> (k: int)
    requires
        byte_len(t) <= usize::MAX,
        q.len() > 0,
        0 <= p,
        p + q.len() <= t.len(),
        same_ignoring_case(t.subrange(p, p + q.len()), q),
    ensures
        0 <= k < literal_ranges(t, q).len(),
        literal_ranges(t, q)[k].0 <= byte_len(t.take(p)) < literal_ranges(t, q)[k].1,
{
    assert(is_literal_at(t, q, p));
    let k = lemma_literal_positions_complete(t, q, 0, p);
    let at = literal_positions(t, q, 0)[k];
    lemma_literal_positions(t, q, 0);
    assert(is_literal_at(t, q, at));
    lemma_offset_ends(t);
    lemma_offset_increasing(t, at, p);
    lemma_offset_increasing(t, p, at + q.len());
    lemma_offset_increasing(t, at + q.len(), t.len() as int);
    k
}

/// The ranges of several literals are the ranges of each.
pub proof fn law_literals_ranges(t: Seq<char>, a: Seq<Seq<char>>, b: Seq<Seq<char>>, q: Seq<char>)
    ensures
        literals_ranges(t, a + b) == literals_ranges(t, a) + literals_ranges(t, b),
        literals_ranges(t, seq![q]) == literal_ranges(t, q),
        literals_ranges(t, Seq::empty()) == Seq::<ByteRange>::empty(),
    decreases b.len(),
{
    assert(seq![q].drop_last() =~= Seq::<Seq<char>>::empty());
    assert(literals_ranges(t, Seq::empty()) =~= Seq::<ByteRange>::empty());
    assert(literals_ranges(t, seq![q]) =~= literal_ranges(t, q));
    if b.len() == 0 {
        assert(a + b =~= a);
        assert(literals_ranges(t, a) + literals_ranges(t, b) =~= literals_ranges(t, a));
    } else {
        let front = b.drop_last();
        assert((a + b).drop_last() =~= a + front);
        law_literals_ranges(t, a, front, q);
        assert(literals_ranges(t, a + b) =~= literals_ranges(t, a) + literals_ranges(t, b));
    }
}

/// The texts of a list of literals are the text of each, in order.
pub proof fn law_literal_texts(list: Seq<Literal>)
    ensures
        literal_texts(list).len() == list.len(),
        forall|i: int| 0 <= i < list.len() ==> #[trigger] literal_texts(list)[i] == list[i]@,
{
}

fn to_ascii_lower(c: char) -> (l: char)
    ensures
        l == ascii_lower(c),
{
    if 'A' <= c && c <= 'Z' {
        (c as u8 + 32) as char
    } else {
        c
    }
}

/// Whether two texts are equal but for the case of ASCII letters.
pub fn eq_ignore_ascii_case(a: &str, b: &str) -> (same: bool)
    ensures
        same == same_ignoring_case(a@, b@),
{
    let x = chars_of(a);
    let y = chars_of(b);
    if x.len() != y.len() {
        return false;
    }
    let mut i: usize = 0;
    while i < x.len()
        invariant
            i <= x.len(),
            x@ == a@,
            y@ == b@,
            x.len() == y.len(),
            forall|k: int| 0 <= k < i ==> ascii_lower(#[trigger] a@[k]) == ascii_lower(b@[k]),
        decreases x.len() - i,
    {
        if to_ascii_lower(x[i]) != to_ascii_lower(y[i]) {
            assert(ascii_lower(a@[i as int]) != ascii_lower(b@[i as int]));
            return false;
        }
        i = i + 1;
    }
    true
}

/// A text to be matched as it stands, but for the case of ASCII letters.
#[derive(Debug)]
pub struct Literal {
    text: String,
}

impl View for Literal {
    type V = Seq<char>;

    closed spec fn view(&self) -> Seq<char> {
        self.text@
    }
}

impl Clone for Literal {
    fn clone(&self) -> (copy: Self)
        ensures
            copy@ == self@,
    {
        Literal { text: self.text.clone() }
    }
}

impl Literal {
    pub fn new(text: String) -> (literal: Self)
        ensures
            literal@ == text@,
    {
        Literal { text }
    }

    pub fn text(&self) -> (text: &str)
        ensures
            text@ == self@,
    {
        self.text.as_str()
    }

    /// The byte ranges of `text` where this literal stands, without overlap.
    pub fn match_ranges(&self, text: &str) -> (ranges: Vec<(usize, usize)>)
        ensures
            ranges@ == literal_ranges(text@, self@),
            valid_ranges(text@, ranges@),
    {
        let indexed = IndexedText::new(text);
        let literal = chars_of(self.text.as_str());
        let len: usize = literal.len();
        let ghost t = text@;
        let ghost q = self@;
        let ghost span = |i: int| (offset(t, i) as usize, offset(t, i + q.len()) as usize);
        let mut ranges: Vec<(usize, usize)> = Vec::new();
        proof {
            law_literal_ranges(t, q);
        }
        if len == 0 {
            assert(ranges@ =~= literal_ranges(t, q));
            return ranges;
        }
        let mut i: usize = 0;
        assert(ranges@ + literal_positions(t, q, 0).map_values(span) =~= literal_ranges(t, q));
        while len <= indexed.len() && i <= indexed.len() - len
            invariant
                indexed@ == t,
                literal@ == q,
                len == q.len(),
                len > 0,
                i <= t.len(),
                t.len() <= usize::MAX,
                span == (|i: int| (offset(t, i) as usize, offset(t, i + q.len()) as usize)),
                ranges@ + literal_positions(t, q, i as int).map_values(span) == literal_ranges(
                    t,
                    q,
                ),
            decreases t.len() - i,
        {
            let ghost before = ranges@;
            if literal_stands_at(&indexed, i, &literal) {
                ranges.push((indexed.offset(i), indexed.offset(i + len)));
                proof {
                    let rest = literal_positions(t, q, i + len);
                    assert(literal_positions(t, q, i as int) =~= seq![i as int] + rest);
                    assert(ranges@ + rest.map_values(span) =~= before + literal_positions(
                        t,
                        q,
                        i as int,
                    ).map_values(span));
                }
                i = i + len;
            } else {
                i = i + 1;
            }
        }
        proof {
            assert(literal_positions(t, q, i as int) =~= Seq::<int>::empty());
            assert(ranges@ =~= literal_ranges(t, q));
        }
        ranges
    }

    /// Whether this literal stands somewhere in `text`.
    pub fn matches(&self, text: &str) -> (found: bool)
        ensures
            found == (literal_ranges(text@, self@).len() > 0),
            found <==> exists|p: int| is_literal_at(text@, self@, p),
    {
        let ranges = self.match_ranges(text);
        proof {
            lemma_literal_ranges_some(text@, self@);
        }
        ranges.len() > 0
    }
}

fn literal_stands_at(text: &IndexedText, at: usize, literal: &Vec<char>) -> (stands: bool)
    requires
        0 < literal.len(),
        at + literal.len() <= text@.len(),
    ensures
        stands == is_literal_at(text@, literal@, at as int),
{
    let ghost part = text@.subrange(at as int, at + literal@.len());
    let count: usize = text.len();
    let mut j: usize = 0;
    while j < literal.len()
        invariant
            j <= literal.len(),
            at + literal.len() <= text@.len(),
            text@.len() == count,
            part == text@.subrange(at as int, at + literal@.len()),
            forall|k: int| 0 <= k < j ==> ascii_lower(#[trigger] part[k]) == ascii_lower(literal@[k]),
        decreases literal.len() - j,
    {
        if to_ascii_lower(text.char_at(at + j)) != to_ascii_lower(literal[j]) {
            assert(ascii_lower(part[j as int]) != ascii_lower(literal@[j as int]));
            return false;
        }
        j = j + 1;
    }
    assert(same_ignoring_case(part, literal@));
    true
}

/// The byte ranges of `text` where one of `literals` stands.
pub fn match_literal_ranges(text: &str, literals: &Vec<Literal>) -> (ranges: Vec<(usize, usize)>)
    ensures
        ranges@ == literals_ranges(text@, literal_texts(literals@)),
        valid_ranges(text@, ranges@),
{
    let ghost list = literal_texts(literals@);
    let mut ranges: Vec<(usize, usize)> = Vec::new();
    let mut i: usize = 0;
    assert(list.take(0) =~= Seq::<Seq<char>>::empty());
    while i < literals.len()
        invariant
            i <= literals.len(),
            list == literal_texts(literals@),
            ranges@ == literals_ranges(text@, list.take(i as int)),
            valid_ranges(text@, ranges@),
        decreases literals.len() - i,
    {
        let mut found = literals[i].match_ranges(text);
        proof {
            lemma_valid_concat(text@, ranges@, found@);
        }
        ranges.append(&mut found);
        assert(list.take(i + 1).drop_last() =~= list.take(i as int));
        i = i + 1;
    }
    assert(list.take(i as int) =~= list);
    ranges
}

} // verus!
