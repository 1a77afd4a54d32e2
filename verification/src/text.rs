//! Text as a sequence of characters with their UTF-8 byte offsets.
//!
//! Ranges in this crate are byte offsets into a text. The functions here say
//! what those offsets mean in terms of characters, and hold the few character
//! operations that the rest of the crate is built on.

use vstd::prelude::*;
use vstd::utf8::*;

verus! {

/// The number of bytes that `c` takes in UTF-8.
pub open spec fn utf8_len(c: char) -> nat {
    encode_scalar(c as u32).len()
}

/// The number of bytes that `t` takes in UTF-8.
pub open spec fn byte_len(t: Seq<char>) -> nat {
    encode_utf8(t).len()
}

/// The byte offset at which the character number `k` of `t` starts.
pub open spec fn offset(t: Seq<char>, k: int) -> nat {
    byte_len(t.take(k))
}

/// `b` is the start of a character of `t`, or the end of `t`.
pub open spec fn on_boundary(t: Seq<char>, b: int) -> bool {
    exists|k: int| 0 <= k <= t.len() && #[trigger] offset(t, k) == b
}

/// `k` is the first character of `t` that starts at or after byte `b`, or the
/// length of `t` where none does.
pub open spec fn is_char_index(t: Seq<char>, b: int, k: int) -> bool {
    &&& 0 <= k <= t.len()
    &&& k < t.len() ==> offset(t, k) >= b
    &&& forall|j: int| 0 <= j < k ==> #[trigger] offset(t, j) < b
}

/// The character index that byte offset `b` stands for.
pub open spec fn char_index(t: Seq<char>, b: int) -> int {
    choose|k: int| is_char_index(t, b, k)
}

/// The part of `t` between the byte offsets `a` and `b`.
pub open spec fn slice(t: Seq<char>, a: int, b: int) -> Seq<char> {
    t.subrange(char_index(t, a), char_index(t, b))
}

pub proof fn lemma_utf8_len_bounds(c: char)
    ensures
        1 <= utf8_len(c) <= 4,
{
    char_is_scalar(c);
}

pub proof fn lemma_encode_concat(a: Seq<char>, b: Seq<char>)
    ensures
        encode_utf8(a + b) == encode_utf8(a) + encode_utf8(b),
    decreases a.len(),
{
    if a.len() == 0 {
        assert(a + b =~= b);
        assert(encode_utf8(a) + encode_utf8(b) =~= encode_utf8(b));
    } else {
        assert((a + b).drop_first() =~= a.drop_first() + b);
        lemma_encode_concat(a.drop_first(), b);
        assert(encode_utf8(a + b) =~= encode_utf8(a) + encode_utf8(b));
    }
}

pub proof fn lemma_byte_len_concat(a: Seq<char>, b: Seq<char>)
    ensures
        byte_len(a + b) == byte_len(a) + byte_len(b),
{
    lemma_encode_concat(a, b);
}

pub proof fn lemma_byte_len_push(t: Seq<char>, c: char)
    ensures
        byte_len(t.push(c)) == byte_len(t) + utf8_len(c),
{
    let one = seq![c];
    assert(t.push(c) =~= t + one);
    lemma_byte_len_concat(t, one);
    assert(one.drop_first() =~= Seq::<char>::empty());
    assert(encode_utf8(one.drop_first()) =~= Seq::<u8>::empty());
    assert(encode_utf8(one) =~= encode_scalar(c as u32));
}

pub proof fn lemma_offset_step(t: Seq<char>, k: int)
    requires
        0 <= k < t.len(),
    ensures
        offset(t, k + 1) == offset(t, k) + utf8_len(t[k]),
        offset(t, k) < offset(t, k + 1),
{
    assert(t.take(k + 1) =~= t.take(k).push(t[k]));
    lemma_byte_len_push(t.take(k), t[k]);
    lemma_utf8_len_bounds(t[k]);
}

pub proof fn lemma_offset_ends(t: Seq<char>)
    ensures
        offset(t, 0) == 0,
        offset(t, t.len() as int) == byte_len(t),
{
    assert(t.take(0) =~= Seq::<char>::empty());
    assert(t.take(t.len() as int) =~= t);
}

pub proof fn lemma_offset_increasing(t: Seq<char>, i: int, j: int)
    requires
        0 <= i <= j <= t.len(),
    ensures
        offset(t, i) <= offset(t, j),
        i < j ==> offset(t, i) < offset(t, j),
        j - i <= offset(t, j) - offset(t, i),
    decreases j - i,
{
    if i < j {
        lemma_offset_increasing(t, i, j - 1);
        lemma_offset_step(t, j - 1);
    }
}

/// Offsets grow strictly with the character index, over the whole text.
pub proof fn lemma_offsets(t: Seq<char>)
    ensures
        forall|i: int, j: int|
            0 <= i < j <= t.len() ==> #[trigger] offset(t, i) < #[trigger] offset(t, j),
        offset(t, 0) == 0,
        offset(t, t.len() as int) == byte_len(t),
{
    assert forall|i: int, j: int| 0 <= i < j <= t.len() implies #[trigger] offset(t, i)
        < #[trigger] offset(t, j) by {
        lemma_offset_increasing(t, i, j);
    }
    lemma_offset_ends(t);
}

proof fn lemma_char_index_exists(t: Seq<char>, b: int, n: int) -> (k: int)
    requires
        0 <= n <= t.len(),
    ensures
        0 <= k <= n,
        k < n ==> offset(t, k) >= b,
        forall|j: int| 0 <= j < k ==> #[trigger] offset(t, j) < b,
    decreases n,
{
    if n == 0 {
        0
    } else {
        let k = lemma_char_index_exists(t, b, n - 1);
        if k < n - 1 || offset(t, n - 1) >= b {
            k
        } else {
            n
        }
    }
}

/// [`char_index`] is well defined: one index satisfies [`is_char_index`], and
/// no other does.
pub proof fn lemma_char_index(t: Seq<char>, b: int)
    ensures
        is_char_index(t, b, char_index(t, b)),
        forall|k: int| #[trigger] is_char_index(t, b, k) ==> k == char_index(t, b),
{
    let w = lemma_char_index_exists(t, b, t.len() as int);
    assert(is_char_index(t, b, w));
    let c = char_index(t, b);
    assert(is_char_index(t, b, c));
    assert forall|k: int| #[trigger] is_char_index(t, b, k) implies k == c by {
        if k < c {
            assert(offset(t, k) < b);
        }
        if c < k {
            assert(offset(t, c) < b);
        }
    }
}

/// The index that the offset of character `k` stands for is `k`.
pub proof fn lemma_char_index_of_offset(t: Seq<char>, k: int)
    requires
        0 <= k <= t.len(),
    ensures
        char_index(t, offset(t, k) as int) == k,
{
    lemma_offsets(t);
    lemma_char_index(t, offset(t, k) as int);
    assert(is_char_index(t, offset(t, k) as int, k));
}

/// A later offset never stands for an earlier index.
pub proof fn lemma_char_index_monotone(t: Seq<char>, a: int, b: int)
    requires
        a <= b,
    ensures
        0 <= char_index(t, a) <= char_index(t, b) <= t.len(),
{
    lemma_char_index(t, a);
    lemma_char_index(t, b);
    let i = char_index(t, a);
    let j = char_index(t, b);
    if j < i {
        assert(offset(t, j) < a);
    }
}

/// On a boundary, the index of the offset has that offset.
pub proof fn lemma_boundary_char_index(t: Seq<char>, b: int)
    requires
        on_boundary(t, b),
    ensures
        0 <= char_index(t, b) <= t.len(),
        offset(t, char_index(t, b)) == b,
        0 <= b <= byte_len(t),
{
    let k = choose|k: int| 0 <= k <= t.len() && #[trigger] offset(t, k) == b;
    lemma_char_index_of_offset(t, k);
    lemma_offset_ends(t);
    lemma_offset_increasing(t, k, t.len() as int);
}

/// A boundary after another one has a greater character index.
pub proof fn lemma_boundary_order(t: Seq<char>, a: int, b: int)
    requires
        on_boundary(t, a),
        on_boundary(t, b),
    ensures
        a < b <==> char_index(t, a) < char_index(t, b),
        a == b <==> char_index(t, a) == char_index(t, b),
{
    lemma_boundary_char_index(t, a);
    lemma_boundary_char_index(t, b);
    if a < b {
        lemma_char_index_monotone(t, a, b);
    } else {
        lemma_char_index_monotone(t, b, a);
    }
}

/// The bytes of texts add up, part by part; an ASCII character takes one, and others
/// two, three or four.
pub proof fn law_byte_len(a: Seq<char>, b: Seq<char>, c: char)
    ensures
        byte_len(a + b) == byte_len(a) + byte_len(b),
        byte_len(Seq::empty()) == 0,
        byte_len(seq![c]) == if c <= '\u{7f}' {
            1
        } else if c <= '\u{7ff}' {
            2
        } else if c <= '\u{ffff}' {
            3nat
        } else {
            4
        },
{
    lemma_byte_len_concat(a, b);
    let empty = Seq::<char>::empty();
    lemma_byte_len_push(empty, c);
    lemma_offset_ends(empty);
    assert(empty.push(c) =~= seq![c]);
    assert(empty.take(0) =~= empty);
    char_is_scalar(c);
}

/// A byte offset stands for the first character that does not start before it.
pub proof fn law_char_index(t: Seq<char>, b: int)
    ensures
        0 <= char_index(t, b) <= t.len(),
        char_index(t, b) < t.len() ==> byte_len(t.take(char_index(t, b))) >= b,
        forall|j: int| 0 <= j < char_index(t, b) ==> byte_len(#[trigger] t.take(j)) < b,
{
    lemma_char_index(t, b);
    assert forall|j: int| 0 <= j < char_index(t, b) implies byte_len(#[trigger] t.take(j)) < b by {
        assert(offset(t, j) < b);
    }
}

/// The text between the bytes of two characters is the characters between them.
pub proof fn law_slice(t: Seq<char>, i: int, j: int)
    requires
        0 <= i <= j <= t.len(),
    ensures
        slice(t, byte_len(t.take(i)) as int, byte_len(t.take(j)) as int) == t.subrange(i, j),
        on_boundary(t, byte_len(t.take(i)) as int),
{
    lemma_char_index_of_offset(t, i);
    lemma_char_index_of_offset(t, j);
    assert(offset(t, i) == byte_len(t.take(i)));
}

/// `part` stands somewhere in `line`, in one piece.
pub open spec fn shows(line: Seq<char>, part: Seq<char>) -> bool {
    exists|p: int|
        0 <= p && p + part.len() <= line.len() && #[trigger] line.subrange(p, p + part.len())
            == part
}

pub proof fn lemma_shows_at(line: Seq<char>, part: Seq<char>, p: int)
    requires
        0 <= p,
        p + part.len() <= line.len(),
        line.subrange(p, p + part.len()) == part,
    ensures
        shows(line, part),
{
}

pub proof fn lemma_shows_concat(a: Seq<char>, b: Seq<char>, part: Seq<char>)
    requires
        shows(a, part),
    ensures
        shows(a + b, part),
        shows(b + a, part),
{
    let p = choose|p: int|
        0 <= p && p + part.len() <= a.len() && #[trigger] a.subrange(p, p + part.len()) == part;
    assert((a + b).subrange(p, p + part.len()) =~= a.subrange(p, p + part.len()));
    lemma_shows_at(a + b, part, p);
    assert((b + a).subrange(b.len() + p, b.len() + p + part.len()) =~= a.subrange(
        p,
        p + part.len(),
    ));
    lemma_shows_at(b + a, part, b.len() + p);
}

/// What shows a text shows each part of it.
pub proof fn lemma_shows_part(line: Seq<char>, whole: Seq<char>, i: int, j: int)
    requires
        shows(line, whole),
        0 <= i <= j <= whole.len(),
    ensures
        shows(line, whole.subrange(i, j)),
{
    let p = choose|p: int|
        0 <= p && p + whole.len() <= line.len() && #[trigger] line.subrange(p, p + whole.len())
            == whole;
    let part = whole.subrange(i, j);
    assert(line.subrange(p + i, p + i + part.len()) =~= line.subrange(p, p + whole.len()).subrange(
        i,
        j,
    ));
    lemma_shows_at(line, part, p + i);
}

/// `String::push` appends one character.
pub assume_specification[ String::push ](s: &mut String, c: char)
    ensures
        final(s)@ == old(s)@.push(c),
;

/// The number of bytes that `c` takes in UTF-8.
pub fn char_len_utf8(c: char) -> (n: usize)
    ensures
        n == utf8_len(c),
{
    proof {
        char_is_scalar(c);
    }
    let v = c as u32;
    if v <= 0x7F {
        1
    } else if v <= 0x7FF {
        2
    } else if v <= 0xFFFF {
        3
    } else {
        4
    }
}

/// The characters of `text`, in order.
pub fn chars_of(text: &str) -> (chars: Vec<char>)
    ensures
        chars@ == text@,
{
    let mut chars: Vec<char> = Vec::new();
    for c in it: text.chars()
        invariant
            it.seq() == text@,
            chars@ == text@.take(it.index() as int),
    {
        chars.push(c);
        assert(text@.take(it.index() as int).push(c) =~= text@.take(it.index() as int + 1));
    }
    assert(text@.take(text@.len() as int) =~= text@);
    chars
}

/// The text made of `chars[from..to]`.
pub fn string_of(chars: &Vec<char>, from: usize, to: usize) -> (s: String)
    requires
        from <= to <= chars.len(),
    ensures
        s@ == chars@.subrange(from as int, to as int),
{
    let mut s = String::new();
    let mut i: usize = from;
    while i < to
        invariant
            from <= i <= to <= chars.len(),
            s@ == chars@.subrange(from as int, i as int),
        decreases to - i,
    {
        s.push(chars[i]);
        assert(chars@.subrange(from as int, i as int).push(chars@[i as int]) =~= chars@.subrange(
            from as int,
            i + 1,
        ));
        i = i + 1;
    }
    s
}

/// A text with the byte offset of each of its characters.
pub struct IndexedText {
    chars: Vec<char>,
    offsets: Vec<usize>,
}

impl View for IndexedText {
    type V = Seq<char>;

    closed spec fn view(&self) -> Seq<char> {
        self.chars@
    }
}

impl IndexedText {
    #[verifier::type_invariant]
    spec fn well_formed(&self) -> bool {
        &&& self.offsets@.len() == self.chars@.len() + 1
        &&& forall|k: int|
            0 <= k <= self.chars@.len() ==> #[trigger] self.offsets@[k] == offset(self.chars@, k)
    }

    pub fn new(text: &str) -> (indexed: Self)
        ensures
            indexed@ == text@,
            text@.len() <= byte_len(text@) <= usize::MAX,
    {
        let chars = chars_of(text);
        let total: usize = text.as_bytes().len();
        let mut offsets: Vec<usize> = Vec::new();
        let mut at: usize = 0;
        let mut i: usize = 0;
        offsets.push(0);
        proof {
            lemma_offset_ends(chars@);
            lemma_offset_increasing(chars@, 0, chars@.len() as int);
        }
        while i < chars.len()
            invariant
                i <= chars.len(),
                total == byte_len(chars@),
                at == offset(chars@, i as int),
                offsets@.len() == i + 1,
                forall|k: int| 0 <= k <= i ==> #[trigger] offsets@[k] == offset(chars@, k),
            decreases chars.len() - i,
        {
            proof {
                lemma_offset_step(chars@, i as int);
                lemma_offset_increasing(chars@, i + 1, chars@.len() as int);
                lemma_offset_ends(chars@);
            }
            at = at + char_len_utf8(chars[i]);
            offsets.push(at);
            i = i + 1;
        }
        IndexedText { chars, offsets }
    }

    /// The number of characters.
    pub fn len(&self) -> (n: usize)
        ensures
            n == self@.len(),
    {
        self.chars.len()
    }

    /// The number of bytes.
    pub fn byte_len(&self) -> (n: usize)
        ensures
            n == byte_len(self@),
    {
        proof {
            use_type_invariant(self);
            lemma_offset_ends(self.chars@);
        }
        self.offsets[self.chars.len()]
    }

    pub fn char_at(&self, k: usize) -> (c: char)
        requires
            k < self@.len(),
        ensures
            c == self@[k as int],
    {
        self.chars[k]
    }

    /// The byte offset at which character `k` starts.
    pub fn offset(&self, k: usize) -> (b: usize)
        requires
            k <= self@.len(),
        ensures
            b == offset(self@, k as int),
    {
        proof {
            use_type_invariant(self);
        }
        self.offsets[k]
    }

    /// The character index that byte offset `b` stands for, found by halving
    /// the range of candidates.
    pub fn char_index(&self, b: usize) -> (k: usize)
        ensures
            k == char_index(self@, b as int),
            k <= self@.len(),
    {
        proof {
            use_type_invariant(self);
            lemma_offsets(self@);
            lemma_char_index(self@, b as int);
        }
        let mut low: usize = 0;
        let mut high: usize = self.chars.len();
        while low < high
            invariant
                0 <= low <= high <= self.chars@.len(),
                self.offsets@.len() == self.chars@.len() + 1,
                forall|k: int|
                    0 <= k <= self.chars@.len() ==> #[trigger] self.offsets@[k] == offset(
                        self.chars@,
                        k,
                    ),
                forall|i: int, j: int|
                    0 <= i < j <= self.chars@.len() ==> #[trigger] offset(self.chars@, i)
                        < #[trigger] offset(self.chars@, j),
                forall|j: int| 0 <= j < low ==> #[trigger] offset(self.chars@, j) < b,
                high < self.chars@.len() ==> offset(self.chars@, high as int) >= b,
            decreases high - low,
        {
            let mid: usize = low + (high - low) / 2;
            if self.offsets[mid] < b {
                assert(offset(self.chars@, mid as int) < b);
                low = mid + 1;
            } else {
                assert(offset(self.chars@, mid as int) >= b);
                high = mid;
            }
        }
        assert(is_char_index(self@, b as int, low as int));
        low
    }

    /// The characters from index `from` up to index `to`.
    pub fn substring(&self, from: usize, to: usize) -> (s: String)
        requires
            from <= to <= self@.len(),
        ensures
            s@ == self@.subrange(from as int, to as int),
    {
        string_of(&self.chars, from, to)
    }
}

} // verus!
