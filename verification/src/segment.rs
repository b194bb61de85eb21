//! Splitting an expression's text into tokens.
//!
//! The tokenizer alternates between expecting a number and expecting an
//! operator. Spaces before a token are skipped. A parenthesis is always a
//! token of its own and leaves the expectation unchanged. Where a number is
//! expected, the token is an optional `-` followed by the longest run of
//! digits and points (possibly empty); where an operator is expected, the
//! token is the next single character.
use vstd::prelude::*;
use crate::literal::is_dec_digit;
use vstd::string::StringSliceAdditionalSpecFns;
use vstd::utf8::{
    encode_scalar, encode_utf8, has_width_1_encoding, has_width_2_encoding, has_width_3_encoding,
    is_ascii_chars, is_ascii_chars_encode_utf8,
};

verus! {

/// What the tokenizer expects next.
#[derive(PartialEq, Eq, Structural)]
pub enum SegmentorState {
    ExpNum,
    ExpOp,
}

pub open spec fn is_paren(c: char) -> bool {
    c == '(' || c == ')'
}

/// A character that may continue a number: a digit or a point.
pub open spec fn is_numeric_char(c: char) -> bool {
    is_dec_digit(c) || c == '.'
}

/// The first index at or after `i` that does not hold a space.
pub open spec fn skip_spaces(s: Seq<char>, i: int) -> int
    decreases s.len() - i,
{
    if 0 <= i < s.len() && s[i] == ' ' {
        skip_spaces(s, i + 1)
    } else {
        i
    }
}

/// The end of the run of digits and points that starts at `k`.
pub open spec fn numeric_end(s: Seq<char>, k: int) -> int
    decreases s.len() - k,
{
    if 0 <= k < s.len() && is_numeric_char(s[k]) {
        numeric_end(s, k + 1)
    } else {
        k
    }
}

/// The tokenizer at position `i` (counted in characters) finds only
/// spaces before the end: this is where it cannot go on.
pub open spec fn step_stuck(s: Seq<char>, i: int) -> bool {
    0 <= i < s.len() && skip_spaces(s, i) >= s.len()
}

/// One step of the tokenizer at position `i` in state `st`: the token, the
/// position after it and the next state, or `None` at the end of the text.
pub open spec fn step(s: Seq<char>, i: int, st: SegmentorState) -> Option<
    (Seq<char>, int, SegmentorState),
> {
    let j = skip_spaces(s, i);
    if !(0 <= i < s.len()) || j >= s.len() {
        None
    } else if is_paren(s[j]) {
        Some((s.subrange(j, j + 1), j + 1, st))
    } else if st == SegmentorState::ExpNum {
        let start = if s[j] == '-' {
            j + 1
        } else {
            j
        };
        let e = numeric_end(s, start);
        Some((s.subrange(j, e), e, SegmentorState::ExpOp))
    } else {
        Some((s.subrange(j, j + 1), j + 1, SegmentorState::ExpNum))
    }
}

pub open spec fn state_rank(st: SegmentorState) -> int {
    if st == SegmentorState::ExpNum {
        1
    } else {
        0
    }
}

pub proof fn lemma_skip_spaces(s: Seq<char>, i: int)
    requires
        0 <= i <= s.len(),
    ensures
        i <= skip_spaces(s, i) <= s.len(),
        forall|k: int| i <= k < skip_spaces(s, i) ==> s[k] == ' ',
        skip_spaces(s, i) < s.len() ==> s[skip_spaces(s, i)] != ' ',
    decreases s.len() - i,
{
    if i < s.len() && s[i] == ' ' {
        lemma_skip_spaces(s, i + 1);
    }
}

pub proof fn lemma_numeric_end(s: Seq<char>, k: int)
    requires
        0 <= k <= s.len(),
    ensures
        k <= numeric_end(s, k) <= s.len(),
        forall|m: int| k <= m < numeric_end(s, k) ==> is_numeric_char(#[trigger] s[m]),
        numeric_end(s, k) < s.len() ==> !is_numeric_char(s[numeric_end(s, k)]),
    decreases s.len() - k,
{
    if k < s.len() && is_numeric_char(s[k]) {
        lemma_numeric_end(s, k + 1);
    }
}

/// Each step moves forward, or stays put while turning from expecting a
/// number to expecting an operator.
pub proof fn lemma_step_progress(s: Seq<char>, i: int, st: SegmentorState)
    ensures
        step(s, i, st) matches Some((t, i2, st2)) ==> {
            &&& i2 <= s.len()
            &&& (i < i2 || (i == i2 && st == SegmentorState::ExpNum && st2
                == SegmentorState::ExpOp))
        },
{
    if 0 <= i < s.len() {
        lemma_skip_spaces(s, i);
        let j = skip_spaces(s, i);
        if j < s.len() {
            if s[j] == '-' {
                lemma_numeric_end(s, j + 1);
            } else {
                lemma_numeric_end(s, j);
            }
        }
    }
}

/// The tokens that the tokenizer yields from position `i` in state `st`.
pub open spec fn segments_from(s: Seq<char>, i: int, st: SegmentorState) -> Seq<Seq<char>>
    decreases s.len() - i, state_rank(st),
{
    match step(s, i, st) {
        None => seq![],
        Some((t, i2, st2)) => {
            proof {
                lemma_step_progress(s, i, st);
            }
            seq![t] + segments_from(s, i2, st2)
        },
    }
}

/// The tokens of a whole text.
pub open spec fn segments(s: Seq<char>) -> Seq<Seq<char>> {
    segments_from(s, 0, SegmentorState::ExpNum)
}

/// The text with every space removed.
pub open spec fn without_spaces(s: Seq<char>) -> Seq<char>
    decreases s.len(),
{
    if s.len() == 0 {
        s
    } else if s[0] == ' ' {
        without_spaces(s.drop_first())
    } else {
        seq![s[0]] + without_spaces(s.drop_first())
    }
}

proof fn lemma_without_spaces_concat(a: Seq<char>, b: Seq<char>)
    ensures
        without_spaces(a + b) == without_spaces(a) + without_spaces(b),
    decreases a.len(),
{
    if a.len() == 0 {
        assert(a + b =~= b);
        assert(without_spaces(a) + without_spaces(b) =~= without_spaces(b));
    } else {
        assert((a + b).drop_first() =~= a.drop_first() + b);
        assert((a + b)[0] == a[0]);
        lemma_without_spaces_concat(a.drop_first(), b);
        if a[0] != ' ' {
            assert(seq![a[0]] + (without_spaces(a.drop_first()) + without_spaces(b)) =~= (seq![a[0]]
                + without_spaces(a.drop_first())) + without_spaces(b));
        }
    }
}

proof fn lemma_without_spaces_of_spaces(a: Seq<char>)
    requires
        forall|k: int| 0 <= k < a.len() ==> a[k] == ' ',
    ensures
        without_spaces(a) =~= Seq::<char>::empty(),
    decreases a.len(),
{
    if a.len() > 0 {
        lemma_without_spaces_of_spaces(a.drop_first());
    }
}

proof fn lemma_without_spaces_of_non_spaces(a: Seq<char>)
    requires
        forall|k: int| 0 <= k < a.len() ==> a[k] != ' ',
    ensures
        without_spaces(a) =~= a,
    decreases a.len(),
{
    if a.len() > 0 {
        lemma_without_spaces_of_non_spaces(a.drop_first());
        assert(a =~= seq![a[0]] + a.drop_first());
    }
}

/// From position `i` on, the tokens put back together are the rest of the
/// text without its spaces.
proof fn lemma_segments_from_keep_non_spaces(s: Seq<char>, i: int, st: SegmentorState)
    requires
        0 <= i <= s.len(),
    ensures
        segments_from(s, i, st).flatten() == without_spaces(s.skip(i)),
    decreases s.len() - i, state_rank(st),
{
    lemma_step_progress(s, i, st);
    lemma_skip_spaces(s, i);
    let j = skip_spaces(s, i);
    match step(s, i, st) {
        None => {
            if i < s.len() {
                lemma_without_spaces_of_spaces(s.skip(i));
            } else {
                assert(s.skip(i) =~= Seq::<char>::empty());
            }
        },
        Some((t, i2, st2)) => {
            lemma_segments_from_keep_non_spaces(s, i2, st2);
            let rest = segments_from(s, i2, st2);
            assert((seq![t] + rest).first() == t);
            assert((seq![t] + rest).drop_first() =~= rest);
            if !is_paren(s[j]) && st == SegmentorState::ExpNum {
                if s[j] == '-' {
                    lemma_numeric_end(s, j + 1);
                } else {
                    lemma_numeric_end(s, j);
                }
            }
            assert(t == s.subrange(j, i2));
            assert forall|k: int| 0 <= k < t.len() implies t[k] != ' ' by {
                assert(t[k] == s[j + k]);
                if k > 0 {
                    assert(is_numeric_char(s[j + k]));
                }
            }
            let spaces = s.subrange(i, j);
            assert forall|k: int| 0 <= k < spaces.len() implies spaces[k] == ' ' by {
                assert(spaces[k] == s[i + k]);
            }
            assert(s.skip(i) =~= spaces + (t + s.skip(i2)));
            lemma_without_spaces_concat(spaces, t + s.skip(i2));
            lemma_without_spaces_concat(t, s.skip(i2));
            lemma_without_spaces_of_spaces(spaces);
            lemma_without_spaces_of_non_spaces(t);
            assert(without_spaces(s.skip(i)) =~= t + without_spaces(s.skip(i2)));
        },
    }
}

/// Tokenizing loses nothing but spaces: the tokens, put back together in
/// order, are the text with its spaces removed.
pub proof fn segments_keep_all_but_spaces(s: Seq<char>)
    ensures
        segments(s).flatten() == without_spaces(s),
{
    lemma_segments_from_keep_non_spaces(s, 0, SegmentorState::ExpNum);
    assert(s.skip(0) =~= s);
}

/// Where the text does not end in a space, the tokenizer never finds only
/// spaces ahead of it.
pub proof fn lemma_never_stuck(s: Seq<char>, i: int)
    requires
        s.len() == 0 || s.last() != ' ',
    ensures
        !step_stuck(s, i),
{
    if 0 <= i < s.len() {
        lemma_skip_spaces(s, i);
        if skip_spaces(s, i) >= s.len() {
            assert(s[s.len() - 1] == ' ');
        }
    }
}

/// A character with a one-byte encoding.
pub open spec fn is_ascii_char(c: char) -> bool {
    c <= '\u{7f}'
}

proof fn lemma_encode_concat(a: Seq<char>, b: Seq<char>)
    ensures
        encode_utf8(a + b) == encode_utf8(a) + encode_utf8(b),
    decreases a.len(),
{
    if a.len() == 0 {
        assert(a + b =~= b);
        assert(encode_utf8(a) + encode_utf8(b) =~= encode_utf8(b));
    } else {
        assert((a + b).drop_first() =~= a.drop_first() + b);
        assert((a + b)[0] == a[0]);
        lemma_encode_concat(a.drop_first(), b);
        let e = encode_scalar(a[0] as u32);
        assert(e + (encode_utf8(a.drop_first()) + encode_utf8(b)) =~= (e + encode_utf8(
            a.drop_first(),
        )) + encode_utf8(b));
    }
}

/// The first byte of a character's encoding is the character itself where
/// it is ASCII, and at least 0x80 otherwise.
proof fn lemma_encode_first_byte(c: char)
    ensures
        encode_scalar(c as u32).len() >= 1,
        is_ascii_char(c) ==> encode_scalar(c as u32)[0] as int == c as int,
        !is_ascii_char(c) ==> encode_scalar(c as u32)[0] >= 0x80,
{
    let v = c as u32;
    if has_width_1_encoding(v) {
        assert((v & 0x7F) as u8 == v) by (bit_vector)
            requires
                v <= 0x7F,
        ;
    } else if has_width_2_encoding(v) {
        let y = ((v >> 6) & 0x1F) as u8;
        assert(0xC0 | y >= 0x80) by (bit_vector);
    } else if has_width_3_encoding(v) {
        let y = ((v >> 12) & 0x0F) as u8;
        assert(0xE0 | y >= 0x80) by (bit_vector);
    } else {
        let y = ((v >> 18) & 0x7) as u8;
        assert(0xF0 | y >= 0x80) by (bit_vector);
    }
}

/// Where the first `k` characters are ASCII, byte `k` is character `k`
/// itself if that is ASCII, and at least 0x80 otherwise.
pub proof fn lemma_byte_at(s: Seq<char>, k: int)
    requires
        0 <= k < s.len(),
        is_ascii_chars(s.take(k)),
    ensures
        k < encode_utf8(s).len(),
        is_ascii_char(s[k]) ==> encode_utf8(s)[k] as int == s[k] as int,
        !is_ascii_char(s[k]) ==> encode_utf8(s)[k] >= 0x80,
{
    assert(s =~= s.take(k) + s.skip(k));
    lemma_encode_concat(s.take(k), s.skip(k));
    is_ascii_chars_encode_utf8(s.take(k));
    lemma_encode_first_byte(s[k]);
    assert(s.skip(k)[0] == s[k]);
    assert(encode_utf8(s.skip(k)) == encode_scalar(s[k] as u32) + encode_utf8(s.skip(k).drop_first()));
    assert(encode_utf8(s)[k] == encode_utf8(s.skip(k))[0]);
}

/// Where all the characters are ASCII, there is one byte per character.
pub proof fn lemma_ascii_len(s: Seq<char>)
    requires
        is_ascii_chars(s),
    ensures
        encode_utf8(s).len() == s.len(),
{
    is_ascii_chars_encode_utf8(s);
}

/// The tokenizer cannot take a step at position `i` in state `st`: only
/// spaces are left, or an operator is expected and the next character is
/// not ASCII.
pub open spec fn step_fails(s: Seq<char>, i: int, st: SegmentorState) -> bool {
    ||| step_stuck(s, i)
    ||| {
        let j = skip_spaces(s, i);
        &&& 0 <= i < s.len()
        &&& j < s.len()
        &&& !is_paren(s[j])
        &&& st == SegmentorState::ExpOp
        &&& !is_ascii_char(s[j])
    }
}

/// On an ASCII text that does not end in a space the tokenizer never fails.
pub proof fn lemma_ascii_text_never_fails(s: Seq<char>, i: int, st: SegmentorState)
    requires
        is_ascii_chars(s),
        s.len() == 0 || s.last() != ' ',
    ensures
        !step_fails(s, i, st),
{
    lemma_never_stuck(s, i);
    if 0 <= i < s.len() {
        lemma_skip_spaces(s, i);
    }
}

/// What one step of the tokenizer reads, said character by character: the
/// token is the piece of text right after the spaces at the position. A
/// parenthesis is a token of its own and keeps the expectation. Where an
/// operator is expected the token is the one next character. Where a number
/// is expected the token is the longest run of digits and points, led by a
/// `-` wherever the text has one there (whatever came before it), and an
/// operator is expected next.
pub proof fn step_reads_tokens(s: Seq<char>, i: int, st: SegmentorState)
    requires
        0 <= i < s.len(),
        !step_stuck(s, i),
    ensures
        step(s, i, st) matches Some((t, i2, st2)) && ({
            let j = i2 - t.len();
            &&& i <= j < s.len()
            &&& i2 <= s.len()
            &&& t == s.subrange(j, i2)
            &&& (forall|m: int| i <= m < j ==> s[m] == ' ')
            &&& s[j] != ' '
            &&& (is_paren(s[j]) ==> t.len() == 1 && st2 == st)
            &&& (!is_paren(s[j]) && st == SegmentorState::ExpOp ==> t.len() == 1 && st2
                == SegmentorState::ExpNum)
            &&& (!is_paren(s[j]) && st == SegmentorState::ExpNum ==> {
                &&& st2 == SegmentorState::ExpOp
                &&& (s[j] == '-' || is_numeric_char(s[j]) ==> t.len() >= 1)
                &&& (t.len() > 0 && s[j] != '-' ==> is_numeric_char(t[0]))
                &&& (forall|m: int| 0 < m < t.len() ==> is_numeric_char(#[trigger] t[m]))
                &&& (i2 < s.len() ==> !is_numeric_char(s[i2]))
            })
        }),
{
    lemma_skip_spaces(s, i);
    let j = skip_spaces(s, i);
    if !is_paren(s[j]) && st == SegmentorState::ExpNum {
        if s[j] == '-' {
            lemma_numeric_end(s, j + 1);
        } else {
            lemma_numeric_end(s, j);
        }
        let (t, e, st2) = step(s, i, st)->0;
        assert forall|m: int| 0 < m < t.len() implies is_numeric_char(#[trigger] t[m]) by {
            assert(t[m] == s[j + m]);
        }
    }
}

/// A tokenizer over a text.
pub struct Segmentor<'a> {
    src: &'a str,
    state: SegmentorState,
    i: usize,
    ascii: bool,
}

impl<'a> Segmentor<'a> {
    /// The text being split.
    pub closed spec fn text(&self) -> Seq<char> {
        self.src@
    }

    /// How many characters have been consumed.
    pub closed spec fn pos(&self) -> int {
        self.i as int
    }

    /// What the tokenizer expects next.
    pub closed spec fn expects(&self) -> SegmentorState {
        self.state
    }

    /// A well-formed tokenizer's position lies within its text.
    pub proof fn lemma_wf_pos(&self)
        requires
            self.wf(),
        ensures
            0 <= self.pos() <= self.text().len(),
    {
    }

    /// The position lies within the text and everything consumed is ASCII.
    pub closed spec fn wf(&self) -> bool {
        &&& self.i <= self.src@.len()
        &&& is_ascii_chars(self.src@.take(self.i as int))
        &&& self.ascii == vstd::string::is_ascii(self.src)
    }

    /// A tokenizer at the start of `src`, expecting a number.
    pub fn init(src: &'a str) -> (r: Self)
        ensures
            r.wf(),
            0 <= r.pos() <= r.text().len(),
            r.text() == src@,
            r.pos() == 0,
            r.expects() == SegmentorState::ExpNum,
    {
        let ascii = src.is_ascii();
        assert(src@.take(0) =~= Seq::<char>::empty());
        Self { src: src, state: SegmentorState::ExpNum, i: 0, ascii: ascii }
    }

    fn inc(&mut self)
        requires
            old(self).i < usize::MAX,
        ensures
            final(self).i == old(self).i + 1,
            final(self).src == old(self).src,
            final(self).state == old(self).state,
            final(self).ascii == old(self).ascii,
    {
        self.i += 1;
    }

    /// The characters `from..to` of the text, which are ASCII.
    fn slice(&self, from: usize, to: usize) -> (r: &'a str)
        requires
            self.ascii == vstd::string::is_ascii(self.src),
            from <= to <= self.src@.len(),
        ensures
            r@ == self.src@.subrange(from as int, to as int),
    {
        if self.ascii {
            self.src.substring_ascii(from, to)
        } else {
            self.src.substring_char(from, to)
        }
    }

    /// The next token, or `None` at the end of the text.
    pub fn next(&mut self) -> (r: Option<&'a str>)
        requires
            old(self).wf(),
            !step_fails(old(self).text(), old(self).pos(), old(self).expects()),
        ensures
            final(self).wf(),
            0 <= final(self).pos() <= final(self).text().len(),
            final(self).text() == old(self).text(),
            match step(old(self).text(), old(self).pos(), old(self).expects()) {
                None => r is None && final(self).pos() == old(self).pos() && final(self).expects()
                    == old(self).expects(),
                Some((t, i2, st2)) => r matches Some(x) && x@ == t && final(self).pos() == i2
                    && final(self).expects() == st2,
            },
    {
        broadcast use vstd::string::group_string_axioms;

        let ghost s = self.src@;
        let bytes = self.src.as_bytes();
        assert(bytes@ == encode_utf8(s));
        if self.i >= bytes.len() {
            proof {
                if self.i < s.len() {
                    lemma_byte_at(s, self.i as int);
                }
            }
            return None;
        }
        proof {
            if self.i >= s.len() {
                assert(s.take(self.i as int) =~= s);
                lemma_ascii_len(s);
            }
            lemma_skip_spaces(s, self.i as int);
        }
        while bytes[self.i] == ' ' as u8
            invariant
                s == self.src@,
                bytes@ == encode_utf8(s),
                self.i < s.len(),
                self.i < bytes@.len(),
                is_ascii_chars(s.take(self.i as int)),
                skip_spaces(s, old(self).i as int) < s.len(),
                s[skip_spaces(s, old(self).i as int)] != ' ',
                old(self).i <= self.i <= skip_spaces(s, old(self).i as int),
                skip_spaces(s, self.i as int) == skip_spaces(s, old(self).i as int),
                self.state == old(self).state,
                self.src == old(self).src,
                self.ascii == old(self).ascii,
            decreases s.len() - self.i,
        {
            proof {
                lemma_byte_at(s, self.i as int);
            }
            assert(s[self.i as int] == ' ');
            assert(s.take(self.i + 1) =~= s.take(self.i as int).push(' '));
            self.i += 1;
            proof {
                lemma_byte_at(s, self.i as int);
            }
        }
        let ghost j = self.i as int;
        proof {
            lemma_byte_at(s, j);
        }
        let curr = bytes[self.i];
        if curr == '(' as u8 || curr == ')' as u8 {
            assert(is_paren(s[j]));
            let ans = Some(self.slice(self.i, self.i + 1));
            assert(s.take(j + 1) =~= s.take(j).push(s[j]));
            self.inc();
            ans
        } else if self.state == SegmentorState::ExpNum {
            assert(!is_paren(s[j]));
            let mut num_len: usize = 0;
            if curr == '-' as u8 {
                num_len = 1;
                assert(s[j] == '-');
                assert(s.take(j + 1) =~= s.take(j).push(s[j]));
            } else {
                assert(s[j] != '-');
            }
            let start = self.i + num_len;
            proof {
                lemma_numeric_end(s, start as int);
            }
            while self.i + num_len < bytes.len() && crate::expr::is_numeric(bytes[self.i + num_len])
                invariant
                    s == self.src@,
                    bytes@ == encode_utf8(s),
                    self.i < s.len(),
                    self.i == j,
                    start <= self.i + num_len,
                    self.i + num_len <= numeric_end(s, start as int),
                    numeric_end(s, start as int) <= s.len(),
                    bytes@.len() <= usize::MAX,
                    self.i + num_len <= bytes@.len(),
                    numeric_end(s, self.i + num_len) == numeric_end(s, start as int),
                    is_ascii_chars(s.take(self.i + num_len)),
                decreases s.len() - self.i - num_len,
            {
                proof {
                    if self.i + num_len == s.len() {
                        assert(s.take(s.len() as int) =~= s);
                        lemma_ascii_len(s);
                    }
                    lemma_byte_at(s, self.i + num_len);
                }
                assert(is_numeric_char(s[self.i + num_len]));
                assert(s.take(self.i + num_len + 1) =~= s.take(self.i + num_len).push(
                    s[self.i + num_len],
                ));
                proof {
                    lemma_numeric_end(s, self.i + num_len + 1);
                }
                num_len += 1;
            }
            proof {
                if self.i + num_len < s.len() {
                    lemma_byte_at(s, self.i + num_len);
                }
            }
            let ans = Some(self.slice(self.i, self.i + num_len));
            self.i += num_len;
            self.state = SegmentorState::ExpOp;
            ans
        } else {
            assert(is_ascii_char(s[j]));
            let ans = Some(self.slice(self.i, self.i + 1));
            assert(s.take(j + 1) =~= s.take(j).push(s[j]));
            self.inc();
            self.state = SegmentorState::ExpNum;
            ans
        }
    }
}

} // verus!
