//! How what is written is read: numerals, amounts with a unit, the words of a line, the bytes of
//! a record. None of this is used for writing; the laws of the other modules measure by it.

use vstd::arithmetic::power::{lemma_pow0, lemma_pow1, lemma_pow_adds, pow};
use vstd::prelude::*;

verus! {

/// `s` holds decimal digits, one at least, and nothing else.
pub open spec fn all_digits(s: Seq<char>) -> bool {
    s.len() > 0 && forall|i: int| 0 <= i < s.len() ==> '0' <= #[trigger] s[i] <= '9'
}

/// What decimal digits are worth: each counts by its place.
pub open spec fn worth(s: Seq<char>) -> int
    decreases s.len(),
{
    if s.len() == 0 {
        0
    } else {
        (s[0] as int - '0' as int) * pow(10, (s.len() - 1) as nat) + worth(s.drop_first())
    }
}

/// Digits as they are usually written, without a zero in front of others.
pub open spec fn is_plain(s: Seq<char>) -> bool {
    all_digits(s) && (s.len() == 1 || s[0] != '0')
}

/// Where `c` first stands in `s`, the length of `s` if it does not.
pub open spec fn until(s: Seq<char>, c: char) -> int
    decreases s.len(),
{
    if s.len() == 0 || s[0] == c {
        0
    } else {
        1 + until(s.drop_first(), c)
    }
}

/// How many digits stand behind the decimal point.
pub open spec fn decimals(s: Seq<char>) -> nat {
    let p = until(s, '.');
    if p < s.len() {
        (s.len() - p - 1) as nat
    } else {
        0
    }
}

/// The number that digits with or without a decimal point stand for.
pub open spec fn decimal_value(s: Seq<char>) -> real {
    let p = until(s, '.');
    (worth(s.take(p)) as real) + if p < s.len() {
        (worth(s.skip(p + 1)) as real) / (pow(10, decimals(s)) as real)
    } else {
        0 as real
    }
}

/// `s` starts with a sign.
pub open spec fn has_sign(s: Seq<char>) -> bool {
    s.len() > 0 && (s[0] == '-' || s[0] == '+')
}

/// `s` without the sign it may start with.
pub open spec fn without_sign(s: Seq<char>) -> Seq<char> {
    if has_sign(s) {
        s.skip(1)
    } else {
        s
    }
}

/// The number that digits behind an optional sign stand for.
pub open spec fn signed_number(s: Seq<char>) -> real {
    if s.len() > 0 && s[0] == '-' {
        -decimal_value(without_sign(s))
    } else {
        decimal_value(without_sign(s))
    }
}

/// The integer that digits behind an optional sign stand for.
pub open spec fn signed_worth(s: Seq<char>) -> int {
    if s.len() > 0 && s[0] == '-' {
        -worth(without_sign(s))
    } else {
        worth(without_sign(s))
    }
}

/// How many bytes a unit is, zero for what is no unit.
pub open spec fn unit_worth(c: char) -> nat {
    if c == 'B' {
        1
    } else if c == 'K' {
        1024
    } else if c == 'M' {
        1024 * 1024
    } else if c == 'G' {
        1024 * 1024 * 1024
    } else if c == 'T' {
        1024 * 1024 * 1024 * 1024
    } else {
        0
    }
}

/// The bytes that a text such as `1.50K` stands for.
pub open spec fn amount(text: Seq<char>) -> real {
    signed_number(text.drop_last()) * (unit_worth(text.last()) as real)
}

/// How far a number is from zero.
pub open spec fn size(x: real) -> real {
    if x < 0 as real {
        -x
    } else {
        x
    }
}

/// `text` tells the amount `x` as exactly as it should. Less than 1024 bytes are told in bytes
/// without what is beyond the point; more is told in the largest unit that it reaches, with two
/// decimals, and the text misses it by at most half of the last digit.
pub open spec fn tells(text: Seq<char>, x: real) -> bool {
    let body = without_sign(text.drop_last());
    let unit = unit_worth(text.last()) as real;
    &&& text.len() > 0
    &&& all_digits(body.take(until(body, '.')))
    &&& is_plain(body.take(until(body, '.')))
    &&& if size(x) < 1024 as real {
        &&& text.last() == 'B'
        &&& until(body, '.') == body.len()
        &&& size(amount(text)) <= size(x) < size(amount(text)) + (1 as real)
        &&& x < 0 as real ==> amount(text) <= 0 as real
        &&& x >= 0 as real ==> amount(text) >= 0 as real
    } else {
        &&& unit > 0 as real
        &&& text.last() != 'B'
        &&& unit <= size(x)
        &&& text.last() != 'T' ==> size(x) < unit * (1024 as real)
        &&& decimals(body) == 2
        &&& all_digits(body.skip(until(body, '.') + 1))
        &&& (200 as real) * size(amount(text) - x) <= unit
    }
}

/// `s` is a word: not empty, and without a blank.
pub open spec fn is_word(s: Seq<char>) -> bool {
    s.len() > 0 && forall|i: int| 0 <= i < s.len() ==> #[trigger] s[i] != ' '
}

/// `s` is made of blanks, one at least.
pub open spec fn is_gap(s: Seq<char>) -> bool {
    s.len() > 0 && forall|i: int| 0 <= i < s.len() ==> #[trigger] s[i] == ' '
}

/// In the column of the width `width` that starts at `at`, a line shows the text `s`: all of it
/// and blanks, or, if it is too long, as much of it as fits in front of an ellipsis. A blank
/// ends the column.
pub open spec fn shows(line: Seq<char>, at: int, width: int, s: Seq<char>) -> bool {
    &&& 0 <= at && at + width < line.len()
    &&& s.len() <= width ==> {
        &&& line.subrange(at, at + s.len()) == s
        &&& forall|j: int| at + s.len() <= j < at + width ==> #[trigger] line[j] == ' '
    }
    &&& s.len() > width ==> {
        &&& line.subrange(at, at + width - 1) == s.take(width - 1)
        &&& line[at + width - 1] == '…'
    }
    &&& line[at + width] == ' '
}

/// The part of a line behind its last blank.
pub open spec fn last_word(s: Seq<char>) -> Seq<char>
    decreases s.len(),
{
    if s.len() == 0 || s.last() == ' ' {
        Seq::empty()
    } else {
        last_word(s.drop_last()).push(s.last())
    }
}

/// `s` without the blanks at its end.
pub open spec fn trimmed(s: Seq<char>) -> Seq<char>
    decreases s.len(),
{
    if s.len() > 0 && s.last() == ' ' {
        trimmed(s.drop_last())
    } else {
        s
    }
}

/// The word of a line that has `k` words behind it.
pub open spec fn word_from_end(s: Seq<char>, k: nat) -> Seq<char>
    decreases k,
{
    if k == 0 {
        last_word(s)
    } else {
        word_from_end(trimmed(s.take(s.len() - last_word(s).len())), (k - 1) as nat)
    }
}

/// `s` without the blanks at its start.
pub open spec fn unindented(s: Seq<char>) -> Seq<char>
    decreases s.len(),
{
    if s.len() > 0 && s[0] == ' ' {
        unindented(s.drop_first())
    } else {
        s
    }
}

/// The word of a line that has `k` words in front of it.
pub open spec fn word(s: Seq<char>, k: nat) -> Seq<char>
    decreases k,
{
    if k == 0 {
        s.take(until(s, ' '))
    } else {
        word(unindented(s.skip(until(s, ' '))), (k - 1) as nat)
    }
}

/// The unsigned number in the eight bytes of a record from `at` on, the lowest first.
pub open spec fn eight_bytes(b: Seq<u8>, at: int) -> int {
    b[at] + 0x100 * b[at + 1] + 0x1_0000 * b[at + 2] + 0x100_0000 * b[at + 3] + 0x1_0000_0000 * b[at
        + 4] + 0x100_0000_0000 * b[at + 5] + 0x1_0000_0000_0000 * b[at + 6]
        + 0x100_0000_0000_0000 * b[at + 7]
}

/// The unsigned number in the four bytes of a record from `at` on, the lowest first.
pub open spec fn four_bytes(b: Seq<u8>, at: int) -> int {
    b[at] + 0x100 * b[at + 1] + 0x1_0000 * b[at + 2] + 0x100_0000 * b[at + 3]
}

pub(crate) proof fn lemma_worth_sum(a: Seq<char>, b: Seq<char>)
    ensures
        worth(a + b) == worth(a) * pow(10, b.len()) + worth(b),
    decreases a.len(),
{
    let p = pow(10, b.len());
    if a.len() == 0 {
        assert(a + b =~= b);
        assert(0 * p == 0);
    } else {
        let rest = a.drop_first();
        lemma_worth_sum(rest, b);
        assert((a + b).drop_first() =~= rest + b);
        lemma_pow_adds(10, rest.len(), b.len());
        let (d, q, w) = (a[0] as int - '0' as int, pow(10, rest.len()), worth(rest));
        assert(d * (q * p) + w * p == (d * q + w) * p) by (nonlinear_arith);
    }
}

pub(crate) proof fn lemma_worth_push(s: Seq<char>, c: char)
    ensures
        worth(s.push(c)) == 10 * worth(s) + (c as int - '0' as int),
{
    let one = seq![c];
    assert(s.push(c) =~= s + one);
    lemma_worth_sum(s, one);
    lemma_pow1(10);
    lemma_pow0(10);
    assert(one.drop_first() =~= Seq::<char>::empty());
    let (d, p) = (c as int - '0' as int, pow(10, 0));
    assert(d * p == d) by (nonlinear_arith)
        requires
            p == 1,
    ;
    reveal_with_fuel(worth, 2);
}

pub(crate) proof fn lemma_until(s: Seq<char>, c: char, p: int)
    requires
        0 <= p <= s.len(),
        forall|i: int| 0 <= i < p ==> s[i] != c,
        p < s.len() ==> s[p] == c,
    ensures
        until(s, c) == p,
    decreases p,
{
    if p > 0 {
        lemma_until(s.drop_first(), c, p - 1);
    }
}

pub(crate) proof fn lemma_until_found(s: Seq<char>, c: char)
    ensures
        0 <= until(s, c) <= s.len(),
        until(s, c) < s.len() ==> s[until(s, c)] == c,
    decreases s.len(),
{
    if s.len() > 0 && s[0] != c {
        lemma_until_found(s.drop_first(), c);
    }
}

pub(crate) proof fn lemma_last_word(front: Seq<char>, w: Seq<char>)
    requires
        forall|i: int| 0 <= i < w.len() ==> w[i] != ' ',
        front.len() > 0 ==> front.last() == ' ',
    ensures
        last_word(front + w) == w,
    decreases w.len(),
{
    let s = front + w;
    if w.len() == 0 {
        assert(s =~= front);
        assert(last_word(s) =~= w);
    } else {
        assert(s.drop_last() =~= front + w.drop_last());
        lemma_last_word(front, w.drop_last());
        assert(last_word(s) =~= w);
    }
}

/// A line that ends with a word is read from its end by reading that word, and then what is in
/// front of it.
pub(crate) proof fn lemma_word_from_end(front: Seq<char>, w: Seq<char>, k: nat)
    requires
        w.len() > 0,
        forall|i: int| 0 <= i < w.len() ==> w[i] != ' ',
        front.len() > 0,
        front.last() == ' ',
    ensures
        word_from_end(front + w, 0) == w,
        word_from_end(front + w, k + 1) == word_from_end(trimmed(front), k),
{
    lemma_last_word(front, w);
    assert((front + w).take((front + w).len() - w.len()) =~= front);
}

pub(crate) proof fn lemma_trimmed(s: Seq<char>, tail: Seq<char>)
    requires
        forall|i: int| 0 <= i < tail.len() ==> tail[i] == ' ',
    ensures
        trimmed(s + tail) == trimmed(s),
    decreases tail.len(),
{
    if tail.len() == 0 {
        assert(s + tail =~= s);
    } else {
        assert((s + tail).drop_last() =~= s + tail.drop_last());
        lemma_trimmed(s, tail.drop_last());
    }
}

pub(crate) proof fn lemma_unindented(head: Seq<char>, s: Seq<char>)
    requires
        forall|i: int| 0 <= i < head.len() ==> head[i] == ' ',
    ensures
        unindented(head + s) == unindented(s),
    decreases head.len(),
{
    if head.len() == 0 {
        assert(head + s =~= s);
    } else {
        assert((head + s).drop_first() =~= head.drop_first() + s);
        lemma_unindented(head.drop_first(), s);
    }
}

/// A line that starts with a word is read by reading that word, and then what is behind it.
pub(crate) proof fn lemma_word(w: Seq<char>, rest: Seq<char>, k: nat)
    requires
        forall|i: int| 0 <= i < w.len() ==> w[i] != ' ',
        rest.len() > 0 ==> rest[0] == ' ',
    ensures
        word(w + rest, 0) == w,
        word(w + rest, k + 1) == word(unindented(rest), k),
{
    let s = w + rest;
    lemma_until(s, ' ', w.len() as int);
    assert(s.take(w.len() as int) =~= w);
    assert(s.skip(w.len() as int) =~= rest);
}

/// Reading a line that ends with a word from its end.
pub(crate) proof fn lemma_back(front: Seq<char>, gap: Seq<char>, w: Seq<char>, k: nat)
    requires
        is_word(w),
        is_gap(gap),
        front.len() > 0 && front.last() != ' ',
    ensures
        word_from_end(front + gap + w, 0) == w,
        word_from_end(front + gap + w, k + 1) == word_from_end(front, k),
{
    lemma_word_from_end(front + gap, w, k);
    lemma_trimmed(front, gap);
}

/// Reading a line that starts with a word.
pub(crate) proof fn lemma_forth(w: Seq<char>, gap: Seq<char>, rest: Seq<char>, k: nat)
    requires
        is_word(w),
        is_gap(gap),
        rest.len() > 0 && rest[0] != ' ',
    ensures
        word(w + gap + rest, 0) == w,
        word(w + gap + rest, k + 1) == word(rest, k),
{
    assert(w + gap + rest =~= w + (gap + rest));
    lemma_word(w, gap + rest, k);
    lemma_unindented(gap, rest);
}

} // verus!
