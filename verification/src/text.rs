//! Strings as sequences of characters: file names, truncation, padding, decimals.

use crate::reading::{
    is_gap, is_plain, is_word, lemma_back, lemma_forth, lemma_worth_push, shows, signed_worth, word,
    word_from_end, without_sign, worth,
};
use vstd::arithmetic::power::{lemma_pow0, lemma_pow1, lemma_pow_adds, lemma_pow_positive, pow};
use vstd::prelude::*;

verus! {

/// The first `max` characters of `s`, the last of them replaced by an ellipsis when `s` is longer.
pub open spec fn truncated(s: Seq<char>, max: nat) -> Seq<char> {
    if max == 0 {
        Seq::empty()
    } else if s.len() <= max {
        s
    } else {
        s.take(max - 1).push('…')
    }
}

/// Shortens `s` to at most `max` characters.
pub fn truncate(s: &str, max: usize) -> (r: String)
    ensures
        r@ == truncated(s@, max as nat),
{
    if max == 0 {
        String::new()
    } else if s.unicode_len() <= max {
        s.to_owned()
    } else {
        let mut t = s.substring_char(0, max - 1).to_owned();
        proof {
            reveal_strlit("…");
            assert("…"@ =~= seq!['…']);
        }
        t.append("…");
        t
    }
}

/// Where the file name inside `path` starts: behind the last slash, or at the start.
pub open spec fn leaf_start(path: Seq<char>) -> int
    decreases path.len(),
{
    if path.len() == 0 || path.last() == '/' {
        path.len() as int
    } else {
        leaf_start(path.drop_last())
    }
}

/// The part of `path` behind its last slash; all of `path` when nothing is behind it.
pub open spec fn base_name(path: Seq<char>) -> Seq<char> {
    if leaf_start(path) == path.len() {
        path
    } else {
        path.skip(leaf_start(path))
    }
}

/// The file name in a path.
pub fn basename(path: &str) -> (r: &str)
    ensures
        r@ == base_name(path@),
{
    let mut start: usize = 0;
    let mut at: usize = 0;
    let len: usize = path.unicode_len();
    assert(path@.take(0) =~= Seq::<char>::empty());
    for c in it: path.chars()
        invariant
            len == path@.len(),
            at == it.index(),
            it.seq() == path@,
            start <= at <= len,
            start == leaf_start(path@.take(at as int)),
    {
        assert(path@.take(at + 1).drop_last() =~= path@.take(at as int));
        at = at + 1;
        if c == '/' {
            start = at;
        }
    }
    assert(path@.take(len as int) =~= path@);
    if start == len {
        path
    } else {
        path.substring_char(start, len)
    }
}

proof fn lemma_leaf_start(path: Seq<char>)
    ensures
        0 <= leaf_start(path) <= path.len(),
        leaf_start(path) > 0 ==> path[leaf_start(path) - 1] == '/',
        forall|i: int| leaf_start(path) <= i < path.len() ==> path[i] != '/',
    decreases path.len(),
{
    if path.len() > 0 && path.last() != '/' {
        let front = path.drop_last();
        lemma_leaf_start(front);
        assert forall|i: int| leaf_start(path) <= i < path.len() implies path[i] != '/' by {
            assert(i < front.len() ==> path[i] == front[i]);
        }
    }
}

/// A path that is not empty has a file name that is not empty.
pub proof fn law_base_name_keeps_something(path: Seq<char>)
    requires
        path.len() > 0,
    ensures
        base_name(path).len() > 0,
{
    lemma_leaf_start(path);
}

/// The file name ends the path. It holds a slash only where the path ends with one, and is
/// then the whole path.
pub proof fn law_base_name_is_the_leaf(path: Seq<char>)
    ensures
        base_name(path).is_suffix_of(path),
        path.len() > 0 && path.last() == '/' ==> base_name(path) == path,
        path.len() > 0 && path.last() != '/' ==> !base_name(path).contains('/') && (base_name(
            path,
        ).len() < path.len() ==> path[path.len() - base_name(path).len() - 1] == '/'),
{
    lemma_leaf_start(path);
    assert(base_name(path) =~= path.subrange(
        path.len() - base_name(path).len(),
        path.len() as int,
    ));
}

/// The file name of a file name is itself.
pub proof fn law_base_name_is_idempotent(path: Seq<char>)
    ensures
        base_name(base_name(path)) == base_name(path),
{
    lemma_leaf_start(path);
    lemma_leaf_start(base_name(path));
    if leaf_start(path) != path.len() {
        let leaf = base_name(path);
        if leaf_start(leaf) > 0 {
            assert(leaf[leaf_start(leaf) - 1] == path[leaf_start(path) + leaf_start(leaf) - 1]);
        }
        assert(leaf.skip(0) =~= leaf);
    }
}

/// A truncated text has at most `max` characters. What fits is unchanged, and what does not
/// keeps as many characters as it may and shows by its end that it was longer.
pub proof fn law_truncated_fits(s: Seq<char>, max: nat)
    ensures
        truncated(s, max).len() <= max,
        s.len() <= max ==> truncated(s, max) == s,
        s.len() > max > 0 ==> {
            &&& truncated(s, max).len() == max
            &&& truncated(s, max).last() == '…'
            &&& truncated(s, max).drop_last() == s.take(max - 1)
        },
        truncated(truncated(s, max), max) == truncated(s, max),
{
    if s.len() == 0 {
        assert(s =~= Seq::<char>::empty());
    }
    if s.len() > max > 0 {
        assert(truncated(s, max).drop_last() =~= s.take(max - 1));
    }
}

/// The character for a decimal digit.
pub open spec fn digit(d: int) -> char {
    (48 + d) as char
}

/// `n` in decimal, without leading zeros.
pub open spec fn decimal(n: nat) -> Seq<char>
    decreases n,
{
    if n < 10 {
        seq![digit(n as int)]
    } else {
        decimal(n / 10).push(digit((n % 10) as int))
    }
}

pub(crate) proof fn lemma_decimal_digits(n: nat)
    ensures
        forall|i: int| 0 <= i < decimal(n).len() ==> '0' <= #[trigger] decimal(n)[i] <= '9',
    decreases n,
{
    if n >= 10 {
        let front = decimal(n / 10);
        lemma_decimal_digits(n / 10);
        assert forall|i: int| 0 <= i < decimal(n).len() implies '0' <= #[trigger] decimal(n)[i]
            <= '9' by {
            if i < front.len() {
                assert(decimal(n)[i] == front[i]);
            }
        }
    }
}

/// An integer in decimal, with a minus sign if it is negative.
pub open spec fn signed_decimal(n: int) -> Seq<char> {
    if n < 0 {
        seq!['-'] + decimal((-n) as nat)
    } else {
        decimal(n as nat)
    }
}

/// The last `places` decimal digits of `n`.
pub open spec fn last_digits(n: nat, places: nat) -> Seq<char>
    decreases places,
{
    if places == 0 {
        Seq::empty()
    } else {
        last_digits(n / 10, (places - 1) as nat).push(digit((n % 10) as int))
    }
}

/// A number in decimal is read as itself, and no zero stands in front of its other digits.
pub proof fn law_decimal_is_read_back(n: nat)
    ensures
        worth(decimal(n)) == n,
        is_plain(decimal(n)),
        n > 0 ==> decimal(n)[0] != '0',
    decreases n,
{
    lemma_decimal_digits(n);
    if n < 10 {
        let none = Seq::<char>::empty();
        lemma_worth_push(none, digit(n as int));
        assert(none.push(digit(n as int)) =~= decimal(n));
    } else {
        law_decimal_is_read_back(n / 10);
        lemma_worth_push(decimal(n / 10), digit((n % 10) as int));
        assert(decimal(n)[0] == decimal(n / 10)[0]);
    }
}

/// An integer in decimal is read as itself, and only a negative one has a sign.
pub proof fn law_signed_decimal_is_read_back(n: int)
    ensures
        signed_worth(signed_decimal(n)) == n,
        is_plain(without_sign(signed_decimal(n))),
        n >= 0 ==> without_sign(signed_decimal(n)) == signed_decimal(n),
{
    if n < 0 {
        law_decimal_is_read_back((-n) as nat);
        assert(signed_decimal(n).skip(1) =~= decimal((-n) as nat));
    } else {
        law_decimal_is_read_back(n as nat);
    }
}

/// The last digits of a number are read as what is left of it.
pub proof fn law_last_digits_are_read_back(n: nat, places: nat)
    ensures
        last_digits(n, places).len() == places,
        worth(last_digits(n, places)) == n as int % pow(10, places),
        forall|i: int| 0 <= i < places ==> '0' <= #[trigger] last_digits(n, places)[i] <= '9',
    decreases places,
{
    lemma_pow_positive(10, places);
    lemma_pow0(10);
    if places > 0 {
        let p = (places - 1) as nat;
        let (front, d) = (last_digits(n / 10, p), n % 10);
        law_last_digits_are_read_back(n / 10, p);
        lemma_worth_push(front, digit(d as int));
        lemma_pow_adds(10, p, 1);
        lemma_pow1(10);
        lemma_pow_positive(10, p);
        let t = pow(10, p);
        let (q, r) = ((n / 10) as int / t, (n / 10) as int % t);
        assert((n / 10) as int == q * t + r && 0 <= r < t) by (nonlinear_arith)
            requires
                q == (n / 10) as int / t,
                r == (n / 10) as int % t,
                t > 0,
        ;
        let v = 10 * r + d;
        assert(n as int == q * (10 * t) + v) by (nonlinear_arith)
            requires
                (n / 10) as int == q * t + r,
                n == 10 * (n / 10) + d,
                v == 10 * r + d,
        ;
        assert(n as int % (10 * t) == v) by (nonlinear_arith)
            requires
                n as int == q * (10 * t) + v,
                0 <= v < 10 * t,
        ;
        assert(t * 10 == 10 * t);
        assert forall|i: int| 0 <= i < places implies '0' <= #[trigger] last_digits(n, places)[i]
            <= '9' by {
            if i < p {
                assert(last_digits(n, places)[i] == front[i]);
            }
        }
    }
}

/// The digit `d` as a string.
pub(crate) fn digit_text(d: u8) -> (r: &'static str)
    requires
        d < 10,
    ensures
        r@ == seq![digit(d as int)],
{
    proof {
        reveal_strlit("0");
        reveal_strlit("1");
        reveal_strlit("2");
        reveal_strlit("3");
        reveal_strlit("4");
        reveal_strlit("5");
        reveal_strlit("6");
        reveal_strlit("7");
        reveal_strlit("8");
        reveal_strlit("9");
    }
    match d {
        0 => "0",
        1 => "1",
        2 => "2",
        3 => "3",
        4 => "4",
        5 => "5",
        6 => "6",
        7 => "7",
        8 => "8",
        _ => "9",
    }
}

/// Appends `n` in decimal.
pub(crate) fn push_decimal(out: &mut String, n: u64)
    ensures
        final(out)@ == old(out)@ + decimal(n as nat),
    decreases n,
{
    if n >= 10 {
        push_decimal(out, n / 10);
    }
    out.append(digit_text((n % 10) as u8));
}

/// Appends the last `places` digits of `n`.
pub(crate) fn push_last_digits(out: &mut String, n: u64, places: u32)
    ensures
        final(out)@ == old(out)@ + last_digits(n as nat, places as nat),
    decreases places,
{
    if places > 0 {
        push_last_digits(out, n / 10, places - 1);
        out.append(digit_text((n % 10) as u8));
    }
}

/// Appends an integer in decimal.
pub(crate) fn push_signed(out: &mut String, n: i32)
    ensures
        final(out)@ == old(out)@ + signed_decimal(n as int),
{
    if n < 0 {
        proof {
            reveal_strlit("-");
            assert("-"@ =~= seq!['-']);
        }
        out.append("-");
        push_decimal(out, (-(n as i64)) as u64);
    } else {
        push_decimal(out, n as u64);
    }
}

/// `count` spaces.
pub open spec fn blanks(count: int) -> Seq<char> {
    Seq::new(
        if count >= 0 {
            count as nat
        } else {
            0
        },
        |i: int| ' ',
    )
}

/// `s` in a column of at least `width` characters, at its left edge.
pub open spec fn left(s: Seq<char>, width: nat) -> Seq<char> {
    s + blanks(width - s.len())
}

/// `s` in a column of at least `width` characters, at its right edge.
pub open spec fn right(s: Seq<char>, width: nat) -> Seq<char> {
    blanks(width - s.len()) + s
}

fn push_blanks(out: &mut String, count: usize)
    ensures
        final(out)@ == old(out)@ + blanks(count as int),
{
    let mut i: usize = 0;
    proof {
        reveal_strlit(" ");
    }
    assert(out@ =~= old(out)@ + blanks(0));
    while i < count
        invariant
            i <= count,
            out@ == old(out)@ + blanks(i as int),
            " "@ == seq![' '],
        decreases count - i,
    {
        out.append(" ");
        i = i + 1;
        assert(out@ =~= old(out)@ + blanks(i as int));
    }
}

/// Appends `s` at the left edge of a column.
pub(crate) fn push_left(out: &mut String, s: &str, width: usize)
    ensures
        final(out)@ == old(out)@ + left(s@, width as nat),
{
    let len: usize = s.unicode_len();
    out.append(s);
    if len < width {
        push_blanks(out, width - len);
    }
}

/// Appends `s` at the right edge of a column.
pub(crate) fn push_right(out: &mut String, s: &str, width: usize)
    ensures
        final(out)@ == old(out)@ + right(s@, width as nat),
{
    let len: usize = s.unicode_len();
    if len < width {
        push_blanks(out, width - len);
    }
    out.append(s);
}

/// An integer in decimal.
pub(crate) fn signed_text(n: i32) -> (r: String)
    ensures
        r@ == signed_decimal(n as int),
{
    let mut out = String::new();
    push_signed(&mut out, n);
    assert(out@ =~= signed_decimal(n as int));
    out
}

/// The contents of strings.
pub open spec fn texts(strings: Seq<String>) -> Seq<Seq<char>> {
    strings.map_values(|s: String| s@)
}

/// A text truncated to the width of its column fills the column exactly, so that columns line up.
pub proof fn law_cell_fills_its_column(s: Seq<char>, width: nat)
    ensures
        left(truncated(s, width), width).len() == width,
        right(truncated(s, width), width).len() == width,
{
}

/// Padding puts nothing but blanks beside a text, and no more of them than its column takes: at
/// the right of the text in one case, at its left in the other.
pub proof fn law_padding_is_blank(s: Seq<char>, width: nat)
    ensures
        ({
            let n = if s.len() < width {
                width
            } else {
                s.len()
            };
            let (l, r) = (left(s, width), right(s, width));
            &&& l.len() == n && r.len() == n
            &&& l.take(s.len() as int) == s
            &&& r.skip(n - s.len()) == s
            &&& forall|i: int| s.len() <= i < n ==> #[trigger] l[i] == ' '
            &&& forall|i: int| 0 <= i < n - s.len() ==> #[trigger] r[i] == ' '
        }),
{
    let n = if s.len() < width {
        width
    } else {
        s.len()
    };
    assert(left(s, width).take(s.len() as int) =~= s);
    assert(right(s, width).skip(n - s.len()) =~= s);
}

/// A truncated text in its column shows the text.
pub(crate) proof fn lemma_shows(front: Seq<char>, s: Seq<char>, width: nat, back: Seq<char>)
    requires
        width > 0,
        back.len() > 0 && back[0] == ' ',
    ensures
        shows(front + left(truncated(s, width), width) + back, front.len() as int, width as int, s),
{
    let cell = left(truncated(s, width), width);
    let line = front + cell + back;
    let at = front.len() as int;
    assert(line.subrange(at, at + width) =~= cell);
    assert forall|i: int| 0 <= i < width implies #[trigger] line[at + i] == cell[i] by {}
    if s.len() <= width {
        assert(line.subrange(at, at + s.len()) =~= s);
        assert forall|j: int| at + s.len() <= j < at + width implies #[trigger] line[j] == ' ' by {
            assert(line[at + (j - at)] == cell[j - at]);
        }
    } else {
        assert(line.subrange(at, at + width - 1) =~= s.take(width - 1));
        assert(line[at + (width - 1)] == cell[width - 1]);
    }
}

pub(crate) proof fn lemma_signed_decimal_is_a_word(n: int)
    ensures
        is_word(signed_decimal(n)),
{
    if n < 0 {
        lemma_decimal_digits((-n) as nat);
        law_decimal_is_read_back((-n) as nat);
    } else {
        lemma_decimal_digits(n as nat);
        law_decimal_is_read_back(n as nat);
    }
}

/// A word at the left edge of the first column is the first word of the line.
pub(crate) proof fn lemma_first_cell(w: Seq<char>, width: nat, rest: Seq<char>, k: nat)
    requires
        is_word(w),
        rest.len() > 0 && rest[0] != ' ',
    ensures
        word(left(w, width) + seq![' '] + rest, 0) == w,
        word(left(w, width) + seq![' '] + rest, k + 1) == word(rest, k),
{
    let gap = blanks(width - w.len()) + seq![' '];
    assert(left(w, width) + seq![' '] + rest =~= w + gap + rest);
    assert(is_gap(gap));
    lemma_forth(w, gap, rest, k);
}

/// A word at the right edge of the last column is the last word of the line.
pub(crate) proof fn lemma_last_cell(front: Seq<char>, w: Seq<char>, width: nat, k: nat)
    requires
        is_word(w),
        front.len() > 0 && front.last() != ' ',
    ensures
        word_from_end(front + seq![' '] + right(w, width), 0) == w,
        word_from_end(front + seq![' '] + right(w, width), k + 1) == word_from_end(front, k),
{
    let gap = seq![' '] + blanks(width - w.len());
    assert(front + seq![' '] + right(w, width) =~= front + gap + w);
    assert(is_gap(gap));
    lemma_back(front, gap, w, k);
}

/// The same where blanks stand in front of the column.
pub(crate) proof fn lemma_next_cell(front: Seq<char>, w: Seq<char>, width: nat)
    requires
        is_word(w),
    ensures
        word_from_end(front + seq![' '] + right(w, width), 0) == w,
        (front + seq![' '] + right(w, width)).last() != ' ',
{
    let line = front + seq![' '] + right(w, width);
    let head = front + seq![' '] + blanks(width - w.len());
    assert(line =~= head + w);
    crate::reading::lemma_last_word(head, w);
    assert(line.last() == w.last());
}

} // verus!
