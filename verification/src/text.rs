//! Dotted text: splitting on `.`, joining with `.`, and decimal numerals.

use std::num::ParseIntError;
use vstd::prelude::*;
use vstd::string::StringExecFns;

verus! {

/// True for the ten ASCII decimal digits.
pub open spec fn is_digit(c: char) -> bool {
    '0' <= c <= '9'
}

/// The number that a decimal digit stands for.
pub open spec fn digit_value(c: char) -> nat
    recommends
        is_digit(c),
{
    (c as u32 - '0' as u32) as nat
}

/// The decimal digit that stands for `d`.
pub open spec fn digit_char(d: nat) -> char
    recommends
        d < 10,
{
    ('0' as u8 + d) as u8 as char
}

/// Every character of `s` is a decimal digit.
pub open spec fn all_digits(s: Seq<char>) -> bool {
    forall|i: int| 0 <= i < s.len() ==> is_digit(#[trigger] s[i])
}

/// The number written by a sequence of decimal digits, most significant
/// digit first. The empty sequence writes zero.
pub open spec fn digits_value(s: Seq<char>) -> nat
    recommends
        all_digits(s),
    decreases s.len(),
{
    if s.len() == 0 {
        0
    } else {
        10 * digits_value(s.drop_last()) + digit_value(s.last())
    }
}

/// The digits of a number text: what follows an optional `+`.
pub open spec fn number_digits(s: Seq<char>) -> Seq<char> {
    if s.len() > 0 && s[0] == '+' {
        s.drop_first()
    } else {
        s
    }
}

/// The value of a numeral: an optional `+`, then one or more decimal digits
/// that write a number no larger than `u32::MAX`. Anything else is not a
/// numeral.
pub open spec fn numeral_value(s: Seq<char>) -> Option<u32> {
    let digits = number_digits(s);
    if digits.len() > 0 && all_digits(digits) && digits_value(digits) <= u32::MAX {
        Some(digits_value(digits) as u32)
    } else {
        None
    }
}

/// The text writes a number: an optional `+`, then one or more decimal
/// digits, however many.
pub open spec fn is_number(s: Seq<char>) -> bool {
    number_digits(s).len() > 0 && all_digits(number_digits(s))
}

/// The number that a number text writes.
pub open spec fn number_value(s: Seq<char>) -> nat
    recommends
        is_number(s),
{
    digits_value(number_digits(s))
}

/// The canonical numeral for `n`: its decimal digits without a sign and
/// without leading zeros.
pub open spec fn decimal(n: nat) -> Seq<char>
    decreases n,
{
    if n < 10 {
        seq![digit_char(n)]
    } else {
        decimal(n / 10).push(digit_char(n % 10))
    }
}

/// A numeral in canonical form: digits only, no leading zero unless the
/// numeral is `0` itself, and a value that fits in `u32`.
pub open spec fn is_canonical_numeral(s: Seq<char>) -> bool {
    &&& s.len() > 0
    &&& all_digits(s)
    &&& s.len() > 1 ==> s[0] != '0'
    &&& digits_value(s) <= u32::MAX
}

/// No character of `s` is a dot.
pub open spec fn dot_free(s: Seq<char>) -> bool {
    forall|i: int| 0 <= i < s.len() ==> #[trigger] s[i] != '.'
}

/// The pieces of `s` between its dots, in order. A text without a dot is
/// its own single piece; the empty text has one empty piece.
pub open spec fn split_dots(s: Seq<char>) -> Seq<Seq<char>>
    decreases s.len(),
{
    if s.len() == 0 {
        seq![Seq::<char>::empty()]
    } else {
        let before = split_dots(s.drop_last());
        if s.last() == '.' {
            before.push(Seq::<char>::empty())
        } else {
            before.drop_last().push(before.last().push(s.last()))
        }
    }
}

/// The pieces joined by single dots, with no dot before the first piece or
/// after the last.
pub open spec fn join_dots(pieces: Seq<Seq<char>>) -> Seq<char>
    decreases pieces.len(),
{
    if pieces.len() == 0 {
        Seq::<char>::empty()
    } else if pieces.len() == 1 {
        pieces[0]
    } else {
        join_dots(pieces.drop_last()) + seq!['.'] + pieces.last()
    }
}

/// Splitting always yields at least one piece, and no piece holds a dot.
pub proof fn lemma_split_dots_pieces(s: Seq<char>)
    ensures
        split_dots(s).len() >= 1,
        forall|i: int| 0 <= i < split_dots(s).len() ==> dot_free(#[trigger] split_dots(s)[i]),
    decreases s.len(),
{
    if s.len() > 0 {
        lemma_split_dots_pieces(s.drop_last());
    }
}

/// Joining the pieces of a text gives the text back.
pub proof fn lemma_join_split(s: Seq<char>)
    ensures
        join_dots(split_dots(s)) == s,
    decreases s.len(),
{
    if s.len() > 0 {
        let init = s.drop_last();
        let before = split_dots(init);
        lemma_split_dots_pieces(init);
        lemma_join_split(init);
        if s.last() == '.' {
            let after = before.push(Seq::<char>::empty());
            assert(after.drop_last() == before);
            assert(join_dots(after) == init + seq!['.'] + Seq::<char>::empty());
            assert(init + seq!['.'] + Seq::<char>::empty() == s);
        } else {
            let grown = before.last().push(s.last());
            let after = before.drop_last().push(grown);
            if before.len() == 1 {
                assert(join_dots(before) == before[0]);
                assert(join_dots(after) == grown);
                assert(grown == s);
            } else {
                assert(after.drop_last() == before.drop_last());
                assert(join_dots(after) == join_dots(before.drop_last()) + seq!['.'] + grown);
                assert(join_dots(before) == join_dots(before.drop_last()) + seq!['.']
                    + before.last());
                assert(join_dots(before.drop_last()) + seq!['.'] + grown == (join_dots(
                    before.drop_last(),
                ) + seq!['.'] + before.last()).push(s.last()));
                assert(init.push(s.last()) == s);
            }
        }
    }
}

/// Appending a dot opens a new, empty piece.
pub proof fn lemma_split_push_dot(s: Seq<char>)
    ensures
        split_dots(s.push('.')) == split_dots(s).push(Seq::<char>::empty()),
{
    assert(s.push('.').drop_last() == s);
}

/// Appending a text without dots extends the last piece.
pub proof fn lemma_split_append_dot_free(s: Seq<char>, t: Seq<char>)
    requires
        dot_free(t),
    ensures
        split_dots(s).len() >= 1,
        split_dots(s + t) == split_dots(s).drop_last().push(split_dots(s).last() + t),
    decreases t.len(),
{
    lemma_split_dots_pieces(s);
    let pieces = split_dots(s);
    if t.len() == 0 {
        assert(s + t == s);
        assert(pieces.last() + t == pieces.last());
        assert(pieces.drop_last().push(pieces.last()) == pieces);
    } else {
        let init = t.drop_last();
        lemma_split_append_dot_free(s, init);
        assert((s + t).drop_last() == s + init);
        assert(t.last() != '.');
        let before = split_dots(s + init);
        assert(before.last() == pieces.last() + init);
        assert(before.drop_last() == pieces.drop_last());
        assert((pieces.last() + init).push(t.last()) == pieces.last() + t);
    }
}

/// Splitting the join of dot-free pieces gives the pieces back.
pub proof fn lemma_split_join(pieces: Seq<Seq<char>>)
    requires
        pieces.len() >= 1,
        forall|i: int| 0 <= i < pieces.len() ==> dot_free(#[trigger] pieces[i]),
    ensures
        split_dots(join_dots(pieces)) == pieces,
    decreases pieces.len(),
{
    let empty = Seq::<char>::empty();
    if pieces.len() == 1 {
        lemma_split_append_dot_free(empty, pieces[0]);
        assert(empty + pieces[0] == pieces[0]);
        assert(split_dots(empty) == seq![empty]);
        assert(seq![empty].drop_last().push(empty + pieces[0]) == pieces);
    } else {
        let init = pieces.drop_last();
        lemma_split_join(init);
        let head = join_dots(init);
        lemma_split_push_dot(head);
        assert(head + seq!['.'] == head.push('.'));
        lemma_split_append_dot_free(head.push('.'), pieces.last());
        assert(init.push(empty).drop_last() == init);
        assert(empty + pieces.last() == pieces.last());
        assert(init.push(pieces.last()) == pieces);
    }
}

/// The canonical numeral of a number that fits in `u32` is a numeral for
/// that number, in canonical form.
pub proof fn lemma_decimal_numeral(n: nat)
    requires
        n <= u32::MAX,
    ensures
        is_canonical_numeral(decimal(n)),
        digits_value(decimal(n)) == n,
        numeral_value(decimal(n)) == Some(n as u32),
        dot_free(decimal(n)),
    decreases n,
{
    if n < 10 {
        lemma_single_digit(digit_char(n));
    } else {
        lemma_decimal_numeral(n / 10);
        let init = decimal(n / 10);
        let s = init.push(digit_char(n % 10));
        assert(s.drop_last() == init);
        assert(s[0] == init[0]);
        assert forall|i: int| 0 <= i < s.len() implies is_digit(#[trigger] s[i]) by {
            if i < init.len() {
                assert(s[i] == init[i]);
            }
        }
        if init.len() == 1 {
            assert(init == seq![init[0]]);
            lemma_single_digit(init[0]);
        }
    }
}

/// A canonical numeral is the canonical numeral of its own value.
pub proof fn lemma_canonical_numeral(s: Seq<char>)
    requires
        is_canonical_numeral(s),
    ensures
        decimal(digits_value(s)) == s,
        numeral_value(s) == Some(digits_value(s) as u32),
        dot_free(s),
    decreases s.len(),
{
    let init = s.drop_last();
    if s.len() == 1 {
        assert(s == seq![s[0]]);
        lemma_single_digit(s[0]);
    } else {
        assert(init[0] == s[0]);
        assert(all_digits(init));
        lemma_leading_digit(init);
        lemma_canonical_numeral(init);
        assert(init.push(s.last()) == s);
    }
}

/// Digits that do not start with a zero write a positive number.
proof fn lemma_leading_digit(s: Seq<char>)
    requires
        s.len() > 0,
        all_digits(s),
        s[0] != '0',
    ensures
        digits_value(s) >= 1,
    decreases s.len(),
{
    let init = s.drop_last();
    if s.len() == 1 {
        assert(s == seq![s[0]]);
        lemma_single_digit(s[0]);
    } else {
        assert(init[0] == s[0]);
        lemma_leading_digit(init);
    }
}

/// A single digit writes its own value.
proof fn lemma_single_digit(c: char)
    ensures
        digits_value(seq![c]) == digit_value(c),
{
    reveal_with_fuel(digits_value, 2);
    assert(seq![c].drop_last() == Seq::<char>::empty());
}

/// Zeros in front of digits do not change the number.
pub proof fn lemma_leading_zeros(s: Seq<char>, k: int)
    requires
        0 <= k <= s.len(),
        forall|j: int| 0 <= j < k ==> s[j] == '0',
    ensures
        digits_value(s) == digits_value(s.skip(k)),
    decreases s.len(),
{
    if s.len() == 0 {
        assert(s.skip(k) == s);
    } else if k == s.len() {
        lemma_leading_zeros(s.drop_last(), k - 1);
        assert(s.drop_last().skip(k - 1) == Seq::<char>::empty());
        assert(s.skip(k) == Seq::<char>::empty());
    } else {
        lemma_leading_zeros(s.drop_last(), k);
        assert(s.skip(k).drop_last() == s.drop_last().skip(k));
    }
}

/// Of two digit sequences, the longer writes the larger number, unless it
/// starts with a zero.
pub proof fn lemma_longer_is_larger(a: Seq<char>, b: Seq<char>)
    requires
        all_digits(a),
        all_digits(b),
        a.len() < b.len(),
        b[0] != '0',
    ensures
        digits_value(a) < digits_value(b),
    decreases b.len(),
{
    lemma_leading_digit(b);
    if a.len() > 0 {
        let a0 = a.drop_last();
        let b0 = b.drop_last();
        assert(b0[0] == b[0]);
        lemma_longer_is_larger(a0, b0);
    }
}

/// Of two digit sequences of one length, the one with the smaller digit at
/// the first place where they differ writes the smaller number.
pub proof fn lemma_first_digit_decides(a: Seq<char>, b: Seq<char>, k: int)
    requires
        all_digits(a),
        all_digits(b),
        a.len() == b.len(),
        0 <= k < a.len(),
        forall|j: int| 0 <= j < k ==> a[j] == b[j],
        a[k] < b[k],
    ensures
        digits_value(a) < digits_value(b),
    decreases a.len(),
{
    let a0 = a.drop_last();
    let b0 = b.drop_last();
    if k == a.len() - 1 {
        assert(a0 =~= b0);
    } else {
        assert(a0[k] == a[k]);
        assert(b0[k] == b[k]);
        assert forall|j: int| 0 <= j < k implies a0[j] == b0[j] by {
            assert(a[j] == b[j]);
        }
        lemma_first_digit_decides(a0, b0, k);
    }
}

/// The digits of a number text without the leading zeros, or nothing where
/// the text writes no number. Of zero no digit is left.
pub fn significant_digits<'a>(s: &'a str) -> (r: Option<&'a str>)
    ensures
        match r {
            Some(digits) => {
                &&& is_number(s@)
                &&& all_digits(digits@)
                &&& digits@.len() > 0 ==> digits@[0] != '0'
                &&& digits_value(digits@) == number_value(s@)
            },
            None => !is_number(s@),
        },
{
    let total = s.unicode_len();
    let mut i: usize = 0;
    let mut first: usize = 0;
    let mut start: usize = 0;
    for c in it: s.chars()
        invariant
            i == it.index(),
            it.seq() == s@,
            total == s@.len(),
            first <= start <= i,
            first <= 1,
            first == 1 <==> i > 0 && s@[0] == '+',
            forall|j: int| first <= j < i ==> is_digit(#[trigger] s@[j]),
            forall|j: int| first <= j < start ==> #[trigger] s@[j] == '0',
            start < i ==> s@[start as int] != '0',
    {
        assert(c == s@[i as int]);
        assert(i < total);
        if i == 0 && c == '+' {
            first = 1;
            start = 1;
        } else if '0' <= c && c <= '9' {
            if start == i && c == '0' {
                start = i + 1;
            }
        } else {
            proof {
                let digits = number_digits(s@);
                assert(digits[i - first] == c);
                assert(!is_digit(digits[i - first]));
            }
            return None;
        }
        i = i + 1;
    }
    if total == first {
        return None;
    }
    let digits = s.substring_char(start, total);
    proof {
        let all = number_digits(s@);
        assert(all =~= s@.skip(first as int));
        assert forall|j: int| 0 <= j < all.len() implies is_digit(#[trigger] all[j]) by {
            assert(all[j] == s@[j + first]);
        }
        assert forall|j: int| 0 <= j < start - first implies all[j] == '0' by {
            assert(all[j] == s@[j + first]);
        }
        lemma_leading_zeros(all, start - first);
        assert(all.skip(start - first) =~= digits@);
        assert forall|j: int| 0 <= j < digits@.len() implies is_digit(#[trigger] digits@[j]) by {
            assert(digits@[j] == s@[j + start]);
        }
    }
    Some(digits)
}

/// The texts that a sequence of string slices holds.
pub open spec fn texts(pieces: Seq<&str>) -> Seq<Seq<char>> {
    pieces.map_values(|p: &str| p@)
}

/// Splits a text on its dots. The slices borrow from `s`.
pub fn split_on_dots<'a>(s: &'a str) -> (pieces: Vec<&'a str>)
    ensures
        texts(pieces@) == split_dots(s@),
{
    let total = s.unicode_len();
    let mut pieces: Vec<&'a str> = Vec::new();
    let mut start: usize = 0;
    let mut i: usize = 0;
    proof {
        assert(s@.take(0) == Seq::<char>::empty());
        assert(texts(pieces@).push(s@.subrange(0, 0)) == split_dots(s@.take(0)));
    }
    for c in it: s.chars()
        invariant
            i == it.index(),
            it.seq() == s@,
            total == s@.len(),
            start <= i,
            texts(pieces@).push(s@.subrange(start as int, i as int)) == split_dots(
                s@.take(i as int),
            ),
    {
        assert(c == s@[i as int]);
        assert(i < total);
        let ghost open = s@.subrange(start as int, i as int);
        let ghost before = split_dots(s@.take(i as int));
        proof {
            assert(s@.take(i + 1).drop_last() == s@.take(i as int));
            assert(before.last() == open);
            assert(before.drop_last() == texts(pieces@));
        }
        if c == '.' {
            let piece = s.substring_char(start, i);
            pieces.push(piece);
            start = i + 1;
            proof {
                assert(texts(pieces@) == before);
                assert(s@.subrange(start as int, i + 1) == Seq::<char>::empty());
            }
        } else {
            proof {
                assert(s@.subrange(start as int, i + 1) == open.push(c));
            }
        }
        i = i + 1;
    }
    let piece = s.substring_char(start, total);
    proof {
        assert(s@.take(total as int) == s@);
        assert(texts(pieces@.push(piece)) == texts(pieces@).push(piece@));
    }
    pieces.push(piece);
    pieces
}

/// The error type of the standard integer parser, carried as an opaque
/// value.
#[verifier::external_type_specification]
#[verifier::external_body]
pub struct ExParseIntError(std::num::ParseIntError);

/// The error that `str::parse::<u32>` reports for a text that is not a
/// numeral.
pub uninterp spec fn numeral_error(s: Seq<char>) -> ParseIntError;

/// Calls `str::parse::<u32>`, which reads an optional `+` followed by
/// decimal digits. The contract takes from its documentation that the call
/// succeeds exactly on such texts whose number fits in `u32`, and then
/// returns that number; the error of any other text is only given a name.
#[verifier::external_body]
pub(crate) fn parse_numeral(s: &str) -> (r: Result<u32, ParseIntError>)
    ensures
        match r {
            Ok(n) => numeral_value(s@) == Some(n),
            Err(e) => numeral_value(s@) is None && e == numeral_error(s@),
        },
{
    s.parse::<u32>()
}

/// The one-character text of a decimal digit.
fn digit_str(d: u32) -> (r: &'static str)
    requires
        d < 10,
    ensures
        r@ == seq![digit_char(d as nat)],
{
    proof {
        reveal_strlit("0");
        reveal_strlit("1");
        reveal_strlit("2");
        reveal_strlit("3");
        reveal_strlit("4");
        reveal_strlit("5");
        reveal_strlit("6");
        reveal_strlit("7");
        reveal_strlit("8");
        reveal_strlit("9");
    }
    let r = match d {
        0 => "0",
        1 => "1",
        2 => "2",
        3 => "3",
        4 => "4",
        5 => "5",
        6 => "6",
        7 => "7",
        8 => "8",
        _ => "9",
    };
    assert(r@ =~= seq![digit_char(d as nat)]);
    r
}

/// Appends the canonical numeral of `n` to `out`.
pub fn append_decimal(out: &mut String, n: u32)
    ensures
        final(out)@ == old(out)@ + decimal(n as nat),
    decreases n,
{
    if n >= 10 {
        append_decimal(out, n / 10);
    }
    out.append(digit_str(n % 10));
    proof {
        if n >= 10 {
            assert(old(out)@ + decimal(n as nat / 10) + seq![digit_char(n as nat % 10)] == old(
                out,
            )@ + decimal(n as nat));
        }
    }
}

} // verus!
