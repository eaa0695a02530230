//! The one-line notation of a rectangle in a saved layout.
//!
//! A rectangle is written as its four numbers in decimal, joined by commas:
//! `100,200,800,600` for x, y, width and height. A number may carry a sign.
//! When a rectangle is read, what follows the fourth number after a further
//! comma is not looked at.

use crate::geometry::Rect;
use vstd::prelude::*;

verus! {

/// The byte of a comma.
pub const COMMA: u8 = 44;

/// The byte of a minus sign.
pub const MINUS: u8 = 45;

/// The byte of a plus sign.
pub const PLUS: u8 = 43;

/// The byte of the digit zero.
pub const ZERO: u8 = 48;

/// Whether the byte is a decimal digit.
pub open spec fn is_digit(b: u8) -> bool {
    ZERO <= b <= ZERO + 9
}

/// Whether every byte is a decimal digit.
pub open spec fn all_digits(s: Seq<u8>) -> bool {
    forall|i: int| 0 <= i < s.len() ==> is_digit(#[trigger] s[i])
}

/// Whether no byte is a comma.
pub open spec fn no_comma(s: Seq<u8>) -> bool {
    forall|i: int| 0 <= i < s.len() ==> (#[trigger] s[i]) != COMMA
}

/// The number that a run of decimal digits stands for.
pub open spec fn digits_value(s: Seq<u8>) -> nat
    decreases s.len(),
{
    if s.len() == 0 {
        0
    } else {
        (digits_value(s.drop_last()) * 10 + (s.last() - ZERO)) as nat
    }
}

/// The number that a text stands for: digits, at least one, after at most
/// one sign. Nothing where the text is not of that form.
pub open spec fn number_value(s: Seq<u8>) -> Option<int> {
    if s.len() > 0 && (s[0] == MINUS || s[0] == PLUS) {
        let digits = s.subrange(1, s.len() as int);
        if digits.len() > 0 && all_digits(digits) {
            if s[0] == MINUS {
                Some(-(digits_value(digits) as int))
            } else {
                Some(digits_value(digits) as int)
            }
        } else {
            None
        }
    } else if s.len() > 0 && all_digits(s) {
        Some(digits_value(s) as int)
    } else {
        None
    }
}

/// The 32-bit number that a text stands for; nothing where it stands for no
/// number or for one out of range.
pub open spec fn parse_number(s: Seq<u8>) -> Option<i32> {
    match number_value(s) {
        Some(v) => if i32::MIN <= v <= i32::MAX {
            Some(v as i32)
        } else {
            None
        },
        None => None,
    }
}

/// Where the field that begins at `i` ends: at the next comma, or at the end
/// of the text.
pub open spec fn field_end(s: Seq<u8>, i: int) -> int
    decreases s.len() - i,
{
    if i >= s.len() {
        s.len() as int
    } else if s[i] == COMMA {
        i
    } else {
        field_end(s, i + 1)
    }
}

/// The rectangle that a text stands for: its first four fields as x, y,
/// width and height. Nothing where it has fewer than four fields or one of
/// the four stands for no 32-bit number.
pub open spec fn spec_parse_rect(s: Seq<u8>) -> Option<Rect> {
    let e0 = field_end(s, 0);
    let e1 = field_end(s, e0 + 1);
    let e2 = field_end(s, e1 + 1);
    let e3 = field_end(s, e2 + 1);
    if e2 >= s.len() {
        None
    } else {
        match (
            parse_number(s.subrange(0, e0)),
            parse_number(s.subrange(e0 + 1, e1)),
            parse_number(s.subrange(e1 + 1, e2)),
            parse_number(s.subrange(e2 + 1, e3)),
        ) {
            (Some(x), Some(y), Some(w), Some(h)) => Some(Rect { x, y, w, h }),
            _ => None,
        }
    }
}

/// The decimal digits of a number, the most significant first.
pub open spec fn decimal(n: nat) -> Seq<u8>
    decreases n,
{
    if n < 10 {
        seq![(ZERO + n) as u8]
    } else {
        decimal(n / 10).push((ZERO + n % 10) as u8)
    }
}

/// A number in decimal, with a minus sign where it is negative.
pub open spec fn number_text(v: int) -> Seq<u8> {
    if v < 0 {
        seq![MINUS] + decimal((-v) as nat)
    } else {
        decimal(v as nat)
    }
}

/// A rectangle in its one-line notation.
pub open spec fn rect_text(r: Rect) -> Seq<u8> {
    number_text(r.x as int) + seq![COMMA] + number_text(r.y as int) + seq![COMMA] + number_text(
        r.w as int,
    ) + seq![COMMA] + number_text(r.h as int)
}

/// Reads the field that begins at `start`: the number that it stands for, and
/// where it ends.
fn scan_number(text: &[u8], start: usize) -> (found: (Option<i32>, usize))
    requires
        start <= text.len(),
    ensures
        found.1 == field_end(text@, start as int),
        start <= found.1 <= text.len(),
        found.0 == parse_number(text@.subrange(start as int, found.1 as int)),
{
    let ghost s = text@;
    let mut i: usize = start;
    let mut negative: bool = false;
    let mut signed: bool = false;
    if i < text.len() && (text[i] == MINUS || text[i] == PLUS) {
        negative = text[i] == MINUS;
        signed = true;
        i = i + 1;
    }
    let first: usize = i;
    let mut value: i64 = 0;
    let mut digits_only: bool = true;
    let mut too_large: bool = false;
    assert(s.subrange(first as int, i as int) =~= Seq::<u8>::empty());
    while i < text.len() && text[i] != COMMA
        invariant
            s == text@,
            start <= first <= i <= text.len(),
            field_end(s, start as int) == field_end(s, i as int),
            no_comma(s.subrange(start as int, i as int)),
            digits_only == all_digits(s.subrange(first as int, i as int)),
            digits_only && !too_large ==> value == digits_value(s.subrange(first as int, i as int)),
            digits_only && too_large ==> digits_value(s.subrange(first as int, i as int))
                > 0x8000_0000,
            0 <= value <= 0x8000_0000,
        decreases text.len() - i,
    {
        let b: u8 = text[i];
        let ghost before = s.subrange(first as int, i as int);
        let ghost after = s.subrange(first as int, i + 1);
        proof {
            assert(after.drop_last() =~= before);
            assert(after.last() == b);
            assert(s.subrange(start as int, i + 1) =~= s.subrange(start as int, i as int).push(b));
            if all_digits(after) {
                assert forall|k: int| 0 <= k < before.len() implies is_digit(
                    #[trigger] before[k],
                ) by {
                    assert(before[k] == after[k]);
                }
            }
            if all_digits(before) && is_digit(b) {
                assert forall|k: int| 0 <= k < after.len() implies is_digit(
                    #[trigger] after[k],
                ) by {
                    if k < before.len() {
                        assert(after[k] == before[k]);
                    }
                }
            }
            if !is_digit(b) {
                assert(!is_digit(after[after.len() - 1]));
            }
        }
        if ZERO <= b && b <= ZERO + 9 {
            if !too_large {
                value = value * 10 + (b - ZERO) as i64;
                if value > 0x8000_0000 {
                    too_large = true;
                    value = 0x8000_0000;
                }
            } else {
                assert(digits_only ==> digits_value(after) >= digits_value(before) * 10);
            }
        } else {
            digits_only = false;
        }
        i = i + 1;
    }
    let ghost field = s.subrange(start as int, i as int);
    let ghost digits = s.subrange(first as int, i as int);
    proof {
        if signed {
            assert(field.subrange(1, field.len() as int) =~= digits);
            assert(field[0] == s[start as int]);
        } else {
            assert(field =~= digits);
            if field.len() > 0 {
                assert(field[0] == s[start as int]);
            }
        }
    }
    if !digits_only || i == first || too_large {
        return (None, i);
    }
    if negative {
        (Some((-value) as i32), i)
    } else if value > 0x7fff_ffff {
        (None, i)
    } else {
        (Some(value as i32), i)
    }
}

/// Reads a rectangle from its one-line notation.
pub fn parse_rect(text: &[u8]) -> (rect: Option<Rect>)
    ensures
        rect == spec_parse_rect(text@),
{
    let first: (Option<i32>, usize) = scan_number(text, 0);
    if first.1 >= text.len() {
        proof {
            lemma_field_end_at_end(text@, first.1 + 1);
            lemma_field_end_at_end(text@, text@.len() as int + 1);
        }
        return None;
    }
    let second: (Option<i32>, usize) = scan_number(text, first.1 + 1);
    if second.1 >= text.len() {
        proof {
            lemma_field_end_at_end(text@, second.1 + 1);
        }
        return None;
    }
    let third: (Option<i32>, usize) = scan_number(text, second.1 + 1);
    if third.1 >= text.len() {
        return None;
    }
    let fourth: (Option<i32>, usize) = scan_number(text, third.1 + 1);
    match (first.0, second.0, third.0, fourth.0) {
        (Some(x), Some(y), Some(w), Some(h)) => Some(Rect { x, y, w, h }),
        _ => None,
    }
}

/// Writes a number in decimal behind what `out` holds.
fn push_number(out: &mut Vec<u8>, v: i32)
    ensures
        final(out)@ == old(out)@ + number_text(v as int),
{
    let ghost start = out@;
    let mut rest: u64 = if v < 0 {
        out.push(MINUS);
        (-(v as i64)) as u64
    } else {
        v as u64
    };
    let ghost head = out@;
    let ghost n = rest as nat;
    assert(head + decimal(n) =~= start + number_text(v as int));
    let mut low: Vec<u8> = Vec::new();
    while rest >= 10
        invariant
            rest <= 0x8000_0000,
            decimal(n) == decimal(rest as nat) + low@.reverse(),
        decreases rest,
    {
        let digit: u8 = ZERO + (rest % 10) as u8;
        proof {
            assert(decimal(rest as nat) == decimal((rest / 10) as nat).push(digit));
            assert(low@.push(digit).reverse() =~= seq![digit] + low@.reverse());
            assert(decimal((rest / 10) as nat).push(digit) + low@.reverse() =~= decimal(
                (rest / 10) as nat,
            ) + (seq![digit] + low@.reverse()));
        }
        low.push(digit);
        rest = rest / 10;
    }
    let top: u8 = ZERO + rest as u8;
    proof {
        assert(decimal(rest as nat) =~= seq![top]);
        assert(low@.push(top).reverse() =~= seq![top] + low@.reverse());
    }
    low.push(top);
    let ghost digits = low@.reverse();
    let mut k: usize = low.len();
    while k > 0
        invariant
            k <= low.len(),
            digits == low@.reverse(),
            out@ == head + digits.take(low.len() - k),
        decreases k,
    {
        k = k - 1;
        let ghost before = out@;
        out.push(low[k]);
        proof {
            assert(digits[low.len() - 1 - k] == low@[k as int]);
            assert(digits.take(low.len() - k) =~= digits.take(low.len() - k - 1).push(
                low@[k as int],
            ));
        }
    }
    assert(digits.take(low.len() as int) =~= digits);
}

/// Writes a rectangle in its one-line notation.
pub fn format_rect(rect: &Rect) -> (text: Vec<u8>)
    ensures
        text@ == rect_text(*rect),
{
    let mut text: Vec<u8> = Vec::new();
    push_number(&mut text, rect.x);
    text.push(COMMA);
    push_number(&mut text, rect.y);
    text.push(COMMA);
    push_number(&mut text, rect.w);
    text.push(COMMA);
    push_number(&mut text, rect.h);
    assert(text@ =~= rect_text(*rect));
    text
}

/// A field that begins at or behind the end of the text ends at the end.
pub proof fn lemma_field_end_at_end(s: Seq<u8>, i: int)
    requires
        i >= s.len(),
    ensures
        field_end(s, i) == s.len(),
{
}

/// A field ends where the first comma stands behind its beginning, or at the
/// end of the text where none does.
pub proof fn lemma_field_end(s: Seq<u8>, start: int, end: int)
    requires
        0 <= start <= end <= s.len(),
        no_comma(s.subrange(start, end)),
        end == s.len() || s[end] == COMMA,
    ensures
        field_end(s, start) == end,
    decreases end - start,
{
    if start < end {
        assert(s.subrange(start, end)[0] == s[start]);
        assert forall|i: int| 0 <= i < end - start - 1 implies (#[trigger] s.subrange(
            start + 1,
            end,
        )[i]) != COMMA by {
            assert(s.subrange(start, end)[i + 1] == s[start + 1 + i]);
        }
        lemma_field_end(s, start + 1, end);
    }
}

/// The decimal digits of a number are digits, at least one, and stand for the number.
pub proof fn lemma_decimal(n: nat)
    ensures
        decimal(n).len() > 0,
        all_digits(decimal(n)),
        digits_value(decimal(n)) == n,
    decreases n,
{
    if n < 10 {
        let d = decimal(n);
        assert(d.drop_last() =~= Seq::<u8>::empty());
        assert(digits_value(d.drop_last()) == 0);
    } else {
        lemma_decimal(n / 10);
        let d = decimal(n);
        assert(d.drop_last() =~= decimal(n / 10));
        assert forall|i: int| 0 <= i < d.len() implies is_digit(#[trigger] d[i]) by {
            if i < d.len() - 1 {
                assert(d[i] == decimal(n / 10)[i]);
            }
        }
    }
}

/// A number written in decimal reads back as the same number, and its text
/// holds no comma.
pub proof fn lemma_number_round_trip(v: i32)
    ensures
        parse_number(number_text(v as int)) == Some(v),
        no_comma(number_text(v as int)),
        number_text(v as int).len() > 0,
{
    let t = number_text(v as int);
    if v < 0 {
        let n = (-(v as int)) as nat;
        lemma_decimal(n);
        assert(t.subrange(1, t.len() as int) =~= decimal(n));
        assert(t[0] == MINUS);
        assert forall|i: int| 0 <= i < t.len() implies (#[trigger] t[i]) != COMMA by {
            if i > 0 {
                assert(t[i] == decimal(n)[i - 1]);
                assert(is_digit(decimal(n)[i - 1]));
            }
        }
    } else {
        lemma_decimal(v as nat);
        assert(is_digit(t[0]));
        assert forall|i: int| 0 <= i < t.len() implies (#[trigger] t[i]) != COMMA by {
            assert(is_digit(t[i]));
        }
    }
}

/// Round trip: a rectangle written in the one-line notation reads back as the
/// same rectangle.
pub proof fn lemma_rect_round_trip(r: Rect)
    ensures
        spec_parse_rect(rect_text(r)) == Some(r),
{
    let tx = number_text(r.x as int);
    let ty = number_text(r.y as int);
    let tw = number_text(r.w as int);
    let th = number_text(r.h as int);
    let s = rect_text(r);
    lemma_number_round_trip(r.x);
    lemma_number_round_trip(r.y);
    lemma_number_round_trip(r.w);
    lemma_number_round_trip(r.h);
    let e0 = tx.len() as int;
    let e1 = e0 + 1 + ty.len();
    let e2 = e1 + 1 + tw.len();
    let e3 = e2 + 1 + th.len();
    assert(s.len() == e3);
    assert(s.subrange(0, e0) =~= tx);
    assert(s.subrange(e0 + 1, e1) =~= ty);
    assert(s.subrange(e1 + 1, e2) =~= tw);
    assert(s.subrange(e2 + 1, e3) =~= th);
    assert(s[e0] == COMMA);
    assert(s[e1] == COMMA);
    assert(s[e2] == COMMA);
    lemma_field_end(s, 0, e0);
    lemma_field_end(s, e0 + 1, e1);
    lemma_field_end(s, e1 + 1, e2);
    lemma_field_end(s, e2 + 1, e3);
}

} // verus!
