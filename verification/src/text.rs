//! Small text helpers: decimal rendering of sizes and character replacement.

use vstd::prelude::*;

verus! {

/// `String::push` of the standard library appends exactly one character to
/// the end of the string and leaves what was there in place.
pub assume_specification[ String::push ](s: &mut String, ch: char)
    ensures
        final(s)@ == old(s)@.push(ch),
;

/// The character that stands for one decimal digit.
pub open spec fn digit_char(d: nat) -> char
    recommends
        d < 10,
{
    if d == 0 {
        '0'
    } else if d == 1 {
        '1'
    } else if d == 2 {
        '2'
    } else if d == 3 {
        '3'
    } else if d == 4 {
        '4'
    } else if d == 5 {
        '5'
    } else if d == 6 {
        '6'
    } else if d == 7 {
        '7'
    } else if d == 8 {
        '8'
    } else {
        '9'
    }
}

/// Decimal notation of a natural number, most significant digit first and
/// without leading zeros.
pub open spec fn decimal(n: nat) -> Seq<char>
    decreases n,
{
    if n < 10 {
        seq![digit_char(n)]
    } else {
        decimal(n / 10).push(digit_char(n % 10))
    }
}

fn digit(d: u8) -> (c: char)
    requires
        d < 10,
    ensures
        c == digit_char(d as nat),
{
    match d {
        0 => '0',
        1 => '1',
        2 => '2',
        3 => '3',
        4 => '4',
        5 => '5',
        6 => '6',
        7 => '7',
        8 => '8',
        _ => '9',
    }
}

/// Appends the decimal notation of `n` to `out`.
pub fn push_decimal(out: &mut String, n: u128)
    ensures
        final(out)@ == old(out)@ + decimal(n as nat),
    decreases n,
{
    if n >= 10 {
        push_decimal(out, n / 10);
    }
    let d: u8 = (n % 10) as u8;
    out.push(digit(d));
}

/// Decimal notation of `n` as an owned string.
pub fn decimal_text(n: u128) -> (res: String)
    ensures
        res@ == decimal(n as nat),
{
    let mut out = String::new();
    push_decimal(&mut out, n);
    out
}

/// Whether the character is a decimal digit.
pub open spec fn is_digit(c: char) -> bool {
    '0' <= c <= '9'
}

/// The number that a decimal digit stands for.
pub open spec fn digit_value(c: char) -> nat
    recommends
        is_digit(c),
{
    (c as int - '0' as int) as nat
}

/// The number that a run of decimal digits stands for, most significant
/// digit first; zero for the empty run.
pub open spec fn digits_value(text: Seq<char>) -> nat
    decreases text.len(),
{
    if text.len() == 0 {
        0
    } else {
        digits_value(text.drop_last()) * 10 + digit_value(text.last())
    }
}

/// Whether the text is the decimal notation of some number: digits only,
/// at least one, and no leading zero but for zero itself.
pub open spec fn is_decimal(text: Seq<char>) -> bool {
    &&& text.len() > 0
    &&& forall|i: int| 0 <= i < text.len() ==> is_digit(#[trigger] text[i])
    &&& text.len() > 1 ==> text[0] != '0'
}

/// The decimal notation of a number is in decimal form, stands for that
/// number, and starts with a zero only for zero.
pub proof fn lemma_decimal_is_decimal(n: nat)
    ensures
        is_decimal(decimal(n)),
        digits_value(decimal(n)) == n,
        decimal(n)[0] == '0' <==> n == 0,
    decreases n,
{
    if n < 10 {
        reveal_with_fuel(digits_value, 2);
        assert(decimal(n).drop_last() =~= Seq::<char>::empty());
    } else {
        lemma_decimal_is_decimal(n / 10);
        let front = decimal(n / 10);
        assert(decimal(n).drop_last() =~= front);
        assert(decimal(n)[0] == front[0]);
    }
}

/// A text in decimal form is the decimal notation of the number it stands
/// for.
pub proof fn lemma_decimal_of_value(text: Seq<char>)
    requires
        is_decimal(text),
    ensures
        decimal(digits_value(text)) == text,
    decreases text.len(),
{
    let front = text.drop_last();
    let last = text.last();
    assert(is_digit(last));
    if text.len() == 1 {
        reveal_with_fuel(digits_value, 2);
        assert(front =~= Seq::<char>::empty());
        assert(decimal(digit_value(last)) =~= text);
    } else {
        assert(is_digit(text[0]));
        assert(front[0] == text[0]);
        if front.len() == 1 {
            reveal_with_fuel(digits_value, 2);
            assert(front.drop_last() =~= Seq::<char>::empty());
            assert(digits_value(front) == digit_value(front[0]));
            assert(decimal(digits_value(front)) =~= front);
        } else {
            assert(is_decimal(front)) by {
                assert forall|i: int| 0 <= i < front.len() implies is_digit(
                    #[trigger] front[i],
                ) by {
                    assert(front[i] == text[i]);
                }
            }
            lemma_decimal_of_value(front);
        }
        lemma_decimal_is_decimal(digits_value(front));
        assert(digits_value(front) >= 1);
        let n = digits_value(text);
        assert(n / 10 == digits_value(front) && n % 10 == digit_value(last));
        assert(decimal(n) =~= text);
    }
}

/// Reads a number in decimal notation. `None` where the text is not the
/// decimal notation of a number that fits 128 bits: signs, spaces, leading
/// zeros and the empty text are not accepted.
pub fn parse_decimal(s: &str) -> (res: Option<u128>)
    ensures
        match res {
            Some(n) => s@ == decimal(n as nat),
            None => forall|n: nat| n <= u128::MAX ==> s@ != decimal(n),
        },
{
    let mut value: u128 = 0;
    let mut any = false;
    let mut leading_zero = false;
    let mut bad = false;
    assert(s@.take(0) =~= Seq::<char>::empty());
    for c in it: s.chars()
        invariant
            it.seq() == s@,
            any == (it.index() > 0),
            !bad ==> (it.index() > 1 ==> s@[0] != '0'),
            !bad ==> value as nat == digits_value(s@.take(it.index() as int)),
            !bad ==> forall|i: int| 0 <= i < it.index() ==> is_digit(#[trigger] s@[i]),
            !bad ==> leading_zero == (it.index() > 0 && s@[0] == '0'),
            bad ==> forall|n: nat| n <= u128::MAX ==> s@ != decimal(n),
    {
        proof {
            assert(s@.take(it.index() + 1).drop_last() =~= s@.take(it.index() as int));
            assert(s@.take(it.index() + 1).last() == c);
        }
        if !bad {
            let d: u128 = match c {
                '0' => 0,
                '1' => 1,
                '2' => 2,
                '3' => 3,
                '4' => 4,
                '5' => 5,
                '6' => 6,
                '7' => 7,
                '8' => 8,
                '9' => 9,
                _ => 10,
            };
            if d == 10 || leading_zero {
                bad = true;
                proof {
                    assert forall|n: nat| n <= u128::MAX implies s@ != decimal(n) by {
                        lemma_decimal_is_decimal(n);
                        if s@ == decimal(n) {
                            assert(is_digit(s@[it.index() as int]));
                            assert(s@.len() > 1);
                        }
                    }
                }
            } else if value > (u128::MAX - d) / 10 {
                bad = true;
                proof {
                    assert forall|n: nat| n <= u128::MAX implies s@ != decimal(n) by {
                        lemma_decimal_is_decimal(n);
                        if s@ == decimal(n) {
                            lemma_digits_value_prefix(s@, it.index() + 1);
                        }
                    }
                }
            } else {
                if !any {
                    leading_zero = d == 0;
                }
                value = value * 10 + d;
            }
        }
        any = true;
    }
    assert(s@.take(s@.len() as int) =~= s@);
    if bad || !any {
        proof {
            if !bad {
                assert forall|n: nat| n <= u128::MAX implies s@ != decimal(n) by {
                    lemma_decimal_is_decimal(n);
                }
            }
        }
        None
    } else {
        proof {
            lemma_decimal_of_value(s@);
        }
        Some(value)
    }
}

/// The value of a run of digits is at least the value of each run it
/// begins with.
proof fn lemma_digits_value_prefix(text: Seq<char>, n: int)
    requires
        0 <= n <= text.len(),
    ensures
        digits_value(text.take(n)) <= digits_value(text),
    decreases text.len() - n,
{
    if n < text.len() {
        assert(text.take(n + 1).drop_last() =~= text.take(n));
        lemma_digits_value_prefix(text, n + 1);
    } else {
        assert(text.take(n) =~= text);
    }
}

/// `s` with every occurrence of `from` replaced by `to`.
pub open spec fn replaced(s: Seq<char>, from: char, to: char) -> Seq<char> {
    Seq::new(s.len(), |i: int| if s[i] == from { to } else { s[i] })
}

/// Copies `s`, writing `to` wherever `from` stands.
pub fn replace_char(s: &str, from: char, to: char) -> (res: String)
    ensures
        res@ == replaced(s@, from, to),
{
    let mut out = String::new();
    for c in it: s.chars()
        invariant
            it.seq() == s@,
            out@ == replaced(s@.take(it.index() as int), from, to),
    {
        assert(s@.take(it.index() + 1) == s@.take(it.index() as int).push(c));
        if c == from {
            out.push(to);
        } else {
            out.push(c);
        }
    }
    out
}

} // verus!
