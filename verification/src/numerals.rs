//! Decimal numerals, as characters and as digits.

use vstd::prelude::*;

verus! {

/// Every digit is at most nine.
pub open spec fn decimal_digits(digits: Seq<u8>) -> bool {
    forall|i: int| 0 <= i < digits.len() ==> #[trigger] digits[i] <= 9
}

/// The number that the digits denote in base ten.
pub open spec fn decimal(digits: Seq<u8>) -> nat
    decreases digits.len(),
{
    if digits.len() == 0 {
        0
    } else {
        decimal(digits.drop_last()) * 10 + digits.last() as nat
    }
}

/// The binary-coded decimal of the digits: the number that they denote in base sixteen.
pub open spec fn bcd(digits: Seq<u8>) -> nat
    decreases digits.len(),
{
    if digits.len() == 0 {
        0
    } else {
        bcd(digits.drop_last()) * 16 + digits.last() as nat
    }
}

/// The low thirty-two bits of the binary-coded decimal.
pub open spec fn bcd32(digits: Seq<u8>) -> u32 {
    (bcd(digits) % 0x1_0000_0000) as u32
}

/// One of the characters `0` to `9`.
pub open spec fn is_digit(c: char) -> bool {
    '0' <= c <= '9'
}

/// Only characters `0` to `9`.
pub open spec fn all_digits(text: Seq<char>) -> bool {
    forall|i: int| 0 <= i < text.len() ==> is_digit(#[trigger] text[i])
}

/// The digits that the characters stand for.
pub open spec fn digits_of(text: Seq<char>) -> Seq<u8> {
    Seq::new(text.len(), |i: int| (text[i] as u32 - 48) as u8)
}

/// The `u32` that a text denotes: an optional `+`, then one or more decimal digits.
pub open spec fn number(text: Seq<char>) -> Option<u32> {
    let numeral = if text.len() > 0 && text[0] == '+' {
        text.skip(1)
    } else {
        text
    };
    if numeral.len() > 0 && all_digits(numeral) && decimal(digits_of(numeral)) <= u32::MAX {
        Some(decimal(digits_of(numeral)) as u32)
    } else {
        None
    }
}

/// One more digit multiplies a numeral by the base and adds the digit.
pub proof fn lemma_take_one_more(digits: Seq<u8>, n: int)
    requires
        0 <= n < digits.len(),
    ensures
        decimal(digits.take(n + 1)) == decimal(digits.take(n)) * 10 + digits[n],
        bcd(digits.take(n + 1)) == bcd(digits.take(n)) * 16 + digits[n],
{
    assert(digits.take(n + 1).drop_last() =~= digits.take(n));
}

/// A numeral is at least as large as its beginning.
pub proof fn lemma_decimal_grows(digits: Seq<u8>, n: int)
    requires
        0 <= n <= digits.len(),
    ensures
        decimal(digits.take(n)) <= decimal(digits),
    decreases digits.len() - n,
{
    if n == digits.len() {
        assert(digits.take(n) =~= digits);
    } else {
        lemma_take_one_more(digits, n);
        lemma_decimal_grows(digits, n + 1);
    }
}

/// A numeral of `n` decimal digits is below the `n`th power of ten.
pub proof fn lemma_decimal_bound(digits: Seq<u8>)
    requires
        decimal_digits(digits),
        digits.len() <= 7,
    ensures
        decimal(digits) <= 9_999_999,
{
    reveal_with_fuel(decimal, 8);
    assert(forall|i: int| 0 <= i < digits.len() ==> #[trigger] digits[i] <= 9);
}

/// A shift by four bits and a digit in the free place are one step of `bcd32`.
proof fn lemma_bcd_step(before: nat, digit: u8)
    requires
        digit <= 9,
    ensures
        (((before % 0x1_0000_0000) as u32) << 4 | digit as u32) == ((before * 16 + digit)
            % 0x1_0000_0000) as u32,
{
    let low = (before % 0x1_0000_0000) as u32;
    assert((low << 4 | digit as u32) == (low * 16 + digit) % 0x1_0000_0000) by (bit_vector)
        requires
            digit <= 9,
    ;
    assert((low * 16 + digit) % 0x1_0000_0000 == (before * 16 + digit) % 0x1_0000_0000)
        by (nonlinear_arith)
        requires
            low == before % 0x1_0000_0000,
    ;
}

/// The digit that a character stands for in base ten.
pub(crate) fn to_digit(c: char) -> (digit: Option<u8>)
    ensures
        digit == (if is_digit(c) {
            Some((c as u32 - 48) as u8)
        } else {
            None::<u8>
        }),
{
    if '0' <= c && c <= '9' {
        Some((c as u32 - 48) as u8)
    } else {
        None
    }
}

/// Appends a digit to a binary-coded decimal of thirty-two bits.
pub(crate) fn bcd_push(code: u32, digit: u8, Ghost(before): Ghost<Seq<u8>>) -> (longer: u32)
    requires
        digit <= 9,
        code == bcd32(before),
    ensures
        longer == bcd32(before.push(digit)),
{
    proof {
        lemma_bcd_step(bcd(before), digit);
        assert(before.push(digit).drop_last() =~= before);
    }
    (code << 4) | digit as u32
}

/// The characters of a text, for access by position.
pub(crate) fn chars_of(text: &str) -> (chars: Vec<char>)
    ensures
        chars@ == text@,
{
    let mut chars: Vec<char> = Vec::new();
    for c in it: text.chars()
        invariant
            chars@ == it.seq().take(it.index() as int),
    {
        chars.push(c);
        assert(chars@ =~= it.seq().take(it.index() + 1));
    }
    chars
}

/// Reads `text[from..to]` as a number.
pub(crate) fn parse_number(text: &Vec<char>, from: usize, to: usize) -> (value: Option<u32>)
    requires
        from <= to <= text.len(),
    ensures
        value == number(text@.subrange(from as int, to as int)),
{
    let ghost whole = text@.subrange(from as int, to as int);
    let start: usize = if from < to && text[from] == '+' {
        from + 1
    } else {
        from
    };
    let ghost numeral = text@.subrange(start as int, to as int);
    assert(numeral =~= if whole.len() > 0 && whole[0] == '+' {
        whole.skip(1)
    } else {
        whole
    });
    if start == to {
        return None;
    }
    let mut value: u64 = 0;
    let mut i: usize = start;
    while i < to
        invariant
            start <= i <= to <= text.len(),
            numeral == (if whole.len() > 0 && whole[0] == '+' {
                whole.skip(1)
            } else {
                whole
            }),
            whole == text@.subrange(from as int, to as int),
            numeral == text@.subrange(start as int, to as int),
            all_digits(numeral.take(i - start)),
            value == decimal(digits_of(numeral).take(i - start)),
            value <= u32::MAX,
        decreases to - i,
    {
        let ghost n = i - start;
        assert(numeral[n] == text@[i as int]);
        match to_digit(text[i]) {
            Some(digit) => {
                proof {
                    lemma_take_one_more(digits_of(numeral), n);
                }
                value = value * 10 + digit as u64;
                if value > u32::MAX as u64 {
                    proof {
                        lemma_decimal_grows(digits_of(numeral), n + 1);
                    }
                    return None;
                }
                i += 1;
            },
            None => {
                return None;
            },
        }
    }
    assert(numeral.take(to - start) =~= numeral);
    assert(digits_of(numeral).take(to - start) =~= digits_of(numeral));
    Some(value as u32)
}

} // verus!
