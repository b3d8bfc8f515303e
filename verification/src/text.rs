//! Text in decimal, and the few string operations the other modules share.

use vstd::arithmetic::power::pow;
use vstd::prelude::*;
use vstd::string::*;

verus! {

/// The character that stands for the decimal digit `d`.
pub open spec fn digit(d: nat) -> char
    recommends
        d < 10,
{
    (48 + d) as char
}

/// The decimal numeral of `n`, without leading zeros.
pub open spec fn decimal(n: nat) -> Seq<char>
    decreases n,
{
    if n < 10 {
        seq![digit(n)]
    } else {
        decimal(n / 10).push(digit(n % 10))
    }
}

/// The decimal numeral of an integer, with a minus sign where it is negative.
pub open spec fn signed_decimal(n: int) -> Seq<char> {
    if n < 0 {
        "-"@ + decimal((-n) as nat)
    } else {
        decimal(n as nat)
    }
}

/// The decimal numeral of `n`, padded with a zero to at least two digits.
pub open spec fn two_digits(n: nat) -> Seq<char> {
    if n < 10 {
        "0"@ + decimal(n)
    } else {
        decimal(n)
    }
}

fn digit_text(d: u64) -> (text: &'static str)
    requires
        d < 10,
    ensures
        text@ == seq![digit(d as nat)],
{
    proof {
        reveal_strlit("0");
        reveal_strlit("1");
        reveal_strlit("2");
        reveal_strlit("3");
        reveal_strlit("4");
        reveal_strlit("5");
        reveal_strlit("6");
        reveal_strlit("7");
        reveal_strlit("8");
        reveal_strlit("9");
    }
    let text = match d {
        0 => "0",
        1 => "1",
        2 => "2",
        3 => "3",
        4 => "4",
        5 => "5",
        6 => "6",
        7 => "7",
        8 => "8",
        _ => "9",
    };
    assert(text@ =~= seq![digit(d as nat)]);
    text
}

/// Appends the decimal numeral of `n`.
pub fn push_decimal(out: &mut String, n: u64)
    ensures
        final(out)@ == old(out)@ + decimal(n as nat),
    decreases n,
{
    if n >= 10 {
        push_decimal(out, n / 10);
    }
    out.append(digit_text(n % 10));
    assert(out@ =~= old(out)@ + decimal(n as nat));
}

/// Appends the decimal numeral of a count.
pub fn push_count(out: &mut String, n: usize)
    ensures
        final(out)@ == old(out)@ + decimal(n as nat),
{
    push_decimal(out, n as u64);
}

/// Appends the decimal numeral of an integer that may be negative.
pub fn push_signed(out: &mut String, n: i32)
    ensures
        final(out)@ == old(out)@ + signed_decimal(n as int),
{
    if n < 0 {
        out.append("-");
        push_decimal(out, (-(n as i64)) as u64);
        assert(out@ =~= old(out)@ + signed_decimal(n as int));
    } else {
        push_decimal(out, n as u64);
    }
}

/// Appends the decimal numeral of `n`, padded with a zero to at least two digits.
pub fn push_two_digits(out: &mut String, n: u8)
    ensures
        final(out)@ == old(out)@ + two_digits(n as nat),
{
    if n < 10 {
        out.append("0");
    }
    push_decimal(out, n as u64);
    assert(out@ =~= old(out)@ + two_digits(n as nat));
}

/// The characters of a string.
pub fn characters(text: &str) -> (chars: Vec<char>)
    ensures
        chars@ == text@,
{
    let mut chars: Vec<char> = Vec::new();
    for c in it: text.chars()
        invariant
            chars@ == it.seq().take(it.index() as int),
            it.seq() == text@,
    {
        chars.push(c);
    }
    chars
}

/// Whether `text` starts with `prefix`.
pub fn starts_with(text: &str, prefix: &str) -> (does: bool)
    ensures
        does == prefix@.is_prefix_of(text@),
{
    let chars = characters(text);
    let start = characters(prefix);
    if start.len() > chars.len() {
        return false;
    }
    let mut i: usize = 0;
    while i < start.len()
        invariant
            i <= start@.len() <= chars@.len(),
            chars@ == text@,
            start@ == prefix@,
            forall|j: int| 0 <= j < i ==> chars@[j] == start@[j],
        decreases start@.len() - i,
    {
        if chars[i] != start[i] {
            assert(chars@.subrange(0, start@.len() as int)[i as int] != start@[i as int]);
            return false;
        }
        i = i + 1;
    }
    assert(prefix@ =~= text@.subrange(0, prefix@.len() as int));
    true
}

/// Whether a character is a decimal digit.
pub open spec fn is_digit(c: char) -> bool {
    '0' <= c <= '9'
}

/// The number that decimal digits stand for.
pub open spec fn numeral(digits: Seq<char>) -> nat
    decreases digits.len(),
{
    if digits.len() == 0 {
        0
    } else {
        (10 * numeral(digits.drop_last()) + (digits.last() as nat - 48)) as nat
    }
}

/// The digits of a number that is written with or without a plus sign.
pub open spec fn unsigned_part(text: Seq<char>) -> Seq<char> {
    if text.len() > 0 && text[0] == '+' {
        text.skip(1)
    } else {
        text
    }
}

/// The number that a text stands for: a plus sign or none, at least one decimal digit,
/// nothing else, and no more than a byte holds.
pub open spec fn small_number(text: Seq<char>) -> Option<u8> {
    let digits = unsigned_part(text);
    if digits.len() > 0 && (forall|i: int| 0 <= i < digits.len() ==> is_digit(#[trigger] digits[i]))
        && numeral(digits) <= u8::MAX {
        Some(numeral(digits) as u8)
    } else {
        None
    }
}

proof fn lemma_numeral_grows(digits: Seq<char>, count: int)
    requires
        0 <= count <= digits.len(),
        forall|i: int| 0 <= i < digits.len() ==> is_digit(#[trigger] digits[i]),
    ensures
        numeral(digits.take(count)) <= numeral(digits),
    decreases digits.len(),
{
    if count == digits.len() {
        assert(digits.take(count) =~= digits);
    } else {
        assert forall|i: int| 0 <= i < digits.drop_last().len() implies is_digit(
            #[trigger] digits.drop_last()[i],
        ) by {
            assert(digits.drop_last()[i] == digits[i]);
        }
        lemma_numeral_grows(digits.drop_last(), count);
        assert(digits.drop_last().take(count) =~= digits.take(count));
        assert(is_digit(digits[digits.len() - 1]));
    }
}

/// Reads a number that a byte holds.
pub fn parse_small(text: &str) -> (number: Option<u8>)
    ensures
        number == small_number(text@),
{
    let chars = characters(text);
    let start: usize = if chars.len() > 0 && chars[0] == '+' {
        1
    } else {
        0
    };
    let ghost digits = unsigned_part(text@);
    assert(digits =~= chars@.skip(start as int));
    if chars.len() == start {
        return None;
    }
    let mut value: u32 = 0;
    let mut i: usize = start;
    assert(digits.take(0) =~= seq![]);
    while i < chars.len()
        invariant
            start <= i <= chars@.len(),
            start < chars@.len(),
            digits == chars@.skip(start as int),
            digits == unsigned_part(text@),
            value == numeral(digits.take(i - start)),
            value <= 255,
            forall|j: int| 0 <= j < i - start ==> is_digit(#[trigger] digits[j]),
        decreases chars@.len() - i,
    {
        let c = chars[i];
        assert(digits[i - start] == c);
        if !('0' <= c && c <= '9') {
            return None;
        }
        value = 10 * value + (c as u32 - 48);
        proof {
            let taken = digits.take(i - start + 1);
            assert(taken.drop_last() =~= digits.take(i - start));
        }
        i = i + 1;
        if value > 255 {
            proof {
                if small_number(text@) is Some {
                    lemma_numeral_grows(digits, i - start);
                }
            }
            return None;
        }
    }
    assert(digits.take(i - start) =~= digits);
    Some(value as u8)
}

proof fn lemma_decimal_digits(n: nat)
    ensures
        decimal(n).len() > 0,
        forall|i: int| 0 <= i < decimal(n).len() ==> is_digit(#[trigger] decimal(n)[i]),
        numeral(decimal(n)) == n,
    decreases n,
{
    if n < 10 {
        assert(decimal(n).drop_last() =~= seq![]);
        assert(numeral(decimal(n).drop_last()) == 0);
    } else {
        lemma_decimal_digits(n / 10);
        assert(decimal(n).drop_last() =~= decimal(n / 10));
    }
}

/// The decimal numeral of a byte stands for that byte, also when it is padded with a zero.
pub proof fn law_decimal_reads_back(n: u8)
    ensures
        small_number(decimal(n as nat)) == Some(n),
        small_number(two_digits(n as nat)) == Some(n),
{
    lemma_decimal_digits(n as nat);
    let plain = decimal(n as nat);
    assert(is_digit(plain[0]));
    assert(unsigned_part(plain) =~= plain);
    if n < 10 {
        reveal_strlit("0");
        let padded = two_digits(n as nat);
        assert(padded =~= seq!['0', digit(n as nat)]);
        assert(unsigned_part(padded) =~= padded);
        reveal_with_fuel(numeral, 3);
        assert(padded.drop_last() =~= seq!['0']);
        assert(padded.drop_last().drop_last() =~= seq![]);
    }
}

/// The digit at every place of a decimal numeral is that of the number, there are no more
/// digits than the number needs, and a single digit for zero.
pub proof fn law_decimal_places(n: nat, place: nat)
    ensures
        decimal(n).len() > 0,
        n < pow(10, decimal(n).len()),
        decimal(n).len() > 1 ==> pow(10, (decimal(n).len() - 1) as nat) <= n,
        place < decimal(n).len() ==> decimal(n)[decimal(n).len() - 1 - place] as int == '0' as int
            + (n as int / pow(10, place)) % 10,
    decreases n,
{
    reveal(pow);
    assert(pow(10, 0) == 1);
    assert(pow(10, 1) == 10) by {
        assert(pow(10, 1) == 10 * pow(10, 0));
    }
    if n >= 10 {
        let fewer = n / 10;
        let len = decimal(fewer).len();
        law_decimal_places(fewer, if place > 0 {
            (place - 1) as nat
        } else {
            0
        });
        assert(pow(10, len + 1) == 10 * pow(10, len));
        if len > 1 {
            assert(pow(10, len) == 10 * pow(10, (len - 1) as nat));
        }
        if 0 < place < decimal(n).len() {
            let below = pow(10, (place - 1) as nat);
            vstd::arithmetic::power::lemma_pow_positive(10, (place - 1) as nat);
            assert(pow(10, place) == 10 * below);
            vstd::arithmetic::div_mod::lemma_div_denominator(n as int, 10, below);
            assert(decimal(n)[decimal(n).len() - 1 - place] == decimal(fewer)[len - 1 - (place
                - 1)]);
        }
    }
}

/// The numeral of a negative number is a minus sign and the numeral of its opposite.
pub proof fn law_minus_sign(n: nat)
    ensures
        signed_decimal(n as int) == decimal(n),
        n > 0 ==> signed_decimal(-(n as int)) == seq!['-'] + signed_decimal(n as int),
{
    reveal_strlit("-");
    assert("-"@ =~= seq!['-']);
}

/// Two digits are the tens and the ones; a number that needs more digits gets them.
pub proof fn law_two_digits(n: nat)
    ensures
        n < 100 ==> two_digits(n) == seq![
            ('0' as int + n as int / 10) as char,
            ('0' as int + n as int % 10) as char,
        ],
        n >= 100 ==> two_digits(n) == decimal(n),
{
    reveal_strlit("0");
    reveal_with_fuel(decimal, 3);
    if n < 100 {
        assert(two_digits(n) =~= seq![
            ('0' as int + n as int / 10) as char,
            ('0' as int + n as int % 10) as char,
        ]);
    }
}

proof fn lemma_padded_digits(n: nat, zeros: nat)
    ensures
        ({
            let padded = Seq::new(zeros, |i: int| '0') + decimal(n);
            &&& forall|i: int| 0 <= i < padded.len() ==> is_digit(#[trigger] padded[i])
            &&& numeral(padded) == n
        }),
    decreases zeros + decimal(n).len(),
{
    lemma_decimal_digits(n);
    let padded = Seq::new(zeros, |i: int| '0') + decimal(n);
    if n >= 10 {
        lemma_padded_digits(n / 10, zeros);
        assert(padded.drop_last() =~= Seq::new(zeros, |i: int| '0') + decimal(n / 10));
        lemma_decimal_digits(n / 10);
    } else if zeros > 0 {
        lemma_padded_digits(0, (zeros - 1) as nat);
        assert(padded.drop_last() =~= Seq::new((zeros - 1) as nat, |i: int| '0') + decimal(0));
    } else {
        assert(padded =~= decimal(n));
    }
    assert forall|i: int| 0 <= i < padded.len() implies is_digit(#[trigger] padded[i]) by {
        if i >= zeros {
            assert(padded[i] == decimal(n)[i - zeros]);
        }
    }
}

proof fn lemma_digits_are_padded(digits: Seq<char>)
    requires
        digits.len() > 0,
        forall|i: int| 0 <= i < digits.len() ==> is_digit(#[trigger] digits[i]),
    ensures
        decimal(numeral(digits)).len() <= digits.len(),
        digits == Seq::new(
            (digits.len() - decimal(numeral(digits)).len()) as nat,
            |i: int| '0',
        ) + decimal(numeral(digits)),
    decreases digits.len(),
{
    let n = numeral(digits);
    let front = digits.drop_last();
    assert(is_digit(digits[digits.len() - 1]));
    if front.len() > 0 {
        assert forall|i: int| 0 <= i < front.len() implies is_digit(#[trigger] front[i]) by {
            assert(front[i] == digits[i]);
        }
        lemma_digits_are_padded(front);
    } else {
        assert(numeral(front) == 0);
    }
    assert(digits =~= front.push(digits.last()));
    assert(digits =~= Seq::new((digits.len() - decimal(n).len()) as nat, |i: int| '0') + decimal(
        n,
    ));
}

/// Leading zeros and a plus sign do not matter: a numeral that is padded with any number of
/// zeros stands for its number, with a plus sign before it or without.
pub proof fn law_padded_numbers_read(n: u8, zeros: nat)
    ensures
        ({
            let padded = Seq::new(zeros, |i: int| '0') + decimal(n as nat);
            &&& small_number(padded) == Some(n)
            &&& small_number(seq!['+'] + padded) == Some(n)
        }),
{
    let padded = Seq::new(zeros, |i: int| '0') + decimal(n as nat);
    lemma_padded_digits(n as nat, zeros);
    lemma_decimal_digits(n as nat);
    assert(is_digit(padded[0]));
    assert(unsigned_part(padded) =~= padded);
    assert(unsigned_part(seq!['+'] + padded) =~= padded);
}

/// Nothing else is a number: a text that stands for one is its numeral, padded with some
/// zeros or none, with a plus sign before it or without.
pub proof fn law_only_padded_numbers_read(text: Seq<char>)
    requires
        small_number(text) is Some,
    ensures
        ({
            let plain = decimal(small_number(text)->0 as nat);
            let padding = text.len() - plain.len();
            &&& padding >= 0
            &&& text.skip(padding) == plain
            &&& padding > 0 ==> text[0] == '0' || text[0] == '+'
            &&& forall|i: int| 0 < i < padding ==> #[trigger] text[i] == '0'
        }),
{
    let digits = unsigned_part(text);
    lemma_digits_are_padded(digits);
    let plain = decimal(small_number(text)->0 as nat);
    let zeros = (digits.len() - plain.len()) as nat;
    assert(digits == Seq::new(zeros, |i: int| '0') + plain);
    let padding = text.len() - plain.len();
    assert forall|i: int| 0 <= i < padding implies (#[trigger] text[i] == '0' || (i == 0 && text[0]
        == '+')) by {
        if text[0] == '+' {
            if i > 0 {
                assert(text[i] == digits[i - 1]);
            }
        } else {
            assert(text[i] == digits[i]);
        }
    }
    assert(text.skip(padding) =~= digits.skip(zeros as int));
    assert(digits.skip(zeros as int) =~= plain);
}

} // verus!
