//! Writing numbers.
use vstd::prelude::*;

verus! {

/// A digit, in lower case.
pub open spec fn digit(value: int) -> char {
    "0123456789abcdef"@[value]
}

/// A number in a given base, without leading zeros.
pub open spec fn numeral(value: nat, base: nat) -> Seq<char>
    decreases value,
{
    if base < 2 || value < base {
        seq![digit(value as int)]
    } else {
        proof {
            lemma_quotient_is_less(value as int, base as int);
        }
        numeral(value / base, base).push(digit((value % base) as int))
    }
}

/// Dividing by a base makes a number smaller.
pub proof fn lemma_quotient_is_less(value: int, base: int)
    by (nonlinear_arith)
    requires
        2 <= base <= value,
    ensures
        0 <= value / base < value,
        0 <= value % base < base,
{
}

/// A numeral with zeros in front of it up to a given width.
pub open spec fn padded(numeral: Seq<char>, width: nat) -> Seq<char> {
    if numeral.len() < width {
        Seq::new((width - numeral.len()) as nat, |i: int| '0') + numeral
    } else {
        numeral
    }
}

/// A number in decimal.
pub open spec fn decimal(value: int) -> Seq<char> {
    if value < 0 {
        seq!['-'] + numeral((-value) as nat, 10)
    } else {
        numeral(value as nat, 10)
    }
}

/// A number in hexadecimal, padded with zeros to a given width.
pub open spec fn hexadecimal(value: nat, width: nat) -> Seq<char> {
    padded(numeral(value, 16), width)
}

/// Appends a digit.
fn append_digit(text: &mut String, value: u64)
    requires
        value < 16,
    ensures
        final(text)@ == old(text)@.push(digit(value as int)),
{
    let digits = "0123456789abcdef";
    proof {
        reveal_strlit("0123456789abcdef");
    }
    text.append(digits.substring_ascii(value as usize, value as usize + 1));
    assert(text@ =~= old(text)@.push(digit(value as int)));
}

/// Appends a number in a given base.
fn append_numeral(text: &mut String, value: u64, base: u64)
    requires
        2 <= base <= 16,
    ensures
        final(text)@ == old(text)@ + numeral(value as nat, base as nat),
    decreases value,
{
    if value >= base {
        proof {
            lemma_quotient_is_less(value as int, base as int);
        }
        append_numeral(text, value / base, base);
        append_digit(text, value % base);
    } else {
        append_digit(text, value);
    }
    assert(text@ =~= old(text)@ + numeral(value as nat, base as nat));
}

/// The number of digits of a number in a given base.
fn numeral_len(value: u64, base: u64) -> (len: u64)
    requires
        2 <= base <= 16,
        value <= u32::MAX,
    ensures
        len == numeral(value as nat, base as nat).len(),
        len <= value + 1,
    decreases value,
{
    if value < base {
        1
    } else {
        proof {
            lemma_quotient_is_less(value as int, base as int);
        }
        numeral_len(value / base, base) + 1
    }
}

/// Appends a number in decimal.
pub fn append_decimal(text: &mut String, value: u64)
    ensures
        final(text)@ == old(text)@ + decimal(value as int),
{
    append_numeral(text, value, 10);
}

/// Appends a number that may be negative in decimal.
pub fn append_signed(text: &mut String, value: i32)
    ensures
        final(text)@ == old(text)@ + decimal(value as int),
{
    if value < 0 {
        proof {
            reveal_strlit("-");
        }
        text.append("-");
        append_numeral(text, (-(value as i64)) as u64, 10);
        assert(text@ =~= old(text)@ + decimal(value as int));
    } else {
        append_numeral(text, value as u64, 10);
    }
}

/// Appends a number in hexadecimal, padded with zeros to a given width.
pub fn append_hexadecimal(text: &mut String, value: u32, width: u32)
    ensures
        final(text)@ == old(text)@ + hexadecimal(value as nat, width as nat),
{
    let len: u64 = numeral_len(value as u64, 16);
    let mut written: u64 = len;
    while written < width as u64
        invariant
            len == numeral(value as nat, 16).len(),
            len <= written,
            written == len || written <= width,
            text@ == old(text)@ + Seq::new((written - len) as nat, |i: int| '0'),
        decreases width - written,
    {
        proof {
            reveal_strlit("0");
        }
        let ghost before: Seq<char> = text@;
        text.append("0");
        assert(text@ =~= before.push('0'));
        assert(text@ =~= old(text)@ + Seq::new((written + 1 - len) as nat, |i: int| '0'));
        written += 1;
    }
    let ghost zeros: Seq<char> = Seq::new((written - len) as nat, |i: int| '0');
    append_numeral(text, value as u64, 16);
    assert(text@ =~= old(text)@ + (zeros + numeral(value as nat, 16)));
    assert(zeros + numeral(value as nat, 16) =~= hexadecimal(value as nat, width as nat));
}

/// The number that a digit stands for.
pub open spec fn digit_value(symbol: char) -> int {
    "0123456789abcdef"@.index_of(symbol)
}

/// The number that some digits stand for.
pub open spec fn denoted(digits: Seq<char>, base: nat) -> int
    decreases digits.len(),
{
    if digits.len() == 0 {
        0
    } else {
        denoted(digits.drop_last(), base) * base + digit_value(digits.last())
    }
}

/// A digit stands for the number it was written for.
proof fn lemma_digit_value(value: int)
    requires
        0 <= value < 16,
    ensures
        digit_value(digit(value)) == value,
{
    reveal_strlit("0123456789abcdef");
    let symbols: Seq<char> = "0123456789abcdef"@;
    assert(symbols.contains(symbols[value]));
    let found: int = symbols.index_of(symbols[value]);
    assert(0 <= found < 16 && symbols[found] == symbols[value]);
}

/// A number is read back from its numeral.
pub proof fn law_numeral_denotes_its_number(value: nat, base: nat)
    requires
        2 <= base <= 16,
    ensures
        denoted(numeral(value, base), base) == value,
    decreases value,
{
    reveal_strlit("0123456789abcdef");
    assert forall|d: int| 0 <= d < 16 implies digit_value(#[trigger] digit(d)) == d by {
        lemma_digit_value(d);
    }
    if value < base {
        assert(numeral(value, base).drop_last() =~= Seq::<char>::empty());
        assert(denoted(Seq::<char>::empty(), base) == 0);
        assert(0 * base == 0);
    } else {
        lemma_quotient_is_less(value as int, base as int);
        law_numeral_denotes_its_number(value / base, base);
        assert(numeral(value, base).drop_last() =~= numeral(value / base, base));
        vstd::arithmetic::div_mod::lemma_fundamental_div_mod(value as int, base as int);
        assert(denoted(numeral(value / base, base), base) * base == base * (value / base))
            by (nonlinear_arith)
            requires
                denoted(numeral(value / base, base), base) == value / base,
        ;
    }
}

/// The digits are the characters from `0` to `9` and from `a` to `f`.
pub proof fn law_digits_are_lower_case(value: int)
    requires
        0 <= value < 16,
    ensures
        value < 10 ==> digit(value) as u32 == 48 + value,
        value >= 10 ==> digit(value) as u32 == 97 + value - 10,
{
    reveal_strlit("0123456789abcdef");
}

/// A number in hexadecimal: its last digit is what 16 leaves of it, the digits before are those of
/// what is left, and there are zeros in front of it only up to the width.
pub proof fn law_hexadecimal_digits(value: nat, width: nat)
    ensures
        ({
            let text: Seq<char> = hexadecimal(value, width);
            let bare: Seq<char> = hexadecimal(value, 0);
            &&& value < 16 ==> bare == seq![digit(value as int)]
            &&& value >= 16 ==> bare == hexadecimal(value / 16, 0).push(digit((value % 16) as int))
            &&& text.len() >= width
            &&& text.len() == width || text == bare
            &&& text.len() >= bare.len()
            &&& text.subrange(text.len() - bare.len(), text.len() as int) == bare
            &&& forall|i: int| 0 <= i < text.len() - bare.len() ==> #[trigger] text[i] == '0'
        }),
{
    let text: Seq<char> = hexadecimal(value, width);
    let bare: Seq<char> = hexadecimal(value, 0);
    assert(text.subrange(text.len() - bare.len(), text.len() as int) =~= bare);
}

/// A number in decimal: its last digit is what 10 leaves of it, the digits before are those of what
/// is left, and a minus stands in front of a number below zero.
pub proof fn law_decimal_digits(value: int)
    ensures
        0 <= value < 10 ==> decimal(value) == seq![digit(value)],
        value >= 10 ==> decimal(value) == decimal(value / 10).push(digit(value % 10)),
        value < 0 ==> decimal(value) == seq!['-'] + decimal(-value),
{
}

} // verus!
