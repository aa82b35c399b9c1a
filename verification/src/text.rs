//! Numbers in texts.

use vstd::prelude::*;

verus! {

/// The decimal digit of a number below ten.
pub open spec fn decimal_digit(n: int) -> char {
    ('0' as int + n) as char
}

/// The decimal digits of a number, with zeros in front up to `width` digits.
pub open spec fn padded_decimal(n: nat, width: nat) -> Seq<char>
    decreases n + width,
{
    if n < 10 && width <= 1 {
        seq![decimal_digit(n as int)]
    } else {
        padded_decimal(
            n / 10,
            if width > 0 {
                (width - 1) as nat
            } else {
                0
            },
        ).push(decimal_digit(n as int % 10))
    }
}

/// The number that some decimal digits write.
pub open spec fn decimal_value(digits: Seq<char>) -> int
    decreases digits.len(),
{
    if digits.len() == 0 {
        0
    } else {
        10 * decimal_value(digits.drop_last()) + (digits.last() as int - '0' as int)
    }
}

fn decimal_digit_text(d: u64) -> (r: &'static str)
    requires
        d < 10,
    ensures
        r@ == seq![decimal_digit(d as int)],
{
    proof {
        reveal_strlit("0");
        reveal_strlit("1");
        reveal_strlit("2");
        reveal_strlit("3");
        reveal_strlit("4");
        reveal_strlit("5");
        reveal_strlit("6");
        reveal_strlit("7");
        reveal_strlit("8");
        reveal_strlit("9");
    }
    let r = match d {
        0 => "0",
        1 => "1",
        2 => "2",
        3 => "3",
        4 => "4",
        5 => "5",
        6 => "6",
        7 => "7",
        8 => "8",
        _ => "9",
    };
    assert(r@ =~= seq![decimal_digit(d as int)]);
    r
}

/// Writes a number in decimal digits, with zeros in front up to `width` digits.
pub fn append_padded_decimal(text: &mut String, n: u64, width: u32)
    ensures
        final(text)@ == old(text)@ + padded_decimal(n as nat, width as nat),
    decreases n + width,
{
    if n < 10 && width <= 1 {
        text.append(decimal_digit_text(n));
    } else {
        let rest: u32 = if width > 0 {
            width - 1
        } else {
            0
        };
        append_padded_decimal(text, n / 10, rest);
        text.append(decimal_digit_text(n % 10));
    }
    assert(text@ =~= old(text)@ + padded_decimal(n as nat, width as nat));
}

/// Decimal digits are read back as the number for which they were written.
pub proof fn padded_decimal_reads_back(n: nat, width: nat)
    ensures
        decimal_value(padded_decimal(n, width)) == n,
    decreases n + width,
{
    let digits = padded_decimal(n, width);
    if n < 10 && width <= 1 {
        assert(digits.drop_last() =~= Seq::<char>::empty());
        assert(decimal_value(digits.drop_last()) == 0);
    } else {
        let rest: nat = if width > 0 {
            (width - 1) as nat
        } else {
            0
        };
        padded_decimal_reads_back(n / 10, rest);
        assert(digits.drop_last() =~= padded_decimal(n / 10, rest));
    }
}

/// A number is written behind the text in decimal digits, as many as are asked for; it takes more
/// only if it needs them, and then it does not begin with a zero. The digits are read back as the
/// number, and the text before them stays.
pub proof fn number_is_written_in_decimal_digits(text: &mut String, n: u64, width: u32)
    requires
        call_ensures(append_padded_decimal, (text, n, width), ()),
    ensures
        ({
            let start = old(text)@.len() as int;
            let digits = final(text)@.subrange(start, final(text)@.len() as int);
            &&& start < final(text)@.len()
            &&& final(text)@.subrange(0, start) == old(text)@
            &&& forall|i: int| 0 <= i < digits.len() ==> '0' <= #[trigger] digits[i] <= '9'
            &&& digits.fold_left(0, |value: int, c: char| 10 * value + (c as int - '0' as int)) == n
            &&& digits.len() >= width
            &&& digits.len() > width && digits.len() > 1 ==> digits[0] != '0'
        }),
{
    let digits = padded_decimal(n as nat, width as nat);
    let start = old(text)@.len() as int;
    lemma_padded_decimal(n as nat, width as nat);
    padded_decimal_reads_back(n as nat, width as nat);
    lemma_decimal_value(digits);
    assert(final(text)@.subrange(start, final(text)@.len() as int) =~= digits);
    assert(final(text)@.subrange(0, start) =~= old(text)@);
}

proof fn lemma_decimal_value(digits: Seq<char>)
    ensures
        decimal_value(digits) == digits.fold_left(
            0,
            |value: int, c: char| 10 * value + (c as int - '0' as int),
        ),
    decreases digits.len(),
{
    reveal_with_fuel(Seq::fold_left, 2);
    if digits.len() > 0 {
        lemma_decimal_value(digits.drop_last());
    }
}

proof fn lemma_padded_decimal(n: nat, width: nat)
    ensures
        padded_decimal(n, width).len() >= 1,
        padded_decimal(n, width).len() >= width,
        forall|i: int|
            0 <= i < padded_decimal(n, width).len() ==> '0' <= #[trigger] padded_decimal(
                n,
                width,
            )[i] <= '9',
        padded_decimal(n, width).len() > width && padded_decimal(n, width).len() > 1
            ==> padded_decimal(n, width)[0] != '0',
        padded_decimal(n, width)[0] == '0' && padded_decimal(n, width).len() == 1 ==> n == 0,
        width <= 1 && n > 0 ==> padded_decimal(n, width)[0] != '0',
    decreases n + width,
{
    if !(n < 10 && width <= 1) {
        let rest: nat = if width > 0 {
            (width - 1) as nat
        } else {
            0
        };
        lemma_padded_decimal(n / 10, rest);
    }
}

} // verus!
