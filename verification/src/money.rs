//! Fixed-point money: amounts are unsigned integers counting 1/10000 of a
//! currency unit, so a price of 12.34 is held as 123400 units. Amounts are
//! rendered with exactly two digits after the decimal point, rounding to the
//! nearest cent with ties away from zero.

use vstd::prelude::*;

verus! {

/// The character for a single decimal digit.
pub open spec fn digit_char(d: int) -> char {
    if d == 0 {
        '0'
    } else if d == 1 {
        '1'
    } else if d == 2 {
        '2'
    } else if d == 3 {
        '3'
    } else if d == 4 {
        '4'
    } else if d == 5 {
        '5'
    } else if d == 6 {
        '6'
    } else if d == 7 {
        '7'
    } else if d == 8 {
        '8'
    } else {
        '9'
    }
}

pub open spec fn is_digit(c: char) -> bool {
    c == '0' || c == '1' || c == '2' || c == '3' || c == '4' || c == '5' || c == '6' || c == '7'
        || c == '8' || c == '9'
}

/// Decimal numeral of a non-negative integer, most significant digit first,
/// with no leading zeros (a single '0' for zero itself).
pub open spec fn dec_str(n: int) -> Seq<char>
    decreases n,
{
    if n < 10 {
        seq![digit_char(n)]
    } else {
        dec_str(n / 10).push(digit_char(n % 10))
    }
}

/// The whole number of cents nearest to an amount in 1/10000 units, rounding
/// ties away from zero.
pub open spec fn rounded_cents(units: int) -> int {
    (units + 50) / 100
}

/// The two-decimal rendering of an amount: the whole currency part, a point,
/// then exactly two cent digits, e.g. `0.50` or `12.00`.
pub open spec fn money_string(units: int) -> Seq<char> {
    dec_str(rounded_cents(units) / 100) + seq!['.'] + seq![
        digit_char(rounded_cents(units) % 100 / 10),
        digit_char(rounded_cents(units) % 100 % 10),
    ]
}

fn digit_str(d: u64) -> (r: &'static str)
    requires
        d < 10,
    ensures
        r@ =~= seq![digit_char(d as int)],
{
    proof {
        reveal_strlit("0");
        reveal_strlit("1");
        reveal_strlit("2");
        reveal_strlit("3");
        reveal_strlit("4");
        reveal_strlit("5");
        reveal_strlit("6");
        reveal_strlit("7");
        reveal_strlit("8");
        reveal_strlit("9");
    }
    if d == 0 {
        "0"
    } else if d == 1 {
        "1"
    } else if d == 2 {
        "2"
    } else if d == 3 {
        "3"
    } else if d == 4 {
        "4"
    } else if d == 5 {
        "5"
    } else if d == 6 {
        "6"
    } else if d == 7 {
        "7"
    } else if d == 8 {
        "8"
    } else {
        "9"
    }
}

/// The decimal numeral of `n` as an owned string.
pub fn dec_string(n: u64) -> (r: String)
    ensures
        r@ == dec_str(n as int),
    decreases n,
{
    if n < 10 {
        let r = digit_str(n).to_owned();
        proof {
            assert(r@ =~= dec_str(n as int));
        }
        r
    } else {
        let mut prefix = dec_string(n / 10);
        prefix.append(digit_str(n % 10));
        proof {
            assert(prefix@ =~= dec_str(n as int));
        }
        prefix
    }
}

/// Render an amount of 1/10000 units with exactly two decimal places,
/// rounding to the nearest cent with ties away from zero.
pub fn format_money(units: u64) -> (r: String)
    ensures
        r@ == money_string(units as int),
{
    proof {
        vstd::arithmetic::div_mod::lemma_fundamental_div_mod(units as int, 100);
        vstd::arithmetic::div_mod::lemma_hoist_over_denominator(
            units as int % 100 + 50,
            units as int / 100,
            100nat,
        );
    }
    let cents: u64 = units / 100 + (units % 100 + 50) / 100;
    proof {
        assert(cents as int == rounded_cents(units as int));
    }
    let mut s = dec_string(cents / 100);
    s.append(".");
    s.append(digit_str(cents % 100 / 10));
    s.append(digit_str(cents % 100 % 10));
    proof {
        reveal_strlit(".");
        assert(s@ =~= money_string(units as int));
    }
    s
}

proof fn lemma_dec_str_digits(n: int)
    ensures
        dec_str(n).len() >= 1,
        forall|i: int| 0 <= i < dec_str(n).len() ==> is_digit(#[trigger] dec_str(n)[i]),
    decreases n,
{
    if n >= 10 {
        lemma_dec_str_digits(n / 10);
    }
}

/// A formatted amount always has a whole part, then a point, then exactly two
/// cent digits; in particular it never starts with '.', so an amount below one
/// currency unit keeps its leading zero.
pub proof fn lemma_money_string_form(units: int)
    ensures
        money_string(units).len() >= 4,
        is_digit(money_string(units)[0]),
        money_string(units)[money_string(units).len() - 3] == '.',
        forall|i: int|
            0 <= i < money_string(units).len() && i != money_string(units).len() - 3 ==> is_digit(
                #[trigger] money_string(units)[i],
            ),
{
    lemma_dec_str_digits(rounded_cents(units) / 100);
    let w = dec_str(rounded_cents(units) / 100);
    let m = money_string(units);
    assert(m.len() == w.len() + 3);
    assert forall|i: int| 0 <= i < m.len() && i != m.len() - 3 implies is_digit(
        #[trigger] m[i],
    ) by {
        if i < w.len() {
            assert(m[i] == w[i]);
        }
    }
}

} // verus!
