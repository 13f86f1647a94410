//! Decimal text: the digits of natural numbers, fixed-point numbers, and
//! padding to a field width.

use vstd::prelude::*;
use vstd::string::{StringExecFns, StrSliceExecFns};

verus! {

/// The character of a decimal digit.
pub open spec fn digit(d: nat) -> char
    recommends
        d < 10,
{
    if d == 0 {
        '0'
    } else if d == 1 {
        '1'
    } else if d == 2 {
        '2'
    } else if d == 3 {
        '3'
    } else if d == 4 {
        '4'
    } else if d == 5 {
        '5'
    } else if d == 6 {
        '6'
    } else if d == 7 {
        '7'
    } else if d == 8 {
        '8'
    } else {
        '9'
    }
}

/// The decimal numeral of `n`, without leading zeros.
pub open spec fn decimal(n: nat) -> Seq<char>
    decreases n,
{
    if n < 10 {
        seq![digit(n)]
    } else {
        decimal(n / 10).push(digit(n % 10))
    }
}

/// Ten to the power `places`.
pub open spec fn tens(places: nat) -> nat
    decreases places,
{
    if places == 0 {
        1
    } else {
        10 * tens((places - 1) as nat)
    }
}

/// The last `places` decimal digits of `f`, leading zeros included.
pub open spec fn fraction(f: nat, places: nat) -> Seq<char>
    decreases places,
{
    if places == 0 {
        Seq::empty()
    } else {
        fraction(f / 10, (places - 1) as nat).push(digit(f % 10))
    }
}

/// The numeral of `t / 10^places` with exactly `places` digits after the
/// decimal point, and no point where `places` is zero.
pub open spec fn fixed(t: nat, places: nat) -> Seq<char> {
    if places == 0 {
        decimal(t)
    } else {
        decimal(t / tens(places)) + seq!['.'] + fraction(t % tens(places), places)
    }
}

/// `n` spaces.
pub open spec fn spaces(n: nat) -> Seq<char> {
    Seq::new(n, |i: int| ' ')
}

/// `text` followed by the spaces that bring it to `width` characters; a
/// longer text stays as it is.
pub open spec fn left_justified(text: Seq<char>, width: nat) -> Seq<char> {
    if text.len() >= width {
        text
    } else {
        text + spaces((width - text.len()) as nat)
    }
}

/// `text` preceded by the spaces that bring it to `width` characters; a
/// longer text stays as it is.
pub open spec fn right_justified(text: Seq<char>, width: nat) -> Seq<char> {
    if text.len() >= width {
        text
    } else {
        spaces((width - text.len()) as nat) + text
    }
}

/// Whether `c` is a decimal digit.
pub open spec fn is_digit(c: char) -> bool {
    c == '0' || c == '1' || c == '2' || c == '3' || c == '4' || c == '5' || c == '6' || c == '7'
        || c == '8' || c == '9'
}

/// Whether `s` is a numeral with `places` decimals: one digit or more, and
/// where `places` is not zero a point and exactly `places` digits after it.
pub open spec fn is_numeral(s: Seq<char>, places: nat) -> bool {
    let whole = if places == 0 {
        s.len() as int
    } else {
        s.len() - places - 1
    };
    &&& whole >= 1
    &&& forall|i: int| 0 <= i < whole ==> is_digit(#[trigger] s[i])
    &&& places > 0 ==> s[whole] == '.'
    &&& forall|i: int| whole < i < s.len() ==> is_digit(#[trigger] s[i])
}

/// The numeral of a natural number is one digit or more, and digits only.
pub proof fn lemma_decimal_digits(n: nat)
    ensures
        decimal(n).len() >= 1,
        forall|i: int| 0 <= i < decimal(n).len() ==> is_digit(#[trigger] decimal(n)[i]),
    decreases n,
{
    if n >= 10 {
        lemma_decimal_digits(n / 10);
    }
}

/// The decimals of a number are as many as asked for, and digits only.
pub proof fn lemma_fraction_digits(f: nat, places: nat)
    ensures
        fraction(f, places).len() == places,
        forall|i: int| 0 <= i < places ==> is_digit(#[trigger] fraction(f, places)[i]),
    decreases places,
{
    if places > 0 {
        lemma_fraction_digits(f / 10, (places - 1) as nat);
    }
}

/// A fixed-point text is a numeral with the decimals it was asked for.
pub proof fn lemma_fixed_is_numeral(t: nat, places: nat)
    ensures
        is_numeral(fixed(t, places), places),
{
    if places == 0 {
        lemma_decimal_digits(t);
    } else {
        let whole = decimal(t / tens(places));
        let part = fraction(t % tens(places), places);
        lemma_decimal_digits(t / tens(places));
        lemma_fraction_digits(t % tens(places), places);
        let s = fixed(t, places);
        assert(s.len() == whole.len() + 1 + places);
        assert forall|i: int| 0 <= i < whole.len() implies is_digit(#[trigger] s[i]) by {
            assert(s[i] == whole[i]);
        }
        assert(s[whole.len() as int] == '.');
        assert forall|i: int| whole.len() < i < s.len() implies is_digit(#[trigger] s[i]) by {
            assert(s[i] == part[i - whole.len() - 1]);
        }
    }
}

/// The powers of ten up to the eighteenth fit in 64 bits.
proof fn lemma_tens_bound(places: nat)
    requires
        places <= 18,
    ensures
        0 < tens(places) <= 1_000_000_000_000_000_000,
    decreases 18 - places,
{
    if places == 18 {
        reveal_with_fuel(tens, 20);
    } else {
        lemma_tens_bound(places + 1);
    }
}

fn digit_text(d: u8) -> (s: &'static str)
    requires
        d < 10,
    ensures
        s@ == seq![digit(d as nat)],
{
    proof {
        reveal_strlit("0");
        reveal_strlit("1");
        reveal_strlit("2");
        reveal_strlit("3");
        reveal_strlit("4");
        reveal_strlit("5");
        reveal_strlit("6");
        reveal_strlit("7");
        reveal_strlit("8");
        reveal_strlit("9");
    }
    let s: &'static str = if d == 0 {
        "0"
    } else if d == 1 {
        "1"
    } else if d == 2 {
        "2"
    } else if d == 3 {
        "3"
    } else if d == 4 {
        "4"
    } else if d == 5 {
        "5"
    } else if d == 6 {
        "6"
    } else if d == 7 {
        "7"
    } else if d == 8 {
        "8"
    } else {
        "9"
    };
    assert(s@ =~= seq![digit(d as nat)]);
    s
}

/// Ten to the power `places`.
fn power_of_ten(places: u32) -> (p: u64)
    requires
        places <= 18,
    ensures
        p == tens(places as nat),
        0 < p <= 1_000_000_000_000_000_000,
{
    let mut p: u64 = 1;
    let mut i: u32 = 0;
    while i < places
        invariant
            i <= places <= 18,
            p == tens(i as nat),
        decreases places - i,
    {
        proof {
            lemma_tens_bound(i as nat);
            lemma_tens_bound((i + 1) as nat);
        }
        p = p * 10;
        i = i + 1;
    }
    proof {
        lemma_tens_bound(places as nat);
    }
    p
}

/// Appends the decimal numeral of `n`.
pub fn push_decimal(out: &mut String, n: u128)
    ensures
        final(out)@ == old(out)@ + decimal(n as nat),
    decreases n,
{
    if n >= 10 {
        push_decimal(out, n / 10);
    }
    let d: u8 = (n % 10) as u8;
    out.append(digit_text(d));
    assert(out@ =~= old(out)@ + decimal(n as nat));
}

/// Appends the last `places` decimal digits of `f`.
pub fn push_fraction(out: &mut String, f: u128, places: u32)
    ensures
        final(out)@ == old(out)@ + fraction(f as nat, places as nat),
    decreases places,
{
    if places > 0 {
        push_fraction(out, f / 10, places - 1);
        let d: u8 = (f % 10) as u8;
        out.append(digit_text(d));
    }
    assert(out@ =~= old(out)@ + fraction(f as nat, places as nat));
}

/// Appends `t / 10^places` as a numeral with `places` digits after the point.
pub fn push_fixed(out: &mut String, t: u128, places: u32)
    requires
        places <= 18,
    ensures
        final(out)@ == old(out)@ + fixed(t as nat, places as nat),
{
    if places == 0 {
        push_decimal(out, t);
    } else {
        let unit: u128 = power_of_ten(places) as u128;
        push_decimal(out, t / unit);
        out.append(".");
        push_fraction(out, t % unit, places);
        proof {
            reveal_strlit(".");
            assert("."@ =~= seq!['.']);
            assert(out@ =~= old(out)@ + fixed(t as nat, places as nat));
        }
    }
}

/// Appends `count` spaces.
pub fn push_spaces(out: &mut String, count: usize)
    ensures
        final(out)@ == old(out)@ + spaces(count as nat),
{
    let mut i: usize = 0;
    assert(out@ =~= old(out)@ + spaces(0));
    while i < count
        invariant
            i <= count,
            out@ == old(out)@ + spaces(i as nat),
        decreases count - i,
    {
        out.append(" ");
        i = i + 1;
        proof {
            reveal_strlit(" ");
            assert(out@ =~= old(out)@ + spaces(i as nat));
        }
    }
}

/// `text` padded on the right to `width` characters.
pub fn left_justify(text: &str, width: usize) -> (out: String)
    ensures
        out@ == left_justified(text@, width as nat),
{
    let len: usize = text.unicode_len();
    let mut out = String::new();
    out.append(text);
    if len < width {
        push_spaces(&mut out, width - len);
    }
    assert(out@ =~= left_justified(text@, width as nat));
    out
}

/// `text` padded on the left to `width` characters.
pub fn right_justify(text: &str, width: usize) -> (out: String)
    ensures
        out@ == right_justified(text@, width as nat),
{
    let len: usize = text.unicode_len();
    let mut out = String::new();
    if len < width {
        push_spaces(&mut out, width - len);
    }
    out.append(text);
    assert(out@ =~= right_justified(text@, width as nat));
    out
}

} // verus!
