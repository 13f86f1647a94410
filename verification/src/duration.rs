//! Spans of elapsed time and the text that displays them.
//!
//! A span is shown in the largest unit that keeps it readable: seconds from
//! one second on, milliseconds from one millisecond on, microseconds below.
//! The number is the nearest double-precision value to the span in that
//! unit, printed with a fixed count of decimals, so the text is the one that
//! formatting the same quantity in double precision gives.

use vstd::prelude::*;
use vstd::string::StringExecFns;
use vstd::arithmetic::div_mod::lemma_fundamental_div_mod_converse;
use crate::binary64::{
    at_least,
    lemma_nearest_against_integer,
    nearest,
    quotient,
    scaled,
    sum,
    Binary64,
    Dyadic,
};
use crate::decimal::{
    fixed,
    is_numeral,
    left_justified,
    left_justify,
    lemma_fixed_is_numeral,
    push_fixed,
    right_justified,
    right_justify,
};

verus! {

/// Nanoseconds in one second.
pub const NANOS_PER_SEC: u32 = 1_000_000_000;

/// One more than the longest span in nanoseconds: `2^64` seconds.
pub const SPAN_END: u128 = 18_446_744_073_709_551_616_000_000_000;

/// A span of elapsed time: whole seconds, and nanoseconds below one second.
#[derive(Clone, Copy, Debug, PartialEq, Eq)]
pub struct Span {
    secs: u64,
    nanos: u32,
}

impl View for Span {
    type V = nat;

    /// The span in nanoseconds.
    closed spec fn view(&self) -> nat {
        (self.secs * NANOS_PER_SEC + self.nanos) as nat
    }
}

impl Span {
    #[verifier::type_invariant]
    spec fn below_one_second(self) -> bool {
        self.nanos < NANOS_PER_SEC
    }

    /// The span of `secs` seconds and `nanos` nanoseconds, whole seconds in
    /// `nanos` carried over; `None` where the seconds no longer fit.
    pub fn new(secs: u64, nanos: u32) -> (d: Option<Span>)
        ensures
            d is Some <==> secs + nanos / NANOS_PER_SEC <= u64::MAX,
            d is Some ==> d->0@ == secs * NANOS_PER_SEC + nanos,
    {
        let carry: u64 = (nanos / NANOS_PER_SEC) as u64;
        if carry > u64::MAX - secs {
            None
        } else {
            Some(Span { secs: secs + carry, nanos: nanos % NANOS_PER_SEC })
        }
    }

    /// The span of `total` nanoseconds; `None` from `2^64` seconds on.
    pub fn from_nanos(total: u128) -> (d: Option<Span>)
        ensures
            d is Some <==> total < SPAN_END,
            d is Some ==> d->0@ == total,
    {
        if total >= SPAN_END {
            None
        } else {
            let secs: u64 = (total / (NANOS_PER_SEC as u128)) as u64;
            let nanos: u32 = (total % (NANOS_PER_SEC as u128)) as u32;
            Some(Span { secs, nanos })
        }
    }

    /// The whole seconds of the span.
    pub fn as_secs(&self) -> (secs: u64)
        ensures
            secs == self@ / (NANOS_PER_SEC as nat),
    {
        proof {
            use_type_invariant(self);
            lemma_fundamental_div_mod_converse(
                self@ as int,
                NANOS_PER_SEC as int,
                self.secs as int,
                self.nanos as int,
            );
        }
        self.secs
    }

    /// The nanoseconds of the span beyond its whole seconds.
    pub fn subsec_nanos(&self) -> (nanos: u32)
        ensures
            nanos == self@ % (NANOS_PER_SEC as nat),
            nanos < NANOS_PER_SEC,
    {
        proof {
            use_type_invariant(self);
            lemma_fundamental_div_mod_converse(
                self@ as int,
                NANOS_PER_SEC as int,
                self.secs as int,
                self.nanos as int,
            );
        }
        self.nanos
    }

    /// The span in nanoseconds.
    pub fn as_nanos(&self) -> (total: u128)
        ensures
            total == self@,
            total < SPAN_END,
    {
        proof {
            use_type_invariant(self);
            assert(self.secs * NANOS_PER_SEC <= 0xffff_ffff_ffff_ffff * 1_000_000_000)
                by (nonlinear_arith)
                requires
                    self.secs <= 0xffff_ffff_ffff_ffff,
                    NANOS_PER_SEC == 1_000_000_000,
            ;
        }
        (self.secs as u128) * (NANOS_PER_SEC as u128) + (self.nanos as u128)
    }
}

/// The unit a span is displayed in.
#[derive(Clone, Copy, Debug, PartialEq, Eq)]
pub enum Unit {
    Seconds,
    Millis,
    Micros,
}

/// What the text of a span is made of: the unit, the count of decimals, and
/// the number shown, as a whole count of its last decimal place.
#[derive(Clone, Copy, Debug, PartialEq, Eq)]
pub struct Reading {
    pub unit: Unit,
    pub places: u32,
    pub scaled: u128,
}

/// The double-precision value of `nanos` nanoseconds in milliseconds.
pub open spec fn millis_value(nanos: nat) -> Dyadic {
    nearest(nanos, 1_000_000)
}

/// The double-precision value of `nanos` nanoseconds in microseconds.
pub open spec fn micros_value(nanos: nat) -> Dyadic {
    nearest(nanos, 1_000)
}

/// The double-precision value of a span of `d` nanoseconds in seconds: its
/// whole seconds plus a thousandth of the milliseconds beyond them, each
/// step rounded.
pub open spec fn seconds_value(d: nat) -> Dyadic {
    sum(nearest(d / 1_000_000_000, 1), quotient(millis_value(d % 1_000_000_000), 1_000))
}

/// The unit that a span of `d` nanoseconds is displayed in.
pub open spec fn unit_of(d: nat) -> Unit {
    if d >= 1_000_000_000 {
        Unit::Seconds
    } else if d >= 1_000_000 {
        Unit::Millis
    } else {
        Unit::Micros
    }
}

/// The count of decimals that a span of `d` nanoseconds is displayed with.
pub open spec fn places_of(d: nat) -> nat {
    if d >= 1_000_000_000 {
        1
    } else if d >= 20_000_000 {
        0
    } else if d >= 1_000_000 {
        1
    } else if d >= 10_000 {
        0
    } else {
        2
    }
}

/// The number displayed for a span of `d` nanoseconds, as a whole count of
/// its last decimal place, a tie going to the even count.
pub open spec fn scaled_of(d: nat) -> nat {
    if d >= 1_000_000_000 {
        scaled(seconds_value(d), 10)
    } else if d >= 20_000_000 {
        scaled(millis_value(d), 1)
    } else if d >= 1_000_000 {
        scaled(millis_value(d), 10)
    } else if d >= 10_000 {
        scaled(micros_value(d), 1)
    } else {
        scaled(micros_value(d), 100)
    }
}

/// The unit and the decimals of a span below one second go by its value in
/// double precision: milliseconds from a value of one millisecond on,
/// without decimals from twenty; in microseconds, without decimals from a
/// value of ten. Rounding moves no span across these marks.
pub proof fn lemma_marks_in_double_precision(nanos: nat)
    requires
        nanos < 1_000_000_000,
    ensures
        at_least(millis_value(nanos), 20) <==> nanos >= 20_000_000,
        at_least(millis_value(nanos), 1) <==> nanos >= 1_000_000,
        at_least(micros_value(nanos), 10) <==> nanos >= 10_000,
{
    lemma_nearest_against_integer(nanos, 1_000_000, 20);
    lemma_nearest_against_integer(nanos, 1_000_000, 1);
    lemma_nearest_against_integer(nanos, 1_000, 10);
}

/// The text that ends a display in `unit`.
pub open spec fn suffix(unit: Unit) -> Seq<char> {
    match unit {
        Unit::Seconds => seq![' ', 's'],
        Unit::Millis => seq![' ', 'm', 's'],
        Unit::Micros => seq![' ', '\u{b5}', 's'],
    }
}

/// The text of a reading: the number, left-justified in four columns for
/// seconds and right-justified in three otherwise, and the unit.
pub open spec fn reading_text(unit: Unit, places: nat, scaled: nat) -> Seq<char> {
    framed(unit, fixed(scaled, places))
}

/// A numeral in the frame of its unit: left-justified in four columns for
/// seconds and right-justified in three otherwise, the unit after it.
pub open spec fn framed(unit: Unit, numeral: Seq<char>) -> Seq<char> {
    match unit {
        Unit::Seconds => left_justified(numeral, 4) + suffix(unit),
        _ => right_justified(numeral, 3) + suffix(unit),
    }
}

/// The five pairs of a unit and a count of decimals that a text is made
/// with: seconds with one decimal, milliseconds with none or one,
/// microseconds with none or two.
pub open spec fn is_pattern(unit: Unit, places: nat) -> bool {
    ||| unit is Seconds && places == 1
    ||| unit is Millis && (places == 0 || places == 1)
    ||| unit is Micros && (places == 0 || places == 2)
}

/// Whether `text` is a numeral with `places` decimals in the frame of
/// `unit`.
pub open spec fn follows_pattern(text: Seq<char>, unit: Unit, places: nat) -> bool {
    exists|numeral: Seq<char>| #[trigger]
        is_numeral(numeral, places) && text == framed(unit, numeral)
}

/// The text of every span follows one of the five patterns, the one of its
/// unit and its count of decimals.
pub proof fn lemma_duration_text_pattern(d: nat)
    ensures
        is_pattern(unit_of(d), places_of(d)),
        follows_pattern(duration_text(d), unit_of(d), places_of(d)),
{
    let numeral = fixed(scaled_of(d), places_of(d));
    lemma_fixed_is_numeral(scaled_of(d), places_of(d));
    assert(is_numeral(numeral, places_of(d)) && duration_text(d) == framed(unit_of(d), numeral));
}

/// The text that displays a span of `d` nanoseconds.
pub open spec fn duration_text(d: nat) -> Seq<char> {
    reading_text(unit_of(d), places_of(d), scaled_of(d))
}

/// The unit, decimals and number that display `d`.
pub fn reading(d: Span) -> (r: Reading)
    ensures
        r.unit == unit_of(d@),
        r.places == places_of(d@),
        r.scaled == scaled_of(d@),
{
    let secs: u64 = d.as_secs();
    let nanos: u32 = d.subsec_nanos();
    proof {
        use_type_invariant(&d);
    }
    if secs > 0 {
        let millis = Binary64::from_ratio(nanos as u128, 1_000_000);
        let beyond = millis.quotient(1_000);
        let whole = Binary64::from_integer(secs);
        let value = whole.sum(&beyond);
        Reading { unit: Unit::Seconds, places: 1, scaled: value.scaled(10) }
    } else if nanos >= 20_000_000 {
        let millis = Binary64::from_ratio(nanos as u128, 1_000_000);
        Reading { unit: Unit::Millis, places: 0, scaled: millis.scaled(1) }
    } else if nanos >= 1_000_000 {
        let millis = Binary64::from_ratio(nanos as u128, 1_000_000);
        Reading { unit: Unit::Millis, places: 1, scaled: millis.scaled(10) }
    } else if nanos >= 10_000 {
        let micros = Binary64::from_ratio(nanos as u128, 1_000);
        Reading { unit: Unit::Micros, places: 0, scaled: micros.scaled(1) }
    } else {
        let micros = Binary64::from_ratio(nanos as u128, 1_000);
        Reading { unit: Unit::Micros, places: 2, scaled: micros.scaled(100) }
    }
}

fn suffix_text(unit: Unit) -> (s: &'static str)
    ensures
        s@ == suffix(unit),
{
    proof {
        reveal_strlit(" s");
        reveal_strlit(" ms");
        reveal_strlit(" \u{b5}s");
    }
    let s: &'static str = match unit {
        Unit::Seconds => " s",
        Unit::Millis => " ms",
        Unit::Micros => " \u{b5}s",
    };
    assert(s@ =~= suffix(unit));
    s
}

/// The text that displays `d`.
pub fn format_duration(d: Span) -> (text: String)
    ensures
        text@ == duration_text(d@),
{
    let r = reading(d);
    let mut number = String::new();
    push_fixed(&mut number, r.scaled, r.places);
    assert(number@ =~= fixed(r.scaled as nat, r.places as nat));
    let mut text = match r.unit {
        Unit::Seconds => left_justify(number.as_str(), 4),
        _ => right_justify(number.as_str(), 3),
    };
    text.append(suffix_text(r.unit));
    text
}

} // verus!
