//! Human-readable durations with an auto-scaled unit: milliseconds below one
//! second, seconds below one minute, minutes beyond, always with two decimals.
use std::time::Duration;
use vstd::prelude::*;

verus! {

/// The decimal digit character for `d < 10`.
pub open spec fn digit_char(d: nat) -> char {
    if d == 0 {
        '0'
    } else if d == 1 {
        '1'
    } else if d == 2 {
        '2'
    } else if d == 3 {
        '3'
    } else if d == 4 {
        '4'
    } else if d == 5 {
        '5'
    } else if d == 6 {
        '6'
    } else if d == 7 {
        '7'
    } else if d == 8 {
        '8'
    } else {
        '9'
    }
}

/// The decimal digits of `n`, without leading zeros.
pub open spec fn decimal(n: nat) -> Seq<char>
    decreases n,
{
    if n < 10 {
        seq![digit_char(n)]
    } else {
        decimal(n / 10).push(digit_char(n % 10))
    }
}

/// The total nanoseconds of a duration.
pub uninterp spec fn nanos_of(d: Duration) -> nat;

/// Relies on std's `Duration::as_nanos`: the whole nanoseconds of the duration.
#[verifier::external_body]
pub(crate) fn total_nanos(d: &Duration) -> (r: u128)
    ensures
        r == nanos_of(*d),
{
    d.as_nanos()
}

/// The one-character text of the digit `d < 10`.
fn digit_text(d: u128) -> (r: &'static str)
    requires
        d < 10,
    ensures
        r@ == seq![digit_char(d as nat)],
{
    proof {
        reveal_strlit("0");
        assert("0"@ =~= seq!['0']);
        reveal_strlit("1");
        assert("1"@ =~= seq!['1']);
        reveal_strlit("2");
        assert("2"@ =~= seq!['2']);
        reveal_strlit("3");
        assert("3"@ =~= seq!['3']);
        reveal_strlit("4");
        assert("4"@ =~= seq!['4']);
        reveal_strlit("5");
        assert("5"@ =~= seq!['5']);
        reveal_strlit("6");
        assert("6"@ =~= seq!['6']);
        reveal_strlit("7");
        assert("7"@ =~= seq!['7']);
        reveal_strlit("8");
        assert("8"@ =~= seq!['8']);
        reveal_strlit("9");
        assert("9"@ =~= seq!['9']);
    }
    match d {
        0 => "0",
        1 => "1",
        2 => "2",
        3 => "3",
        4 => "4",
        5 => "5",
        6 => "6",
        7 => "7",
        8 => "8",
        _ => "9",
    }
}

/// The decimal digits of `n`, without leading zeros.
pub(crate) fn decimal_text(n: u128) -> (r: String)
    ensures
        r@ == decimal(n as nat),
    decreases n,
{
    if n < 10 {
        String::from_str(digit_text(n))
    } else {
        let mut out = decimal_text(n / 10);
        out.append(digit_text(n % 10));
        out
    }
}

/// `n / unit`, rounded half up.
pub open spec fn rounded(n: nat, unit: nat) -> nat
    recommends
        unit > 0,
{
    n / unit + if (n % unit) * 2 >= unit {
        1nat
    } else {
        0nat
    }
}

/// `h` hundredths written with two decimals, then `unit`.
pub open spec fn hundredths_text(h: nat, unit: Seq<char>) -> Seq<char> {
    let frac = h % 100;
    decimal(h / 100) + seq!['.'] + (if frac < 10 {
        seq!['0']
    } else {
        Seq::<char>::empty()
    }) + decimal(frac) + unit
}

/// The text for a duration of `nanos` nanoseconds.
pub open spec fn time_text(nanos: nat) -> Seq<char> {
    if nanos < 1_000_000_000 {
        hundredths_text(rounded(nanos, 10_000), seq!['m', 's'])
    } else if nanos < 60_000_000_000 {
        hundredths_text(rounded(nanos, 10_000_000), seq!['s'])
    } else {
        hundredths_text(rounded(nanos, 600_000_000), seq!['m'])
    }
}

/// Formats durations with an auto-scaled unit.
#[derive(Debug, Clone, Copy)]
pub struct TimeFormatter;

impl TimeFormatter {
    /// The duration as `###.##` followed by `ms`, `s` or `m`.
    pub fn format(duration: Duration) -> (r: String)
        ensures
            r@ == time_text(nanos_of(duration)),
    {
        let nanos = total_nanos(&duration);
        TimeFormatter::format_nanos(nanos)
    }

    /// The text for `nanos` nanoseconds.
    pub fn format_nanos(nanos: u128) -> (r: String)
        ensures
            r@ == time_text(nanos as nat),
    {
        proof {
            reveal_strlit("ms");
            reveal_strlit("s");
            reveal_strlit("m");
            assert("ms"@ =~= seq!['m', 's']);
            assert("s"@ =~= seq!['s']);
            assert("m"@ =~= seq!['m']);
        }
        if nanos < 1_000_000_000 {
            TimeFormatter::with_unit(TimeFormatter::round(nanos, 10_000), "ms")
        } else if nanos < 60_000_000_000 {
            TimeFormatter::with_unit(TimeFormatter::round(nanos, 10_000_000), "s")
        } else {
            TimeFormatter::with_unit(TimeFormatter::round(nanos, 600_000_000), "m")
        }
    }

    fn round(n: u128, unit: u128) -> (r: u128)
        requires
            unit >= 2,
        ensures
            r == rounded(n as nat, unit as nat),
    {
        let q = n / unit;
        let rem = n % unit;
        assert(q < u128::MAX) by (nonlinear_arith)
            requires
                q == n / unit,
                unit >= 2,
                n <= u128::MAX,
        ;
        if rem >= unit - rem {
            q + 1
        } else {
            q
        }
    }

    fn with_unit(h: u128, unit: &str) -> (r: String)
        ensures
            unit@ == seq!['m', 's'] ==> r@ == hundredths_text(h as nat, seq!['m', 's']),
            unit@ == seq!['s'] ==> r@ == hundredths_text(h as nat, seq!['s']),
            unit@ == seq!['m'] ==> r@ == hundredths_text(h as nat, seq!['m']),
    {
        let frac = h % 100;
        let mut out = decimal_text(h / 100);
        proof {
            reveal_strlit(".");
            reveal_strlit("0");
        }
        out.append(".");
        if frac < 10 {
            out.append("0");
        }
        let digits = decimal_text(frac);
        out.append(digits.as_str());
        out.append(unit);
        proof {
            let a = decimal((h / 100) as nat);
            let z = if frac < 10 {
                seq!['0']
            } else {
                Seq::<char>::empty()
            };
            assert(out@ =~= a + seq!['.'] + z + decimal(frac as nat) + unit@);
        }
        out
    }
}

} // verus!
