//! Light wrappers around readings, so that incompatible quantities do not mix.
//!
//! Readings arrive as decimal text and are kept exactly as written: a sign, the
//! digits, and how many of them follow the decimal point.
use vstd::prelude::*;

use crate::text::{all_digits, digit_run_end, digit_run_end_exec, digits_value, parse_digits};

verus! {

/// An exact decimal reading: `(-1)^negative * mantissa / 10^scale`.
#[derive(Clone, Copy, Debug, PartialEq, Eq)]
pub struct Decimal {
    pub negative: bool,
    pub mantissa: u64,
    pub scale: u32,
}

/// Degrees Celsius.
#[derive(Clone, Copy, Debug, PartialEq, Eq)]
pub struct Celsius(pub Decimal);

/// Millibar (pressure).
#[derive(Clone, Copy, Debug, PartialEq, Eq)]
pub struct Millibar(pub Decimal);

/// A percentage, usually between zero and one hundred.
#[derive(Clone, Copy, Debug, PartialEq, Eq)]
pub struct Percentage(pub Decimal);

/// A percentage represented as a value between zero and five (logic level voltages).
#[derive(Clone, Copy, Debug, PartialEq, Eq)]
pub struct OrionPercentage(pub Decimal);

/// Volts.
#[derive(Clone, Copy, Debug, PartialEq, Eq)]
pub struct Volt(pub Decimal);

/// Kilobytes.
#[derive(Clone, Copy, Debug, PartialEq, Eq)]
pub struct Kilobyte(pub Decimal);

/// Meters.
#[derive(Clone, Copy, Debug, PartialEq, Eq)]
pub struct Meter(pub Decimal);

/// Degrees of angle.
#[derive(Clone, Copy, Debug, PartialEq, Eq)]
pub struct Degree(pub Decimal);

/// Degrees of angle, as the scanner reports them.
#[derive(Clone, Copy, Debug, PartialEq, Eq)]
pub struct Degrees(pub Decimal);

/// Amperes through a 50 A current transducer.
#[derive(Clone, Copy, Debug, PartialEq, Eq)]
pub struct Hass50Amps(pub Decimal);

/// Amperes through a 100 A current transducer.
#[derive(Clone, Copy, Debug, PartialEq, Eq)]
pub struct Hass100Amps(pub Decimal);

/// `s` without a leading `+`.
pub open spec fn unsigned_digits(s: Seq<u8>) -> Seq<u8> {
    if s.len() > 0 && s[0] == 43 {
        s.subrange(1, s.len() as int)
    } else {
        s
    }
}

/// An unsigned integer as `str::parse` reads it: an optional `+`, then one or
/// more ASCII digits, with a value of at most `max`.
pub open spec fn unsigned_of(s: Seq<u8>, max: u64) -> Option<u64> {
    let d = unsigned_digits(s);
    if d.len() > 0 && all_digits(d) && digits_value(d) <= max {
        Some(digits_value(d) as u64)
    } else {
        None
    }
}

/// Whether `s` begins with a minus sign.
pub open spec fn is_negative_text(s: Seq<u8>) -> bool {
    s.len() > 0 && s[0] == 45
}

/// `s` without a leading sign.
pub open spec fn unsigned_part(s: Seq<u8>) -> Seq<u8> {
    if s.len() > 0 && (s[0] == 43 || s[0] == 45) {
        s.subrange(1, s.len() as int)
    } else {
        s
    }
}

/// The digits before the decimal point.
pub open spec fn integer_digits(s: Seq<u8>) -> Seq<u8> {
    let u = unsigned_part(s);
    u.subrange(0, digit_run_end(u, 0))
}

/// The digits after the decimal point (empty where there is no point).
pub open spec fn fraction_digits(s: Seq<u8>) -> Seq<u8> {
    let u = unsigned_part(s);
    let e = digit_run_end(u, 0);
    if e < u.len() {
        u.subrange(e + 1, u.len() as int)
    } else {
        Seq::empty()
    }
}

/// Whether `s` is a plain decimal: an optional sign, digits, and optionally a
/// point followed by digits, with at least one digit in all.
pub open spec fn is_decimal_text(s: Seq<u8>) -> bool {
    let u = unsigned_part(s);
    let e = digit_run_end(u, 0);
    &&& (e == u.len() || (u[e] == 46 && all_digits(u.subrange(e + 1, u.len() as int))))
    &&& integer_digits(s).len() + fraction_digits(s).len() > 0
}

/// The reading that the text `s` writes, where it is a plain decimal whose
/// digits, read as one integer, fit in a `u64`.
pub open spec fn decimal_of(s: Seq<u8>) -> Option<Decimal> {
    let digits = integer_digits(s) + fraction_digits(s);
    if is_decimal_text(s) && digits_value(digits) <= u64::MAX && fraction_digits(s).len()
        <= u32::MAX {
        Some(
            Decimal {
                negative: is_negative_text(s),
                mantissa: digits_value(digits) as u64,
                scale: fraction_digits(s).len() as u32,
            },
        )
    } else {
        None
    }
}

/// Reads an unsigned integer of at most `max`, as `str::parse` does for the
/// unsigned integer types.
pub fn parse_unsigned(s: &[u8], max: u64) -> (r: Option<u64>)
    ensures
        r == unsigned_of(s@, max),
{
    let start: usize = if s.len() > 0 && s[0] == 43 {
        1
    } else {
        0
    };
    proof {
        assert(unsigned_digits(s@) =~= s@.subrange(start as int, s@.len() as int));
        crate::text::lemma_run_end_digits(s@, start as int);
    }
    let e = digit_run_end_exec(s, start);
    if e == start || e != s.len() {
        proof {
            let d = unsigned_digits(s@);
            if d.len() > 0 && all_digits(d) {
                assert(is_digit_at(d, (e - start) as int));
            }
        }
        return None;
    }
    match parse_digits(s, start, e) {
        Some(v) => {
            if v <= max {
                Some(v)
            } else {
                None
            }
        },
        None => None,
    }
}

pub open spec fn is_digit_at(s: Seq<u8>, i: int) -> bool {
    crate::text::is_digit(s[i])
}

/// Reads a plain decimal reading.
pub fn parse_decimal(s: &[u8]) -> (r: Option<Decimal>)
    ensures
        r == decimal_of(s@),
{
    let negative = s.len() > 0 && s[0] == 45;
    let start: usize = if s.len() > 0 && (s[0] == 43 || s[0] == 45) {
        1
    } else {
        0
    };
    let ghost u = unsigned_part(s@);
    proof {
        assert(u =~= s@.subrange(start as int, s@.len() as int));
        crate::text::lemma_run_end_digits(s@, start as int);
        lemma_run_end_shift(s@, start as int, 0);
    }
    let e = digit_run_end_exec(s, start);
    let mut digits: Vec<u8> = Vec::new();
    let mut j: usize = start;
    while j < e
        invariant
            start <= j <= e <= s@.len(),
            digits@ =~= s@.subrange(start as int, j as int),
        decreases e - j,
    {
        digits.push(s[j]);
        j = j + 1;
    }
    let mut frac_len: usize = 0;
    if e < s.len() {
        if s[e] != 46 {
            return None;
        }
        proof {
            crate::text::lemma_run_end_digits(s@, e + 1);
        }
        let f = digit_run_end_exec(s, e + 1);
        if f != s.len() {
            proof {
                assert(u.subrange((e - start) + 1, u.len() as int)[f - e - 1] == s@[f as int]);
            }
            return None;
        }
        let mut k: usize = e + 1;
        while k < s.len()
            invariant
                e + 1 <= k <= s@.len(),
                digits@ =~= s@.subrange(start as int, e as int) + s@.subrange(e + 1, k as int),
            decreases s@.len() - k,
        {
            digits.push(s[k]);
            k = k + 1;
        }
        frac_len = s.len() - e - 1;
        proof {
            assert(u.subrange((e - start) + 1, u.len() as int) =~= s@.subrange(e + 1, s@.len() as int));
        }
    }
    proof {
        assert(integer_digits(s@) =~= s@.subrange(start as int, e as int));
        if e < s@.len() {
            assert(fraction_digits(s@) =~= s@.subrange(e + 1, s@.len() as int));
        } else {
            assert(fraction_digits(s@) =~= Seq::<u8>::empty());
        }
        assert(digits@ =~= integer_digits(s@) + fraction_digits(s@));
        assert(all_digits(digits@)) by {
            assert forall|i: int| 0 <= i < digits@.len() implies crate::text::is_digit(
                #[trigger] digits@[i],
            ) by {
                if i < e - start {
                    assert(s@.subrange(start as int, e as int)[i] == s@[start + i]);
                } else {
                    assert(s@.subrange(e + 1, s@.len() as int)[i - (e - start)] == s@[e + 1 + i - (e - start)]);
                }
            }
        }
    }
    if digits.len() == 0 || frac_len > 4294967295 {
        return None;
    }
    proof {
        assert(digits@.subrange(0, digits@.len() as int) =~= digits@);
    }
    match parse_digits(digits.as_slice(), 0, digits.len()) {
        Some(m) => Some(Decimal { negative, mantissa: m, scale: frac_len as u32 }),
        None => None,
    }
}

/// Shifting where a digit run starts shifts where it ends.
pub proof fn lemma_run_end_shift(s: Seq<u8>, start: int, i: int)
    requires
        0 <= start <= s.len(),
        0 <= i <= s.len() - start,
    ensures
        digit_run_end(s.subrange(start, s.len() as int), i) == digit_run_end(s, start + i) - start,
    decreases s.len() - start - i,
{
    let u = s.subrange(start, s.len() as int);
    if i < u.len() {
        assert(u[i] == s[start + i]);
        if crate::text::is_digit(u[i]) {
            lemma_run_end_shift(s, start, i + 1);
        }
    }
}

/// The scanner's measurement programs (its pulse rate).
#[derive(Clone, Copy, Debug, PartialEq, Eq)]
pub enum MeasurementProgram {
    /// Program `0`.
    FiftyKiloHertz,
    /// Program `1`.
    OneHundredKiloHertz,
    /// Program `2`.
    TwoHundredKiloHertz,
    /// Program `3`.
    ThreeHundredKiloHertz,
    /// Program `4`.
    Reflector,
}

/// The measurement program that a code names.
pub open spec fn program_of(s: Seq<u8>) -> Option<MeasurementProgram> {
    if s == seq![48u8] {
        Some(MeasurementProgram::FiftyKiloHertz)
    } else if s == seq![49u8] {
        Some(MeasurementProgram::OneHundredKiloHertz)
    } else if s == seq![50u8] {
        Some(MeasurementProgram::TwoHundredKiloHertz)
    } else if s == seq![51u8] {
        Some(MeasurementProgram::ThreeHundredKiloHertz)
    } else if s == seq![52u8] {
        Some(MeasurementProgram::Reflector)
    } else {
        None
    }
}

impl std::str::FromStr for MeasurementProgram {
    type Err = Vec<u8>;

    /// Reads a program code; an unknown code is handed back as bytes.
    fn from_str(s: &str) -> Result<MeasurementProgram, Vec<u8>> {
        match MeasurementProgram::from_code(s.as_bytes()) {
            Some(p) => Ok(p),
            None => Err(crate::text::to_bytes(s.as_bytes())),
        }
    }
}

impl MeasurementProgram {
    /// Reads a measurement program from its code, `0` to `4`.
    pub fn from_code(s: &[u8]) -> (r: Option<MeasurementProgram>)
        ensures
            r == program_of(s@),
    {
        if s.len() != 1 {
            proof {
                assert(s@.len() != 1);
                assert(seq![48u8].len() == 1);
            }
            return None;
        }
        let c = s[0];
        proof {
            assert(s@ =~= seq![c]);
        }
        if c == 48 {
            Some(MeasurementProgram::FiftyKiloHertz)
        } else if c == 49 {
            Some(MeasurementProgram::OneHundredKiloHertz)
        } else if c == 50 {
            Some(MeasurementProgram::TwoHundredKiloHertz)
        } else if c == 51 {
            Some(MeasurementProgram::ThreeHundredKiloHertz)
        } else if c == 52 {
            Some(MeasurementProgram::Reflector)
        } else {
            proof {
                assert(seq![c] != seq![48u8] && seq![c] != seq![49u8] && seq![c] != seq![50u8]) by {
                    assert(seq![c][0] == c);
                }
                assert(seq![c] != seq![51u8] && seq![c] != seq![52u8]) by {
                    assert(seq![c][0] == c);
                }
            }
            None
        }
    }
}

} // verus!
