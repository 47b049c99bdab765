//! The full Format-One record: every one of its 49 fields, and the simple
//! stacking reassembly that reads records of this format alone.
use vstd::prelude::*;

use crate::builder::format_one_prefix;
use crate::clock::{parse_utc, utc_seconds, SHORT_YEAR_FORMAT};
use crate::heartbeat::decimal_at;
use crate::message::RawMessage;
use crate::text::{
    byte_views, count_byte, count_of, index_of, index_of_exec, split_exec, split_on, starts_with,
    suffix_bytes, to_bytes,
};
use crate::units::{
    parse_decimal, parse_unsigned, program_of, unsigned_of, Celsius, Decimal, Degrees,
    Hass100Amps, Hass50Amps, MeasurementProgram, Millibar, OrionPercentage, Percentage,
};

verus! {

/// The number of comma-separated fields of a full record.
pub const RECORD_FIELDS: usize = 49;

/// Why a full record could not be read.
#[derive(Debug, PartialEq, Eq)]
pub enum ParseHeartbeatError {
    /// The scan start date (its text given here) did not read as a date.
    ChronoParse(Vec<u8>),
    /// The scan start field (given here) has no `/` after its month.
    DatetimeFormat(Vec<u8>),
    /// The measurement program code (given here) is not a known one.
    InvalidMeasurementProgram(Vec<u8>),
    /// The record has this many fields instead of 49.
    FieldCount(usize),
    /// The field with this index does not read as a decimal.
    ParseFloat(usize),
    /// The month of the scan start (given here) does not read as a `u32`.
    ParseInt(Vec<u8>),
}

pub enum RecordFailure {
    ChronoParse(Seq<u8>),
    DatetimeFormat(Seq<u8>),
    InvalidMeasurementProgram(Seq<u8>),
    FieldCount(nat),
    ParseFloat(int),
    ParseInt(Seq<u8>),
}

impl View for ParseHeartbeatError {
    type V = RecordFailure;

    open spec fn view(&self) -> RecordFailure {
        match self {
            ParseHeartbeatError::ChronoParse(t) => RecordFailure::ChronoParse(t@),
            ParseHeartbeatError::DatetimeFormat(t) => RecordFailure::DatetimeFormat(t@),
            ParseHeartbeatError::InvalidMeasurementProgram(t) => RecordFailure::InvalidMeasurementProgram(t@),
            ParseHeartbeatError::FieldCount(n) => RecordFailure::FieldCount(*n as nat),
            ParseHeartbeatError::ParseFloat(i) => RecordFailure::ParseFloat(*i as int),
            ParseHeartbeatError::ParseInt(t) => RecordFailure::ParseInt(t@),
        }
    }
}

/// Every field of a Format-One heartbeat.
#[derive(Debug, PartialEq, Eq)]
pub struct HeartbeatV1 {
    /// The messages the record was read from.
    pub messages: Vec<RawMessage>,
    /// The outside temperature.
    pub temperature_external: Celsius,
    /// The atmospheric pressure.
    pub pressure: Millibar,
    /// The relative humidity.
    pub humidity: Percentage,
    /// The scanner's measurement program.
    pub measurement_program: MeasurementProgram,
    /// The start phi angle (from vertical).
    pub phi_start: Degrees,
    /// The stop phi angle.
    pub phi_stop: Degrees,
    /// The phi increment per pulse.
    pub phi_step: Degrees,
    /// The start theta angle (around the vertical axis).
    pub theta_start: Degrees,
    /// The stop theta angle.
    pub theta_stop: Degrees,
    /// The theta increment.
    pub theta_step: Degrees,
    /// The last scan start, in seconds since the epoch.
    pub scan_start_datetime: i64,
    /// The temperature inside of the mount.
    pub temperature_mount: Celsius,
    /// Current of the solar panel on tower 1.
    pub solar1: Hass50Amps,
    /// Current of the wind generator on tower 1.
    pub wind1: Hass50Amps,
    /// Current of the wind generator on tower 2.
    pub wind2: Hass50Amps,
    /// Current of the solar panel on tower 2.
    pub solar2: Hass50Amps,
    /// Current of fuel cell 1.
    pub efoy1: Hass50Amps,
    /// Current of fuel cell 2.
    pub efoy2: Hass50Amps,
    /// Current of battery 1.
    pub b1: Hass100Amps,
    /// Current of battery 2.
    pub b2: Hass100Amps,
    /// Current of battery 3.
    pub b3: Hass100Amps,
    /// Current of battery 4.
    pub b4: Hass100Amps,
    /// State of charge of battery 1.
    pub soc1: OrionPercentage,
    /// Charge current limit of battery 1.
    pub ccl1: OrionPercentage,
    /// Discharge current limit of battery 1.
    pub dcl1: OrionPercentage,
    /// State of charge of battery 2.
    pub soc2: OrionPercentage,
    /// Charge current limit of battery 2.
    pub ccl2: OrionPercentage,
    /// Discharge current limit of battery 2.
    pub dcl2: OrionPercentage,
    /// State of charge of battery 3.
    pub soc3: OrionPercentage,
    /// Charge current limit of battery 3.
    pub ccl3: OrionPercentage,
    /// Discharge current limit of battery 3.
    pub dcl3: OrionPercentage,
    /// State of charge of battery 4.
    pub soc4: OrionPercentage,
    /// Charge current limit of battery 4.
    pub ccl4: OrionPercentage,
    /// Discharge current limit of battery 4.
    pub dcl4: OrionPercentage,
}

/// `n` in decimal digits.
pub open spec fn decimal_text(n: nat) -> Seq<u8>
    decreases n,
{
    if n < 10 {
        seq![(48 + n) as u8]
    } else {
        decimal_text(n / 10).push((48 + n % 10) as u8)
    }
}

/// `n` with at least two digits, as `format!("{:02}", n)` writes it.
pub open spec fn padded_text(n: nat) -> Seq<u8> {
    if n < 10 {
        seq![48u8] + decimal_text(n)
    } else {
        decimal_text(n)
    }
}

/// Where the month of a scan start field ends.
pub open spec fn month_end(f: Seq<u8>) -> int {
    index_of(f, 47, 0)
}

/// The month text of a scan start field.
pub open spec fn month_text(f: Seq<u8>) -> Seq<u8> {
    f.subrange(0, month_end(f))
}

/// The scan start text with its zero-based month made one-based.
pub open spec fn scan_text(f: Seq<u8>) -> Seq<u8> {
    let m = unsigned_of(month_text(f), u32::MAX as u64).unwrap();
    padded_text((m + 1) as nat) + seq![47u8] + f.subrange(month_end(f) + 1, f.len() as int)
}

/// The first index in `lo..=hi` whose field is not a decimal.
pub open spec fn first_bad(d: Seq<Seq<u8>>, lo: int, hi: int) -> Option<int>
    decreases hi - lo + 1,
{
    if lo > hi {
        None
    } else if decimal_at(d, lo) is None {
        Some(lo)
    } else {
        first_bad(d, lo + 1, hi)
    }
}

pub proof fn lemma_first_bad_range(d: Seq<Seq<u8>>, lo: int, hi: int)
    ensures
        first_bad(d, lo, hi) matches Some(i) ==> lo <= i <= hi,
    decreases hi - lo + 1,
{
    if lo <= hi && decimal_at(d, lo) is Some {
        lemma_first_bad_range(d, lo + 1, hi);
    }
}

/// Why the fields `d` are not a full record, checked in reading order, or
/// `None` where they are one.
pub open spec fn record_failure(d: Seq<Seq<u8>>) -> Option<RecordFailure> {
    if d.len() != RECORD_FIELDS {
        Some(RecordFailure::FieldCount(d.len()))
    } else if month_end(d[11]) >= d[11].len() {
        Some(RecordFailure::DatetimeFormat(d[11]))
    } else if unsigned_of(month_text(d[11]), u32::MAX as u64) is None {
        Some(RecordFailure::ParseInt(month_text(d[11])))
    } else if utc_seconds(scan_text(d[11]), SHORT_YEAR_FORMAT@) is None {
        Some(RecordFailure::ChronoParse(scan_text(d[11])))
    } else if first_bad(d, 1, 3) is Some {
        Some(RecordFailure::ParseFloat(first_bad(d, 1, 3).unwrap()))
    } else if program_of(d[4]) is None {
        Some(RecordFailure::InvalidMeasurementProgram(d[4]))
    } else if first_bad(d, 5, 10) is Some {
        Some(RecordFailure::ParseFloat(first_bad(d, 5, 10).unwrap()))
    } else if first_bad(d, 26, 48) is Some {
        Some(RecordFailure::ParseFloat(first_bad(d, 26, 48).unwrap()))
    } else {
        None
    }
}

pub open spec fn dv(d: Seq<Seq<u8>>, i: int) -> Decimal {
    decimal_at(d, i).unwrap()
}

/// Whether `h` holds the readings of the fields `d` at their positions.
pub open spec fn record_values(d: Seq<Seq<u8>>, h: HeartbeatV1) -> bool {
    &&& h.temperature_external == Celsius(dv(d, 1))
    &&& h.pressure == Millibar(dv(d, 2))
    &&& h.humidity == Percentage(dv(d, 3))
    &&& h.measurement_program == program_of(d[4]).unwrap()
    &&& h.phi_start == Degrees(dv(d, 5))
    &&& h.phi_stop == Degrees(dv(d, 6))
    &&& h.phi_step == Degrees(dv(d, 7))
    &&& h.theta_start == Degrees(dv(d, 8))
    &&& h.theta_stop == Degrees(dv(d, 9))
    &&& h.theta_step == Degrees(dv(d, 10))
    &&& h.scan_start_datetime == utc_seconds(scan_text(d[11]), SHORT_YEAR_FORMAT@).unwrap()
    &&& h.temperature_mount == Celsius(dv(d, 26))
    &&& h.solar1 == Hass50Amps(dv(d, 27))
    &&& h.wind1 == Hass50Amps(dv(d, 28))
    &&& h.wind2 == Hass50Amps(dv(d, 29))
    &&& h.solar2 == Hass50Amps(dv(d, 30))
    &&& h.efoy1 == Hass50Amps(dv(d, 31))
    &&& h.efoy2 == Hass50Amps(dv(d, 32))
    &&& h.b1 == Hass100Amps(dv(d, 33))
    &&& h.b2 == Hass100Amps(dv(d, 34))
    &&& h.b3 == Hass100Amps(dv(d, 35))
    &&& h.b4 == Hass100Amps(dv(d, 36))
    &&& h.soc1 == OrionPercentage(dv(d, 37))
    &&& h.ccl1 == OrionPercentage(dv(d, 38))
    &&& h.dcl1 == OrionPercentage(dv(d, 39))
    &&& h.soc2 == OrionPercentage(dv(d, 40))
    &&& h.ccl2 == OrionPercentage(dv(d, 41))
    &&& h.dcl2 == OrionPercentage(dv(d, 42))
    &&& h.soc3 == OrionPercentage(dv(d, 43))
    &&& h.ccl3 == OrionPercentage(dv(d, 44))
    &&& h.dcl3 == OrionPercentage(dv(d, 45))
    &&& h.soc4 == OrionPercentage(dv(d, 46))
    &&& h.ccl4 == OrionPercentage(dv(d, 47))
    &&& h.dcl4 == OrionPercentage(dv(d, 48))
}

/// What reading the record text `s` of the messages `ms` gives.
pub open spec fn record_outcome(
    s: Seq<u8>,
    ms: Seq<RawMessage>,
    r: Result<HeartbeatV1, ParseHeartbeatError>,
) -> bool {
    let d = split_on(s, 44);
    match record_failure(d) {
        Some(f) => r matches Err(e) && e@ == f,
        None => r matches Ok(h) && record_values(d, h) && h.messages@ == ms,
    }
}

fn write_decimal(n: u64) -> (r: Vec<u8>)
    ensures
        r@ == decimal_text(n as nat),
    decreases n,
{
    if n < 10 {
        let r = vec![(48 + n) as u8];
        assert(r@ =~= decimal_text(n as nat));
        r
    } else {
        let mut r = write_decimal(n / 10);
        r.push((48 + n % 10) as u8);
        r
    }
}

fn prefix_bytes(s: &[u8], end: usize) -> (r: Vec<u8>)
    requires
        end <= s@.len(),
    ensures
        r@ == s@.subrange(0, end as int),
{
    let mut r: Vec<u8> = Vec::new();
    let mut j: usize = 0;
    while j < end
        invariant
            j <= end <= s@.len(),
            r@ =~= s@.subrange(0, j as int),
        decreases end - j,
    {
        r.push(s[j]);
        j = j + 1;
    }
    r
}

/// Reads the decimals of the fields `lo..=hi`, or names the first that is none.
fn decimals_in(d: &Vec<Vec<u8>>, lo: usize, hi: usize) -> (r: Result<Vec<Decimal>, usize>)
    requires
        lo <= hi < d@.len(),
        hi < 100,
    ensures
        r matches Err(i) ==> lo <= i <= hi,
        match first_bad(byte_views(d@), lo as int, hi as int) {
            Some(j) => r matches Err(i) && i as int == j,
            None => r matches Ok(v) && v@.len() == hi - lo + 1 && forall|j: int|
                0 <= j < v@.len() ==> v@[j] == dv(byte_views(d@), lo + j),
        },
{
    proof {
        lemma_first_bad_range(byte_views(d@), lo as int, hi as int);
    }
    let mut v: Vec<Decimal> = Vec::new();
    let mut k: usize = lo;
    let end: usize = hi + 1;
    while k < end
        invariant
            end == hi + 1,
            lo <= k <= hi + 1,
            hi < d@.len(),
            first_bad(byte_views(d@), lo as int, hi as int) == first_bad(byte_views(d@), k as int, hi as int),
            v@.len() == k - lo,
            forall|j: int| 0 <= j < v@.len() ==> v@[j] == dv(byte_views(d@), lo + j),
        decreases hi + 1 - k,
    {
        match parse_decimal(d[k].as_slice()) {
            Some(x) => v.push(x),
            None => return Err(k),
        }
        k = k + 1;
    }
    Ok(v)
}

impl HeartbeatV1 {
    /// Reads a full record from its text `s` and the messages it came from.
    pub fn new(s: &[u8], messages: Vec<RawMessage>) -> (r: Result<HeartbeatV1, ParseHeartbeatError>)
        ensures
            record_outcome(s@, messages@, r),
    {
        let d = split_exec(s, 44);
        let ghost dv_ = byte_views(d@);
        if d.len() != RECORD_FIELDS {
            return Err(ParseHeartbeatError::FieldCount(d.len()));
        }
        let f11 = d[11].as_slice();
        proof {
            assert(dv_[11] == d@[11]@);
            assert(dv_[4] == d@[4]@);
        }
        let slash = index_of_exec(f11, 47, 0);
        if slash >= f11.len() {
            return Err(ParseHeartbeatError::DatetimeFormat(to_bytes(f11)));
        }
        let month_txt = prefix_bytes(f11, slash);
        let month = match parse_unsigned(month_txt.as_slice(), 4294967295) {
            Some(m) => m,
            None => return Err(ParseHeartbeatError::ParseInt(month_txt)),
        };
        let mut text = if month + 1 < 10 {
            let mut t = vec![48u8];
            let mut digits = write_decimal(month + 1);
            t.append(&mut digits);
            t
        } else {
            write_decimal(month + 1)
        };
        text.push(47);
        let mut rest = suffix_bytes(f11, slash + 1);
        text.append(&mut rest);
        proof {
            assert(text@ =~= scan_text(dv_[11]));
        }
        let scan = match parse_utc(text.as_slice(), SHORT_YEAR_FORMAT) {
            Some(t) => t,
            None => return Err(ParseHeartbeatError::ChronoParse(text)),
        };
        let a = match decimals_in(&d, 1, 3) {
            Ok(v) => v,
            Err(i) => {
                proof {
                    assert(record_failure(dv_) == Some(RecordFailure::ParseFloat(i as int)));
                }
                return Err(ParseHeartbeatError::ParseFloat(i));
            },
        };
        let program = match MeasurementProgram::from_code(d[4].as_slice()) {
            Some(p) => p,
            None => return Err(ParseHeartbeatError::InvalidMeasurementProgram(to_bytes(d[4].as_slice()))),
        };
        let b = match decimals_in(&d, 5, 10) {
            Ok(v) => v,
            Err(i) => {
                proof {
                    assert(record_failure(dv_) == Some(RecordFailure::ParseFloat(i as int)));
                }
                return Err(ParseHeartbeatError::ParseFloat(i));
            },
        };
        let c = match decimals_in(&d, 26, 48) {
            Ok(v) => v,
            Err(i) => return Err(ParseHeartbeatError::ParseFloat(i)),
        };
        Ok(
            HeartbeatV1 {
                messages,
                temperature_external: Celsius(a[0]),
                pressure: Millibar(a[1]),
                humidity: Percentage(a[2]),
                measurement_program: program,
                phi_start: Degrees(b[0]),
                phi_stop: Degrees(b[1]),
                phi_step: Degrees(b[2]),
                theta_start: Degrees(b[3]),
                theta_stop: Degrees(b[4]),
                theta_step: Degrees(b[5]),
                scan_start_datetime: scan,
                temperature_mount: Celsius(c[0]),
                solar1: Hass50Amps(c[1]),
                wind1: Hass50Amps(c[2]),
                wind2: Hass50Amps(c[3]),
                solar2: Hass50Amps(c[4]),
                efoy1: Hass50Amps(c[5]),
                efoy2: Hass50Amps(c[6]),
                b1: Hass100Amps(c[7]),
                b2: Hass100Amps(c[8]),
                b3: Hass100Amps(c[9]),
                b4: Hass100Amps(c[10]),
                soc1: OrionPercentage(c[11]),
                ccl1: OrionPercentage(c[12]),
                dcl1: OrionPercentage(c[13]),
                soc2: OrionPercentage(c[14]),
                ccl2: OrionPercentage(c[15]),
                dcl2: OrionPercentage(c[16]),
                soc3: OrionPercentage(c[17]),
                ccl3: OrionPercentage(c[18]),
                dcl3: OrionPercentage(c[19]),
                soc4: OrionPercentage(c[20]),
                ccl4: OrionPercentage(c[21]),
                dcl4: OrionPercentage(c[22]),
            },
        )
    }
}

/// One message through the stacking reassembly: a message that fits the
/// comma budget of the record on top is appended to it (whatever it starts
/// with); otherwise one that starts with `0,` opens a new record and any other
/// is dropped.
pub open spec fn stack_step(st: Seq<(Seq<u8>, Seq<RawMessage>)>, m: RawMessage) -> Seq<
    (Seq<u8>, Seq<RawMessage>),
> {
    let p = m.payload@;
    if st.len() == 0 || count_of(st.last().0, 44) + count_of(p, 44) > RECORD_FIELDS {
        if starts_with(p, format_one_prefix()) {
            st.push((p, seq![m]))
        } else {
            st
        }
    } else {
        st.update(st.len() - 1, (st.last().0 + p, st.last().1.push(m)))
    }
}

/// The records, with their texts and messages, that stacking makes of `ms`.
pub open spec fn stacked(ms: Seq<RawMessage>) -> Seq<(Seq<u8>, Seq<RawMessage>)>
    decreases ms.len(),
{
    if ms.len() == 0 {
        Seq::empty()
    } else {
        stack_step(stacked(ms.drop_last()), ms.last())
    }
}

/// Reads full records from messages by stacking, one result per record.
pub fn into_records(messages: Vec<RawMessage>) -> (r: Vec<Result<HeartbeatV1, ParseHeartbeatError>>)
    ensures
        r@.len() == stacked(messages@).len(),
        forall|i: int|
            0 <= i < r@.len() ==> record_outcome(
                #[trigger] stacked(messages@)[i].0,
                stacked(messages@)[i].1,
                r@[i],
            ),
{
    let ghost orig = messages@;
    let ghost n = orig.len();
    let mut input = messages;
    let mut queue: Vec<RawMessage> = Vec::new();
    while input.len() > 0
        invariant
            n == orig.len(),
            input@.len() + queue@.len() == n,
            input@ == orig.take(input@.len() as int),
            forall|j: int| 0 <= j < queue@.len() ==> #[trigger] queue@[j] == orig[n - 1 - j],
        decreases input@.len(),
    {
        let ghost k = input@.len();
        let x = input.pop().unwrap();
        proof {
            assert(orig.take(k as int).drop_last() =~= orig.take(k - 1));
        }
        queue.push(x);
    }
    let mut texts: Vec<Vec<u8>> = Vec::new();
    let mut groups: Vec<Vec<RawMessage>> = Vec::new();
    proof {
        assert(orig.take(0) =~= Seq::<RawMessage>::empty());
    }
    while queue.len() > 0
        invariant
            n == orig.len(),
            queue@.len() <= n,
            forall|j: int| 0 <= j < queue@.len() ==> #[trigger] queue@[j] == orig[n - 1 - j],
            texts@.len() == groups@.len() == stacked(orig.take(n - queue@.len())).len(),
            forall|i: int|
                0 <= i < texts@.len() ==> texts@[i]@ == (#[trigger] stacked(
                    orig.take(n - queue@.len()),
                )[i]).0 && groups@[i]@ == stacked(orig.take(n - queue@.len()))[i].1,
        decreases queue@.len(),
    {
        let ghost t = n - queue@.len();
        let ghost st = stacked(orig.take(t));
        let m = queue.pop().unwrap();
        proof {
            assert(orig.take(t + 1).drop_last() =~= orig.take(t));
            assert(orig.take(t + 1).last() == m);
        }
        let c2 = count_byte(m.payload.as_slice(), 44);
        let k = texts.len();
        let open_new = if k == 0 {
            true
        } else {
            let c1 = count_byte(texts[k - 1].as_slice(), 44);
            c1 > RECORD_FIELDS || c2 > RECORD_FIELDS - c1
        };
        if open_new {
            if crate::builder::starts_format_one(m.payload.as_slice()) {
                let text = to_bytes(m.payload.as_slice());
                let group = vec![m];
                proof {
                    assert(group@ =~= seq![m]);
                }
                texts.push(text);
                groups.push(group);
            }
        } else {
            let mut text = texts.pop().unwrap();
            let mut more = to_bytes(m.payload.as_slice());
            text.append(&mut more);
            texts.push(text);
            let mut group = groups.pop().unwrap();
            group.push(m);
            groups.push(group);
        }
        proof {
            let nx = stacked(orig.take(t + 1));
            assert(nx == stack_step(st, m));
            assert forall|i: int| 0 <= i < texts@.len() implies texts@[i]@ == (#[trigger] nx[i]).0
                && groups@[i]@ == nx[i].1 by {
                if open_new {
                    if i < k {
                        assert(st[i] == nx[i]);
                    }
                } else if i < k - 1 {
                    assert(st[i] == nx[i]);
                }
            }
        }
    }
    proof {
        assert(orig.take(n as int) =~= orig);
    }
    let ghost st = stacked(orig);
    let ghost total = texts@.len();
    let mut reversed: Vec<Result<HeartbeatV1, ParseHeartbeatError>> = Vec::new();
    while texts.len() > 0
        invariant
            texts@.len() == groups@.len(),
            texts@.len() + reversed@.len() == total,
            total == st.len(),
            forall|i: int| 0 <= i < texts@.len() ==> texts@[i]@ == (#[trigger] st[i]).0 && groups@[i]@ == st[i].1,
            forall|j: int|
                0 <= j < reversed@.len() ==> record_outcome(
                    #[trigger] st[total - 1 - j].0,
                    st[total - 1 - j].1,
                    reversed@[j],
                ),
        decreases texts@.len(),
    {
        let ghost k = texts@.len();
        let text = texts.pop().unwrap();
        let group = groups.pop().unwrap();
        proof {
            assert(text@ == st[k - 1].0 && group@ == st[k - 1].1);
        }
        let result = HeartbeatV1::new(text.as_slice(), group);
        reversed.push(result);
    }
    let mut out: Vec<Result<HeartbeatV1, ParseHeartbeatError>> = Vec::new();
    while reversed.len() > 0
        invariant
            out@.len() + reversed@.len() == total,
            total == st.len(),
            forall|j: int|
                0 <= j < reversed@.len() ==> record_outcome(
                    #[trigger] st[total - 1 - j].0,
                    st[total - 1 - j].1,
                    reversed@[j],
                ),
            forall|i: int| 0 <= i < out@.len() ==> record_outcome(#[trigger] st[i].0, st[i].1, out@[i]),
        decreases reversed@.len(),
    {
        let ghost k = out@.len();
        let result = reversed.pop().unwrap();
        proof {
            assert(total - 1 - (reversed@.len()) == k);
        }
        out.push(result);
    }
    out
}

/// Turns something into full records.
pub trait IntoHeartbeats {
    /// The messages this holds, in order.
    spec fn messages_of(&self) -> Seq<RawMessage>;

    /// Reads full records by stacking, one result per record; a record that
    /// fails to read fails alone.
    fn into_heartbeats(self) -> (r: Vec<Result<HeartbeatV1, ParseHeartbeatError>>)
        ensures
            r@.len() == stacked(self.messages_of()).len(),
            forall|i: int|
                0 <= i < r@.len() ==> record_outcome(
                    #[trigger] stacked(self.messages_of())[i].0,
                    stacked(self.messages_of())[i].1,
                    r@[i],
                ),
    ;
}

impl IntoHeartbeats for Vec<RawMessage> {
    open spec fn messages_of(&self) -> Seq<RawMessage> {
        self@
    }

    fn into_heartbeats(self) -> (r: Vec<Result<HeartbeatV1, ParseHeartbeatError>>) {
        into_records(self)
    }
}

} // verus!
