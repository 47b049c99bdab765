//! Heartbeats: the status records that builders reassemble, and how the two
//! wire formats are read into them.
use vstd::prelude::*;

use crate::builder::{body_of, body_piece, payloads, BuilderView, Format, Builder};
use crate::clock::{parse_utc, utc_seconds, LONG_YEAR_FORMAT, SHORT_YEAR_FORMAT};
use crate::message::{after_header, Header, RawMessage};
use crate::text::{
    byte_views, index_of_exec, lines_exec, lines_of, split_exec, split_on, suffix_bytes,
    to_bytes,
};
use crate::units::{
    decimal_of, parse_decimal, parse_unsigned, unsigned_of, Celsius, Decimal, Degree, Kilobyte,
    Meter, Millibar, OrionPercentage, Percentage, Volt,
};
use crate::{Error, Failure};

verus! {

/// Status report from the station.
#[derive(Debug, PartialEq, Eq)]
pub struct Heartbeat {
    /// The time of the first constituent message, in seconds since the epoch.
    pub start_time: i64,
    /// The outside temperature.
    pub external_temperature: Celsius,
    /// The temperature inside of the mount.
    pub mount_temperature: Celsius,
    /// The atmospheric pressure.
    pub pressure: Millibar,
    /// The relative humidity.
    pub humidity: Percentage,
    /// The state of charge of battery 1.
    pub soc1: OrionPercentage,
    /// The state of charge of battery 2.
    pub soc2: OrionPercentage,
    /// The last scanner power on (Format Two only).
    pub last_scan_on: Option<ScannerOn>,
    /// The last scan.
    pub last_scan: Scan,
    /// The last skipped scan (Format Two only).
    pub last_scan_skip: Option<SkippedScan>,
    /// The last thing fuel cell 1 did (Format Two only).
    pub last_efoy1_action: Option<EfoyAction>,
    /// The last thing fuel cell 2 did (Format Two only).
    pub last_efoy2_action: Option<EfoyAction>,
}

/// A scanner power on.
#[derive(Clone, Copy, Debug, PartialEq, Eq)]
pub struct ScannerOn {
    /// The time of scanner power on.
    pub datetime: i64,
    /// The scanner temperature.
    pub scanner_temperature: Celsius,
    /// The voltage of the scanner at power on.
    pub scanner_voltage: Volt,
    /// Available external memory.
    pub memory_external: Kilobyte,
    /// Available internal scanner memory.
    pub memory_internal: Kilobyte,
}

/// A scan.
#[derive(Clone, Copy, Debug, PartialEq, Eq)]
pub struct Scan {
    /// The time of scan start.
    pub start: i64,
    /// The time of scan end (Format Two only).
    pub end: Option<i64>,
    /// Details of the scan (Format Two only).
    pub detail: Option<ScanDetail>,
}

/// Details of a scan.
#[derive(Clone, Copy, Debug, PartialEq, Eq)]
pub struct ScanDetail {
    /// The number of points scanned.
    pub num_points: u64,
    /// The minimum range of the scan.
    pub minimum_range: Meter,
    /// The maximum range of the scan.
    pub maximum_range: Meter,
    /// The file size.
    pub file_size: Kilobyte,
    /// The minimum amplitude.
    pub minimum_amplitude: u16,
    /// The maximum amplitude.
    pub maximum_amplitude: u16,
    /// The roll of the scanner.
    pub roll: Degree,
    /// The pitch of the scanner.
    pub pitch: Degree,
    /// The latitude of the scanner.
    pub latitude: Degree,
    /// The longitude of the scanner.
    pub longitude: Degree,
}

/// A skipped scan.
#[derive(Debug, PartialEq, Eq)]
pub struct SkippedScan {
    /// The time of the skip.
    pub datetime: i64,
    /// Why the scan was skipped.
    pub reason: SkipReason,
}

/// Why a scan was skipped, from a reason code and some text.
#[derive(Debug, PartialEq, Eq)]
pub enum SkipReason {
    /// The scanner could not connect to the housing.
    CouldNotConnectToHousing,
    /// The housing scheduler is not enabled.
    SchedulerNotEnabled,
    /// A scanner error, with its description.
    ScannerError(Vec<u8>),
    /// The scanner tried to start too many times.
    TooManyRetries,
}

/// Something a fuel cell did, and when.
#[derive(Clone, Copy, Debug, PartialEq, Eq)]
pub enum EfoyAction {
    /// It started charging.
    Start(i64),
    /// It failed at charging.
    Failure(i64),
    /// It succeeded at charging.
    Success(i64),
}

pub enum SkipReasonView {
    CouldNotConnectToHousing,
    SchedulerNotEnabled,
    ScannerError(Seq<u8>),
    TooManyRetries,
}

pub struct SkippedScanView {
    pub datetime: i64,
    pub reason: SkipReasonView,
}

/// A heartbeat, with its texts as byte sequences.
pub struct HeartbeatView {
    pub start_time: i64,
    pub external_temperature: Celsius,
    pub mount_temperature: Celsius,
    pub pressure: Millibar,
    pub humidity: Percentage,
    pub soc1: OrionPercentage,
    pub soc2: OrionPercentage,
    pub last_scan_on: Option<ScannerOn>,
    pub last_scan: Scan,
    pub last_scan_skip: Option<SkippedScanView>,
    pub last_efoy1_action: Option<EfoyAction>,
    pub last_efoy2_action: Option<EfoyAction>,
}

impl View for SkipReason {
    type V = SkipReasonView;

    open spec fn view(&self) -> SkipReasonView {
        match self {
            SkipReason::CouldNotConnectToHousing => SkipReasonView::CouldNotConnectToHousing,
            SkipReason::SchedulerNotEnabled => SkipReasonView::SchedulerNotEnabled,
            SkipReason::ScannerError(d) => SkipReasonView::ScannerError(d@),
            SkipReason::TooManyRetries => SkipReasonView::TooManyRetries,
        }
    }
}

impl View for SkippedScan {
    type V = SkippedScanView;

    open spec fn view(&self) -> SkippedScanView {
        SkippedScanView { datetime: self.datetime, reason: self.reason@ }
    }
}

impl View for Heartbeat {
    type V = HeartbeatView;

    open spec fn view(&self) -> HeartbeatView {
        HeartbeatView {
            start_time: self.start_time,
            external_temperature: self.external_temperature,
            mount_temperature: self.mount_temperature,
            pressure: self.pressure,
            humidity: self.humidity,
            soc1: self.soc1,
            soc2: self.soc2,
            last_scan_on: self.last_scan_on,
            last_scan: self.last_scan,
            last_scan_skip: match self.last_scan_skip {
                Some(s) => Some(s@),
                None => None,
            },
            last_efoy1_action: self.last_efoy1_action,
            last_efoy2_action: self.last_efoy2_action,
        }
    }
}

/// The skip reason that a code and description give.
pub open spec fn skip_reason_of(code: Seq<u8>, description: Seq<u8>) -> Result<
    SkipReasonView,
    Failure,
> {
    if code == seq![49u8] {
        Ok(SkipReasonView::CouldNotConnectToHousing)
    } else if code == seq![50u8] {
        Ok(SkipReasonView::SchedulerNotEnabled)
    } else if code == seq![51u8] {
        Ok(SkipReasonView::ScannerError(description))
    } else if code == seq![52u8] {
        Ok(SkipReasonView::TooManyRetries)
    } else {
        Err(Failure::UnknownSkipReason(code, description))
    }
}

fn is_single(s: &[u8], b: u8) -> (r: bool)
    ensures
        r == (s@ == seq![b]),
{
    let r = s.len() == 1 && s[0] == b;
    proof {
        if r {
            assert(s@ =~= seq![b]);
        }
    }
    r
}

impl SkipReason {
    /// Reads a skip reason from its code (`1` to `4`) and description.
    pub fn new(code: &[u8], description: &[u8]) -> (r: Result<SkipReason, Error>)
        ensures
            match skip_reason_of(code@, description@) {
                Ok(v) => r matches Ok(x) && x@ == v,
                Err(f) => r matches Err(e) && e@ == f,
            },
    {
        if is_single(code, 49) {
            Ok(SkipReason::CouldNotConnectToHousing)
        } else if is_single(code, 50) {
            Ok(SkipReason::SchedulerNotEnabled)
        } else if is_single(code, 51) {
            Ok(SkipReason::ScannerError(to_bytes(description)))
        } else if is_single(code, 52) {
            Ok(SkipReason::TooManyRetries)
        } else {
            Err(Error::UnknownSkipReason(to_bytes(code), to_bytes(description)))
        }
    }
}

/// The decimal in `fields[i]`, where there is one.
pub open spec fn decimal_at(fields: Seq<Seq<u8>>, i: int) -> Option<Decimal> {
    if 0 <= i < fields.len() {
        decimal_of(fields[i])
    } else {
        None
    }
}

/// The date and time (two-digit year) in `fields[i]`, where there is one.
pub open spec fn time_at(fields: Seq<Seq<u8>>, i: int) -> Option<i64> {
    if 0 <= i < fields.len() {
        utc_seconds(fields[i], SHORT_YEAR_FORMAT@)
    } else {
        None
    }
}

/// The unsigned integer of at most `max` in `fields[i]`, where there is one.
pub open spec fn unsigned_at(fields: Seq<Seq<u8>>, i: int, max: u64) -> Option<u64> {
    if 0 <= i < fields.len() {
        unsigned_of(fields[i], max)
    } else {
        None
    }
}

fn decimal_at_exec(fields: &Vec<Vec<u8>>, i: usize) -> (r: Option<Decimal>)
    ensures
        r == decimal_at(byte_views(fields@), i as int),
{
    if i < fields.len() {
        parse_decimal(fields[i].as_slice())
    } else {
        None
    }
}

fn time_at_exec(fields: &Vec<Vec<u8>>, i: usize) -> (r: Option<i64>)
    ensures
        r == time_at(byte_views(fields@), i as int),
{
    if i < fields.len() {
        parse_utc(fields[i].as_slice(), SHORT_YEAR_FORMAT)
    } else {
        None
    }
}

fn unsigned_at_exec(fields: &Vec<Vec<u8>>, i: usize, max: u64) -> (r: Option<u64>)
    ensures
        r == unsigned_at(byte_views(fields@), i as int, max),
{
    if i < fields.len() {
        parse_unsigned(fields[i].as_slice(), max)
    } else {
        None
    }
}

/// `v` written with at least two digits, as `format!("{:02}", v)` writes it.
pub open spec fn two_digits(v: nat) -> Seq<u8> {
    if v < 10 {
        seq![48u8, (48 + v) as u8]
    } else if v < 100 {
        seq![(48 + v / 10) as u8, (48 + v % 10) as u8]
    } else {
        seq![49u8, 48, 48]
    }
}

/// The Format-One scan start text with its zero-based month made one-based.
pub open spec fn month_corrected(f: Seq<u8>) -> Option<Seq<u8>> {
    if f.len() < 2 {
        None
    } else {
        match unsigned_of(f.subrange(0, 2), u64::MAX) {
            Some(m) => Some(two_digits((m + 1) as nat) + f.subrange(2, f.len() as int)),
            None => None,
        }
    }
}

/// The scan start of a Format-One heartbeat, from field 11.
pub open spec fn format_one_scan_start(fields: Seq<Seq<u8>>) -> Option<i64> {
    if fields.len() > 11 {
        match month_corrected(fields[11]) {
            Some(t) => utc_seconds(t, SHORT_YEAR_FORMAT@),
            None => None,
        }
    } else {
        None
    }
}

/// The heartbeat that the fields of a Format-One record give, read at fixed
/// positions; the first field that is missing or does not parse is named.
pub open spec fn format_one_heartbeat(fields: Seq<Seq<u8>>, start: i64) -> Result<
    HeartbeatView,
    Failure,
> {
    if format_one_scan_start(fields) is None {
        Err(Failure::BadField(11))
    } else if decimal_at(fields, 1) is None {
        Err(Failure::BadField(1))
    } else if decimal_at(fields, 26) is None {
        Err(Failure::BadField(26))
    } else if decimal_at(fields, 2) is None {
        Err(Failure::BadField(2))
    } else if decimal_at(fields, 3) is None {
        Err(Failure::BadField(3))
    } else if decimal_at(fields, 37) is None {
        Err(Failure::BadField(37))
    } else if decimal_at(fields, 40) is None {
        Err(Failure::BadField(40))
    } else {
        Ok(
            HeartbeatView {
                start_time: start,
                external_temperature: Celsius(decimal_at(fields, 1).unwrap()),
                mount_temperature: Celsius(decimal_at(fields, 26).unwrap()),
                pressure: Millibar(decimal_at(fields, 2).unwrap()),
                humidity: Percentage(decimal_at(fields, 3).unwrap()),
                soc1: OrionPercentage(decimal_at(fields, 37).unwrap()),
                soc2: OrionPercentage(decimal_at(fields, 40).unwrap()),
                last_scan_on: None,
                last_scan: Scan {
                    start: format_one_scan_start(fields).unwrap(),
                    end: None,
                    detail: None,
                },
                last_scan_skip: None,
                last_efoy1_action: None,
                last_efoy2_action: None,
            },
        )
    }
}

proof fn lemma_two_digit_bound(s: Seq<u8>)
    requires
        s.len() <= 2,
        crate::text::all_digits(s),
    ensures
        crate::text::digits_value(s) <= 99,
{
    if s.len() >= 1 {
        let a = s.drop_last();
        assert(crate::text::is_digit(s[s.len() - 1]));
        if a.len() == 1 {
            assert(a[0] == s[0]);
            assert(crate::text::is_digit(s[0]));
            assert(a.drop_last() =~= Seq::<u8>::empty());
            assert(crate::text::digits_value(a.drop_last()) == 0);
            assert(crate::text::digits_value(a) <= 9);
        } else {
            assert(a =~= Seq::<u8>::empty());
            assert(crate::text::digits_value(a) == 0);
        }
        assert(crate::text::digits_value(s) == crate::text::digits_value(a) * 10 + (s.last() - 48) as nat);
    }
}

fn two_digits_exec(v: u64) -> (r: Vec<u8>)
    requires
        v <= 100,
    ensures
        r@ == two_digits(v as nat),
{
    let r = if v < 10 {
        vec![48u8, (48 + v) as u8]
    } else if v < 100 {
        vec![(48 + v / 10) as u8, (48 + v % 10) as u8]
    } else {
        vec![49u8, 48, 48]
    };
    assert(r@ =~= two_digits(v as nat));
    r
}

/// Makes the zero-based month of a Format-One scan start field one-based,
/// giving the text that is read as a date.
pub fn month_corrected_text(f: &[u8]) -> (r: Option<Vec<u8>>)
    ensures
        match month_corrected(f@) {
            Some(t) => r matches Some(v) && v@ == t,
            None => r is None,
        },
{
    if f.len() < 2 {
        return None;
    }
    let head = vec![f[0], f[1]];
    proof {
        assert(head@ =~= f@.subrange(0, 2));
    }
    let month = match parse_unsigned(head.as_slice(), u64::MAX) {
        Some(m) => m,
        None => return None,
    };
    proof {
        let d = crate::units::unsigned_digits(head@);
        assert(d.len() <= 2);
        lemma_two_digit_bound(d);
    }
    let mut text = two_digits_exec(month + 1);
    let mut rest = suffix_bytes(f, 2);
    text.append(&mut rest);
    Some(text)
}

fn format_one_scan_start_exec(fields: &Vec<Vec<u8>>) -> (r: Option<i64>)
    ensures
        r == format_one_scan_start(byte_views(fields@)),
{
    if fields.len() <= 11 {
        return None;
    }
    match month_corrected_text(fields[11].as_slice()) {
        Some(text) => parse_utc(text.as_slice(), SHORT_YEAR_FORMAT),
        None => None,
    }
}

/// Reads a Format-One record from its comma-separated fields.
pub fn format_one_from_fields(fields: &Vec<Vec<u8>>, start: i64) -> (r: Result<Heartbeat, Error>)
    ensures
        match format_one_heartbeat(byte_views(fields@), start) {
            Ok(v) => r matches Ok(h) && h@ == v,
            Err(f) => r matches Err(e) && e@ == f,
        },
{
    let scan_start = match format_one_scan_start_exec(fields) {
        Some(t) => t,
        None => return Err(Error::BadField(11)),
    };
    let external = match decimal_at_exec(fields, 1) {
        Some(d) => d,
        None => return Err(Error::BadField(1)),
    };
    let mount = match decimal_at_exec(fields, 26) {
        Some(d) => d,
        None => return Err(Error::BadField(26)),
    };
    let pressure = match decimal_at_exec(fields, 2) {
        Some(d) => d,
        None => return Err(Error::BadField(2)),
    };
    let humidity = match decimal_at_exec(fields, 3) {
        Some(d) => d,
        None => return Err(Error::BadField(3)),
    };
    let soc1 = match decimal_at_exec(fields, 37) {
        Some(d) => d,
        None => return Err(Error::BadField(37)),
    };
    let soc2 = match decimal_at_exec(fields, 40) {
        Some(d) => d,
        None => return Err(Error::BadField(40)),
    };
    Ok(
        Heartbeat {
            start_time: start,
            external_temperature: Celsius(external),
            mount_temperature: Celsius(mount),
            pressure: Millibar(pressure),
            humidity: Percentage(humidity),
            soc1: OrionPercentage(soc1),
            soc2: OrionPercentage(soc2),
            last_scan_on: None,
            last_scan: Scan { start: scan_start, end: None, detail: None },
            last_scan_skip: None,
            last_efoy1_action: None,
            last_efoy2_action: None,
        },
    )
}

/// `start` in bytes.
pub open spec fn word_start() -> Seq<u8> {
    seq![115u8, 116, 97, 114, 116]
}

/// `fail` in bytes.
pub open spec fn word_fail() -> Seq<u8> {
    seq![102u8, 97, 105, 108]
}

/// `success` in bytes.
pub open spec fn word_success() -> Seq<u8> {
    seq![115u8, 117, 99, 99, 101, 115, 115]
}

/// The fuel cell action that `word` names, at time `t`.
pub open spec fn action_of(t: i64, word: Seq<u8>) -> Result<EfoyAction, Failure> {
    if word == word_start() {
        Ok(EfoyAction::Start(t))
    } else if word == word_fail() {
        Ok(EfoyAction::Failure(t))
    } else if word == word_success() {
        Ok(EfoyAction::Success(t))
    } else {
        Err(Failure::UnknownEfoyAction(word))
    }
}

impl EfoyAction {
    /// The action that `word` (`start`, `fail` or `success`) names, at time `t`.
    pub fn from_word(t: i64, word: &[u8]) -> (r: Result<EfoyAction, Error>)
        ensures
            match action_of(t, word@) {
                Ok(a) => r == Ok::<EfoyAction, Error>(a),
                Err(f) => r matches Err(e) && e@ == f,
            },
    {
        let start = vec![115u8, 116, 97, 114, 116];
        let fail = vec![102u8, 97, 105, 108];
        let success = vec![115u8, 117, 99, 99, 101, 115, 115];
        assert(start@ =~= word_start());
        assert(fail@ =~= word_fail());
        assert(success@ =~= word_success());
        if crate::text::bytes_equal(word, start.as_slice()) {
            Ok(EfoyAction::Start(t))
        } else if crate::text::bytes_equal(word, fail.as_slice()) {
            Ok(EfoyAction::Failure(t))
        } else if crate::text::bytes_equal(word, success.as_slice()) {
            Ok(EfoyAction::Success(t))
        } else {
            Err(Error::UnknownEfoyAction(to_bytes(word)))
        }
    }
}

/// The scanner power-on row: time, voltage, temperature, external and internal memory.
pub open spec fn scanner_on_of(r: Seq<Seq<u8>>) -> Option<ScannerOn> {
    if time_at(r, 0) is Some && decimal_at(r, 1) is Some && decimal_at(r, 2) is Some
        && decimal_at(r, 3) is Some && decimal_at(r, 4) is Some {
        Some(
            ScannerOn {
                datetime: time_at(r, 0).unwrap(),
                scanner_voltage: Volt(decimal_at(r, 1).unwrap()),
                scanner_temperature: Celsius(decimal_at(r, 2).unwrap()),
                memory_external: Kilobyte(decimal_at(r, 3).unwrap()),
                memory_internal: Kilobyte(decimal_at(r, 4).unwrap()),
            },
        )
    } else {
        None
    }
}

/// Whether the weather row holds temperature, pressure and humidity.
pub open spec fn weather_ok(r: Seq<Seq<u8>>) -> bool {
    decimal_at(r, 0) is Some && decimal_at(r, 1) is Some && decimal_at(r, 2) is Some
}

/// The scan detail row: end time (column 0), then the details.
pub open spec fn detail_of(r: Seq<Seq<u8>>) -> Option<ScanDetail> {
    if unsigned_at(r, 1, u64::MAX) is Some && decimal_at(r, 2) is Some && decimal_at(r, 3) is Some
        && decimal_at(r, 4) is Some && unsigned_at(r, 5, 65535) is Some && unsigned_at(r, 6, 65535)
        is Some && decimal_at(r, 7) is Some && decimal_at(r, 8) is Some && decimal_at(r, 9) is Some
        && decimal_at(r, 10) is Some {
        Some(
            ScanDetail {
                num_points: unsigned_at(r, 1, u64::MAX).unwrap(),
                minimum_range: Meter(decimal_at(r, 2).unwrap()),
                maximum_range: Meter(decimal_at(r, 3).unwrap()),
                file_size: Kilobyte(decimal_at(r, 4).unwrap()),
                minimum_amplitude: unsigned_at(r, 5, 65535).unwrap() as u16,
                maximum_amplitude: unsigned_at(r, 6, 65535).unwrap() as u16,
                roll: Degree(decimal_at(r, 7).unwrap()),
                pitch: Degree(decimal_at(r, 8).unwrap()),
                latitude: Degree(decimal_at(r, 9).unwrap()),
                longitude: Degree(decimal_at(r, 10).unwrap()),
            },
        )
    } else {
        None
    }
}

/// The skipped-scan row (line 5): time, reason code, description.
pub open spec fn skipped_of(r: Seq<Seq<u8>>) -> Result<SkippedScanView, Failure> {
    if time_at(r, 0) is None || r.len() < 3 {
        Err(Failure::BadRow(5))
    } else {
        match skip_reason_of(r[1], r[2]) {
            Ok(v) => Ok(SkippedScanView { datetime: time_at(r, 0).unwrap(), reason: v }),
            Err(f) => Err(f),
        }
    }
}

/// A fuel cell row (line `k`): a time whose first 19 bytes hold a four-digit
/// year, and an action word.
pub open spec fn efoy_of(r: Seq<Seq<u8>>, k: usize) -> Result<EfoyAction, Failure> {
    if r.len() < 2 || r[0].len() < 19 {
        Err(Failure::BadRow(k))
    } else {
        match utc_seconds(r[0].subrange(0, 19), LONG_YEAR_FORMAT@) {
            None => Err(Failure::BadRow(k)),
            Some(t) => action_of(t, r[1]),
        }
    }
}

/// The comma-separated columns of line `k`.
pub open spec fn row_of(lines: Seq<Seq<u8>>, k: int) -> Seq<Seq<u8>> {
    split_on(lines[k], 44)
}

/// The heartbeat that a Format-Two body gives. Line 0 is skipped; lines 1 to
/// 10 are read in a fixed order, lines 7 and 9 only need to be there; the
/// first line that is missing or malformed is named.
pub open spec fn format_two_heartbeat(body: Seq<u8>, start: i64) -> Result<HeartbeatView, Failure> {
    let lines = lines_of(body);
    if lines.len() <= 1 || scanner_on_of(row_of(lines, 1)) is None {
        Err(Failure::BadRow(1))
    } else if lines.len() <= 2 || !weather_ok(row_of(lines, 2)) {
        Err(Failure::BadRow(2))
    } else if lines.len() <= 3 || time_at(row_of(lines, 3), 0) is None {
        Err(Failure::BadRow(3))
    } else if lines.len() <= 4 || detail_of(row_of(lines, 4)) is None || time_at(row_of(lines, 4), 0) is None {
        Err(Failure::BadRow(4))
    } else if lines.len() <= 5 {
        Err(Failure::BadRow(5))
    } else if skipped_of(row_of(lines, 5)) is Err {
        Err(skipped_of(row_of(lines, 5))->Err_0)
    } else if lines.len() <= 6 {
        Err(Failure::BadRow(6))
    } else if efoy_of(row_of(lines, 6), 6) is Err {
        Err(efoy_of(row_of(lines, 6), 6)->Err_0)
    } else if lines.len() <= 7 {
        Err(Failure::BadRow(7))
    } else if lines.len() <= 8 {
        Err(Failure::BadRow(8))
    } else if efoy_of(row_of(lines, 8), 8) is Err {
        Err(efoy_of(row_of(lines, 8), 8)->Err_0)
    } else if lines.len() <= 9 {
        Err(Failure::BadRow(9))
    } else if lines.len() <= 10 || !weather_ok(row_of(lines, 10)) {
        Err(Failure::BadRow(10))
    } else {
        let weather = row_of(lines, 2);
        let power = row_of(lines, 10);
        Ok(
            HeartbeatView {
                start_time: start,
                external_temperature: Celsius(decimal_at(weather, 0).unwrap()),
                mount_temperature: Celsius(decimal_at(power, 0).unwrap()),
                pressure: Millibar(decimal_at(weather, 1).unwrap()),
                humidity: Percentage(decimal_at(weather, 2).unwrap()),
                soc1: OrionPercentage(decimal_at(power, 1).unwrap()),
                soc2: OrionPercentage(decimal_at(power, 2).unwrap()),
                last_scan_on: scanner_on_of(row_of(lines, 1)),
                last_scan: Scan {
                    start: time_at(row_of(lines, 3), 0).unwrap(),
                    end: time_at(row_of(lines, 4), 0),
                    detail: detail_of(row_of(lines, 4)),
                },
                last_scan_skip: Some(skipped_of(row_of(lines, 5))->Ok_0),
                last_efoy1_action: Some(efoy_of(row_of(lines, 6), 6)->Ok_0),
                last_efoy2_action: Some(efoy_of(row_of(lines, 8), 8)->Ok_0),
            },
        )
    }
}

fn scanner_on_exec(r: &Vec<Vec<u8>>) -> (o: Option<ScannerOn>)
    ensures
        o == scanner_on_of(byte_views(r@)),
{
    let datetime = match time_at_exec(r, 0) {
        Some(t) => t,
        None => return None,
    };
    let voltage = match decimal_at_exec(r, 1) {
        Some(d) => d,
        None => return None,
    };
    let temperature = match decimal_at_exec(r, 2) {
        Some(d) => d,
        None => return None,
    };
    let external = match decimal_at_exec(r, 3) {
        Some(d) => d,
        None => return None,
    };
    let internal = match decimal_at_exec(r, 4) {
        Some(d) => d,
        None => return None,
    };
    Some(
        ScannerOn {
            datetime,
            scanner_voltage: Volt(voltage),
            scanner_temperature: Celsius(temperature),
            memory_external: Kilobyte(external),
            memory_internal: Kilobyte(internal),
        },
    )
}

fn triple_exec(r: &Vec<Vec<u8>>) -> (o: Option<(Decimal, Decimal, Decimal)>)
    ensures
        o is Some == weather_ok(byte_views(r@)),
        o matches Some(t) ==> t.0 == decimal_at(byte_views(r@), 0).unwrap() && t.1 == decimal_at(
            byte_views(r@),
            1,
        ).unwrap() && t.2 == decimal_at(byte_views(r@), 2).unwrap(),
{
    let a = match decimal_at_exec(r, 0) {
        Some(d) => d,
        None => return None,
    };
    let b = match decimal_at_exec(r, 1) {
        Some(d) => d,
        None => return None,
    };
    let c = match decimal_at_exec(r, 2) {
        Some(d) => d,
        None => return None,
    };
    Some((a, b, c))
}

fn detail_exec(r: &Vec<Vec<u8>>) -> (o: Option<ScanDetail>)
    ensures
        o == detail_of(byte_views(r@)),
{
    let num_points = match unsigned_at_exec(r, 1, u64::MAX) {
        Some(v) => v,
        None => return None,
    };
    let minimum_range = match decimal_at_exec(r, 2) {
        Some(d) => d,
        None => return None,
    };
    let maximum_range = match decimal_at_exec(r, 3) {
        Some(d) => d,
        None => return None,
    };
    let file_size = match decimal_at_exec(r, 4) {
        Some(d) => d,
        None => return None,
    };
    let minimum_amplitude = match unsigned_at_exec(r, 5, 65535) {
        Some(v) => v,
        None => return None,
    };
    let maximum_amplitude = match unsigned_at_exec(r, 6, 65535) {
        Some(v) => v,
        None => return None,
    };
    let roll = match decimal_at_exec(r, 7) {
        Some(d) => d,
        None => return None,
    };
    let pitch = match decimal_at_exec(r, 8) {
        Some(d) => d,
        None => return None,
    };
    let latitude = match decimal_at_exec(r, 9) {
        Some(d) => d,
        None => return None,
    };
    let longitude = match decimal_at_exec(r, 10) {
        Some(d) => d,
        None => return None,
    };
    Some(
        ScanDetail {
            num_points,
            minimum_range: Meter(minimum_range),
            maximum_range: Meter(maximum_range),
            file_size: Kilobyte(file_size),
            minimum_amplitude: minimum_amplitude as u16,
            maximum_amplitude: maximum_amplitude as u16,
            roll: Degree(roll),
            pitch: Degree(pitch),
            latitude: Degree(latitude),
            longitude: Degree(longitude),
        },
    )
}

fn skipped_exec(r: &Vec<Vec<u8>>) -> (o: Result<SkippedScan, Error>)
    ensures
        match skipped_of(byte_views(r@)) {
            Ok(v) => o matches Ok(x) && x@ == v,
            Err(f) => o matches Err(e) && e@ == f,
        },
{
    let datetime = match time_at_exec(r, 0) {
        Some(t) => t,
        None => return Err(Error::BadRow(5)),
    };
    if r.len() < 3 {
        return Err(Error::BadRow(5));
    }
    match SkipReason::new(r[1].as_slice(), r[2].as_slice()) {
        Ok(reason) => Ok(SkippedScan { datetime, reason }),
        Err(e) => Err(e),
    }
}

fn efoy_exec(r: &Vec<Vec<u8>>, k: usize) -> (o: Result<EfoyAction, Error>)
    ensures
        match efoy_of(byte_views(r@), k) {
            Ok(v) => o == Ok::<EfoyAction, Error>(v),
            Err(f) => o matches Err(e) && e@ == f,
        },
{
    if r.len() < 2 || r[0].len() < 19 {
        return Err(Error::BadRow(k));
    }
    let d = r[0].as_slice();
    let mut head: Vec<u8> = Vec::new();
    let mut j: usize = 0;
    while j < 19
        invariant
            j <= 19 <= d@.len(),
            head@ =~= d@.subrange(0, j as int),
        decreases 19 - j,
    {
        head.push(d[j]);
        j = j + 1;
    }
    let t = match parse_utc(head.as_slice(), LONG_YEAR_FORMAT) {
        Some(t) => t,
        None => return Err(Error::BadRow(k)),
    };
    EfoyAction::from_word(t, r[1].as_slice())
}

fn row_exec(lines: &Vec<Vec<u8>>, k: usize) -> (r: Vec<Vec<u8>>)
    requires
        k < lines@.len(),
    ensures
        byte_views(r@) == row_of(byte_views(lines@), k as int),
{
    split_exec(lines[k].as_slice(), 44)
}

/// Reads a Format-Two record from its body.
pub fn format_two_from_body(body: &[u8], start: i64) -> (r: Result<Heartbeat, Error>)
    ensures
        match format_two_heartbeat(body@, start) {
            Ok(v) => r matches Ok(h) && h@ == v,
            Err(f) => r matches Err(e) && e@ == f,
        },
{
    let lines = lines_exec(body);
    if lines.len() <= 1 {
        return Err(Error::BadRow(1));
    }
    let scan_on = match scanner_on_exec(&row_exec(&lines, 1)) {
        Some(s) => s,
        None => return Err(Error::BadRow(1)),
    };
    if lines.len() <= 2 {
        return Err(Error::BadRow(2));
    }
    let weather = match triple_exec(&row_exec(&lines, 2)) {
        Some(w) => w,
        None => return Err(Error::BadRow(2)),
    };
    if lines.len() <= 3 {
        return Err(Error::BadRow(3));
    }
    let scan_start = match time_at_exec(&row_exec(&lines, 3), 0) {
        Some(t) => t,
        None => return Err(Error::BadRow(3)),
    };
    if lines.len() <= 4 {
        return Err(Error::BadRow(4));
    }
    let detail_row = row_exec(&lines, 4);
    let detail = match detail_exec(&detail_row) {
        Some(d) => d,
        None => return Err(Error::BadRow(4)),
    };
    let scan_end = match time_at_exec(&detail_row, 0) {
        Some(t) => t,
        None => return Err(Error::BadRow(4)),
    };
    if lines.len() <= 5 {
        return Err(Error::BadRow(5));
    }
    let skip = match skipped_exec(&row_exec(&lines, 5)) {
        Ok(s) => s,
        Err(e) => return Err(e),
    };
    if lines.len() <= 6 {
        return Err(Error::BadRow(6));
    }
    let efoy1 = match efoy_exec(&row_exec(&lines, 6), 6) {
        Ok(a) => a,
        Err(e) => return Err(e),
    };
    if lines.len() <= 7 {
        return Err(Error::BadRow(7));
    }
    if lines.len() <= 8 {
        return Err(Error::BadRow(8));
    }
    let efoy2 = match efoy_exec(&row_exec(&lines, 8), 8) {
        Ok(a) => a,
        Err(e) => return Err(e),
    };
    if lines.len() <= 9 {
        return Err(Error::BadRow(9));
    }
    if lines.len() <= 10 {
        return Err(Error::BadRow(10));
    }
    let power = match triple_exec(&row_exec(&lines, 10)) {
        Some(p) => p,
        None => return Err(Error::BadRow(10)),
    };
    Ok(
        Heartbeat {
            start_time: start,
            external_temperature: Celsius(weather.0),
            mount_temperature: Celsius(power.0),
            pressure: Millibar(weather.1),
            humidity: Percentage(weather.2),
            soc1: OrionPercentage(power.1),
            soc2: OrionPercentage(power.2),
            last_scan_on: Some(scan_on),
            last_scan: Scan { start: scan_start, end: Some(scan_end), detail: Some(detail) },
            last_scan_skip: Some(skip),
            last_efoy1_action: Some(efoy1),
            last_efoy2_action: Some(efoy2),
        },
    )
}

/// The heartbeat that a builder's record gives.
#[verifier::opaque]
pub open spec fn heartbeat_of(b: BuilderView) -> Result<HeartbeatView, Failure> {
    match b.format {
        Format::One => format_one_heartbeat(
            split_on(payloads(b.messages), 44),
            b.messages[0].time_of_session,
        ),
        Format::Two(_) => format_two_heartbeat(
            body_of(b.format, b.messages),
            b.messages[0].time_of_session,
        ),
    }
}

/// The heartbeats of the builders, in order, or the first failure.
pub open spec fn heartbeats_of(bs: Seq<BuilderView>) -> Result<Seq<HeartbeatView>, Failure>
    decreases bs.len(),
{
    if bs.len() == 0 {
        Ok(Seq::empty())
    } else {
        match heartbeats_of(bs.drop_last()) {
            Err(f) => Err(f),
            Ok(hs) => match heartbeat_of(bs.last()) {
                Err(f) => Err(f),
                Ok(h) => Ok(hs.push(h)),
            },
        }
    }
}

pub open spec fn heartbeat_views(hs: Seq<Heartbeat>) -> Seq<HeartbeatView> {
    hs.map_values(|h: Heartbeat| h@)
}

fn concat_payloads(ms: &Vec<RawMessage>) -> (r: Vec<u8>)
    ensures
        r@ == payloads(ms@),
{
    let mut out: Vec<u8> = Vec::new();
    let mut k: usize = 0;
    while k < ms.len()
        invariant
            k <= ms@.len(),
            out@ == payloads(ms@.take(k as int)),
        decreases ms@.len() - k,
    {
        let mut p = to_bytes(ms[k].payload.as_slice());
        proof {
            assert(ms@.take(k + 1).drop_last() =~= ms@.take(k as int));
        }
        out.append(&mut p);
        k = k + 1;
    }
    assert(ms@.take(ms@.len() as int) =~= ms@);
    out
}

fn body_piece_exec(f: Format, p: &[u8]) -> (r: Vec<u8>)
    ensures
        r@ == body_piece(f, p@),
{
    match f {
        Format::Two(Some(_)) => {
            let c = index_of_exec(p, 58, 0);
            if c < p.len() {
                suffix_bytes(p, c + 1)
            } else {
                Vec::new()
            }
        },
        _ => if p.len() > 0 {
            suffix_bytes(p, 1)
        } else {
            Vec::new()
        },
    }
}

fn body_exec(f: Format, ms: &Vec<RawMessage>) -> (r: Vec<u8>)
    ensures
        r@ == body_of(f, ms@),
{
    let mut out: Vec<u8> = Vec::new();
    let mut k: usize = 0;
    while k < ms.len()
        invariant
            k <= ms@.len(),
            out@ == body_of(f, ms@.take(k as int)),
        decreases ms@.len() - k,
    {
        let mut p = body_piece_exec(f, ms[k].payload.as_slice());
        proof {
            assert(ms@.take(k + 1).drop_last() =~= ms@.take(k as int));
        }
        out.append(&mut p);
        k = k + 1;
    }
    assert(ms@.take(ms@.len() as int) =~= ms@);
    out
}

impl Builder {
    /// Creates a heartbeat from this builder's record.
    ///
    /// Format One: the concatenated payload is split on commas and read at
    /// fixed positions. Format Two: the headers are stripped, the bodies
    /// concatenated, and the rows read in their fixed order.
    pub fn to_heartbeat(&self) -> (r: Result<Heartbeat, Error>)
        requires
            self.wf(),
        ensures
            match heartbeat_of(self@) {
                Ok(v) => r matches Ok(h) && h@ == v,
                Err(f) => r matches Err(e) && e@ == f,
            },
    {
        proof {
            self.lemma_wf();
            reveal(heartbeat_of);
        }
        let ms = self.messages();
        let start = ms[0].time_of_session;
        match self.format() {
            Format::One => {
                let payload = concat_payloads(ms);
                let fields = split_exec(payload.as_slice(), 44);
                format_one_from_fields(&fields, start)
            },
            Format::Two(h) => {
                let body = body_exec(Format::Two(h), ms);
                format_two_from_body(body.as_slice(), start)
            },
        }
    }
}

/// Extracts heartbeats from a vector of messages.
///
/// Unused messages are left in `messages`, used ones are consumed. If any
/// completed record fails to read, the whole call fails with the first such
/// error (the leftovers are still left in `messages`).
pub fn extract_heartbeats(messages: &mut Vec<RawMessage>) -> (r: Result<Vec<Heartbeat>, Error>)
    ensures
        final(messages)@ == crate::builder::extracted(old(messages)@).left,
        match heartbeats_of(crate::builder::extracted(old(messages)@).done) {
            Ok(hs) => r matches Ok(v) && heartbeat_views(v@) == hs,
            Err(f) => r matches Err(e) && e@ == f,
        },
{
    let builders = crate::builder::extract_builders(messages);
    let ghost bs = crate::builder::views(builders@);
    let mut out: Vec<Heartbeat> = Vec::new();
    let mut k: usize = 0;
    proof {
        assert(bs.take(0) =~= Seq::<BuilderView>::empty());
        assert(heartbeat_views(out@) =~= Seq::<HeartbeatView>::empty());
    }
    while k < builders.len()
        invariant
            k <= builders@.len(),
            bs == crate::builder::views(builders@),
            bs == crate::builder::extracted(old(messages)@).done,
            messages@ == crate::builder::extracted(old(messages)@).left,
            forall|i: int| 0 <= i < builders@.len() ==> (#[trigger] builders@[i]).wf(),
            heartbeats_of(bs.take(k as int)) == Ok::<Seq<HeartbeatView>, Failure>(
                heartbeat_views(out@),
            ),
        decreases builders@.len() - k,
    {
        proof {
            assert(bs.take(k + 1).drop_last() =~= bs.take(k as int));
            assert(bs.take(k + 1).last() == builders@[k as int]@);
        }
        match builders[k].to_heartbeat() {
            Ok(h) => {
                proof {
                    assert(heartbeat_views(out@.push(h)) =~= heartbeat_views(out@).push(h@));
                }
                out.push(h);
            },
            Err(e) => {
                proof {
                    assert(heartbeats_of(bs.take(k + 1)) == Err::<Seq<HeartbeatView>, Failure>(e@));
                    lemma_first_failure_stays(bs, k as int + 1);
                }
                return Err(e);
            },
        }
        k = k + 1;
    }
    assert(bs.take(bs.len() as int) =~= bs);
    Ok(out)
}

/// A failure among the first builders is the failure of them all.
pub proof fn lemma_first_failure_stays(bs: Seq<BuilderView>, k: int)
    requires
        0 <= k <= bs.len(),
        heartbeats_of(bs.take(k)) is Err,
    ensures
        heartbeats_of(bs) == heartbeats_of(bs.take(k)),
    decreases bs.len() - k,
{
    if k < bs.len() {
        assert(bs.take(k + 1).drop_last() =~= bs.take(k));
        lemma_first_failure_stays(bs, k + 1);
    } else {
        assert(bs.take(k) =~= bs);
    }
}

/// What reading one message as a whole record gives.
pub open spec fn from_message_result(m: RawMessage) -> Result<HeartbeatView, Failure> {
    match crate::builder::start_of(m) {
        Some(b) => if crate::builder::is_full(b) {
            heartbeat_of(b)
        } else {
            Err(Failure::Rejected(m))
        },
        None => Err(Failure::Rejected(m)),
    }
}

impl Heartbeat {
    /// Creates a heartbeat from a single message that holds a whole record.
    ///
    /// A message that starts no record, or starts one that needs more
    /// messages, is handed back in `Error::RejectedMessage`.
    pub fn from_message(message: RawMessage) -> (r: Result<Heartbeat, Error>)
        ensures
            match from_message_result(message) {
                Ok(v) => r matches Ok(h) && h@ == v,
                Err(f) => r matches Err(e) && e@ == f,
            },
    {
        match crate::builder::create_builder(message) {
            Ok(builder) => if builder.full() {
                builder.to_heartbeat()
            } else {
                proof {
                    builder.lemma_wf();
                }
                let mut ms = builder.into_messages();
                let m = ms.pop().unwrap();
                Err(Error::RejectedMessage(m))
            },
            Err(e) => Err(e),
        }
    }
}

/// Whether `ms` frames one Format-Two record under the header `h`: the first
/// message carries `h`, every later one starts no record, carries `h`'s group
/// id, and adds body bytes, and the bodies add up to `h.bytes`.
pub open spec fn frames_record(ms: Seq<RawMessage>, h: Header) -> bool {
    &&& ms.len() >= 1
    &&& crate::message::start_header(ms[0].payload@) == Some(Some(h))
    &&& forall|i: int|
        1 <= i < ms.len() ==> {
            &&& crate::builder::start_of(#[trigger] ms[i]) is None
            &&& crate::message::secondary_id(ms[i].payload@) == Some(h.id)
            &&& after_header(ms[i].payload@).len() > 0
        }
    &&& body_of(Format::Two(Some(h)), ms).len() == h.bytes
}

proof fn lemma_framed_fold(ms: Seq<RawMessage>, h: Header, k: int)
    requires
        frames_record(ms, h),
        1 <= k <= ms.len(),
    ensures
        crate::builder::extract_fold(ms.take(k)) == (crate::builder::Extraction {
            done: Seq::empty(),
            current: Some(BuilderView { format: Format::Two(Some(h)), messages: ms.take(k) }),
            left: Seq::empty(),
        }),
    decreases k,
{
    let f = Format::Two(Some(h));
    let target = crate::builder::Extraction {
        done: Seq::empty(),
        current: Some(BuilderView { format: f, messages: ms.take(k) }),
        left: Seq::empty(),
    };
    if k == 1 {
        assert(ms.take(1).drop_last() =~= Seq::<RawMessage>::empty());
        assert(ms.take(1) =~= seq![ms[0]]);
        let init = crate::builder::extract_fold(Seq::<RawMessage>::empty());
        assert(crate::builder::extract_fold(ms.take(1)) == crate::builder::extract_step(init, ms[0]));
        assert(crate::builder::start_of(ms[0]) == Some(BuilderView { format: f, messages: seq![ms[0]] }));
        assert(crate::builder::release_slot(init) == init);
        assert(crate::builder::extract_fold(ms.take(1)) == target);
    } else {
        lemma_framed_fold(ms, h, k - 1);
        assert(ms.take(k).drop_last() =~= ms.take(k - 1));
        let m = ms[k - 1];
        assert(ms.take(k).last() == m);
        let c = BuilderView { format: f, messages: ms.take(k - 1) };
        assert(c.messages.push(m) =~= ms.take(k));
        assert(ms.take(k).drop_last() =~= c.messages);
        crate::builder::lemma_body_prefix(f, ms, k);
        assert(body_piece(f, m.payload@).len() > 0);
        assert(!crate::builder::is_full(c));
        assert(crate::builder::start_of(ms[k - 1]) is None);
        assert(crate::message::secondary_id(ms[k - 1].payload@) == Some(h.id));
        assert(crate::builder::pushed(c, m) == Some(BuilderView { format: f, messages: ms.take(k) }));
        assert(crate::builder::extract_fold(ms.take(k)) == target);
    }
}

/// Round trip of Format-Two framing: a record framed over any number of
/// messages is extracted as one builder holding them all, with nothing left
/// over, and reads as the heartbeat of its concatenated body; so where the
/// split points fall does not change the heartbeat.
pub proof fn lemma_format_two_round_trip(ms: Seq<RawMessage>, h: Header)
    requires
        frames_record(ms, h),
    ensures
        crate::builder::extracted(ms).done == seq![
            BuilderView { format: Format::Two(Some(h)), messages: ms },
        ],
        crate::builder::extracted(ms).left == Seq::<RawMessage>::empty(),
        heartbeat_of(crate::builder::extracted(ms).done[0]) == format_two_heartbeat(
            body_of(Format::Two(Some(h)), ms),
            ms[0].time_of_session,
        ),
{
    lemma_framed_fold(ms, h, ms.len() as int);
    assert(ms.take(ms.len() as int) =~= ms);
    reveal(heartbeat_of);
    let b = BuilderView { format: Format::Two(Some(h)), messages: ms };
    assert(crate::builder::extracted(ms).done =~= seq![b]);
}

/// Two framings of the same body, whose first messages share a session time,
/// give the same heartbeat.
pub proof fn lemma_format_two_split_free(ms1: Seq<RawMessage>, h1: Header, ms2: Seq<RawMessage>, h2: Header)
    requires
        frames_record(ms1, h1),
        frames_record(ms2, h2),
        body_of(Format::Two(Some(h1)), ms1) == body_of(Format::Two(Some(h2)), ms2),
        ms1[0].time_of_session == ms2[0].time_of_session,
    ensures
        heartbeat_of(crate::builder::extracted(ms1).done[0]) == heartbeat_of(
            crate::builder::extracted(ms2).done[0],
        ),
{
    lemma_format_two_round_trip(ms1, h1);
    lemma_format_two_round_trip(ms2, h2);
}

} // verus!
