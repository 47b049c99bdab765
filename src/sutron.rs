//! Data logger logs, retrieved on site visits rather than sent by satellite.
//!
//! A log is a `Station Name` line, the station's name, then one record per
//! line: `MM/DD/YYYY,HH:MM:SS,` followed by the record's data.
use vstd::prelude::*;

use crate::clock::{parse_utc, utc_seconds};
use crate::text::{bytes_equal, suffix_bytes, to_bytes};

verus! {

/// The `strftime`-style format of a record's date and time.
pub const RECORD_TIME_FORMAT: &'static str = "%m/%d/%Y,%H:%M:%S";

/// Why a log or a record could not be read.
#[derive(Debug, PartialEq, Eq)]
pub enum Error {
    /// The first line (given here) is not `Station Name`.
    BadLogHeader(Vec<u8>),
    /// A record's date and time (given here) did not read.
    ChronoParse(Vec<u8>),
    /// The log ends before the station's name.
    LogTooShort,
    /// A record has this many bytes, fewer than twenty.
    RecordTooShort(usize),
    /// A record has this byte where the comma after its time belongs.
    RecordMissingComma(u8),
}

pub enum SutronFailure {
    BadLogHeader(Seq<u8>),
    ChronoParse(Seq<u8>),
    LogTooShort,
    RecordTooShort(nat),
    RecordMissingComma(u8),
}

impl View for Error {
    type V = SutronFailure;

    open spec fn view(&self) -> SutronFailure {
        match self {
            Error::BadLogHeader(l) => SutronFailure::BadLogHeader(l@),
            Error::ChronoParse(t) => SutronFailure::ChronoParse(t@),
            Error::LogTooShort => SutronFailure::LogTooShort,
            Error::RecordTooShort(n) => SutronFailure::RecordTooShort(*n as nat),
            Error::RecordMissingComma(b) => SutronFailure::RecordMissingComma(*b),
        }
    }
}

/// One log record: when it was laid down, and its data.
#[derive(Debug, PartialEq, Eq)]
pub struct Record {
    /// The date and time of the record, in seconds since the epoch.
    pub datetime: i64,
    /// The record's data.
    pub data: Vec<u8>,
}

/// A record, with its data as a byte sequence.
pub struct RecordView {
    pub datetime: i64,
    pub data: Seq<u8>,
}

impl View for Record {
    type V = RecordView;

    open spec fn view(&self) -> RecordView {
        RecordView { datetime: self.datetime, data: self.data@ }
    }
}

/// What reading the line `s` as a record gives.
pub open spec fn record_of(s: Seq<u8>) -> Result<RecordView, SutronFailure> {
    if s.len() < 20 {
        Err(SutronFailure::RecordTooShort(s.len()))
    } else if s[19] != 44 {
        Err(SutronFailure::RecordMissingComma(s[19]))
    } else {
        match utc_seconds(s.subrange(0, 19), RECORD_TIME_FORMAT@) {
            None => Err(SutronFailure::ChronoParse(s.subrange(0, 19))),
            Some(t) => Ok(RecordView { datetime: t, data: s.subrange(20, s.len() as int) }),
        }
    }
}

impl std::str::FromStr for Record {
    type Err = Error;

    fn from_str(s: &str) -> Result<Record, Error> {
        Record::parse(s.as_bytes())
    }
}

impl Record {
    /// Reads a record from one log line.
    pub fn parse(s: &[u8]) -> (r: Result<Record, Error>)
        ensures
            match record_of(s@) {
                Ok(v) => r matches Ok(x) && x@ == v,
                Err(f) => r matches Err(e) && e@ == f,
            },
    {
        if s.len() < 20 {
            return Err(Error::RecordTooShort(s.len()));
        }
        if s[19] != 44 {
            return Err(Error::RecordMissingComma(s[19]));
        }
        let mut head: Vec<u8> = Vec::new();
        let mut j: usize = 0;
        while j < 19
            invariant
                j <= 19 < s@.len(),
                head@ =~= s@.subrange(0, j as int),
            decreases 19 - j,
        {
            head.push(s[j]);
            j = j + 1;
        }
        match parse_utc(head.as_slice(), RECORD_TIME_FORMAT) {
            None => Err(Error::ChronoParse(head)),
            Some(t) => Ok(Record { datetime: t, data: suffix_bytes(s, 20) }),
        }
    }
}

/// `Station Name` in bytes.
pub open spec fn station_header() -> Seq<u8> {
    seq![83u8, 116, 97, 116, 105, 111, 110, 32, 78, 97, 109, 101]
}

/// The records of the lines, in order, or the first failure.
pub open spec fn records_of(lines: Seq<Seq<u8>>) -> Result<Seq<RecordView>, SutronFailure>
    decreases lines.len(),
{
    if lines.len() == 0 {
        Ok(Seq::empty())
    } else {
        match records_of(lines.drop_last()) {
            Err(f) => Err(f),
            Ok(rs) => match record_of(lines.last()) {
                Err(f) => Err(f),
                Ok(r) => Ok(rs.push(r)),
            },
        }
    }
}

/// What reading the lines of a log gives: its station's name and records.
pub open spec fn log_of(lines: Seq<Seq<u8>>) -> Result<(Seq<u8>, Seq<RecordView>), SutronFailure> {
    if lines.len() == 0 {
        Err(SutronFailure::LogTooShort)
    } else if lines[0] != station_header() {
        Err(SutronFailure::BadLogHeader(lines[0]))
    } else if lines.len() == 1 {
        Err(SutronFailure::LogTooShort)
    } else {
        match records_of(lines.subrange(2, lines.len() as int)) {
            Err(f) => Err(f),
            Ok(rs) => Ok((lines[1], rs)),
        }
    }
}

/// A data logger log.
#[derive(Debug)]
pub struct Log {
    station_name: Vec<u8>,
    records: Vec<Record>,
}

pub open spec fn record_views(rs: Seq<Record>) -> Seq<RecordView> {
    rs.map_values(|r: Record| r@)
}

pub proof fn lemma_records_failure(lines: Seq<Seq<u8>>, k: int)
    requires
        0 <= k <= lines.len(),
        records_of(lines.take(k)) is Err,
    ensures
        records_of(lines) == records_of(lines.take(k)),
    decreases lines.len() - k,
{
    if k < lines.len() {
        assert(lines.take(k + 1).drop_last() =~= lines.take(k));
        lemma_records_failure(lines, k + 1);
    } else {
        assert(lines.take(k) =~= lines);
    }
}

impl Log {
    /// The station's name.
    pub closed spec fn name_view(&self) -> Seq<u8> {
        self.station_name@
    }

    /// The log's records.
    pub closed spec fn records_view(&self) -> Seq<RecordView> {
        record_views(self.records@)
    }

    /// Reads a log from its lines.
    pub fn from_lines(lines: &Vec<Vec<u8>>) -> (r: Result<Log, Error>)
        ensures
            match log_of(crate::text::byte_views(lines@)) {
                Ok(v) => r matches Ok(log) && log.name_view() == v.0 && log.records_view() == v.1,
                Err(f) => r matches Err(e) && e@ == f,
            },
    {
        let ghost ls = crate::text::byte_views(lines@);
        if lines.len() == 0 {
            return Err(Error::LogTooShort);
        }
        let header = vec![83u8, 116, 97, 116, 105, 111, 110, 32, 78, 97, 109, 101];
        assert(header@ =~= station_header());
        assert(ls[0] == lines@[0]@);
        if !bytes_equal(lines[0].as_slice(), header.as_slice()) {
            return Err(Error::BadLogHeader(to_bytes(lines[0].as_slice())));
        }
        if lines.len() == 1 {
            return Err(Error::LogTooShort);
        }
        let station_name = to_bytes(lines[1].as_slice());
        assert(ls[1] == lines@[1]@);
        let ghost rest = ls.subrange(2, ls.len() as int);
        let mut records: Vec<Record> = Vec::new();
        let mut k: usize = 2;
        proof {
            assert(rest.take(0) =~= Seq::<Seq<u8>>::empty());
            assert(record_views(records@) =~= Seq::<RecordView>::empty());
        }
        while k < lines.len()
            invariant
                2 <= k <= lines@.len(),
                ls == crate::text::byte_views(lines@),
                ls[0] == station_header(),
                rest == ls.subrange(2, ls.len() as int),
                records_of(rest.take(k - 2)) == Ok::<Seq<RecordView>, SutronFailure>(
                    record_views(records@),
                ),
            decreases lines@.len() - k,
        {
            proof {
                assert(rest.take(k - 1).drop_last() =~= rest.take(k - 2));
                assert(rest.take(k - 1).last() == lines@[k as int]@);
            }
            match Record::parse(lines[k].as_slice()) {
                Ok(rec) => {
                    proof {
                        assert(record_views(records@.push(rec)) =~= record_views(records@).push(rec@));
                    }
                    records.push(rec);
                },
                Err(e) => {
                    proof {
                        assert(records_of(rest.take(k - 1)) == Err::<Seq<RecordView>, SutronFailure>(e@));
                        lemma_records_failure(rest, k - 1);
                        assert(log_of(ls) == Err::<(Seq<u8>, Seq<RecordView>), SutronFailure>(e@));
                    }
                    return Err(e);
                },
            }
            k = k + 1;
        }
        proof {
            assert(rest.take(k - 2) =~= rest);
        }
        let log = Log { station_name, records };
        assert(log.name_view() == ls[1]);
        Ok(log)
    }

    /// Returns the station's name.
    pub fn station_name(&self) -> (r: &[u8])
        ensures
            r@ == self.name_view(),
    {
        self.station_name.as_slice()
    }

    /// Returns the records of this log.
    pub fn records(&self) -> (r: &Vec<Record>)
        ensures
            record_views(r@) == self.records_view(),
    {
        &self.records
    }
}

} // verus!
