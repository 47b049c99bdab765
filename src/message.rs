//! Raw burst messages and the Format-Two headers that frame them.
use vstd::prelude::*;

use crate::text::{all_digits, digit_run_end, digit_run_end_exec, digits_value, index_of, parse_digits};

verus! {

/// One burst message as the message store hands it over.
#[derive(Clone, Debug, PartialEq, Eq)]
pub struct RawMessage {
    /// The payload text, as bytes.
    pub payload: Vec<u8>,
    /// The identifier of the modem that sent the message.
    pub imei: String,
    /// When the message's session took place, in seconds since 1970-01-01 UTC.
    pub time_of_session: i64,
}

impl RawMessage {
    /// Creates a message from its parts.
    pub fn new(payload: Vec<u8>, imei: String, time_of_session: i64) -> (r: RawMessage)
        ensures
            r.payload@ == payload@,
            r.imei@ == imei@,
            r.time_of_session == time_of_session,
    {
        RawMessage { payload, imei, time_of_session }
    }
}

/// The framing of the first message of a multi-message Format-Two record.
#[derive(Clone, Copy, Debug, PartialEq, Eq)]
pub struct Header {
    /// The record's group id, repeated by each continuation message.
    pub id: u64,
    /// The number of body bytes that the record holds, headers not counted.
    pub bytes: u64,
}

/// Where a nonempty run of digits that starts at `i` and ends with `t` stops,
/// counting `t` in.
pub open spec fn digit_field_end(p: Seq<u8>, i: int, t: u8) -> Option<int> {
    let e = digit_run_end(p, i);
    if e > i && e < p.len() && p[e] == t {
        Some(e + 1)
    } else {
        None
    }
}

/// Whether `p` begins with `1,`.
pub open spec fn starts_one_comma(p: Seq<u8>) -> bool {
    p.len() >= 2 && p[0] == 49 && p[1] == 44
}

/// The header `1,<id>,<seq>,<bytes>:` at the start of `p`, where `id` and
/// `bytes` fit in a `u64`.
pub open spec fn numbered_header(p: Seq<u8>) -> Option<Header> {
    if !starts_one_comma(p) {
        None
    } else {
        match digit_field_end(p, 2, 44) {
            None => None,
            Some(a) => match digit_field_end(p, a, 44) {
                None => None,
                Some(b) => match digit_field_end(p, b, 58) {
                    None => None,
                    Some(c) => {
                        let id = digits_value(p.subrange(2, a - 1));
                        let bytes = digits_value(p.subrange(b, c - 1));
                        if id <= u64::MAX && bytes <= u64::MAX {
                            Some(Header { id: id as u64, bytes: bytes as u64 })
                        } else {
                            None
                        }
                    },
                },
            },
        }
    }
}

/// The bytes of the single-message marker `0ATHB02` (three digits and a
/// carriage return follow it).
pub open spec fn marker_tag() -> Seq<u8> {
    seq![48u8, 65, 84, 72, 66, 48, 50]
}

/// Whether the single-message marker `0ATHB02ddd\r` starts at `i`.
pub open spec fn marker_at(p: Seq<u8>, i: int) -> bool {
    &&& 0 <= i
    &&& i + 11 <= p.len()
    &&& p.subrange(i, i + 7) == marker_tag()
    &&& all_digits(p.subrange(i + 7, i + 10))
    &&& p[i + 10] == 13
}

pub open spec fn has_marker(p: Seq<u8>) -> bool {
    exists|i: int| marker_at(p, i)
}

/// How a message may start a Format-Two record: `Some(Some(h))` for a
/// numbered header, `Some(None)` for a complete single-message record, `None`
/// where it starts none.
pub open spec fn start_header(p: Seq<u8>) -> Option<Option<Header>> {
    match numbered_header(p) {
        Some(h) => Some(Some(h)),
        None => if has_marker(p) {
            Some(None)
        } else {
            None
        },
    }
}

/// The group id of the continuation header `1,<id>,<seq>:` at the start of `p`.
pub open spec fn secondary_id(p: Seq<u8>) -> Option<u64> {
    if !starts_one_comma(p) {
        None
    } else {
        match digit_field_end(p, 2, 44) {
            None => None,
            Some(a) => match digit_field_end(p, a, 58) {
                None => None,
                Some(b) => {
                    let id = digits_value(p.subrange(2, a - 1));
                    if id <= u64::MAX {
                        Some(id as u64)
                    } else {
                        None
                    }
                },
            },
        }
    }
}

/// The part of a Format-Two payload after its header: what follows the first `:`.
pub open spec fn after_header(p: Seq<u8>) -> Seq<u8> {
    let c = index_of(p, 58, 0);
    if c < p.len() {
        p.subrange(c + 1, p.len() as int)
    } else {
        Seq::empty()
    }
}

fn digit_field_end_exec(p: &[u8], i: usize, t: u8) -> (r: Option<usize>)
    requires
        i <= p@.len(),
    ensures
        r matches Some(e) ==> digit_field_end(p@, i as int, t) == Some(e as int),
        r is None ==> digit_field_end(p@, i as int, t) is None,
        r matches Some(e) ==> i < e <= p@.len() && all_digits(p@.subrange(i as int, e - 1)),
{
    proof {
        crate::text::lemma_run_end_digits(p@, i as int);
    }
    let e = digit_run_end_exec(p, i);
    if e > i && e < p.len() && p[e] == t {
        Some(e + 1)
    } else {
        None
    }
}

/// Reads the numbered header at the start of `p`.
pub fn numbered_header_exec(p: &[u8]) -> (r: Option<Header>)
    ensures
        r == numbered_header(p@),
{
    if !(p.len() >= 2 && p[0] == 49 && p[1] == 44) {
        return None;
    }
    let a = match digit_field_end_exec(p, 2, 44) {
        Some(a) => a,
        None => return None,
    };
    let b = match digit_field_end_exec(p, a, 44) {
        Some(b) => b,
        None => return None,
    };
    let c = match digit_field_end_exec(p, b, 58) {
        Some(c) => c,
        None => return None,
    };
    let id = match parse_digits(p, 2, a - 1) {
        Some(v) => v,
        None => return None,
    };
    let bytes = match parse_digits(p, b, c - 1) {
        Some(v) => v,
        None => return None,
    };
    Some(Header { id, bytes })
}

/// Whether the single-message marker starts at `i`.
fn marker_at_exec(p: &[u8], i: usize) -> (r: bool)
    requires
        i + 11 <= p@.len(),
    ensures
        r == marker_at(p@, i as int),
{
    let ok = p[i] == 48 && p[i + 1] == 65 && p[i + 2] == 84 && p[i + 3] == 72 && p[i + 4] == 66
        && p[i + 5] == 48 && p[i + 6] == 50 && 48 <= p[i + 7] && p[i + 7] <= 57 && 48 <= p[i + 8]
        && p[i + 8] <= 57 && 48 <= p[i + 9] && p[i + 9] <= 57 && p[i + 10] == 13;
    proof {
        let t = p@.subrange(i as int, i + 7);
        let d = p@.subrange(i + 7, i + 10);
        assert(t[0] == p@[i as int] && t[1] == p@[i + 1] && t[2] == p@[i + 2] && t[3] == p@[i + 3]);
        assert(t[4] == p@[i + 4] && t[5] == p@[i + 5] && t[6] == p@[i + 6]);
        assert(d[0] == p@[i + 7] && d[1] == p@[i + 8] && d[2] == p@[i + 9]);
        if ok {
            assert(t =~= marker_tag());
        }
        if marker_at(p@, i as int) {
            assert(t[0] == marker_tag()[0] && t[1] == marker_tag()[1] && t[2] == marker_tag()[2]);
            assert(t[3] == marker_tag()[3] && t[4] == marker_tag()[4] && t[5] == marker_tag()[5]);
            assert(t[6] == marker_tag()[6]);
            assert(crate::text::is_digit(d[0]) && crate::text::is_digit(d[1]) && crate::text::is_digit(d[2]));
        }
    }
    ok
}

/// Whether the single-message marker occurs anywhere in `p`.
pub fn has_marker_exec(p: &[u8]) -> (r: bool)
    ensures
        r == has_marker(p@),
{
    if p.len() < 11 {
        return false;
    }
    let mut i: usize = 0;
    while i <= p.len() - 11
        invariant
            forall|k: int| 0 <= k < i ==> !marker_at(p@, k),
            p@.len() >= 11,
            i <= p@.len() - 10,
        decreases p@.len() - i,
    {
        if marker_at_exec(p, i) {
            return true;
        }
        i = i + 1;
    }
    proof {
        assert forall|k: int| !marker_at(p@, k) by {
            if 0 <= k && k < i {
            } else {
            }
        }
    }
    false
}

/// Decides how a message may start a Format-Two record.
pub fn start_header_exec(p: &[u8]) -> (r: Option<Option<Header>>)
    ensures
        r == start_header(p@),
{
    match numbered_header_exec(p) {
        Some(h) => Some(Some(h)),
        None => if has_marker_exec(p) {
            Some(None)
        } else {
            None
        },
    }
}

/// Reads the group id of a continuation header.
pub fn secondary_id_exec(p: &[u8]) -> (r: Option<u64>)
    ensures
        r == secondary_id(p@),
{
    if !(p.len() >= 2 && p[0] == 49 && p[1] == 44) {
        return None;
    }
    let a = match digit_field_end_exec(p, 2, 44) {
        Some(a) => a,
        None => return None,
    };
    let b = match digit_field_end_exec(p, a, 58) {
        Some(b) => b,
        None => return None,
    };
    parse_digits(p, 2, a - 1)
}

} // verus!
