//! Heartbeats from a whole message store: grouped by device, reassembled per
//! device, and merged in time order.
use vstd::prelude::*;

use crate::builder::extracted;
use crate::heartbeat::{extract_heartbeats, heartbeat_views, heartbeats_of, Heartbeat, HeartbeatView};
use crate::message::RawMessage;
use crate::order::{lemma_sort_map, sort_by_key, sort_by_time, Timed};
use crate::{Error, Failure};

verus! {

impl Timed for RawMessage {
    open spec fn time_of(&self) -> int {
        self.time_of_session as int
    }

    fn time(&self) -> (r: i64) {
        self.time_of_session
    }
}

impl Timed for Heartbeat {
    open spec fn time_of(&self) -> int {
        self.start_time as int
    }

    fn time(&self) -> (r: i64) {
        self.start_time
    }
}

/// `s` with repeats taken out, each kept where it first appears.
pub open spec fn distinct_of(s: Seq<Seq<char>>) -> Seq<Seq<char>>
    decreases s.len(),
{
    if s.len() == 0 {
        s
    } else {
        let d = distinct_of(s.drop_last());
        if d.contains(s.last()) {
            d
        } else {
            d.push(s.last())
        }
    }
}

pub open spec fn no_repeats(s: Seq<Seq<char>>) -> bool {
    forall|i: int, j: int| 0 <= i < j < s.len() ==> s[i] != s[j]
}

/// The device of each message.
pub open spec fn imeis_of(ms: Seq<RawMessage>) -> Seq<Seq<char>> {
    ms.map_values(|m: RawMessage| m.imei@)
}

/// The devices of the messages, each once, in order of first appearance.
pub open spec fn devices_of(ms: Seq<RawMessage>) -> Seq<Seq<char>> {
    distinct_of(imeis_of(ms))
}

/// Whether a message comes from device `d`.
pub open spec fn from_device(d: Seq<char>) -> spec_fn(RawMessage) -> bool {
    |m: RawMessage| m.imei@ == d
}

/// Whether a message comes from another device than `d`.
pub open spec fn not_from_device(d: Seq<char>) -> spec_fn(RawMessage) -> bool {
    |m: RawMessage| m.imei@ != d
}

/// Whether a message comes from none of the devices `ds`.
pub open spec fn from_none_of(ds: Seq<Seq<char>>) -> spec_fn(RawMessage) -> bool {
    |m: RawMessage| !ds.contains(m.imei@)
}

/// Whether both predicates hold.
pub open spec fn both(p: spec_fn(RawMessage) -> bool, q: spec_fn(RawMessage) -> bool) -> spec_fn(
    RawMessage,
) -> bool {
    |m: RawMessage| p(m) && q(m)
}

pub open spec fn string_views(s: Seq<String>) -> Seq<Seq<char>> {
    s.map_values(|x: String| x@)
}

/// The messages of device `d`, in order.
pub open spec fn device_messages(ms: Seq<RawMessage>, d: Seq<char>) -> Seq<RawMessage> {
    ms.filter(from_device(d))
}

/// The key that orders messages.
pub open spec fn session_key() -> spec_fn(RawMessage) -> int {
    |m: RawMessage| m.time_of_session as int
}

/// The heartbeats of device `d`: its messages sorted by session time and
/// extracted.
pub open spec fn device_heartbeats(ms: Seq<RawMessage>, d: Seq<char>) -> Result<
    Seq<HeartbeatView>,
    Failure,
> {
    heartbeats_of(extracted(sort_by_key(device_messages(ms, d), session_key())).done)
}

/// The heartbeats of the devices `ds`, device after device, or the first failure.
pub open spec fn collect(ms: Seq<RawMessage>, ds: Seq<Seq<char>>) -> Result<
    Seq<HeartbeatView>,
    Failure,
>
    decreases ds.len(),
{
    if ds.len() == 0 {
        Ok(Seq::empty())
    } else {
        match collect(ms, ds.drop_last()) {
            Err(f) => Err(f),
            Ok(hs) => match device_heartbeats(ms, ds.last()) {
                Err(f) => Err(f),
                Ok(more) => Ok(hs + more),
            },
        }
    }
}

/// The devices that a source reads: those of the allow-list, or, where it is
/// empty, all those in the store.
pub open spec fn source_devices(ms: Seq<RawMessage>, allowed: Seq<Seq<char>>) -> Seq<Seq<char>> {
    if allowed.len() == 0 {
        devices_of(ms)
    } else {
        distinct_of(allowed)
    }
}

/// All heartbeats of the devices read, sorted by start time (ties keep their
/// order), or the first failure.
pub open spec fn source_heartbeats(ms: Seq<RawMessage>, allowed: Seq<Seq<char>>) -> Result<
    Seq<HeartbeatView>,
    Failure,
> {
    match collect(ms, source_devices(ms, allowed)) {
        Ok(hs) => Ok(sort_by_key(hs, |h: HeartbeatView| h.start_time as int)),
        Err(f) => Err(f),
    }
}

pub proof fn lemma_contains_push(s: Seq<Seq<char>>, a: Seq<char>, x: Seq<char>)
    ensures
        s.push(a).contains(x) <==> (s.contains(x) || x == a),
{
    if s.push(a).contains(x) {
        let i = choose|i: int| 0 <= i < s.push(a).len() && s.push(a)[i] == x;
        if i < s.len() {
            assert(s[i] == x);
        }
    }
    if s.contains(x) {
        let i = choose|i: int| 0 <= i < s.len() && s[i] == x;
        assert(s.push(a)[i] == x);
    }
    if x == a {
        assert(s.push(a)[s.len() as int] == x);
    }
}

pub proof fn lemma_distinct(s: Seq<Seq<char>>)
    ensures
        no_repeats(distinct_of(s)),
        forall|x: Seq<char>| distinct_of(s).contains(x) <==> s.contains(x),
    decreases s.len(),
{
    if s.len() > 0 {
        let p = s.drop_last();
        lemma_distinct(p);
        let d = distinct_of(p);
        assert(p.push(s.last()) =~= s);
        assert forall|x: Seq<char>| distinct_of(s).contains(x) <==> s.contains(x) by {
            lemma_contains_push(p, s.last(), x);
            lemma_contains_push(d, s.last(), x);
        }
        if !d.contains(s.last()) {
            let e = d.push(s.last());
            assert forall|i: int, j: int| 0 <= i < j < e.len() implies e[i] != e[j] by {
                if j == d.len() {
                    assert(e[i] == d[i]);
                    if d[i] == s.last() {
                        assert(d.contains(s.last()));
                    }
                }
            }
        }
    }
}

/// Splits off the messages of one device, both parts in their order.
fn take_device(ms: Vec<RawMessage>, d: &String) -> (r: (Vec<RawMessage>, Vec<RawMessage>))
    ensures
        r.0@ == ms@.filter(from_device(d@)),
        r.1@ == ms@.filter(not_from_device(d@)),
{
    let ghost orig = ms@;
    let ghost n = ms@.len();
    let ghost is_d = from_device(d@);
    let ghost not_d = not_from_device(d@);
    let mut input = ms;
    let mut queue: Vec<RawMessage> = Vec::new();
    while input.len() > 0
        invariant
            n == orig.len(),
            input@.len() + queue@.len() == n,
            input@ == orig.take(input@.len() as int),
            forall|j: int| 0 <= j < queue@.len() ==> #[trigger] queue@[j] == orig[n - 1 - j],
        decreases input@.len(),
    {
        let ghost k = input@.len();
        let x = input.pop().unwrap();
        proof {
            assert(orig.take(k as int).drop_last() =~= orig.take(k - 1));
        }
        queue.push(x);
    }
    let mut group: Vec<RawMessage> = Vec::new();
    let mut rest: Vec<RawMessage> = Vec::new();
    proof {
        reveal(Seq::filter);
        assert(orig.take(0) =~= Seq::<RawMessage>::empty());
    }
    while queue.len() > 0
        invariant
            n == orig.len(),
            queue@.len() <= n,
            forall|j: int| 0 <= j < queue@.len() ==> #[trigger] queue@[j] == orig[n - 1 - j],
            group@ == orig.take(n - queue@.len()).filter(is_d),
            rest@ == orig.take(n - queue@.len()).filter(not_d),
            is_d == from_device(d@),
            not_d == not_from_device(d@),
        decreases queue@.len(),
    {
        let ghost t = n - queue@.len();
        let x = queue.pop().unwrap();
        proof {
            reveal(Seq::filter);
            assert(orig.take(t + 1).drop_last() =~= orig.take(t));
            assert(orig.take(t + 1).last() == x);
        }
        if x.imei == *d {
            group.push(x);
        } else {
            rest.push(x);
        }
    }
    proof {
        assert(orig.take(n as int) =~= orig);
    }
    (group, rest)
}

/// Filtering the messages of other devices first changes nothing for `d`.
pub proof fn lemma_filter_other(ms: Seq<RawMessage>, keep: spec_fn(RawMessage) -> bool, d: Seq<char>)
    requires
        forall|m: RawMessage| m.imei@ == d ==> #[trigger] keep(m),
    ensures
        ms.filter(keep).filter(from_device(d)) == ms.filter(from_device(d)),
    decreases ms.len(),
{
    reveal(Seq::filter);
    if ms.len() > 0 {
        lemma_filter_other(ms.drop_last(), keep, d);
        let m = ms.last();
        if keep(m) {
            assert(ms.filter(keep) == ms.drop_last().filter(keep).push(m));
            assert(ms.filter(keep).drop_last() =~= ms.drop_last().filter(keep));
        } else {
            assert(!from_device(d)(m));
        }
    } else {
        assert(ms.filter(keep).filter(from_device(d)) =~= ms.filter(from_device(d)));
    }
}

/// Filters compose.
pub proof fn lemma_filter_both(ms: Seq<RawMessage>, p: spec_fn(RawMessage) -> bool, q: spec_fn(RawMessage) -> bool)
    ensures
        ms.filter(p).filter(q) == ms.filter(both(p, q)),
    decreases ms.len(),
{
    reveal(Seq::filter);
    if ms.len() > 0 {
        lemma_filter_both(ms.drop_last(), p, q);
        let m = ms.last();
        if p(m) {
            assert(ms.filter(p).drop_last() =~= ms.drop_last().filter(p));
        }
    } else {
        assert(ms.filter(p).filter(q) =~= ms.filter(both(p, q)));
    }
}

/// Collects each string once, in order of first appearance.
fn distinct_strings(s: &Vec<String>) -> (r: Vec<String>)
    ensures
        string_views(r@) == distinct_of(string_views(s@)),
{
    let mut out: Vec<String> = Vec::new();
    let mut k: usize = 0;
    proof {
        assert(string_views(s@).take(0) =~= Seq::<Seq<char>>::empty());
        assert(string_views(out@) =~= Seq::<Seq<char>>::empty());
    }
    while k < s.len()
        invariant
            k <= s@.len(),
            string_views(out@) == distinct_of(string_views(s@).take(k as int)),
        decreases s@.len() - k,
    {
        let ghost sv = string_views(s@);
        proof {
            assert(sv.take(k + 1).drop_last() =~= sv.take(k as int));
            assert(sv.take(k + 1).last() == s@[k as int]@);
        }
        let mut found = false;
        let mut j: usize = 0;
        while j < out.len()
            invariant
                j <= out@.len(),
                found == (exists|i: int| 0 <= i < j && out@[i]@ == s@[k as int]@),
                k < s@.len(),
            decreases out@.len() - j,
        {
            if out[j] == s[k] {
                found = true;
            }
            j = j + 1;
        }
        proof {
            let d = string_views(out@);
            if found {
                let i = choose|i: int| 0 <= i < out@.len() && out@[i]@ == s@[k as int]@;
                assert(d[i] == s@[k as int]@);
            } else {
                assert(!d.contains(s@[k as int]@)) by {
                    if d.contains(s@[k as int]@) {
                        let i = choose|i: int| 0 <= i < d.len() && d[i] == s@[k as int]@;
                        assert(out@[i]@ == s@[k as int]@);
                    }
                }
            }
        }
        if !found {
            let c = s[k].clone();
            proof {
                assert(string_views(out@.push(c)) =~= string_views(out@).push(c@));
            }
            out.push(c);
        }
        k = k + 1;
    }
    proof {
        assert(string_views(s@).take(s@.len() as int) =~= string_views(s@));
    }
    out
}

/// Reads heartbeats from a message store.
#[derive(Debug)]
pub struct Source {
    whitelist: Vec<String>,
}

impl Source {
    /// Creates a source with an empty allow-list: every device is read.
    pub fn new() -> (r: Source)
        ensures
            r.allowed() == Seq::<Seq<char>>::empty(),
    {
        let r = Source { whitelist: Vec::new() };
        assert(string_views(r.whitelist@) =~= Seq::<Seq<char>>::empty());
        r
    }

    /// The devices of the allow-list, in the order they were added.
    pub closed spec fn allowed(&self) -> Seq<Seq<char>> {
        string_views(self.whitelist@)
    }

    /// Adds a device to the allow-list.
    pub fn whitelist(&mut self, imei: &str)
        ensures
            final(self).allowed() == old(self).allowed().push(imei@),
    {
        let s = imei.to_owned();
        proof {
            assert(string_views(self.whitelist@.push(s)) =~= string_views(self.whitelist@).push(s@));
        }
        self.whitelist.push(s);
    }

    /// Returns the heartbeats of the messages `messages` of the store.
    ///
    /// With an empty allow-list every device is read, in order of first
    /// appearance; otherwise only the allowed devices, in allow-list order. Each
    /// device's messages are sorted by session time and extracted, and all
    /// heartbeats are then sorted by start time. The first record that fails to
    /// read fails the whole call.
    pub fn heartbeats(&self, messages: Vec<RawMessage>) -> (r: Result<Vec<Heartbeat>, Error>)
        ensures
            match source_heartbeats(messages@, self.allowed()) {
                Ok(hs) => r matches Ok(v) && heartbeat_views(v@) == hs,
                Err(f) => r matches Err(e) && e@ == f,
            },
    {
        let ghost orig = messages@;
        let devices = if self.whitelist.len() == 0 {
            let mut imeis: Vec<String> = Vec::new();
            let mut k: usize = 0;
            while k < messages.len()
                invariant
                    k <= messages@.len(),
                    string_views(imeis@) == imeis_of(messages@.take(k as int)),
                decreases messages@.len() - k,
            {
                let c = messages[k].imei.clone();
                proof {
                    assert(c@ == messages@[k as int].imei@);
                    assert(messages@.take(k + 1).drop_last() =~= messages@.take(k as int));
                    assert(string_views(imeis@.push(c)) =~= string_views(imeis@).push(c@));
                    assert(imeis_of(messages@.take(k + 1)) =~= imeis_of(messages@.take(k as int)).push(
                        messages@[k as int].imei@,
                    ));
                }
                imeis.push(c);
                k = k + 1;
            }
            proof {
                assert(messages@.take(messages@.len() as int) =~= messages@);
            }
            distinct_strings(&imeis)
        } else {
            distinct_strings(&self.whitelist)
        };
        let ghost ds = string_views(devices@);
        proof {
            lemma_distinct(if self.whitelist@.len() == 0 {
                imeis_of(orig)
            } else {
                string_views(self.whitelist@)
            });
            assert(ds == source_devices(orig, self.allowed()));
            assert(ds.take(0) =~= Seq::<Seq<char>>::empty());
        }
        let mut rest = messages;
        let mut all: Vec<Heartbeat> = Vec::new();
        let mut k: usize = 0;
        proof {
            assert(heartbeat_views(all@) =~= Seq::<HeartbeatView>::empty());
            let none = from_none_of(ds.take(0));
            assert forall|m: RawMessage| #[trigger] none(m) by {
                assert(ds.take(0).len() == 0);
            }
            lemma_filter_all(orig, none);
        }
        while k < devices.len()
            invariant
                k <= devices@.len(),
                ds == string_views(devices@),
                ds == source_devices(orig, self.allowed()),
                orig == messages@,
                no_repeats(ds),
                collect(orig, ds.take(k as int)) == Ok::<Seq<HeartbeatView>, Failure>(
                    heartbeat_views(all@),
                ),
                rest@ == orig.filter(from_none_of(ds.take(k as int))),
            decreases devices@.len() - k,
        {
            let ghost before = rest@;
            let ghost d = ds[k as int];
            let (group, others) = take_device(rest, &devices[k]);
            proof {
                assert(ds.take(k + 1).drop_last() =~= ds.take(k as int));
                assert(ds.take(k + 1).last() == d);
                let dk = ds.take(k as int);
                let dk1 = ds.take(k + 1);
                let keep = from_none_of(dk);
                assert forall|m: RawMessage| m.imei@ == d implies #[trigger] keep(m) by {
                    if dk.contains(m.imei@) {
                        let i = choose|i: int| 0 <= i < dk.len() && dk[i] == m.imei@;
                        assert(ds[i] == ds[k as int]);
                    }
                }
                lemma_filter_other(orig, keep, d);
                assert(devices@[k as int]@ == d);
                assert(group@ == device_messages(orig, d));
                lemma_filter_both(orig, keep, not_from_device(d));
                assert forall|m: RawMessage|
                    #[trigger] both(keep, not_from_device(d))(m) == from_none_of(dk1)(m) by {
                    if dk1.contains(m.imei@) {
                        let i = choose|i: int| 0 <= i < dk1.len() && dk1[i] == m.imei@;
                        if i < k {
                            assert(dk[i] == m.imei@);
                        }
                    }
                    if dk.contains(m.imei@) {
                        let i = choose|i: int| 0 <= i < dk.len() && dk[i] == m.imei@;
                        assert(dk1[i] == m.imei@);
                    }
                    if m.imei@ == d {
                        assert(dk1[k as int] == m.imei@);
                    }
                }
                assert(both(keep, not_from_device(d)) =~= from_none_of(dk1));
            }
            rest = others;
            let mut sorted = sort_by_time(group);
            proof {
                assert((|t: RawMessage| t.time_of()) =~= session_key());
            }
            match extract_heartbeats(&mut sorted) {
                Ok(mut hs) => {
                    proof {
                        assert(heartbeat_views(all@ + hs@) =~= heartbeat_views(all@) + heartbeat_views(hs@));
                    }
                    all.append(&mut hs);
                },
                Err(e) => {
                    proof {
                        assert(device_heartbeats(orig, d) == Err::<Seq<HeartbeatView>, Failure>(e@));
                        assert(collect(orig, ds.take(k + 1)) == Err::<Seq<HeartbeatView>, Failure>(e@));
                        lemma_collect_failure(orig, ds, k as int + 1);
                        assert(collect(orig, ds) == Err::<Seq<HeartbeatView>, Failure>(e@));
                        assert(source_heartbeats(orig, self.allowed()) == Err::<
                            Seq<HeartbeatView>,
                            Failure,
                        >(e@));
                    }
                    return Err(e);
                },
            }
            k = k + 1;
        }
        proof {
            assert(ds.take(ds.len() as int) =~= ds);
            let hk = |h: Heartbeat| h.time_of();
            let vk = |v: HeartbeatView| v.start_time as int;
            lemma_sort_map(all@, |h: Heartbeat| h@, hk, vk);
        }
        let sorted = sort_by_time(all);
        proof {
            assert(heartbeat_views(sorted@) =~= sort_by_key(all@, |h: Heartbeat| h.time_of()).map_values(|h: Heartbeat| h@));
        }
        Ok(sorted)
    }
}

/// Filtering with a predicate that holds of every message keeps them all.
pub proof fn lemma_filter_all(ms: Seq<RawMessage>, p: spec_fn(RawMessage) -> bool)
    requires
        forall|m: RawMessage| #[trigger] p(m),
    ensures
        ms.filter(p) == ms,
    decreases ms.len(),
{
    reveal(Seq::filter);
    if ms.len() > 0 {
        lemma_filter_all(ms.drop_last(), p);
        assert(ms.drop_last().push(ms.last()) =~= ms);
    } else {
        assert(ms.filter(p) =~= ms);
    }
}

/// A failure for one of the first devices is the failure of them all.
pub proof fn lemma_collect_failure(ms: Seq<RawMessage>, ds: Seq<Seq<char>>, k: int)
    requires
        0 <= k <= ds.len(),
        collect(ms, ds.take(k)) is Err,
    ensures
        collect(ms, ds) == collect(ms, ds.take(k)),
    decreases ds.len() - k,
{
    if k < ds.len() {
        assert(ds.take(k + 1).drop_last() =~= ds.take(k));
        lemma_collect_failure(ms, ds, k + 1);
    } else {
        assert(ds.take(k) =~= ds);
    }
}

} // verus!
