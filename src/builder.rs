//! The reassembly state machine: builders and the extraction driver.
use vstd::prelude::*;

use crate::message::{
    after_header, start_header, start_header_exec, secondary_id, secondary_id_exec, Header,
    RawMessage,
};
use crate::text::{count_byte, count_of, index_of_exec, starts_with};
use crate::Error;

verus! {

/// The number of comma-separated fields of a Format-One heartbeat.
pub const FORMAT_ONE_FIELDS: usize = 49;

/// Which wire format a builder accumulates.
#[derive(Clone, Copy, Debug, PartialEq, Eq)]
pub enum Format {
    /// The first format: no framing, a record starts with `0,`.
    One,
    /// The second format, with the record's header, or none for a record that
    /// one message holds whole.
    Two(Option<Header>),
}

/// What a builder holds: its format and its messages, in arrival order.
pub struct BuilderView {
    pub format: Format,
    pub messages: Seq<RawMessage>,
}

/// An in-progress heartbeat: the messages gathered so far for one record.
#[derive(Debug)]
pub struct Builder {
    format: Format,
    messages: Vec<RawMessage>,
}

/// The concatenated payloads of `ms`.
pub open spec fn payloads(ms: Seq<RawMessage>) -> Seq<u8>
    decreases ms.len(),
{
    if ms.len() == 0 {
        Seq::empty()
    } else {
        payloads(ms.drop_last()) + ms.last().payload@
    }
}

/// The number of comma-separated fields of the concatenated payloads.
pub open spec fn field_count(ms: Seq<RawMessage>) -> nat {
    count_of(payloads(ms), 44) + 1
}

/// The part of a payload that a Format-Two record's body holds.
pub open spec fn body_piece(f: Format, p: Seq<u8>) -> Seq<u8> {
    match f {
        Format::Two(Some(_)) => after_header(p),
        _ => if p.len() > 0 {
            p.subrange(1, p.len() as int)
        } else {
            Seq::empty()
        },
    }
}

/// A Format-Two body: each message with its header stripped, concatenated.
pub open spec fn body_of(f: Format, ms: Seq<RawMessage>) -> Seq<u8>
    decreases ms.len(),
{
    if ms.len() == 0 {
        Seq::empty()
    } else {
        body_of(f, ms.drop_last()) + body_piece(f, ms.last().payload@)
    }
}

/// `0,` in bytes.
pub open spec fn format_one_prefix() -> Seq<u8> {
    seq![48u8, 44]
}

/// Whether a builder holds a record that could be turned into a heartbeat.
pub open spec fn is_full(b: BuilderView) -> bool {
    match b.format {
        Format::One => field_count(b.messages) == FORMAT_ONE_FIELDS,
        Format::Two(None) => true,
        Format::Two(Some(h)) => body_of(b.format, b.messages).len() == h.bytes,
    }
}

/// The builder that a message starts, trying Format Two first, then Format One.
pub open spec fn start_of(m: RawMessage) -> Option<BuilderView> {
    match start_header(m.payload@) {
        Some(h) => Some(BuilderView { format: Format::Two(h), messages: seq![m] }),
        None => if starts_with(m.payload@, format_one_prefix()) {
            Some(BuilderView { format: Format::One, messages: seq![m] })
        } else {
            None
        },
    }
}

/// The builder after it accepts `m`, or `None` where it rejects it.
pub open spec fn pushed(b: BuilderView, m: RawMessage) -> Option<BuilderView> {
    let next = BuilderView { format: b.format, messages: b.messages.push(m) };
    match b.format {
        Format::One => if field_count(next.messages) <= FORMAT_ONE_FIELDS {
            Some(next)
        } else {
            None
        },
        Format::Two(header) => if is_full(b) {
            None
        } else {
            match (header, secondary_id(m.payload@)) {
                (Some(h), Some(id)) => if h.id == id {
                    Some(next)
                } else {
                    None
                },
                _ => None,
            }
        },
    }
}

pub proof fn lemma_count_concat(a: Seq<u8>, b: Seq<u8>, x: u8)
    ensures
        count_of(a + b, x) == count_of(a, x) + count_of(b, x),
    decreases b.len(),
{
    if b.len() > 0 {
        lemma_count_concat(a, b.drop_last(), x);
        assert((a + b).drop_last() =~= a + b.drop_last());
    } else {
        assert(a + b =~= a);
    }
}

impl View for Builder {
    type V = BuilderView;

    closed spec fn view(&self) -> BuilderView {
        BuilderView { format: self.format, messages: self.messages@ }
    }
}

/// Counts the commas of the payloads of `ms`, giving up past `limit`.
fn commas_up_to(ms: &Vec<RawMessage>, limit: usize) -> (r: Option<usize>)
    ensures
        r matches Some(n) ==> n == count_of(payloads(ms@), 44) && n <= limit,
        r is None ==> count_of(payloads(ms@), 44) > limit,
{
    let mut n: usize = 0;
    let mut k: usize = 0;
    while k < ms.len()
        invariant
            k <= ms@.len(),
            n == count_of(payloads(ms@.take(k as int)), 44),
            n <= limit,
        decreases ms@.len() - k,
    {
        let c = count_byte(ms[k].payload.as_slice(), 44);
        proof {
            assert(ms@.take(k + 1).drop_last() =~= ms@.take(k as int));
            lemma_count_concat(payloads(ms@.take(k as int)), ms@[k as int].payload@, 44);
        }
        if c > limit - n {
            proof {
                lemma_count_prefix(ms@, k as int + 1);
            }
            return None;
        }
        n = n + c;
        k = k + 1;
    }
    assert(ms@.take(ms@.len() as int) =~= ms@);
    Some(n)
}

/// Counting commas over more messages never gives fewer.
pub proof fn lemma_count_prefix(ms: Seq<RawMessage>, k: int)
    requires
        0 <= k <= ms.len(),
    ensures
        count_of(payloads(ms.take(k)), 44) <= count_of(payloads(ms), 44),
    decreases ms.len() - k,
{
    if k < ms.len() {
        lemma_count_prefix(ms, k + 1);
        assert(ms.take(k + 1).drop_last() =~= ms.take(k));
        lemma_count_concat(payloads(ms.take(k)), ms[k].payload@, 44);
    } else {
        assert(ms.take(k) =~= ms);
    }
}

/// The length of the body piece of one payload.
fn body_piece_len(f: Format, p: &[u8]) -> (r: usize)
    ensures
        r == body_piece(f, p@).len(),
{
    match f {
        Format::Two(Some(_)) => {
            let c = index_of_exec(p, 58, 0);
            if c < p.len() {
                p.len() - c - 1
            } else {
                0
            }
        },
        _ => if p.len() > 0 {
            p.len() - 1
        } else {
            0
        },
    }
}

/// Measures the body of `ms`, giving up past `limit`.
fn body_len_up_to(f: Format, ms: &Vec<RawMessage>, limit: u64) -> (r: Option<u64>)
    ensures
        r matches Some(n) ==> n == body_of(f, ms@).len() && n <= limit,
        r is None ==> body_of(f, ms@).len() > limit,
{
    let mut n: u64 = 0;
    let mut k: usize = 0;
    while k < ms.len()
        invariant
            k <= ms@.len(),
            n == body_of(f, ms@.take(k as int)).len(),
            n <= limit,
        decreases ms@.len() - k,
    {
        let c = body_piece_len(f, ms[k].payload.as_slice());
        proof {
            assert(ms@.take(k + 1).drop_last() =~= ms@.take(k as int));
        }
        if c as u64 > limit - n {
            proof {
                lemma_body_prefix(f, ms@, k as int + 1);
            }
            return None;
        }
        n = n + c as u64;
        k = k + 1;
    }
    assert(ms@.take(ms@.len() as int) =~= ms@);
    Some(n)
}

/// A body over more messages is never shorter.
pub proof fn lemma_body_prefix(f: Format, ms: Seq<RawMessage>, k: int)
    requires
        0 <= k <= ms.len(),
    ensures
        body_of(f, ms.take(k)).len() <= body_of(f, ms).len(),
    decreases ms.len() - k,
{
    if k < ms.len() {
        lemma_body_prefix(f, ms, k + 1);
        assert(ms.take(k + 1).drop_last() =~= ms.take(k));
    } else {
        assert(ms.take(k) =~= ms);
    }
}

pub(crate) fn starts_format_one(p: &[u8]) -> (r: bool)
    ensures
        r == starts_with(p@, format_one_prefix()),
{
    let r = p.len() >= 2 && p[0] == 48 && p[1] == 44;
    proof {
        if p@.len() >= 2 {
            let s = p@.subrange(0, 2);
            assert(s[0] == p@[0] && s[1] == p@[1]);
            if r {
                assert(s =~= format_one_prefix());
            }
            if starts_with(p@, format_one_prefix()) {
                assert(s[0] == format_one_prefix()[0] && s[1] == format_one_prefix()[1]);
            }
        }
    }
    r
}

/// Creates a builder from a message that starts a record.
///
/// Tries Format Two first, then Format One. A message that starts neither is
/// handed back in `Error::RejectedMessage`, unchanged.
pub fn create_builder(message: RawMessage) -> (r: Result<Builder, Error>)
    ensures
        match start_of(message) {
            Some(b) => r matches Ok(x) && x@ == b && x.wf(),
            None => r == Err::<Builder, Error>(Error::RejectedMessage(message)),
        },
{
    match start_header_exec(message.payload.as_slice()) {
        Some(h) => {
            let messages = vec![message];
            proof {
                assert(messages@ =~= seq![message]);
            }
            Ok(Builder { format: Format::Two(h), messages })
        },
        None => if starts_format_one(message.payload.as_slice()) {
            let messages = vec![message];
            proof {
                assert(messages@ =~= seq![message]);
            }
            Ok(Builder { format: Format::One, messages })
        } else {
            Err(Error::RejectedMessage(message))
        },
    }
}

impl Builder {
    /// A builder always holds at least one message.
    pub closed spec fn wf(&self) -> bool {
        self.messages@.len() > 0
    }

    pub proof fn lemma_wf(&self)
        requires
            self.wf(),
        ensures
            self@.messages.len() > 0,
    {
    }

    /// The builder's format.
    pub fn format(&self) -> (r: Format)
        ensures
            r == self@.format,
    {
        self.format
    }

    /// The builder's messages, in arrival order.
    pub fn messages(&self) -> (r: &Vec<RawMessage>)
        ensures
            r@ == self@.messages,
    {
        &self.messages
    }

    /// Consumes this builder and returns its messages.
    pub fn into_messages(self) -> (r: Vec<RawMessage>)
        ensures
            r@ == self@.messages,
    {
        self.messages
    }

    /// Returns true if this builder holds a record that could become a heartbeat.
    ///
    /// A full Format-One builder may still take a message: its last field could
    /// have been cut by a message split and go on in the next one.
    pub fn full(&self) -> (r: bool)
        ensures
            r == is_full(self@),
    {
        match self.format {
            Format::One => match commas_up_to(&self.messages, FORMAT_ONE_FIELDS - 1) {
                Some(n) => n == FORMAT_ONE_FIELDS - 1,
                None => false,
            },
            Format::Two(None) => true,
            Format::Two(Some(h)) => match body_len_up_to(self.format, &self.messages, h.bytes) {
                Some(n) => n == h.bytes,
                None => false,
            },
        }
    }

    /// Pushes a message into the builder. A message that does not belong is
    /// handed back in `Error::RejectedMessage`, and the builder is unchanged.
    pub fn push(&mut self, message: RawMessage) -> (r: Result<(), Error>)
        requires
            old(self).wf(),
        ensures
            final(self).wf(),
            match pushed(old(self)@, message) {
                Some(b) => r is Ok && final(self)@ == b,
                None => r == Err::<(), Error>(Error::RejectedMessage(message)) && final(self)@
                    == old(self)@,
            },
    {
        match self.format {
            Format::One => {
                let extra = count_byte(message.payload.as_slice(), 44);
                let fits = match commas_up_to(&self.messages, FORMAT_ONE_FIELDS - 1) {
                    Some(n) => extra <= FORMAT_ONE_FIELDS - 1 - n,
                    None => false,
                };
                proof {
                    let next = self.messages@.push(message);
                    assert(next.drop_last() =~= self.messages@);
                    lemma_count_concat(payloads(self.messages@), message.payload@, 44);
                }
                if fits {
                    self.messages.push(message);
                    Ok(())
                } else {
                    Err(Error::RejectedMessage(message))
                }
            },
            Format::Two(header) => {
                if self.full() {
                    return Err(Error::RejectedMessage(message));
                }
                match (header, secondary_id_exec(message.payload.as_slice())) {
                    (Some(h), Some(id)) => if h.id == id {
                        self.messages.push(message);
                        Ok(())
                    } else {
                        Err(Error::RejectedMessage(message))
                    },
                    _ => Err(Error::RejectedMessage(message)),
                }
            },
        }
    }
}

/// The driver's state: completed builders, the builder in the slot, and the
/// messages left over so far.
pub struct Extraction {
    pub done: Seq<BuilderView>,
    pub current: Option<BuilderView>,
    pub left: Seq<RawMessage>,
}

/// The messages of the builder in the slot, if any.
pub open spec fn slot_messages(st: Extraction) -> Seq<RawMessage> {
    match st.current {
        Some(c) => c.messages,
        None => Seq::empty(),
    }
}

/// The state with the slot emptied: a full builder is completed, another one
/// is abandoned and its messages left over.
pub open spec fn release_slot(st: Extraction) -> Extraction {
    match st.current {
        Some(c) => if is_full(c) {
            Extraction { done: st.done.push(c), current: None, left: st.left }
        } else {
            Extraction { done: st.done, current: None, left: st.left + c.messages }
        },
        None => st,
    }
}

/// One message through the driver.
pub open spec fn extract_step(st: Extraction, m: RawMessage) -> Extraction {
    match start_of(m) {
        Some(b) => {
            let r = release_slot(st);
            Extraction { done: r.done, current: Some(b), left: r.left }
        },
        None => match st.current {
            Some(c) => match pushed(c, m) {
                Some(c2) => Extraction { done: st.done, current: Some(c2), left: st.left },
                None => {
                    let r = release_slot(st);
                    Extraction { done: r.done, current: None, left: r.left.push(m) }
                },
            },
            None => Extraction { done: st.done, current: None, left: st.left.push(m) },
        },
    }
}

/// The driver's state after the messages `ms`, in order.
pub open spec fn extract_fold(ms: Seq<RawMessage>) -> Extraction
    decreases ms.len(),
{
    if ms.len() == 0 {
        Extraction { done: Seq::empty(), current: None, left: Seq::empty() }
    } else {
        extract_step(extract_fold(ms.drop_last()), ms.last())
    }
}

/// What extraction makes of `ms`: completed builders (`done`) and leftovers
/// (`left`).
pub open spec fn extracted(ms: Seq<RawMessage>) -> Extraction {
    release_slot(extract_fold(ms))
}

pub open spec fn views(bs: Seq<Builder>) -> Seq<BuilderView> {
    bs.map_values(|b: Builder| b@)
}

pub open spec fn option_view(o: Option<Builder>) -> Option<BuilderView> {
    match o {
        Some(b) => Some(b@),
        None => None,
    }
}

fn release(done: &mut Vec<Builder>, current: Option<Builder>, left: &mut Vec<RawMessage>)
    requires
        forall|i: int| 0 <= i < old(done)@.len() ==> (#[trigger] old(done)@[i]).wf(),
        current matches Some(c) ==> c.wf(),
    ensures
        forall|i: int| 0 <= i < final(done)@.len() ==> (#[trigger] final(done)@[i]).wf(),
        ({
            let r = release_slot(
                Extraction {
                    done: views(old(done)@),
                    current: option_view(current),
                    left: old(left)@,
                },
            );
            views(final(done)@) == r.done && final(left)@ == r.left && r.current is None
        }),
{
    match current {
        Some(c) => {
            if c.full() {
                proof {
                    assert(views(done@.push(c)) =~= views(done@).push(c@));
                }
                done.push(c);
            } else {
                let mut ms = c.into_messages();
                left.append(&mut ms);
            }
        },
        None => {},
    }
}

/// Runs the messages through builders, in order.
///
/// Returns the completed builders. What no completed builder took is left in
/// `messages`, in the order it came in, for a later attempt.
pub fn extract_builders(messages: &mut Vec<RawMessage>) -> (builders: Vec<Builder>)
    ensures
        views(builders@) == extracted(old(messages)@).done,
        final(messages)@ == extracted(old(messages)@).left,
        forall|i: int| 0 <= i < builders@.len() ==> (#[trigger] builders@[i]).wf(),
{
    let mut input: Vec<RawMessage> = Vec::new();
    std::mem::swap(messages, &mut input);
    let ghost orig = input@;
    let ghost n = orig.len();
    let mut queue: Vec<RawMessage> = Vec::new();
    while input.len() > 0
        invariant
            n == orig.len(),
            input@.len() + queue@.len() == n,
            input@ == orig.take(input@.len() as int),
            forall|j: int| 0 <= j < queue@.len() ==> #[trigger] queue@[j] == orig[n - 1 - j],
        decreases input@.len(),
    {
        let ghost k = input@.len();
        let m = input.pop().unwrap();
        proof {
            assert(orig.take(k as int).drop_last() =~= orig.take(k - 1));
            assert(m == orig[k - 1]);
        }
        queue.push(m);
    }
    let mut done: Vec<Builder> = Vec::new();
    let mut current: Option<Builder> = None;
    let mut left: Vec<RawMessage> = Vec::new();
    proof {
        assert(orig.take(0) =~= Seq::<RawMessage>::empty());
        assert(views(done@) =~= Seq::<BuilderView>::empty());
    }
    while queue.len() > 0
        invariant
            n == orig.len(),
            queue@.len() <= n,
            forall|j: int| 0 <= j < queue@.len() ==> #[trigger] queue@[j] == orig[n - 1 - j],
            forall|i: int| 0 <= i < done@.len() ==> (#[trigger] done@[i]).wf(),
            current matches Some(c) ==> c.wf(),
            ({
                let st = extract_fold(orig.take(n - queue@.len()));
                views(done@) == st.done && option_view(current) == st.current && left@ == st.left
            }),
        decreases queue@.len(),
    {
        let ghost t = n - queue@.len();
        let m = queue.pop().unwrap();
        proof {
            assert(orig.take(t + 1).drop_last() =~= orig.take(t));
            assert(orig.take(t + 1).last() == m);
        }
        match create_builder(m) {
            Ok(b) => {
                release(&mut done, current, &mut left);
                current = Some(b);
            },
            Err(e) => match e {
                Error::RejectedMessage(m) => {
                    match current {
                        Some(mut c) => {
                            match c.push(m) {
                                Ok(()) => {
                                    current = Some(c);
                                },
                                Err(e2) => match e2 {
                                    Error::RejectedMessage(m) => {
                                        release(&mut done, Some(c), &mut left);
                                        left.push(m);
                                        current = None;
                                    },
                                    _ => {
                                        current = None;
                                    },
                                },
                            }
                        },
                        None => {
                            left.push(m);
                            current = None;
                        },
                    }
                },
                _ => {},
            },
        }
    }
    proof {
        assert(orig.take(n as int) =~= orig);
    }
    release(&mut done, current, &mut left);
    std::mem::swap(messages, &mut left);
    done
}

/// Whether `a` is `b` with some elements taken out, the rest kept in order.
pub open spec fn is_subsequence<A>(a: Seq<A>, b: Seq<A>) -> bool
    decreases b.len(),
{
    if b.len() == 0 {
        a.len() == 0
    } else if a.len() > 0 && a.last() == b.last() && is_subsequence(a.drop_last(), b.drop_last()) {
        true
    } else {
        is_subsequence(a, b.drop_last())
    }
}

pub proof fn lemma_subsequence_push<A>(a: Seq<A>, b: Seq<A>, x: A)
    requires
        is_subsequence(a, b),
    ensures
        is_subsequence(a.push(x), b.push(x)),
{
    assert(a.push(x).drop_last() =~= a);
    assert(b.push(x).drop_last() =~= b);
}

pub proof fn lemma_subsequence_drop_last<A>(a: Seq<A>, b: Seq<A>)
    requires
        is_subsequence(a, b),
        a.len() > 0,
    ensures
        is_subsequence(a.drop_last(), b),
    decreases b.len(),
{
    if b.len() > 0 {
        if a.last() == b.last() && is_subsequence(a.drop_last(), b.drop_last()) {
        } else {
            lemma_subsequence_drop_last(a, b.drop_last());
        }
    }
}

pub proof fn lemma_subsequence_prefix<A>(a: Seq<A>, c: Seq<A>, b: Seq<A>)
    requires
        is_subsequence(a + c, b),
    ensures
        is_subsequence(a, b),
    decreases c.len(),
{
    if c.len() == 0 {
        assert(a + c =~= a);
    } else {
        assert((a + c).drop_last() =~= a + c.drop_last());
        lemma_subsequence_drop_last(a + c, b);
        lemma_subsequence_prefix(a, c.drop_last(), b);
    }
}

/// The number of messages that the builders hold.
pub open spec fn message_total(bs: Seq<BuilderView>) -> nat
    decreases bs.len(),
{
    if bs.len() == 0 {
        0
    } else {
        message_total(bs.drop_last()) + bs.last().messages.len()
    }
}

pub open spec fn state_holds(st: Extraction, ms: Seq<RawMessage>) -> bool {
    &&& forall|i: int| 0 <= i < st.done.len() ==> (#[trigger] st.done[i]).messages.len() > 0
    &&& st.current matches Some(c) ==> c.messages.len() > 0
    &&& message_total(st.done) + slot_messages(st).len() + st.left.len() == ms.len()
    &&& st.done.len() == 0 ==> st.left + slot_messages(st) == ms
    &&& is_subsequence(st.left + slot_messages(st), ms)
}

proof fn lemma_release_holds(st: Extraction, ms: Seq<RawMessage>)
    requires
        state_holds(st, ms),
    ensures
        ({
            let r = release_slot(st);
            &&& forall|i: int| 0 <= i < r.done.len() ==> (#[trigger] r.done[i]).messages.len() > 0
            &&& message_total(r.done) + r.left.len() == ms.len()
            &&& r.done.len() == 0 ==> r.left == ms
            &&& is_subsequence(r.left, ms)
            &&& r.current is None
            &&& r.done.len() >= st.done.len()
        }),
{
    let r = release_slot(st);
    match st.current {
        Some(c) => {
            if is_full(c) {
                assert(r.done.drop_last() =~= st.done);
                assert(forall|i: int| 0 <= i < st.done.len() ==> r.done[i] == st.done[i]);
                lemma_subsequence_prefix(st.left, c.messages, ms);
            } else {
                assert(r.left + Seq::<RawMessage>::empty() =~= r.left);
            }
        },
        None => {
            assert(st.left + Seq::<RawMessage>::empty() =~= st.left);
        },
    }
}

/// The driver's state accounts for every message seen, in order.
pub proof fn lemma_fold_holds(ms: Seq<RawMessage>)
    ensures
        state_holds(extract_fold(ms), ms),
    decreases ms.len(),
{
    if ms.len() == 0 {
        let st = extract_fold(ms);
        assert(st.left + slot_messages(st) =~= ms);
    } else {
        let prev = ms.drop_last();
        let m = ms.last();
        lemma_fold_holds(prev);
        let st = extract_fold(prev);
        let nx = extract_step(st, m);
        assert(prev.push(m) =~= ms);
        let r = release_slot(st);
        lemma_release_holds(st, prev);
        match start_of(m) {
            Some(b) => {
                assert(nx.left + slot_messages(nx) =~= r.left.push(m));
                lemma_subsequence_push(r.left, prev, m);
            },
            None => match st.current {
                Some(c) => match pushed(c, m) {
                    Some(c2) => {
                        assert(nx.left + slot_messages(nx) =~= (st.left + slot_messages(st)).push(
                            m,
                        ));
                        lemma_subsequence_push(st.left + slot_messages(st), prev, m);
                    },
                    None => {
                        assert(nx.left + slot_messages(nx) =~= r.left.push(m));
                        lemma_subsequence_push(r.left, prev, m);
                    },
                },
                None => {
                    assert(nx.left + slot_messages(nx) =~= (st.left + slot_messages(st)).push(m));
                    lemma_subsequence_push(st.left + slot_messages(st), prev, m);
                },
            },
        }
    }
}

/// Every message handed to extraction ends up either in exactly one completed
/// builder or among the leftovers; when no builder completes, the leftovers
/// are the input itself.
pub proof fn lemma_extraction_conserves(ms: Seq<RawMessage>)
    ensures
        message_total(extracted(ms).done) + extracted(ms).left.len() == ms.len(),
        forall|i: int|
            0 <= i < extracted(ms).done.len() ==> (#[trigger] extracted(ms).done[i]).messages.len()
                > 0,
        extracted(ms).done.len() == 0 ==> extracted(ms).left == ms,
{
    lemma_fold_holds(ms);
    lemma_release_holds(extract_fold(ms), ms);
}

/// The leftovers are a subsequence of the input: messages are only taken out,
/// never added, repeated or reordered.
pub proof fn lemma_leftovers_keep_order(ms: Seq<RawMessage>)
    ensures
        is_subsequence(extracted(ms).left, ms),
{
    lemma_fold_holds(ms);
    lemma_release_holds(extract_fold(ms), ms);
}

pub proof fn lemma_total_positive(bs: Seq<BuilderView>)
    requires
        bs.len() > 0,
        forall|i: int| 0 <= i < bs.len() ==> (#[trigger] bs[i]).messages.len() > 0,
    ensures
        message_total(bs) > 0,
{
    assert(bs[bs.len() - 1].messages.len() > 0);
}

/// Running extraction again on its own leftovers, with no new messages, gives
/// the same leftovers back exactly when that second run completes no builder;
/// otherwise the completed builder's messages are taken out, none are dropped
/// or repeated.
pub proof fn lemma_leftovers_rerun(ms: Seq<RawMessage>)
    ensures
        ({
            let left = extracted(ms).left;
            let again = extracted(left);
            &&& again.done.len() == 0 <==> again.left == left
            &&& message_total(again.done) + again.left.len() == left.len()
        }),
{
    let left = extracted(ms).left;
    lemma_extraction_conserves(left);
    let again = extracted(left);
    if again.done.len() > 0 {
        lemma_total_positive(again.done);
    }
}

/// Once a Format-One builder is full, its messages' payloads, concatenated in
/// order and split on commas, give exactly the format's number of fields.
pub proof fn lemma_full_format_one_fields(b: BuilderView)
    requires
        b.format == Format::One,
        is_full(b),
    ensures
        crate::text::split_on(payloads(b.messages), 44).len() == FORMAT_ONE_FIELDS,
{
    crate::text::lemma_split_len(payloads(b.messages), 44);
}

/// A Format-Two builder that is not full refuses a message whose continuation
/// header is missing or names another group; `Builder::push` then leaves the
/// builder as it was and hands the message back unchanged.
pub proof fn lemma_mismatched_group_refused(b: BuilderView, m: RawMessage, h: Header)
    requires
        b.format == Format::Two(Some(h)),
        !is_full(b),
        secondary_id(m.payload@) != Some(h.id),
    ensures
        pushed(b, m) is None,
{
}

} // verus!
