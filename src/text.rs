//! Byte-level helpers for the comma- and line-delimited telemetry text.
use vstd::prelude::*;

verus! {

pub open spec fn is_digit(b: u8) -> bool {
    48 <= b <= 57
}

pub open spec fn all_digits(s: Seq<u8>) -> bool {
    forall|i: int| 0 <= i < s.len() ==> is_digit(#[trigger] s[i])
}

/// The number written by a run of ASCII decimal digits.
pub open spec fn digits_value(s: Seq<u8>) -> nat
    decreases s.len(),
{
    if s.len() == 0 {
        0
    } else {
        digits_value(s.drop_last()) * 10 + (s.last() - 48) as nat
    }
}

/// The index of the first byte at or after `i` that is not a digit.
pub open spec fn digit_run_end(s: Seq<u8>, i: int) -> int
    decreases s.len() - i,
{
    if 0 <= i < s.len() && is_digit(s[i]) {
        digit_run_end(s, i + 1)
    } else {
        i
    }
}

/// The number of occurrences of `b` in `s`.
pub open spec fn count_of(s: Seq<u8>, b: u8) -> nat
    decreases s.len(),
{
    if s.len() == 0 {
        0
    } else {
        count_of(s.drop_last(), b) + if s.last() == b { 1nat } else { 0nat }
    }
}

/// The index of the first occurrence of `b` at or after `i`, or `s.len()` if there is none.
pub open spec fn index_of(s: Seq<u8>, b: u8, i: int) -> int
    decreases s.len() - i,
{
    if 0 <= i < s.len() && s[i] != b {
        index_of(s, b, i + 1)
    } else {
        i
    }
}

/// The pieces of `s` between occurrences of `sep`, as `str::split` gives them.
pub open spec fn split_on(s: Seq<u8>, sep: u8) -> Seq<Seq<u8>>
    decreases s.len(),
{
    if s.len() == 0 {
        seq![Seq::empty()]
    } else {
        let init = split_on(s.drop_last(), sep);
        if s.last() == sep {
            init.push(Seq::empty())
        } else {
            init.update(init.len() - 1, init.last().push(s.last()))
        }
    }
}

/// `s` without a final carriage return.
pub open spec fn strip_cr(s: Seq<u8>) -> Seq<u8> {
    if s.len() > 0 && s.last() == 13 {
        s.drop_last()
    } else {
        s
    }
}

/// The lines of `s`, as `str::lines` gives them: split at `\n`, a `\r` before
/// a `\n` dropped, and no empty line after a final `\n`.
pub open spec fn lines_of(s: Seq<u8>) -> Seq<Seq<u8>> {
    let pieces = split_on(s, 10);
    let ended = pieces.drop_last().map_values(|p: Seq<u8>| strip_cr(p));
    if pieces.last().len() == 0 {
        ended
    } else {
        ended.push(pieces.last())
    }
}

/// Whether `s` begins with `prefix`.
pub open spec fn starts_with(s: Seq<u8>, prefix: Seq<u8>) -> bool {
    prefix.len() <= s.len() && s.subrange(0, prefix.len() as int) == prefix
}

pub proof fn lemma_digits_step(s: Seq<u8>, a: int, j: int)
    requires
        0 <= a <= j < s.len(),
    ensures
        digits_value(s.subrange(a, j + 1)) == digits_value(s.subrange(a, j)) * 10 + (s[j] - 48) as nat,
{
    assert(s.subrange(a, j + 1).drop_last() =~= s.subrange(a, j));
}

pub proof fn lemma_digits_monotone(s: Seq<u8>, a: int, i: int, j: int)
    requires
        0 <= a <= i <= j <= s.len(),
    ensures
        digits_value(s.subrange(a, i)) <= digits_value(s.subrange(a, j)),
    decreases j - i,
{
    if i < j {
        lemma_digits_monotone(s, a, i, j - 1);
        lemma_digits_step(s, a, j - 1);
    }
}

/// Finds where the run of digits that starts at `i` ends.
pub fn digit_run_end_exec(s: &[u8], i: usize) -> (r: usize)
    requires
        i <= s@.len(),
    ensures
        r as int == digit_run_end(s@, i as int),
        i <= r <= s@.len(),
{
    let mut j: usize = i;
    while j < s.len() && 48 <= s[j] && s[j] <= 57
        invariant
            i <= j <= s@.len(),
            digit_run_end(s@, i as int) == digit_run_end(s@, j as int),
        decreases s@.len() - j,
    {
        j = j + 1;
    }
    j
}

pub proof fn lemma_run_end_digits(s: Seq<u8>, i: int)
    requires
        0 <= i <= s.len(),
    ensures
        i <= digit_run_end(s, i) <= s.len(),
        all_digits(s.subrange(i, digit_run_end(s, i))),
        digit_run_end(s, i) < s.len() ==> !is_digit(s[digit_run_end(s, i)]),
    decreases s.len() - i,
{
    if i < s.len() && is_digit(s[i]) {
        lemma_run_end_digits(s, i + 1);
        let e = digit_run_end(s, i);
        assert forall|k: int| 0 <= k < s.subrange(i, e).len() implies is_digit(
            #[trigger] s.subrange(i, e)[k],
        ) by {
            if k > 0 {
                assert(s.subrange(i, e)[k] == s.subrange(i + 1, e)[k - 1]);
            }
        }
    }
}

/// The value of the digits `s[start..end]`, if it fits in a `u64`.
pub fn parse_digits(s: &[u8], start: usize, end: usize) -> (r: Option<u64>)
    requires
        start <= end <= s@.len(),
        all_digits(s@.subrange(start as int, end as int)),
    ensures
        r == (if digits_value(s@.subrange(start as int, end as int)) <= u64::MAX {
            Some(digits_value(s@.subrange(start as int, end as int)) as u64)
        } else {
            None::<u64>
        }),
{
    let mut v: u64 = 0;
    let mut j: usize = start;
    proof {
        assert(s@.subrange(start as int, start as int) =~= Seq::<u8>::empty());
    }
    while j < end
        invariant
            start <= j <= end <= s@.len(),
            all_digits(s@.subrange(start as int, end as int)),
            v as nat == digits_value(s@.subrange(start as int, j as int)),
        decreases end - j,
    {
        assert(s@.subrange(start as int, end as int)[j - start] == s@[j as int]);
        let d = (s[j] - 48) as u64;
        proof {
            lemma_digits_step(s@, start as int, j as int);
        }
        if v > (u64::MAX - d) / 10 {
            proof {
                lemma_digits_monotone(s@, start as int, j as int + 1, end as int);
            }
            return None;
        }
        v = v * 10 + d;
        j = j + 1;
    }
    Some(v)
}

/// The number of occurrences of `b` in `s`.
pub fn count_byte(s: &[u8], b: u8) -> (r: usize)
    ensures
        r == count_of(s@, b),
{
    let mut n: usize = 0;
    let mut j: usize = 0;
    while j < s.len()
        invariant
            j <= s@.len(),
            n == count_of(s@.subrange(0, j as int), b),
            n <= j,
        decreases s@.len() - j,
    {
        assert(s@.subrange(0, j as int + 1).drop_last() =~= s@.subrange(0, j as int));
        if s[j] == b {
            n = n + 1;
        }
        j = j + 1;
    }
    assert(s@.subrange(0, s@.len() as int) =~= s@);
    n
}

/// The index of the first `b` at or after `i`, or the length of `s`.
pub fn index_of_exec(s: &[u8], b: u8, i: usize) -> (r: usize)
    requires
        i <= s@.len(),
    ensures
        r as int == index_of(s@, b, i as int),
        i <= r <= s@.len(),
{
    let mut j: usize = i;
    while j < s.len() && s[j] != b
        invariant
            i <= j <= s@.len(),
            index_of(s@, b, i as int) == index_of(s@, b, j as int),
        decreases s@.len() - j,
    {
        j = j + 1;
    }
    j
}

/// The views of a sequence of byte vectors.
pub open spec fn byte_views(v: Seq<Vec<u8>>) -> Seq<Seq<u8>> {
    v.map_values(|x: Vec<u8>| x@)
}

/// Splitting gives one more piece than there are separators.
pub proof fn lemma_split_len(s: Seq<u8>, sep: u8)
    ensures
        split_on(s, sep).len() == count_of(s, sep) + 1,
    decreases s.len(),
{
    if s.len() > 0 {
        lemma_split_len(s.drop_last(), sep);
    }
}

/// Splits `s` at each `sep`, as `str::split` does.
pub fn split_exec(s: &[u8], sep: u8) -> (r: Vec<Vec<u8>>)
    ensures
        byte_views(r@) == split_on(s@, sep),
{
    let mut pieces: Vec<Vec<u8>> = Vec::new();
    let mut cur: Vec<u8> = Vec::new();
    let mut j: usize = 0;
    proof {
        assert(s@.subrange(0, 0) =~= Seq::<u8>::empty());
        assert(byte_views(pieces@).push(cur@) =~= split_on(Seq::<u8>::empty(), sep));
    }
    while j < s.len()
        invariant
            j <= s@.len(),
            byte_views(pieces@).push(cur@) == split_on(s@.subrange(0, j as int), sep),
        decreases s@.len() - j,
    {
        let ghost prev = split_on(s@.subrange(0, j as int), sep);
        proof {
            assert(s@.subrange(0, j + 1).drop_last() =~= s@.subrange(0, j as int));
            assert(s@.subrange(0, j + 1).last() == s@[j as int]);
        }
        if s[j] == sep {
            let done = cur;
            cur = Vec::new();
            proof {
                assert(byte_views(pieces@.push(done)) =~= byte_views(pieces@).push(done@));
                assert(byte_views(pieces@.push(done)).push(cur@) =~= prev.push(Seq::<u8>::empty()));
            }
            pieces.push(done);
        } else {
            cur.push(s[j]);
            proof {
                assert(byte_views(pieces@).push(cur@) =~= prev.update(prev.len() - 1, prev.last().push(s@[j as int])));
            }
        }
        j = j + 1;
    }
    proof {
        assert(s@.subrange(0, s@.len() as int) =~= s@);
        assert(byte_views(pieces@.push(cur)) =~= byte_views(pieces@).push(cur@));
    }
    pieces.push(cur);
    pieces
}

fn strip_cr_exec(v: Vec<u8>) -> (r: Vec<u8>)
    ensures
        r@ == strip_cr(v@),
{
    let mut v = v;
    if v.len() > 0 && v[v.len() - 1] == 13 {
        v.pop();
    }
    v
}

/// Splits `s` into lines, as `str::lines` does.
pub fn lines_exec(s: &[u8]) -> (r: Vec<Vec<u8>>)
    ensures
        byte_views(r@) == lines_of(s@),
{
    let mut pieces = split_exec(s, 10);
    let ghost all = split_on(s@, 10);
    proof {
        lemma_split_len(s@, 10);
    }
    let last = pieces.pop().unwrap();
    let mut out: Vec<Vec<u8>> = Vec::new();
    let mut rest: Vec<Vec<u8>> = Vec::new();
    while pieces.len() > 0
        invariant
            pieces@.len() + rest@.len() == all.len() - 1,
            byte_views(pieces@) == all.take(pieces@.len() as int),
            forall|j: int| 0 <= j < rest@.len() ==> #[trigger] rest@[j]@ == all[all.len() - 2 - j],
            all.len() >= 1,
        decreases pieces@.len(),
    {
        let ghost k = pieces@.len();
        let ghost before = pieces@;
        let p = pieces.pop().unwrap();
        proof {
            assert(all.take(k as int).drop_last() =~= all.take(k - 1));
            assert(byte_views(pieces@) =~= byte_views(before).drop_last());
            assert(byte_views(before)[k - 1] == p@);
        }
        rest.push(p);
    }
    let ghost ended = all.drop_last().map_values(|p: Seq<u8>| strip_cr(p));
    while rest.len() > 0
        invariant
            rest@.len() + out@.len() == all.len() - 1,
            forall|j: int| 0 <= j < rest@.len() ==> #[trigger] rest@[j]@ == all[all.len() - 2 - j],
            byte_views(out@) == ended.take(out@.len() as int),
            ended == all.drop_last().map_values(|p: Seq<u8>| strip_cr(p)),
            all.len() >= 1,
        decreases rest@.len(),
    {
        let ghost k = out@.len();
        let ghost before = rest@;
        let p = rest.pop().unwrap();
        proof {
            assert(p == before[before.len() - 1]);
            assert(p@ == all[k as int]);
            assert(all.drop_last()[k as int] == all[k as int]);
            assert(ended[k as int] == strip_cr(all[k as int]));
        }
        let q = strip_cr_exec(p);
        proof {
            assert(byte_views(out@.push(q)) =~= ended.take(k as int + 1));
        }
        out.push(q);
    }
    proof {
        assert(ended.take(ended.len() as int) =~= ended);
    }
    if last.len() > 0 {
        proof {
            assert(byte_views(out@.push(last)) =~= byte_views(out@).push(last@));
        }
        out.push(last);
    }
    out
}

/// Copies a byte slice into a vector.
pub fn to_bytes(s: &[u8]) -> (r: Vec<u8>)
    ensures
        r@ == s@,
{
    let mut r: Vec<u8> = Vec::new();
    let mut j: usize = 0;
    while j < s.len()
        invariant
            j <= s@.len(),
            r@ =~= s@.subrange(0, j as int),
        decreases s@.len() - j,
    {
        r.push(s[j]);
        j = j + 1;
    }
    r
}

/// Copies `s[start..]` into a vector.
pub fn suffix_bytes(s: &[u8], start: usize) -> (r: Vec<u8>)
    requires
        start <= s@.len(),
    ensures
        r@ == s@.subrange(start as int, s@.len() as int),
{
    let mut r: Vec<u8> = Vec::new();
    let mut j: usize = start;
    while j < s.len()
        invariant
            start <= j <= s@.len(),
            r@ =~= s@.subrange(start as int, j as int),
        decreases s@.len() - j,
    {
        r.push(s[j]);
        j = j + 1;
    }
    r
}

/// Whether `s` is exactly the bytes of `t`.
pub fn bytes_equal(s: &[u8], t: &[u8]) -> (r: bool)
    ensures
        r == (s@ == t@),
{
    if s.len() != t.len() {
        return false;
    }
    let mut j: usize = 0;
    while j < s.len()
        invariant
            j <= s@.len() == t@.len(),
            forall|k: int| 0 <= k < j ==> s@[k] == t@[k],
        decreases s@.len() - j,
    {
        if s[j] != t[j] {
            return false;
        }
        j = j + 1;
    }
    assert(s@ =~= t@);
    true
}

} // verus!
