//! Stable ordering by time.
use vstd::prelude::*;

verus! {

/// Something that happened at a time, in seconds since the epoch.
pub trait Timed {
    spec fn time_of(&self) -> int;

    fn time(&self) -> (r: i64)
        ensures
            r == self.time_of(),
    ;
}

/// `s` with `x` put after every element whose key is at most `x`'s, counting
/// from the end.
pub open spec fn insert_by_key<A>(s: Seq<A>, x: A, key: spec_fn(A) -> int) -> Seq<A>
    decreases s.len(),
{
    if s.len() == 0 {
        seq![x]
    } else if key(x) < key(s.last()) {
        insert_by_key(s.drop_last(), x, key).push(s.last())
    } else {
        s.push(x)
    }
}

/// `s` sorted ascending by `key`, equal keys kept in their order (insertion sort).
pub open spec fn sort_by_key<A>(s: Seq<A>, key: spec_fn(A) -> int) -> Seq<A>
    decreases s.len(),
{
    if s.len() == 0 {
        s
    } else {
        insert_by_key(sort_by_key(s.drop_last(), key), s.last(), key)
    }
}

/// Where `insert_by_key` puts `x`.
pub open spec fn insert_position<A>(s: Seq<A>, x: A, key: spec_fn(A) -> int) -> int
    decreases s.len(),
{
    if s.len() == 0 {
        0
    } else if key(x) < key(s.last()) {
        insert_position(s.drop_last(), x, key)
    } else {
        s.len() as int
    }
}

pub proof fn lemma_insert_position<A>(s: Seq<A>, x: A, key: spec_fn(A) -> int)
    ensures
        0 <= insert_position(s, x, key) <= s.len(),
        insert_by_key(s, x, key) == s.insert(insert_position(s, x, key), x),
    decreases s.len(),
{
    if s.len() > 0 {
        lemma_insert_position(s.drop_last(), x, key);
        let p = insert_position(s, x, key);
        if key(x) < key(s.last()) {
            assert(insert_by_key(s, x, key) =~= s.insert(p, x));
        } else {
            assert(s.push(x) =~= s.insert(p, x));
        }
    } else {
        assert(seq![x] =~= s.insert(0, x));
    }
}

/// Sorting commutes with a map that keeps the keys.
pub proof fn lemma_sort_map<A, B>(
    s: Seq<A>,
    f: spec_fn(A) -> B,
    ka: spec_fn(A) -> int,
    kb: spec_fn(B) -> int,
)
    requires
        forall|a: A| #[trigger] kb(f(a)) == ka(a),
    ensures
        sort_by_key(s, ka).map_values(f) == sort_by_key(s.map_values(f), kb),
    decreases s.len(),
{
    if s.len() > 0 {
        lemma_sort_map(s.drop_last(), f, ka, kb);
        assert(s.map_values(f).drop_last() =~= s.drop_last().map_values(f));
        lemma_insert_map(sort_by_key(s.drop_last(), ka), s.last(), f, ka, kb);
    } else {
        assert(sort_by_key(s, ka).map_values(f) =~= sort_by_key(s.map_values(f), kb));
    }
}

pub proof fn lemma_insert_map<A, B>(
    s: Seq<A>,
    x: A,
    f: spec_fn(A) -> B,
    ka: spec_fn(A) -> int,
    kb: spec_fn(B) -> int,
)
    requires
        forall|a: A| #[trigger] kb(f(a)) == ka(a),
    ensures
        insert_by_key(s, x, ka).map_values(f) == insert_by_key(s.map_values(f), f(x), kb),
    decreases s.len(),
{
    if s.len() > 0 {
        lemma_insert_map(s.drop_last(), x, f, ka, kb);
        assert(s.map_values(f).drop_last() =~= s.drop_last().map_values(f));
        assert(kb(f(x)) == ka(x));
        assert(kb(f(s.last())) == ka(s.last()));
        if ka(x) < ka(s.last()) {
            assert(insert_by_key(s, x, ka).map_values(f) =~= insert_by_key(
                s.drop_last(),
                x,
                ka,
            ).map_values(f).push(f(s.last())));
        } else {
            assert(insert_by_key(s, x, ka).map_values(f) =~= s.map_values(f).push(f(x)));
        }
    } else {
        assert(insert_by_key(s, x, ka).map_values(f) =~= seq![f(x)]);
    }
}

/// Sorts by time, ascending; items with equal times keep their order.
pub fn sort_by_time<T: Timed>(v: Vec<T>) -> (r: Vec<T>)
    ensures
        r@ == sort_by_key(v@, |t: T| t.time_of()),
{
    let ghost key = |t: T| t.time_of();
    let ghost orig = v@;
    let ghost n = v@.len();
    let mut input = v;
    let mut queue: Vec<T> = Vec::new();
    while input.len() > 0
        invariant
            n == orig.len(),
            input@.len() + queue@.len() == n,
            input@ == orig.take(input@.len() as int),
            forall|j: int| 0 <= j < queue@.len() ==> #[trigger] queue@[j] == orig[n - 1 - j],
        decreases input@.len(),
    {
        let ghost k = input@.len();
        let x = input.pop().unwrap();
        proof {
            assert(orig.take(k as int).drop_last() =~= orig.take(k - 1));
        }
        queue.push(x);
    }
    let mut out: Vec<T> = Vec::new();
    proof {
        assert(orig.take(0) =~= Seq::<T>::empty());
    }
    while queue.len() > 0
        invariant
            n == orig.len(),
            queue@.len() <= n,
            forall|j: int| 0 <= j < queue@.len() ==> #[trigger] queue@[j] == orig[n - 1 - j],
            out@ == sort_by_key(orig.take(n - queue@.len()), key),
            key == (|t: T| t.time_of()),
        decreases queue@.len(),
    {
        let ghost t = n - queue@.len();
        let x = queue.pop().unwrap();
        proof {
            assert(orig.take(t + 1).drop_last() =~= orig.take(t));
            assert(orig.take(t + 1).last() == x);
        }
        let tx = x.time();
        let mut p: usize = out.len();
        assert(out@.take(p as int) =~= out@);
        while p > 0 && tx < out[p - 1].time()
            invariant
                p <= out@.len(),
                insert_position(out@, x, key) == insert_position(out@.take(p as int), x, key),
                key == (|t: T| t.time_of()),
                tx == x.time_of(),
            decreases p,
        {
            proof {
                assert(out@.take(p as int).drop_last() =~= out@.take(p - 1));
            }
            p = p - 1;
        }
        proof {
            lemma_insert_position(out@, x, key);
            if p > 0 {
                assert(out@.take(p as int).last() == out@[p - 1]);
            } else {
                assert(out@.take(0).len() == 0);
            }
        }
        out.insert(p, x);
    }
    proof {
        assert(orig.take(n as int) =~= orig);
    }
    out
}

} // verus!
