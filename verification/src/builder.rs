//! Construction of the tables: bucketed greedy displacement search with
//! deterministic seed retries.
//!
//! Keys are checked for duplicates first.  Then, under one seed, every key is
//! hashed and grouped by its `g` index into about one bucket per `LAMBDA`
//! entries, and the buckets are resolved largest first: a bounded scan over
//! candidate pairs `(d1, d2)` looks for one that sends every member of the
//! bucket to a free slot, all mutually distinct.  When a bucket exhausts its
//! budget the whole attempt is abandoned and the seed advances by the fixed
//! rule `spec_next_seed`, starting from `FIRST_SEED`; after `MAX_ATTEMPTS`
//! failed attempts construction reports `ConstructionFailed`.  Fixed input
//! order and the fixed seed rule make a built table reproducible bit for bit.

use vstd::prelude::*;

use crate::error::PhfError;
use crate::hashing::{slot_for, spec_hash, spec_slot};
use crate::map::PhfMap;
use crate::ordered_map::PhfOrderedMap;
use crate::ordered_set::PhfOrderedSet;
use crate::set::PhfSet;

verus! {

/// The bucket that entry `j` falls into: its `g` index modulo the bucket
/// count.
pub open spec fn bucket_of(triples: Seq<(u64, u64, u64)>, nbuckets: int, j: int) -> int {
    (triples[j].0 as int) % nbuckets
}

/// Whether the value `v` occurs in the sequence `s`.
pub open spec fn seq_has(s: Seq<usize>, v: int) -> bool {
    exists|t: int| 0 <= t < s.len() && (#[trigger] s[t]) == v
}

/// Whether two entries of the input share a key.
pub open spec fn has_duplicate_key<V>(entries: Seq<(String, V)>) -> bool {
    exists|i: int, j: int|
        0 <= i < j < entries.len() && (#[trigger] entries[i]).0@ == (#[trigger] entries[j]).0@
}

/// Checks that the input keys are mutually distinct, in one pass over a hash
/// set of the keys seen so far.
fn distinct_keys<V>(entries: &Vec<(String, V)>) -> (r: bool)
    ensures
        r == !has_duplicate_key(entries@),
{
    let n = entries.len();
    let mut seen = vstd::hash_set::StringHashSet::new();
    let mut j: usize = 0;
    while j < n
        invariant
            n == entries@.len(),
            j <= n,
            forall|t: int|
                0 <= t < j ==> seen@.contains((#[trigger] entries@[t]).0@),
            forall|k: Seq<char>|
                seen@.contains(k) ==> exists|t: int|
                    0 <= t < j && (#[trigger] entries@[t]).0@ == k,
            !has_duplicate_key(entries@.subrange(0, j as int)),
        decreases n - j,
    {
        let ghost pre = entries@.subrange(0, j as int);
        if seen.contains(entries[j].0.as_str()) {
            proof {
                let t = choose|t: int| 0 <= t < j && (#[trigger] entries@[t]).0@ == entries@[
                    j as int
                ].0@;
                assert(has_duplicate_key(entries@));
            }
            return false;
        }
        seen.insert(entries[j].0.clone());
        j = j + 1;
        proof {
            let post = entries@.subrange(0, j as int);
            assert forall|a: int, b: int| 0 <= a < b < post.len() implies (
            #[trigger] post[a]).0@ != (#[trigger] post[b]).0@ by {
                assert(post[a] == entries@[a]);
                assert(post[b] == entries@[b]);
                if b < j - 1 {
                    assert(pre[a] == entries@[a]);
                    assert(pre[b] == entries@[b]);
                    assert(!has_duplicate_key(pre));
                }
            }
        }
    }
    proof {
        assert(entries@.subrange(0, n as int) =~= entries@);
    }
    true
}

/// Clones the key of every entry, in order.
fn clone_keys<V>(entries: &Vec<(String, V)>) -> (r: Vec<String>)
    ensures
        r@.len() == entries@.len(),
        forall|j: int| 0 <= j < entries@.len() ==> (#[trigger] r@[j])@ == entries@[j].0@,
{
    let n = entries.len();
    let mut r: Vec<String> = Vec::with_capacity(n);
    let mut j: usize = 0;
    while j < n
        invariant
            n == entries@.len(),
            j <= n,
            r@.len() == j,
            forall|t: int| 0 <= t < j ==> (#[trigger] r@[t])@ == entries@[t].0@,
        decreases n - j,
    {
        r.push(entries[j].0.clone());
        j = j + 1;
    }
    r
}

/// Hashes every key under `seed`, in order.
fn hash_keys(keys: &Vec<String>, seed: u64) -> (r: Vec<(u64, u64, u64)>)
    ensures
        r@.len() == keys@.len(),
        forall|j: int| 0 <= j < keys@.len() ==> #[trigger] r@[j] == spec_hash(
            (keys@[j])@,
            seed,
        ),
        forall|j: int|
            0 <= j < keys@.len() ==> (#[trigger] r@[j]).1 < crate::hashing::MAX_SIZE && r@[j].2
                < crate::hashing::MAX_SIZE,
{
    let n = keys.len();
    let mut r: Vec<(u64, u64, u64)> = Vec::with_capacity(n);
    let mut j: usize = 0;
    while j < n
        invariant
            n == keys@.len(),
            j <= n,
            r@.len() == j,
            forall|t: int| 0 <= t < j ==> #[trigger] r@[t] == spec_hash((keys@[t])@, seed),
            forall|t: int|
                0 <= t < j ==> (#[trigger] r@[t]).1 < crate::hashing::MAX_SIZE && r@[t].2
                    < crate::hashing::MAX_SIZE,
        decreases n - j,
    {
        r.push(crate::hashing::hash(keys[j].as_str(), seed));
        j = j + 1;
    }
    r
}

/// Groups entry positions by bucket: position `j` goes to bucket
/// `g_j % nbuckets`.  Every position lands in exactly its own bucket, and
/// each bucket lists its positions in increasing order.
fn group_buckets(
    triples: &Vec<(u64, u64, u64)>,
    nbuckets: usize,
    gkeys: Ghost<Seq<String>>,
    gseed: Ghost<u64>,
) -> (buckets: Vec<Vec<usize>>)
    requires
        nbuckets > 0,
        gkeys@.len() == triples@.len(),
        forall|j: int|
            0 <= j < triples@.len() ==> #[trigger] triples@[j] == spec_hash(gkeys@[j]@, gseed@),
    ensures
        buckets@.len() == nbuckets,
        forall|b: int|
            0 <= b < nbuckets ==> #[trigger] buckets@[b]@ == bucket_model_upto(
                gkeys@,
                gseed@,
                nbuckets as int,
                b,
                triples@.len() as int,
            ),
        forall|b: int, t: int|
            0 <= b < nbuckets && 0 <= t < buckets@[b]@.len() ==> (#[trigger] buckets@[b]@[t])
                < triples@.len() && (triples@[buckets@[b]@[t] as int].0 as int) % (
            nbuckets as int) == b,
        forall|b: int, t1: int, t2: int|
            0 <= b < nbuckets && 0 <= t1 < t2 < buckets@[b]@.len() ==> buckets@[b]@[t1]
                < buckets@[b]@[t2],
        forall|j: int|
            0 <= j < triples@.len() ==> seq_has(
                #[trigger] buckets@[bucket_of(triples@, nbuckets as int, j)]@,
                j,
            ),
{
    let n = triples.len();
    let mut buckets: Vec<Vec<usize>> = Vec::with_capacity(nbuckets);
    let mut b: usize = 0;
    while b < nbuckets
        invariant
            nbuckets > 0,
            b <= nbuckets,
            buckets@.len() == b,
            forall|t: int| 0 <= t < b ==> (#[trigger] buckets@[t])@.len() == 0,
        decreases nbuckets - b,
    {
        buckets.push(Vec::new());
        b = b + 1;
    }
    proof {
        assert forall|b: int| 0 <= b < nbuckets implies #[trigger] buckets@[b]@
            == bucket_model_upto(gkeys@, gseed@, nbuckets as int, b, 0) by {
            assert(buckets@[b]@ =~= Seq::<usize>::empty());
        }
    }
    let mut j: usize = 0;
    while j < n
        invariant
            nbuckets > 0,
            n == triples@.len(),
            j <= n,
            buckets@.len() == nbuckets,
            gkeys@.len() == n,
            forall|j2: int|
                0 <= j2 < n ==> #[trigger] triples@[j2] == spec_hash(gkeys@[j2]@, gseed@),
            forall|b: int|
                0 <= b < nbuckets ==> #[trigger] buckets@[b]@ == bucket_model_upto(
                    gkeys@,
                    gseed@,
                    nbuckets as int,
                    b,
                    j as int,
                ),
            forall|b: int, t: int|
                0 <= b < nbuckets && 0 <= t < buckets@[b]@.len() ==> (#[trigger] buckets@[b]@[t])
                    < j && (triples@[buckets@[b]@[t] as int].0 as int) % (nbuckets as int) == b,
            forall|b: int, t1: int, t2: int|
                0 <= b < nbuckets && 0 <= t1 < t2 < buckets@[b]@.len() ==> buckets@[b]@[t1]
                    < buckets@[b]@[t2],
            forall|j2: int|
                0 <= j2 < j ==> seq_has(
                    #[trigger] buckets@[bucket_of(triples@, nbuckets as int, j2)]@,
                    j2,
                ),
        decreases n - j,
    {
        let g = triples[j].0;
        let b = (g % (nbuckets as u64)) as usize;
        let ghost old_buckets = buckets@;
        buckets[b].push(j);
        proof {
            assert(g_of(gkeys@, gseed@, j as int) % (nbuckets as int) == b as int);
            assert forall|b2: int| 0 <= b2 < nbuckets implies #[trigger] buckets@[b2]@
                == bucket_model_upto(gkeys@, gseed@, nbuckets as int, b2, j as int + 1) by {
                assert(old_buckets[b2]@ == bucket_model_upto(
                    gkeys@,
                    gseed@,
                    nbuckets as int,
                    b2,
                    j as int,
                ));
                if b2 == b as int {
                    assert(buckets@[b2]@ == old_buckets[b2]@.push(j));
                } else {
                    assert(buckets@[b2]@ == old_buckets[b2]@);
                }
            }
        }
        proof {
            assert forall|j2: int|
                0 <= j2 < j + 1 implies seq_has(
                #[trigger] buckets@[bucket_of(triples@, nbuckets as int, j2)]@,
                j2,
            ) by {
                let bb = bucket_of(triples@, nbuckets as int, j2);
                if j2 == j {
                    assert(bb == b as int);
                    assert(buckets@[bb]@[buckets@[bb]@.len() - 1] == j as usize);
                } else {
                    assert(seq_has(old_buckets[bb]@, j2));
                    let t = choose|t: int|
                        0 <= t < old_buckets[bb]@.len() && (#[trigger] old_buckets[bb]@[t])
                            == j2;
                    assert(buckets@[bb]@[t] == j2);
                }
            }
        }
        j = j + 1;
    }
    buckets
}

/// The slot a triple falls on under the candidate pair `(d1, d2)`.
pub open spec fn pair_slot(t: (u64, u64, u64), d1: u32, d2: u32, nslots: int) -> int {
    crate::hashing::spec_displace(t.1, t.2, d1 as u64, d2 as u64) % nslots
}

/// In a strictly increasing sequence every element is at least its position.
proof fn lemma_increasing_index(s: Seq<usize>, i: int)
    requires
        forall|t1: int, t2: int| 0 <= t1 < t2 < s.len() ==> s[t1] < s[t2],
        0 <= i < s.len(),
    ensures
        s[i] as int >= i,
    decreases i,
{
    if i > 0 {
        lemma_increasing_index(s, i - 1);
    }
}

/// A strictly increasing sequence of values below `n` has at most `n`
/// elements.
proof fn lemma_increasing_len_bound(s: Seq<usize>, n: int)
    requires
        forall|t1: int, t2: int| 0 <= t1 < t2 < s.len() ==> s[t1] < s[t2],
        forall|t: int| 0 <= t < s.len() ==> (s[t] as int) < n,
        n >= 0,
    ensures
        s.len() <= n,
{
    if s.len() > n {
        lemma_increasing_index(s, n);
    }
}

/// Whether bucket `b` is among the first `t` buckets of the processing order.
pub open spec fn placed_by(order: Seq<usize>, t: int, b: int) -> bool {
    exists|t2: int| 0 <= t2 < t && (#[trigger] order[t2]) == b
}

/// Linear scan for a slot already claimed by this bucket.
fn contains_slot(v: &Vec<usize>, x: usize) -> (r: bool)
    ensures
        r == seq_has(v@, x as int),
{
    let n = v.len();
    let mut t: usize = 0;
    while t < n
        invariant
            n == v@.len(),
            t <= n,
            forall|t2: int| 0 <= t2 < t ==> (#[trigger] v@[t2]) != x,
        decreases n - t,
    {
        if v[t] == x {
            return true;
        }
        t = t + 1;
    }
    false
}

/// Tries one candidate pair `(d1, d2)` on one bucket: computes every member's
/// slot and accepts exactly when the slots are all free and mutually
/// distinct, as `pair_fits` states it.
fn try_bucket(
    triples: &Vec<(u64, u64, u64)>,
    bucket: &Vec<usize>,
    occupied: &Vec<bool>,
    d1: u32,
    d2: u32,
    gkeys: Ghost<Seq<String>>,
    gseed: Ghost<u64>,
) -> (r: Option<Vec<usize>>)
    requires
        occupied@.len() > 0,
        forall|t: int| 0 <= t < bucket@.len() ==> (#[trigger] bucket@[t]) < triples@.len(),
        forall|j: int|
            0 <= j < triples@.len() ==> (#[trigger] triples@[j]).1 < crate::hashing::MAX_SIZE
                && triples@[j].2 < crate::hashing::MAX_SIZE,
        gkeys@.len() == triples@.len(),
        forall|j: int|
            0 <= j < triples@.len() ==> #[trigger] triples@[j] == spec_hash(gkeys@[j]@, gseed@),
    ensures
        match r {
            Some(slots) => {
                &&& slots@.len() == bucket@.len()
                &&& forall|t: int|
                    0 <= t < bucket@.len() ==> (#[trigger] slots@[t]) < occupied@.len()
                        && slots@[t] as int == pair_slot(
                        triples@[bucket@[t] as int],
                        d1,
                        d2,
                        occupied@.len() as int,
                    ) && !occupied@[slots@[t] as int]
                &&& forall|t1: int, t2: int|
                    0 <= t1 < t2 < slots@.len() ==> slots@[t1] != slots@[t2]
                &&& slots@ == slots_model(
                    gkeys@,
                    gseed@,
                    occupied@.len() as int,
                    bucket@,
                    d1,
                    d2,
                )
                &&& pair_fits(gkeys@, gseed@, occupied@.len() as int, occupied@, bucket@, d1, d2)
            },
            None => !pair_fits(
                gkeys@,
                gseed@,
                occupied@.len() as int,
                occupied@,
                bucket@,
                d1,
                d2,
            ),
        },
{
    let ghost model = slots_model(gkeys@, gseed@, occupied@.len() as int, bucket@, d1, d2);
    let n = occupied.len();
    let m = bucket.len();
    let mut slots: Vec<usize> = Vec::with_capacity(m);
    let mut t: usize = 0;
    while t < m
        invariant
            n == occupied@.len(),
            n > 0,
            m == bucket@.len(),
            forall|t2: int| 0 <= t2 < m ==> (#[trigger] bucket@[t2]) < triples@.len(),
            forall|j: int|
                0 <= j < triples@.len() ==> (#[trigger] triples@[j]).1 < crate::hashing::MAX_SIZE
                    && triples@[j].2 < crate::hashing::MAX_SIZE,
            t <= m,
            slots@.len() == t,
            gkeys@.len() == triples@.len(),
            forall|j: int|
                0 <= j < triples@.len() ==> #[trigger] triples@[j] == spec_hash(
                    gkeys@[j]@,
                    gseed@,
                ),
            model == slots_model(gkeys@, gseed@, n as int, bucket@, d1, d2),
            forall|t2: int|
                0 <= t2 < t ==> (#[trigger] slots@[t2]) < n && slots@[t2] as int == pair_slot(
                    triples@[bucket@[t2] as int],
                    d1,
                    d2,
                    n as int,
                ) && !occupied@[slots@[t2] as int],
            forall|t2: int| 0 <= t2 < t ==> #[trigger] slots@[t2] == model[t2],
            forall|t1: int, t2: int| 0 <= t1 < t2 < t ==> slots@[t1] != slots@[t2],
        decreases m - t,
    {
        let j = bucket[t];
        let tr = triples[j];
        let dv = crate::hashing::displace(tr.1, tr.2, d1, d2);
        let sl = (dv % (n as u64)) as usize;
        proof {
            assert(model[t as int] == sl);
        }
        if occupied[sl] {
            proof {
                assert(occupied@[(model[t as int]) as int]);
            }
            return None;
        }
        if contains_slot(&slots, sl) {
            proof {
                let t2 = choose|t2: int|
                    0 <= t2 < slots@.len() && (#[trigger] slots@[t2]) == sl;
                assert(model[t2] == model[t as int]);
            }
            return None;
        }
        slots.push(sl);
        t = t + 1;
    }
    proof {
        assert(slots@ =~= model);
    }
    Some(slots)
}

/// Scans candidate pairs `(d1, d2)` in increasing order, within a bounded
/// budget of tries, until one resolves the bucket: it returns exactly the
/// first fitting candidate below the scan limit, or `None` when there is
/// none.
#[verifier::loop_isolation(false)]
fn search_bucket(
    triples: &Vec<(u64, u64, u64)>,
    bucket: &Vec<usize>,
    occupied: &Vec<bool>,
    dmax: u32,
    budget: u64,
    gkeys: Ghost<Seq<String>>,
    gseed: Ghost<u64>,
) -> (r: Option<(u32, u32, Vec<usize>)>)
    requires
        occupied@.len() > 0,
        dmax >= 1,
        forall|t: int| 0 <= t < bucket@.len() ==> (#[trigger] bucket@[t]) < triples@.len(),
        forall|j: int|
            0 <= j < triples@.len() ==> (#[trigger] triples@[j]).1 < crate::hashing::MAX_SIZE
                && triples@[j].2 < crate::hashing::MAX_SIZE,
        gkeys@.len() == triples@.len(),
        forall|j: int|
            0 <= j < triples@.len() ==> #[trigger] triples@[j] == spec_hash(gkeys@[j]@, gseed@),
    ensures
        ({
            let limit = if budget < dmax as u64 * dmax as u64 {
                budget as int
            } else {
                dmax as int * dmax as int
            };
            let ff = first_fit(
                gkeys@,
                gseed@,
                occupied@.len() as int,
                occupied@,
                bucket@,
                dmax as int,
                limit,
                0,
            );
            match r {
                Some((d1, d2, slots)) => {
                    &&& slots@.len() == bucket@.len()
                    &&& forall|t: int|
                        0 <= t < bucket@.len() ==> (#[trigger] slots@[t]) < occupied@.len()
                            && slots@[t] as int == pair_slot(
                            triples@[bucket@[t] as int],
                            d1,
                            d2,
                            occupied@.len() as int,
                        ) && !occupied@[slots@[t] as int]
                    &&& forall|t1: int, t2: int|
                        0 <= t1 < t2 < slots@.len() ==> slots@[t1] != slots@[t2]
                    &&& d1 < dmax
                    &&& d2 < dmax
                    &&& slots@ == slots_model(
                        gkeys@,
                        gseed@,
                        occupied@.len() as int,
                        bucket@,
                        d1,
                        d2,
                    )
                    &&& ff == Some(d1 as int * dmax as int + d2 as int)
                },
                None => ff is None,
            }
        }),
{
    let ghost n = occupied@.len() as int;
    let ghost limit: int = if budget < dmax as u64 * dmax as u64 {
        budget as int
    } else {
        dmax as int * dmax as int
    };
    let mut tries: u64 = 0;
    let mut d1: u32 = 0;
    while d1 < dmax
        invariant
            tries == d1 as u64 * dmax as u64,
            d1 <= dmax,
            tries <= budget || tries as int >= limit,
            first_fit(gkeys@, gseed@, n, occupied@, bucket@, dmax as int, limit, 0) == first_fit(
                gkeys@,
                gseed@,
                n,
                occupied@,
                bucket@,
                dmax as int,
                limit,
                tries as int,
            ),
        decreases dmax - d1,
    {
        proof {
            vstd::arithmetic::mul::lemma_mul_upper_bound(
                d1 as int,
                dmax as int - 1,
                dmax as int,
                dmax as int,
            );
        }
        let mut d2: u32 = 0;
        while d2 < dmax
            invariant
                tries == d1 as u64 * dmax as u64 + d2 as u64,
                d1 < dmax,
                d2 <= dmax,
                tries <= budget || tries as int >= limit,
                first_fit(gkeys@, gseed@, n, occupied@, bucket@, dmax as int, limit, 0)
                    == first_fit(
                    gkeys@,
                    gseed@,
                    n,
                    occupied@,
                    bucket@,
                    dmax as int,
                    limit,
                    tries as int,
                ),
            decreases dmax - d2,
        {
            if tries >= budget {
                return None;
            }
            proof {
                assert(tries as int == d1 as int * dmax as int + d2 as int);
                assert((tries as int) < (dmax as int) * (dmax as int)) by (nonlinear_arith)
                    requires
                        tries as int == (d1 as int) * (dmax as int) + (d2 as int),
                        0 <= (d1 as int) < (dmax as int),
                        0 <= (d2 as int) < (dmax as int),
                ;
                vstd::arithmetic::div_mod::lemma_fundamental_div_mod_converse(
                    tries as int,
                    dmax as int,
                    d1 as int,
                    d2 as int,
                );
            }
            match try_bucket(triples, bucket, occupied, d1, d2, gkeys, gseed) {
                Some(slots) => {
                    return Some((d1, d2, slots));
                },
                None => {},
            }
            tries = tries + 1;
            d2 = d2 + 1;
        }
        d1 = d1 + 1;
        proof {
            assert(d1 as u64 * dmax as u64 == (d1 as u64 - 1) * dmax as u64 + dmax as u64)
                by (nonlinear_arith);
        }
    }
    proof {
        assert(tries as int >= limit) by (nonlinear_arith)
            requires
                tries as int == dmax as int * dmax as int,
                limit <= dmax as int * dmax as int,
        ;
    }
    None
}

/// The largest bucket size.
fn max_bucket_len(buckets: &Vec<Vec<usize>>) -> (r: usize)
    ensures
        forall|b: int| 0 <= b < buckets@.len() ==> (#[trigger] buckets@[b])@.len() <= r,
        r == 0 || exists|b: int|
            0 <= b < buckets@.len() && (#[trigger] buckets@[b])@.len() == r,
{
    let nb = buckets.len();
    let mut r: usize = 0;
    let mut b: usize = 0;
    while b < nb
        invariant
            nb == buckets@.len(),
            b <= nb,
            forall|b2: int| 0 <= b2 < b ==> (#[trigger] buckets@[b2])@.len() <= r,
            r == 0 || exists|b2: int|
                0 <= b2 < nb && (#[trigger] buckets@[b2])@.len() == r,
        decreases nb - b,
    {
        if buckets[b].len() > r {
            r = buckets[b].len();
        }
        b = b + 1;
    }
    r
}

/// The order buckets are resolved in: by size, largest first, so that the
/// hardest-to-place buckets see the emptiest table.  The result lists every
/// bucket exactly once.
fn bucket_order(buckets: &Vec<Vec<usize>>, maxlen: usize) -> (order: Vec<usize>)
    requires
        forall|b: int| 0 <= b < buckets@.len() ==> (#[trigger] buckets@[b])@.len() <= maxlen,
    ensures
        forall|t: int| 0 <= t < order@.len() ==> (#[trigger] order@[t]) < buckets@.len(),
        forall|t1: int, t2: int| 0 <= t1 < t2 < order@.len() ==> order@[t1] != order@[t2],
        forall|b: int| 0 <= b < buckets@.len() ==> seq_has(order@, b),
        forall|t1: int, t2: int|
            0 <= t1 < t2 < order@.len() ==> buckets@[order@[t1] as int]@.len() >= buckets@[
                order@[t2] as int]@.len(),
        order@ == order_from(
            Seq::new(buckets@.len() as nat, |b: int| buckets@[b]@.len() as int),
            maxlen as int,
        ),
{
    let nb = buckets.len();
    let ghost lens = Seq::new(buckets@.len() as nat, |b: int| buckets@[b]@.len() as int);
    let mut order: Vec<usize> = Vec::with_capacity(nb);
    let mut s: usize = maxlen;
    loop
        invariant_except_break
            nb == buckets@.len(),
            s <= maxlen,
            lens == Seq::new(buckets@.len() as nat, |b: int| buckets@[b]@.len() as int),
            order@ + order_from(lens, s as int) == order_from(lens, maxlen as int),
            forall|t: int| 0 <= t < order@.len() ==> (#[trigger] order@[t]) < nb,
            forall|t1: int, t2: int| 0 <= t1 < t2 < order@.len() ==> order@[t1] != order@[t2],
            forall|b: int|
                0 <= b < nb ==> (seq_has(order@, b) <==> buckets@[b]@.len() > s),
            forall|t: int|
                0 <= t < order@.len() ==> buckets@[(#[trigger] order@[t]) as int]@.len() > s,
            forall|t1: int, t2: int|
                0 <= t1 < t2 < order@.len() ==> buckets@[order@[t1] as int]@.len() >= buckets@[
                    order@[t2] as int]@.len(),
        ensures
            forall|t: int| 0 <= t < order@.len() ==> (#[trigger] order@[t]) < nb,
            forall|t1: int, t2: int| 0 <= t1 < t2 < order@.len() ==> order@[t1] != order@[t2],
            forall|b: int| 0 <= b < nb ==> seq_has(order@, b),
            forall|t1: int, t2: int|
                0 <= t1 < t2 < order@.len() ==> buckets@[order@[t1] as int]@.len() >= buckets@[
                    order@[t2] as int]@.len(),
            order@ == order_from(lens, maxlen as int),
        decreases s,
    {
        let ghost head = order@;
        proof {
            assert(order@ =~= head + group_model_upto(lens, s as int, 0));
        }
        let mut b: usize = 0;
        while b < nb
            invariant
                nb == buckets@.len(),
                b <= nb,
                lens == Seq::new(buckets@.len() as nat, |b2: int| buckets@[b2]@.len() as int),
                order@ == head + group_model_upto(lens, s as int, b as int),
                head + order_from(lens, s as int) == order_from(lens, maxlen as int),
                forall|t: int| 0 <= t < order@.len() ==> (#[trigger] order@[t]) < nb,
                forall|t1: int, t2: int| 0 <= t1 < t2 < order@.len() ==> order@[t1] != order@[t2],
                forall|b2: int|
                    0 <= b2 < nb ==> (seq_has(order@, b2) <==> (buckets@[b2]@.len() > s || (
                    buckets@[b2]@.len() == s && b2 < b))),
                forall|t: int|
                    0 <= t < order@.len() ==> buckets@[(#[trigger] order@[t]) as int]@.len() >= s,
                forall|t1: int, t2: int|
                    0 <= t1 < t2 < order@.len() ==> buckets@[order@[t1] as int]@.len()
                        >= buckets@[order@[t2] as int]@.len(),
            decreases nb - b,
        {
            if buckets[b].len() == s {
                let ghost old_order = order@;
                proof {
                    assert(!seq_has(old_order, b as int));
                }
                order.push(b);
                proof {
                    assert(lens[b as int] == s as int);
                    assert(group_model_upto(lens, s as int, b as int + 1) == group_model_upto(
                        lens,
                        s as int,
                        b as int,
                    ).push(b));
                    assert(order@ =~= head + group_model_upto(lens, s as int, b as int + 1));
                    assert forall|b2: int|
                        0 <= b2 < nb implies (seq_has(order@, b2) <==> (buckets@[b2]@.len() > s
                        || (buckets@[b2]@.len() == s && b2 < b + 1))) by {
                        if seq_has(order@, b2) {
                            let t = choose|t: int|
                                0 <= t < order@.len() && (#[trigger] order@[t]) == b2;
                            if t < old_order.len() {
                                assert(seq_has(old_order, b2));
                            } else {
                                assert(b2 == b as int);
                            }
                        }
                        if buckets@[b2]@.len() > s || (buckets@[b2]@.len() == s && b2 < b + 1) {
                            if b2 == b as int {
                                assert(order@[order@.len() - 1] == b as usize);
                            } else {
                                assert(seq_has(old_order, b2));
                                let t = choose|t: int|
                                    0 <= t < old_order.len() && (#[trigger] old_order[t]) == b2;
                                assert(order@[t] == old_order[t]);
                            }
                        }
                    }
                }
            }
            if buckets[b].len() != s {
                proof {
                    assert(lens[b as int] != s as int);
                    assert(group_model_upto(lens, s as int, b as int + 1) == group_model_upto(
                        lens,
                        s as int,
                        b as int,
                    ));
                }
            }
            b = b + 1;
        }
        proof {
            assert(group_model_upto(lens, s as int, nb as int) == group_model(lens, s as int));
            assert(order@ + order_from(lens, s as int - 1) =~= head + order_from(
                lens,
                s as int,
            ));
        }
        if s == 0 {
            proof {
                assert(order_from(lens, -1) == Seq::<usize>::empty());
                assert(order@ =~= order@ + order_from(lens, -1));
            }
            break;
        }
        s = s - 1;
    }
    order
}

/// Load factor: the target average bucket size.
pub const LAMBDA: usize = 5;

/// The bounded per-bucket search budget: for small tables the whole pair
/// space is affordable; for large ones a linear bound caps the search, and a
/// failed bucket costs one seed retry.
fn search_budget(n: usize, dmax: u32) -> (r: u64)
    requires
        dmax <= 0x100000,
        dmax as int == spec_dmax(n as int),
    ensures
        r as int == spec_budget_of(n as int),
{
    let ncap: u64 = if n > 0xffff_ffff {
        0xffff_ffff
    } else {
        n as u64
    };
    proof {
        vstd::arithmetic::mul::lemma_mul_upper_bound(
            dmax as int,
            0x100000,
            dmax as int,
            0x100000,
        );
    }
    let full: u64 = (dmax as u64) * (dmax as u64);
    let cap: u64 = 8 * ncap + 100_000;
    if full < cap {
        full
    } else {
        cap
    }
}

/// Once every key is placed, every slot is claimed: the keys claim `n`
/// mutually distinct slots below `n`.
proof fn lemma_every_slot_claimed(
    keys: Seq<String>,
    seed: u64,
    disps: Seq<(u32, u32)>,
    occupied: Seq<bool>,
    pos: Seq<usize>,
    n: int,
)
    requires
        n == keys.len(),
        occupied.len() == n,
        pos.len() == n,
        forall|j: int|
            0 <= j < n ==> {
                let sj = spec_slot(seed, disps, n, (#[trigger] keys[j])@);
                0 <= sj < n && occupied[sj] && pos[sj] == j
            },
    ensures
        forall|s: int| 0 <= s < n ==> occupied[s],
{
    let f = Seq::new(n as nat, |j: int| spec_slot(seed, disps, n, keys[j]@));
    assert forall|j1: int, j2: int|
        0 <= j1 < f.len() && 0 <= j2 < f.len() && j1 != j2 implies f[j1] != f[j2] by {
        assert(pos[spec_slot(seed, disps, n, (keys[j1])@)] == j1);
        assert(pos[spec_slot(seed, disps, n, (keys[j2])@)] == j2);
    }
    assert(f.no_duplicates());
    f.unique_seq_to_set();
    vstd::set_lib::lemma_int_range(0, n);
    let range = vstd::set_lib::set_int_range(0, n);
    assert forall|x: int| f.to_set().contains(x) implies range.contains(x) by {
        let j = choose|j: int| 0 <= j < f.len() && f[j] == x;
        assert(pos[spec_slot(seed, disps, n, (keys[j])@)] == j);
    }
    assert forall|s2: int| 0 <= s2 < n implies occupied[s2] by {
        if !f.to_set().contains(s2) {
            f.to_set().lemma_subset_not_in_lt(range, s2);
        }
        let j = choose|j: int| 0 <= j < f.len() && f[j] == s2;
        assert(occupied[spec_slot(seed, disps, n, (keys[j])@)]);
    }
}

/// One full construction attempt under one seed: hash, bucket, order the
/// buckets by descending size, then resolve each bucket with a bounded
/// displacement search.  On success, `pos` maps every slot to the position of
/// the one input key that computes it, both ways round.
#[verifier::loop_isolation(false)]
#[verifier::rlimit(100)]
fn try_seed(keys: &Vec<String>, seed: u64) -> (r: Option<(Vec<(u32, u32)>, Vec<usize>)>)
    requires
        keys@.len() > 0,
    ensures
        match r {
            Some(built) => {
                &&& built.0@.len() > 0
                &&& built.1@.len() == keys@.len()
                &&& forall|j: int|
                    0 <= j < keys@.len() ==> {
                        let sj = spec_slot(
                            seed,
                            built.0@,
                            keys@.len() as int,
                            (#[trigger] keys@[j])@,
                        );
                        0 <= sj < keys@.len() && built.1@[sj] == j
                    }
                &&& forall|s: int|
                    0 <= s < keys@.len() ==> (#[trigger] built.1@[s]) < keys@.len() && spec_slot(
                        seed,
                        built.0@,
                        keys@.len() as int,
                        keys@[built.1@[s] as int]@,
                    ) == s
            },
            None => true,
        },
{
    let n = keys.len();
    let triples = hash_keys(keys, seed);
    let nb = (n - 1) / LAMBDA + 1;
    let buckets = group_buckets(&triples, nb, Ghost(keys@), Ghost(seed));
    let maxlen = max_bucket_len(&buckets);
    proof {
        if maxlen != 0 {
            let bw = choose|b: int|
                0 <= b < buckets@.len() && (#[trigger] buckets@[b])@.len() == maxlen;
            lemma_increasing_len_bound(buckets@[bw]@, n as int);
        }
    }
    let order = bucket_order(&buckets, maxlen);
    let ghost lens = lens_of(keys@, seed, nb as int);
    proof {
        assert(nb as int == spec_nbuckets(n as int));
        assert forall|b: int| 0 <= b < nb implies #[trigger] buckets@[b]@ == bucket_model(
            keys@,
            seed,
            nb as int,
            b,
        ) by {}
        assert(Seq::new(buckets@.len() as nat, |b: int| buckets@[b]@.len() as int) =~= lens);
        if maxlen != 0 {
            let bw = choose|b: int|
                0 <= b < buckets@.len() && (#[trigger] buckets@[b])@.len() == maxlen;
            lemma_increasing_len_bound(buckets@[bw]@, n as int);
        }
        assert(maxlen <= n);
        assert(forall|b: int| 0 <= b < lens.len() ==> #[trigger] lens[b] <= maxlen as int);
        lemma_order_from_high(lens, n as int, maxlen as int);
        assert(order@ == order_from(lens, n as int));
    }
    let dmax_usize: usize = if n < 16 {
        16
    } else if n > 0x100000 {
        0x100000
    } else {
        n
    };
    let dmax: u32 = dmax_usize as u32;
    let budget: u64 = search_budget(n, dmax);
    place_buckets(&triples, &buckets, &order, dmax, budget, Ghost(keys@), seed)
}

/// The model's run from the initial state is the whole attempt.
proof fn lemma_attempt_start(
    keys: Seq<String>,
    seed: u64,
    nb: int,
    order: Seq<usize>,
    disps: Seq<(u32, u32)>,
    occ: Seq<bool>,
    pos: Seq<usize>,
)
    requires
        keys.len() > 0,
        nb == spec_nbuckets(keys.len() as int),
        order == order_from(lens_of(keys, seed, nb), keys.len() as int),
        disps == Seq::new(nb as nat, |b: int| (0u32, 0u32)),
        occ == Seq::new(keys.len(), |s: int| false),
        pos == Seq::new(keys.len(), |s: int| 0usize),
    ensures
        run_from(
            keys,
            seed,
            keys.len() as int,
            nb,
            spec_dmax(keys.len() as int),
            spec_scan_limit(keys.len() as int),
            order,
            0,
            disps,
            occ,
            pos,
        ) == spec_attempt(keys, seed),
{
}

/// A run that has consumed the whole order ends in its current state.
proof fn lemma_attempt_end(
    keys: Seq<String>,
    seed: u64,
    n: int,
    nb: int,
    dmax: int,
    limit: int,
    order: Seq<usize>,
    disps: Seq<(u32, u32)>,
    occ: Seq<bool>,
    pos: Seq<usize>,
)
    requires
        run_from(
            keys,
            seed,
            n,
            nb,
            dmax,
            limit,
            order,
            order.len() as int,
            disps,
            occ,
            pos,
        ) == spec_attempt(keys, seed),
    ensures
        spec_attempt(keys, seed) == Some((disps, pos)),
{
}

/// Once the whole order is processed, every entry's bucket is placed.
proof fn lemma_all_placed(triples: Seq<(u64, u64, u64)>, order: Seq<usize>, nb: int, n: int)
    requires
        nb > 0,
        n <= triples.len(),
        forall|b: int| 0 <= b < nb ==> seq_has(order, b),
    ensures
        forall|j: int|
            0 <= j < n ==> placed_by(order, order.len() as int, bucket_of(triples, nb, j)),
{
    assert forall|j: int| 0 <= j < n implies placed_by(
        order,
        order.len() as int,
        bucket_of(triples, nb, j),
    ) by {
        let bj = bucket_of(triples, nb, j);
        assert(seq_has(order, bj));
        let tw = choose|tw: int| 0 <= tw < order.len() && (#[trigger] order[tw]) == bj;
    }
}

/// At the end of a complete run, the slot table inverts the key-to-slot map
/// both ways round.
proof fn lemma_attempt_result(
    keys: Seq<String>,
    seed: u64,
    n: int,
    nb: int,
    triples: Seq<(u64, u64, u64)>,
    order: Seq<usize>,
    disps: Seq<(u32, u32)>,
    occupied: Seq<bool>,
    pos: Seq<usize>,
)
    requires
        n == keys.len(),
        n > 0,
        n == triples.len(),
        nb > 0,
        occupied.len() == n,
        pos.len() == n,
        forall|s2: int| 0 <= s2 < n ==> (#[trigger] pos[s2]) < n,
        forall|b: int| 0 <= b < nb ==> seq_has(order, b),
        forall|j: int|
            0 <= j < n && placed_by(order, order.len() as int, bucket_of(triples, nb, j)) ==> {
                let sj = spec_slot(seed, disps, n, (#[trigger] keys[j])@);
                &&& 0 <= sj < n
                &&& occupied[sj]
                &&& pos[sj] == j
            },
        forall|s2: int|
            0 <= s2 < n && occupied[s2] ==> placed_by(
                order,
                order.len() as int,
                bucket_of(triples, nb, (#[trigger] pos[s2]) as int),
            ) && spec_slot(seed, disps, n, keys[pos[s2] as int]@) == s2,
    ensures
        forall|j: int|
            0 <= j < n ==> {
                let sj = spec_slot(seed, disps, n, (#[trigger] keys[j])@);
                0 <= sj < n && pos[sj] == j
            },
        forall|s: int|
            0 <= s < n ==> (#[trigger] pos[s]) < n && spec_slot(
                seed,
                disps,
                n,
                keys[pos[s] as int]@,
            ) == s,
{
    lemma_all_placed(triples, order, nb, n);
    lemma_every_slot_claimed(keys, seed, disps, occupied, pos, n);
}

/// Resolves every bucket in order against a shared slot table, keeping the
/// executable state equal to the model's at every step.
#[verifier::rlimit(100)]
fn place_buckets(
    triples: &Vec<(u64, u64, u64)>,
    buckets: &Vec<Vec<usize>>,
    order: &Vec<usize>,
    dmax: u32,
    budget: u64,
    gkeys: Ghost<Seq<String>>,
    seed: u64,
) -> (r: Option<(Vec<(u32, u32)>, Vec<usize>)>)
    requires
        gkeys@.len() > 0,
        gkeys@.len() == triples@.len(),
        buckets@.len() > 0,
        buckets@.len() as int == spec_nbuckets(gkeys@.len() as int),
        forall|j: int|
            0 <= j < triples@.len() ==> #[trigger] triples@[j] == spec_hash(gkeys@[j]@, seed),
        forall|j: int|
            0 <= j < triples@.len() ==> (#[trigger] triples@[j]).1 < crate::hashing::MAX_SIZE
                && triples@[j].2 < crate::hashing::MAX_SIZE,
        forall|b: int|
            0 <= b < buckets@.len() ==> #[trigger] buckets@[b]@ == bucket_model(
                gkeys@,
                seed,
                buckets@.len() as int,
                b,
            ),
        forall|b: int, t: int|
            0 <= b < buckets@.len() && 0 <= t < buckets@[b]@.len() ==> (
            #[trigger] buckets@[b]@[t]) < triples@.len() && (triples@[buckets@[b]@[t] as int].0
                as int) % (buckets@.len() as int) == b,
        forall|b: int, t1: int, t2: int|
            0 <= b < buckets@.len() && 0 <= t1 < t2 < buckets@[b]@.len() ==> buckets@[b]@[t1]
                < buckets@[b]@[t2],
        forall|j: int|
            0 <= j < triples@.len() ==> seq_has(
                #[trigger] buckets@[bucket_of(triples@, buckets@.len() as int, j)]@,
                j,
            ),
        forall|t: int| 0 <= t < order@.len() ==> (#[trigger] order@[t]) < buckets@.len(),
        forall|t1: int, t2: int| 0 <= t1 < t2 < order@.len() ==> order@[t1] != order@[t2],
        forall|b: int| 0 <= b < buckets@.len() ==> seq_has(order@, b),
        order@ == order_from(
            lens_of(gkeys@, seed, buckets@.len() as int),
            gkeys@.len() as int,
        ),
        dmax >= 1,
        dmax as int == spec_dmax(gkeys@.len() as int),
        budget as int == spec_budget_of(gkeys@.len() as int),
    ensures
        match r {
            Some(built) => {
                &&& built.0@.len() > 0
                &&& built.1@.len() == gkeys@.len()
                &&& forall|j: int|
                    0 <= j < gkeys@.len() ==> {
                        let sj = spec_slot(
                            seed,
                            built.0@,
                            gkeys@.len() as int,
                            (#[trigger] gkeys@[j])@,
                        );
                        0 <= sj < gkeys@.len() && built.1@[sj] == j
                    }
                &&& forall|s: int|
                    0 <= s < gkeys@.len() ==> (#[trigger] built.1@[s]) < gkeys@.len()
                        && spec_slot(
                        seed,
                        built.0@,
                        gkeys@.len() as int,
                        gkeys@[built.1@[s] as int]@,
                    ) == s
            },
            None => true,
        },
{
    let n = triples.len();
    let nb = buckets.len();
    let mut disps: Vec<(u32, u32)> = vec![(0u32, 0u32); nb];
    let mut occupied: Vec<bool> = vec![false; n];
    let mut pos: Vec<usize> = vec![0usize; n];
    let nord = order.len();
    let ghost limit = spec_scan_limit(n as int);
    let mut t: usize = 0;
    #[verifier::loop_isolation(true)]
    while t < nord
        invariant
            n == gkeys@.len(),
            n == triples@.len(),
            n > 0,
            nb == buckets@.len(),
            nb > 0,
            nord == order@.len(),
            limit == spec_scan_limit(n as int),
            dmax as int == spec_dmax(n as int),
            dmax >= 1,
            budget as int == spec_budget_of(n as int),
            forall|j: int|
                0 <= j < triples@.len() ==> #[trigger] triples@[j] == spec_hash(
                    gkeys@[j]@,
                    seed,
                ),
            forall|j: int|
                0 <= j < triples@.len() ==> (#[trigger] triples@[j]).1
                    < crate::hashing::MAX_SIZE && triples@[j].2 < crate::hashing::MAX_SIZE,
            forall|b: int|
                0 <= b < buckets@.len() ==> #[trigger] buckets@[b]@ == bucket_model(
                    gkeys@,
                    seed,
                    nb as int,
                    b,
                ),
            forall|b: int, t9: int|
                0 <= b < buckets@.len() && 0 <= t9 < buckets@[b]@.len() ==> (
                #[trigger] buckets@[b]@[t9]) < triples@.len() && (triples@[buckets@[b]@[t9]
                    as int].0 as int) % (nb as int) == b,
            forall|b: int, t1: int, t2: int|
                0 <= b < buckets@.len() && 0 <= t1 < t2 < buckets@[b]@.len() ==> buckets@[b]@[t1]
                    < buckets@[b]@[t2],
            forall|j: int|
                0 <= j < triples@.len() ==> seq_has(
                    #[trigger] buckets@[bucket_of(triples@, nb as int, j)]@,
                    j,
                ),
            forall|t9: int| 0 <= t9 < order@.len() ==> (#[trigger] order@[t9]) < nb,
            forall|t1: int, t2: int| 0 <= t1 < t2 < order@.len() ==> order@[t1] != order@[t2],
            t <= nord,
            disps@.len() == nb,
            occupied@.len() == n,
            pos@.len() == n,
            forall|s2: int| 0 <= s2 < n ==> (#[trigger] pos@[s2]) < n,
            forall|j: int|
                0 <= j < n && placed_by(order@, t as int, bucket_of(triples@, nb as int, j))
                    ==> {
                    let sj = spec_slot(seed, disps@, n as int, (#[trigger] gkeys@[j])@);
                    &&& 0 <= sj < n
                    &&& occupied@[sj]
                    &&& pos@[sj] == j
                },
            forall|s2: int|
                0 <= s2 < n && occupied@[s2] ==> placed_by(
                    order@,
                    t as int,
                    bucket_of(triples@, nb as int, (#[trigger] pos@[s2]) as int),
                ) && spec_slot(seed, disps@, n as int, gkeys@[pos@[s2] as int]@) == s2,
        decreases nord - t,
    {
        let b = order[t];
        let bucket = &buckets[b];
        match search_bucket(&triples, bucket, &occupied, dmax, budget, Ghost(gkeys@), Ghost(seed)) {
            None => {
                return None;
            },
            Some((d1, d2, slots)) => {
                let ghost pre_disps = disps@;
                disps[b] = (d1, d2);
                proof {
                    assert forall|j: int|
                        0 <= j < n && placed_by(
                            order@,
                            t as int,
                            bucket_of(triples@, nb as int, j),
                        ) implies spec_slot(seed, disps@, n as int, gkeys@[j]@) == spec_slot(
                        seed,
                        pre_disps,
                        n as int,
                        gkeys@[j]@,
                    ) by {
                        let bj = bucket_of(triples@, nb as int, j);
                        let t2 = choose|t2: int| 0 <= t2 < t && (#[trigger] order@[t2]) == bj;
                        assert(order@[t2] != order@[t as int]);
                        assert(triples@[j] == spec_hash(gkeys@[j]@, seed));
                        assert(disps@[bj] == pre_disps[bj]);
                    }
                }
                let m = bucket.len();
                let ghost mid_occ = occupied@;
                let ghost mid_pos = pos@;
                let mut t2: usize = 0;
                #[verifier::loop_isolation(false)]
                while t2 < m
                    invariant
                        t2 <= m,
                        occupied@.len() == n,
                        pos@.len() == n,
                        forall|s2: int|
                            0 <= s2 < n ==> (#[trigger] occupied@[s2] == (mid_occ[s2] || seq_has(
                                slots@.subrange(0, t2 as int),
                                s2,
                            ))),
                        forall|s2: int|
                            0 <= s2 < n && mid_occ[s2] ==> #[trigger] pos@[s2] == mid_pos[s2],
                        forall|s2: int| 0 <= s2 < n ==> (#[trigger] pos@[s2]) < n,
                        forall|t3: int|
                            0 <= t3 < t2 ==> pos@[(#[trigger] slots@[t3]) as int] == bucket@[t3],
                        occupied@ == occ_after(mid_occ, slots@, t2 as int),
                        pos@ == pos_after(mid_pos, bucket@, slots@, t2 as int),
                    decreases m - t2,
                {
                    let sl = slots[t2];
                    let ghost before = slots@.subrange(0, t2 as int);
                    occupied[sl] = true;
                    pos[sl] = bucket[t2];
                    t2 = t2 + 1;
                    proof {
                        let after = slots@.subrange(0, t2 as int);
                        assert(after == before.push(sl));
                        assert forall|s2: int| 0 <= s2 < n implies (seq_has(after, s2) <==> (
                        seq_has(before, s2) || s2 == sl as int)) by {
                            if seq_has(after, s2) {
                                let t4 = choose|t4: int|
                                    0 <= t4 < after.len() && (#[trigger] after[t4]) == s2;
                                if t4 < before.len() {
                                    assert(seq_has(before, s2));
                                }
                            }
                            if seq_has(before, s2) {
                                let t4 = choose|t4: int|
                                    0 <= t4 < before.len() && (#[trigger] before[t4]) == s2;
                                assert(after[t4] == s2);
                            }
                            if s2 == sl as int {
                                assert(after[after.len() - 1] == sl);
                            }
                        }
                    }
                }
                proof {
                    assert(slots@.subrange(0, m as int) =~= slots@);
                    assert forall|j: int|
                        0 <= j < n && placed_by(
                            order@,
                            (t + 1) as int,
                            bucket_of(triples@, nb as int, j),
                        ) implies {
                        let sj = spec_slot(seed, disps@, n as int, gkeys@[j]@);
                        &&& 0 <= sj < n
                        &&& occupied@[sj]
                        &&& pos@[sj] == j
                    } by {
                        let bj = bucket_of(triples@, nb as int, j);
                        let tw = choose|t5: int|
                            0 <= t5 < t + 1 && (#[trigger] order@[t5]) == bj;
                        if tw < t {
                            assert(placed_by(order@, t as int, bj));
                            let sj = spec_slot(seed, pre_disps, n as int, gkeys@[j]@);
                            assert(mid_occ[sj] && mid_pos[sj] == j);
                            assert(spec_slot(seed, disps@, n as int, gkeys@[j]@) == sj);
                            assert(occupied@[sj]);
                            assert(pos@[sj] == j);
                        } else {
                            assert(bj == b as int);
                            assert(seq_has(buckets@[bj]@, j));
                            let t3 = choose|t3: int|
                                0 <= t3 < buckets@[bj]@.len() && (#[trigger] buckets@[bj]@[t3])
                                    == j;
                            assert(triples@[j] == spec_hash(gkeys@[j]@, seed));
                            assert(slots@[t3] as int == pair_slot(
                                triples@[j],
                                d1,
                                d2,
                                n as int,
                            ));
                            assert(spec_slot(seed, disps@, n as int, gkeys@[j]@) == slots@[t3] as int);
                            assert(pos@[slots@[t3] as int] == bucket@[t3]);
                            assert(occupied@[slots@[t3] as int]);
                        }
                    }
                    assert forall|s2: int| 0 <= s2 < n && occupied@[s2] implies placed_by(
                        order@,
                        (t + 1) as int,
                        bucket_of(triples@, nb as int, pos@[s2] as int),
                    ) && spec_slot(seed, disps@, n as int, gkeys@[pos@[s2] as int]@) == s2 by {
                        if mid_occ[s2] {
                            assert(pos@[s2] == mid_pos[s2]);
                            let j = mid_pos[s2] as int;
                            assert(placed_by(order@, t as int, bucket_of(triples@, nb as int, j)));
                            let tw = choose|t5: int|
                                0 <= t5 < t && (#[trigger] order@[t5]) == bucket_of(
                                    triples@,
                                    nb as int,
                                    j,
                                );
                            assert(order@[tw] != order@[t as int]);
                            assert(triples@[j] == spec_hash(gkeys@[j]@, seed));
                            assert(disps@[bucket_of(triples@, nb as int, j)] == pre_disps[
                                bucket_of(triples@, nb as int, j)]);
                            assert(spec_slot(seed, disps@, n as int, gkeys@[j]@) == spec_slot(
                                seed,
                                pre_disps,
                                n as int,
                                gkeys@[j]@,
                            ));
                        } else {
                            assert(seq_has(slots@, s2));
                            let t3 = choose|t3: int|
                                0 <= t3 < slots@.len() && (#[trigger] slots@[t3]) == s2;
                            let j = bucket@[t3] as int;
                            assert(pos@[s2] == bucket@[t3]);
                            assert(bucket_of(triples@, nb as int, j) == b as int);
                            assert(order@[t as int] == b);
                            assert(triples@[j] == spec_hash(gkeys@[j]@, seed));
                            assert(spec_slot(seed, disps@, n as int, gkeys@[j]@) == pair_slot(
                                triples@[j],
                                d1,
                                d2,
                                n as int,
                            ));
                        }
                    }
                }
                t = t + 1;
            },
        }
    }
    proof {
        lemma_attempt_result(
            gkeys@,
            seed,
            n as int,
            nb as int,
            triples@,
            order@,
            disps@,
            occupied@,
            pos@,
        );
    }
    Some((disps, pos))
}


/// First seed of the deterministic retry sequence.
pub const FIRST_SEED: u64 = 0x9e37_79b9_7f4a_7c15;

/// Multiplier of the seed-advance rule.
pub const SEED_MUL: u64 = 0x5851_f42d_4c95_7f2d;

/// Increment of the seed-advance rule.
pub const SEED_INC: u64 = 0x1405_7b7e_f767_814f;

/// Number of full construction attempts before `ConstructionFailed`.
pub const MAX_ATTEMPTS: usize = 64;

/// The deterministic seed-advance rule: a fixed linear congruence, so that a
/// rebuilt table is reproducible bit for bit.
pub open spec fn spec_next_seed(s: u64) -> u64 {
    vstd::wrapping::u64_specs::wrapping_add(
        vstd::wrapping::u64_specs::wrapping_mul(s, SEED_MUL),
        SEED_INC,
    )
}

/// Advances the seed after a failed attempt.
fn next_seed(s: u64) -> (r: u64)
    ensures
        r == spec_next_seed(s),
{
    s.wrapping_mul(SEED_MUL).wrapping_add(SEED_INC)
}

/// Whether some entry of `entries` has a key reading `k`.
pub open spec fn has_key<V>(entries: Seq<(String, V)>, k: Seq<char>) -> bool {
    exists|j: int| 0 <= j < entries.len() && (#[trigger] entries[j]).0@ == k
}

/// Moves every entry to the slot its key computes: the plain map stores its
/// entries slot-indexed directly.
#[verifier::loop_isolation(false)]
#[verifier::rlimit(100)]
fn place_entries<V>(
    entries: Vec<(String, V)>,
    seed: u64,
    disps: &Vec<(u32, u32)>,
    pos: &Vec<usize>,
) -> (r: Vec<(String, V)>)
    requires
        entries@.len() > 0,
        disps@.len() > 0,
        pos@.len() == entries@.len(),
        forall|j: int|
            0 <= j < entries@.len() ==> {
                let sj = spec_slot(seed, disps@, entries@.len() as int, (#[trigger] entries@[j]).0@);
                0 <= sj < entries@.len() && pos@[sj] == j
            },
        forall|s: int|
            0 <= s < entries@.len() ==> (#[trigger] pos@[s]) < entries@.len() && spec_slot(
                seed,
                disps@,
                entries@.len() as int,
                entries@[pos@[s] as int].0@,
            ) == s,
    ensures
        r@.len() == entries@.len(),
        forall|s: int| 0 <= s < entries@.len() ==> #[trigger] r@[s] == entries@[pos@[s] as int],
{
    let n = entries.len();
    let ghost orig = entries@;
    let mut rest = entries;
    let mut out_opt: Vec<Option<(String, V)>> = Vec::with_capacity(n);
    let mut i: usize = 0;
    while i < n
        invariant
            i <= n,
            out_opt@.len() == i,
            forall|s: int| 0 <= s < i ==> (#[trigger] out_opt@[s]) is None,
        decreases n - i,
    {
        out_opt.push(None);
        i = i + 1;
    }
    while rest.len() > 0
        invariant
            rest@.len() <= n,
            rest@ == orig.subrange(0, rest@.len() as int),
            out_opt@.len() == n,
            forall|s: int|
                0 <= s < n ==> (#[trigger] out_opt@[s]) == if pos@[s] >= rest@.len() {
                    Some(orig[pos@[s] as int])
                } else {
                    None::<(String, V)>
                },
        decreases rest@.len(),
    {
        let ghost pre_rest = rest@;
        let ghost pre_out = out_opt@;
        let e = rest.pop().unwrap();
        let ghost j = rest@.len() as int;
        proof {
            assert(e == orig[j]);
        }
        let sl = slot_for(seed, disps, n, e.0.as_str());
        proof {
            assert(spec_slot(seed, disps@, n as int, (entries@[j]).0@) == sl as int);
            assert(pos@[sl as int] == j);
        }
        out_opt[sl] = Some(e);
        proof {
            assert forall|s: int| 0 <= s < n implies (#[trigger] out_opt@[s])
                == if pos@[s] >= rest@.len() {
                Some(orig[pos@[s] as int])
            } else {
                None::<(String, V)>
            } by {
                if s != sl as int {
                    assert(out_opt@[s] == pre_out[s]);
                    if pos@[s] == j {
                        assert(spec_slot(seed, disps@, n as int, orig[j].0@) == s);
                        assert(spec_slot(seed, disps@, n as int, orig[j].0@) == sl as int);
                    }
                }
            }
        }
    }
    proof {
        assert forall|s: int| 0 <= s < n implies (#[trigger] out_opt@[s]) == Some(
            orig[pos@[s] as int],
        ) by {
            assert(pos@[s] >= 0);
        }
    }
    let mut rev: Vec<(String, V)> = Vec::with_capacity(n);
    while out_opt.len() > 0
        invariant
            out_opt@.len() + rev@.len() == n,
            forall|s: int|
                0 <= s < out_opt@.len() ==> (#[trigger] out_opt@[s]) == Some(
                    orig[pos@[s] as int],
                ),
            forall|t: int|
                0 <= t < rev@.len() ==> #[trigger] rev@[t] == orig[pos@[n - 1 - t] as int],
        decreases out_opt@.len(),
    {
        let o = out_opt.pop().unwrap();
        let e = o.unwrap();
        rev.push(e);
    }
    let mut out: Vec<(String, V)> = Vec::with_capacity(n);
    while rev.len() > 0
        invariant
            rev@.len() + out@.len() == n,
            forall|t: int|
                0 <= t < rev@.len() ==> #[trigger] rev@[t] == orig[pos@[n - 1 - t] as int],
            forall|s: int| 0 <= s < out@.len() ==> #[trigger] out@[s] == orig[pos@[s] as int],
        decreases rev@.len(),
    {
        let e = rev.pop().unwrap();
        out.push(e);
    }
    out
}

/// Builds a `PhfMap` from the given entries.
///
/// Keys must be mutually distinct: duplicates fail with `DuplicateKey` before
/// any hashing.  Construction retries under a deterministic sequence of at
/// most `MAX_ATTEMPTS` seeds and fails with `ConstructionFailed` when they
/// are exhausted; on success the table holds exactly the given entries and is
/// well formed.
#[verifier::loop_isolation(false)]
pub fn build_map<V>(entries: Vec<(String, V)>) -> (r: Result<PhfMap<V>, PhfError>)
    ensures
        match r {
            Ok(m) => {
                &&& m.wf()
                &&& !has_duplicate_key(entries@)
                &&& m.entries@.len() == entries@.len()
                &&& forall|j: int|
                    0 <= j < entries@.len() ==> m.spec_contains(
                        (#[trigger] entries@[j]).0@,
                    ) && m.spec_get(entries@[j].0@) == Some(entries@[j].1)
                &&& forall|k: Seq<char>| #[trigger] m.spec_contains(k) ==> has_key(entries@, k)
            },
            Err(e) => (e == PhfError::DuplicateKey && has_duplicate_key(entries@)) || (e
                == PhfError::ConstructionFailed && !has_duplicate_key(entries@)),
        },
{
    if !distinct_keys(&entries) {
        return Err(PhfError::DuplicateKey);
    }
    let n = entries.len();
    if n == 0 {
        let m = PhfMap { key: FIRST_SEED, disps: Vec::new(), entries: Vec::new() };
        return Ok(m);
    }
    let keys = clone_keys(&entries);
    let mut seed: u64 = FIRST_SEED;
    let mut attempt: usize = 0;
    while attempt < MAX_ATTEMPTS
        invariant
            attempt <= MAX_ATTEMPTS,
        decreases MAX_ATTEMPTS - attempt,
    {
        match try_seed(&keys, seed) {
            Some((disps, pos)) => {
                proof {
                    assert forall|s: int| 0 <= s < n implies (#[trigger] pos@[s]) < n
                        && spec_slot(seed, disps@, n as int, entries@[pos@[s] as int].0@)
                        == s by {
                        assert(keys@[pos@[s] as int]@ == entries@[pos@[s] as int].0@);
                    }
                    assert forall|j: int| 0 <= j < n implies {
                        let sj = spec_slot(seed, disps@, n as int, (#[trigger] entries@[j]).0@);
                        0 <= sj < n && pos@[sj] == j
                    } by {
                        assert(keys@[j]@ == entries@[j].0@);
                    }
                }
                let ghost in_entries = entries@;
                let placed = place_entries(entries, seed, &disps, &pos);
                let m = PhfMap { key: seed, disps, entries: placed };
                proof {
                    assert forall|i: int| 0 <= i < m.entries@.len() implies m.slot_of(
                        (#[trigger] m.entries@[i]).0@,
                    ) == i by {
                        assert(m.entries@[i] == in_entries[pos@[i] as int]);
                    }
                    assert(m.wf());
                    m.lemma_keys_distinct();
                    assert forall|j: int| 0 <= j < in_entries.len() implies m.spec_contains(
                        (#[trigger] in_entries[j]).0@,
                    ) && m.spec_get(in_entries[j].0@) == Some(in_entries[j].1) by {
                        let sj = spec_slot(seed, disps@, n as int, keys@[j]@);
                        assert(keys@[j]@ == in_entries[j].0@);
                        assert(0 <= sj < n && pos@[sj] == j);
                        assert(m.entries@[sj] == in_entries[j]);
                        assert(m.spec_contains(in_entries[j].0@));
                        let iw = m.index_of(in_entries[j].0@);
                        assert(m.entries@[iw].0@ == in_entries[j].0@);
                        assert(iw == sj);
                    }
                    assert forall|k: Seq<char>| #[trigger] m.spec_contains(k) implies has_key(
                        in_entries,
                        k,
                    ) by {
                        let iw = choose|iw: int|
                            0 <= iw < m.entries@.len() && (#[trigger] m.entries@[iw]).0@ == k;
                        assert(m.entries@[iw] == in_entries[pos@[iw] as int]);
                    }
                }
                return Ok(m);
            },
            None => {
                seed = next_seed(seed);
                attempt = attempt + 1;
            },
        }
    }
    Err(PhfError::ConstructionFailed)
}

/// Builds a `PhfOrderedMap` from the given entries.
///
/// Like `build_map`, but the entries keep their definition order exactly; the
/// slot indirection goes through the `idxs` array instead.
#[verifier::loop_isolation(false)]
pub fn build_ordered_map<V>(entries: Vec<(String, V)>) -> (r: Result<
    PhfOrderedMap<V>,
    PhfError,
>)
    ensures
        match r {
            Ok(m) => {
                &&& m.wf()
                &&& !has_duplicate_key(entries@)
                &&& m.entries@ == entries@
            },
            Err(e) => (e == PhfError::DuplicateKey && has_duplicate_key(entries@)) || (e
                == PhfError::ConstructionFailed && !has_duplicate_key(entries@)),
        },
{
    if !distinct_keys(&entries) {
        return Err(PhfError::DuplicateKey);
    }
    let n = entries.len();
    if n == 0 {
        let m = PhfOrderedMap {
            key: FIRST_SEED,
            disps: Vec::new(),
            idxs: Vec::new(),
            entries,
        };
        return Ok(m);
    }
    let keys = clone_keys(&entries);
    let mut seed: u64 = FIRST_SEED;
    let mut attempt: usize = 0;
    while attempt < MAX_ATTEMPTS
        invariant
            attempt <= MAX_ATTEMPTS,
        decreases MAX_ATTEMPTS - attempt,
    {
        match try_seed(&keys, seed) {
            Some((disps, idxs)) => {
                let m = PhfOrderedMap { key: seed, disps, idxs, entries };
                proof {
                    assert forall|i: int| 0 <= i < m.entries@.len() implies m.idxs@[m.slot_of(
                        (#[trigger] m.entries@[i]).0@,
                    )] == i by {
                        assert(keys@[i]@ == m.entries@[i].0@);
                    }
                    assert(m.wf());
                }
                return Ok(m);
            },
            None => {
                seed = next_seed(seed);
                attempt = attempt + 1;
            },
        }
    }
    Err(PhfError::ConstructionFailed)
}

/// Whether two of the given values read the same characters.
pub open spec fn has_duplicate_value(values: Seq<String>) -> bool {
    exists|i: int, j: int|
        0 <= i < j < values.len() && (#[trigger] values[i])@ == (#[trigger] values[j])@
}

/// Whether some of the given values reads `k`.
pub open spec fn has_value(values: Seq<String>, k: Seq<char>) -> bool {
    exists|j: int| 0 <= j < values.len() && (#[trigger] values[j])@ == k
}

/// Pairs every value with the unit, in order: a set is a map to the unit.
fn to_unit_entries(values: Vec<String>) -> (r: Vec<(String, ())>)
    ensures
        r@.len() == values@.len(),
        forall|j: int| 0 <= j < values@.len() ==> (#[trigger] r@[j]).0 == values@[j],
{
    let n = values.len();
    let mut r: Vec<(String, ())> = Vec::with_capacity(n);
    let mut j: usize = 0;
    while j < n
        invariant
            n == values@.len(),
            j <= n,
            r@.len() == j,
            forall|t: int| 0 <= t < j ==> (#[trigger] r@[t]).0 == values@[t],
        decreases n - j,
    {
        r.push((values[j].clone(), ()));
        j = j + 1;
    }
    r
}

/// Builds a `PhfSet` from the given values.
///
/// Values must be mutually distinct: duplicates fail with `DuplicateKey`
/// before any hashing; exhausted seed retries fail with
/// `ConstructionFailed`.  On success the set holds exactly the given values.
#[verifier::loop_isolation(false)]
pub fn build_set(values: Vec<String>) -> (r: Result<PhfSet, PhfError>)
    ensures
        match r {
            Ok(s) => {
                &&& s.wf()
                &&& !has_duplicate_value(values@)
                &&& s.map.entries@.len() == values@.len()
                &&& forall|j: int|
                    0 <= j < values@.len() ==> s.spec_contains((#[trigger] values@[j])@)
                &&& forall|k: Seq<char>| #[trigger] s.spec_contains(k) ==> has_value(values@, k)
            },
            Err(e) => (e == PhfError::DuplicateKey && has_duplicate_value(values@)) || (e
                == PhfError::ConstructionFailed && !has_duplicate_value(values@)),
        },
{
    let ghost vals = values@;
    let pairs = to_unit_entries(values);
    proof {
        lemma_unit_entries_dup(vals, pairs@);
    }
    match build_map(pairs) {
        Ok(m) => {
            let s = PhfSet { map: m };
            proof {
                assert forall|j: int| 0 <= j < vals.len() implies s.spec_contains(
                    (#[trigger] vals[j])@,
                ) by {
                    assert(pairs@[j].0@ == vals[j]@);
                }
                assert forall|k: Seq<char>| #[trigger] s.spec_contains(k) implies has_value(
                    vals,
                    k,
                ) by {
                    assert(has_key(pairs@, k));
                    let j = choose|j: int|
                        0 <= j < pairs@.len() && (#[trigger] pairs@[j]).0@ == k;
                    assert(vals[j]@ == k);
                }
            }
            Ok(s)
        },
        Err(e) => Err(e),
    }
}

/// Builds a `PhfOrderedSet` from the given values.
///
/// Like `build_set`, but the values keep their definition order exactly.
#[verifier::loop_isolation(false)]
pub fn build_ordered_set(values: Vec<String>) -> (r: Result<PhfOrderedSet, PhfError>)
    ensures
        match r {
            Ok(s) => {
                &&& s.wf()
                &&& !has_duplicate_value(values@)
                &&& s.map.entries@.len() == values@.len()
                &&& forall|j: int|
                    0 <= j < values@.len() ==> (#[trigger] s.map.entries@[j]).0@ == (values@[
                    j])@
                &&& forall|j: int|
                    0 <= j < values@.len() ==> s.spec_contains((#[trigger] values@[j])@)
                &&& forall|k: Seq<char>| #[trigger] s.spec_contains(k) ==> has_value(values@, k)
            },
            Err(e) => (e == PhfError::DuplicateKey && has_duplicate_value(values@)) || (e
                == PhfError::ConstructionFailed && !has_duplicate_value(values@)),
        },
{
    let ghost vals = values@;
    let pairs = to_unit_entries(values);
    proof {
        lemma_unit_entries_dup(vals, pairs@);
    }
    match build_ordered_map(pairs) {
        Ok(m) => {
            let s = PhfOrderedSet { map: m };
            proof {
                assert forall|j: int| 0 <= j < vals.len() implies s.spec_contains(
                    (#[trigger] vals[j])@,
                ) by {
                    assert(s.map.entries@[j].0@ == vals[j]@);
                }
                assert forall|k: Seq<char>| #[trigger] s.spec_contains(k) implies has_value(
                    vals,
                    k,
                ) by {
                    let j = choose|j: int|
                        0 <= j < s.map.entries@.len() && (#[trigger] s.map.entries@[j]).0@
                            == k;
                    assert(vals[j]@ == k);
                }
            }
            Ok(s)
        },
        Err(e) => Err(e),
    }
}

/// Unit entries carry exactly the duplicate structure of their values.
proof fn lemma_unit_entries_dup(vals: Seq<String>, pairs: Seq<(String, ())>)
    requires
        pairs.len() == vals.len(),
        forall|j: int| 0 <= j < vals.len() ==> (#[trigger] pairs[j]).0 == vals[j],
    ensures
        has_duplicate_key(pairs) == has_duplicate_value(vals),
{
    if has_duplicate_key(pairs) {
        let (i, j) = choose|i: int, j: int|
            0 <= i < j < pairs.len() && (#[trigger] pairs[i]).0@ == (#[trigger] pairs[j]).0@;
        assert(vals[i]@ == vals[j]@);
        assert(has_duplicate_value(vals));
    }
    if has_duplicate_value(vals) {
        let (i, j) = choose|i: int, j: int|
            0 <= i < j < vals.len() && (#[trigger] vals[i])@ == (#[trigger] vals[j])@;
        assert(pairs[i].0@ == pairs[j].0@);
        assert(has_duplicate_key(pairs));
    }
}

/// The `g` index of key `j`, as the model reads it.
pub open spec fn g_of(keys: Seq<String>, seed: u64, j: int) -> int {
    spec_hash(keys[j]@, seed).0 as int
}

/// The positions below `n` that satisfy `pred`, in increasing order.
pub open spec fn picks(n: int, pred: spec_fn(int) -> bool) -> Seq<usize>
    decreases n,
{
    if n <= 0 {
        Seq::empty()
    } else if pred(n - 1) {
        picks(n - 1, pred).push((n - 1) as usize)
    } else {
        picks(n - 1, pred)
    }
}

/// Model of one bucket, cut off after the first `n` keys: the positions
/// whose `g` index lands on bucket `b`, in increasing order.
pub open spec fn bucket_model_upto(
    keys: Seq<String>,
    seed: u64,
    nb: int,
    b: int,
    n: int,
) -> Seq<usize> {
    picks(n, |j: int| g_of(keys, seed, j) % nb == b)
}

/// Model of one bucket over all keys.
pub open spec fn bucket_model(keys: Seq<String>, seed: u64, nb: int, b: int) -> Seq<usize> {
    bucket_model_upto(keys, seed, nb, b, keys.len() as int)
}

/// The bucket sizes, in bucket order.
pub open spec fn lens_of(keys: Seq<String>, seed: u64, nb: int) -> Seq<int> {
    Seq::new(nb as nat, |b: int| bucket_model(keys, seed, nb, b).len() as int)
}

/// The buckets of size exactly `s` among the first `b` buckets, ascending.
pub open spec fn group_model_upto(lens: Seq<int>, s: int, b: int) -> Seq<usize> {
    picks(b, |bb: int| lens[bb] == s)
}

/// The buckets of size exactly `s`, ascending.
pub open spec fn group_model(lens: Seq<int>, s: int) -> Seq<usize> {
    group_model_upto(lens, s, lens.len() as int)
}

/// The processing order from size `s` downward: size groups in descending
/// size, ascending bucket index within a group.
pub open spec fn order_from(lens: Seq<int>, s: int) -> Seq<usize>
    decreases s + 1,
{
    if s < 0 {
        Seq::empty()
    } else {
        group_model(lens, s) + order_from(lens, s - 1)
    }
}

/// A size group over sizes nothing reaches is empty.
proof fn lemma_group_upto_empty(lens: Seq<int>, s: int, b: int)
    requires
        forall|bb: int| 0 <= bb < b ==> #[trigger] lens[bb] != s,
    ensures
        group_model_upto(lens, s, b) == Seq::<usize>::empty(),
    decreases b,
{
    if b > 0 {
        lemma_group_upto_empty(lens, s, b - 1);
    }
}

/// Starting the order walk above every bucket size changes nothing: the
/// higher groups are empty.
proof fn lemma_order_from_high(lens: Seq<int>, s: int, cap: int)
    requires
        0 <= cap <= s,
        forall|b: int| 0 <= b < lens.len() ==> #[trigger] lens[b] <= cap,
    ensures
        order_from(lens, s) == order_from(lens, cap),
    decreases s - cap,
{
    if s > cap {
        lemma_group_upto_empty(lens, s, lens.len() as int);
        assert(group_model(lens, s) + order_from(lens, s - 1) =~= order_from(lens, s - 1));
        lemma_order_from_high(lens, s - 1, cap);
    }
}

/// The slot of each member of `bucket` under the candidate pair `(d1, d2)`.
pub open spec fn slots_model(
    keys: Seq<String>,
    seed: u64,
    n: int,
    bucket: Seq<usize>,
    d1: u32,
    d2: u32,
) -> Seq<usize> {
    Seq::new(
        bucket.len(),
        |t: int| pair_slot(spec_hash(keys[bucket[t] as int]@, seed), d1, d2, n) as usize,
    )
}

/// Whether the candidate pair sends every bucket member to a free slot, all
/// mutually distinct.
pub open spec fn pair_fits(
    keys: Seq<String>,
    seed: u64,
    n: int,
    occ: Seq<bool>,
    bucket: Seq<usize>,
    d1: u32,
    d2: u32,
) -> bool {
    let slots = slots_model(keys, seed, n, bucket, d1, d2);
    &&& forall|t: int| 0 <= t < slots.len() ==> !occ[(#[trigger] slots[t]) as int]
    &&& forall|t1: int, t2: int| 0 <= t1 < t2 < slots.len() ==> slots[t1] != slots[t2]
}

/// The first candidate index in `t .. limit` whose pair fits, scanning pairs
/// in the order `(t / dmax, t % dmax)`.
pub open spec fn first_fit(
    keys: Seq<String>,
    seed: u64,
    n: int,
    occ: Seq<bool>,
    bucket: Seq<usize>,
    dmax: int,
    limit: int,
    t: int,
) -> Option<int>
    decreases limit - t,
{
    if t < 0 || t >= limit {
        None
    } else if pair_fits(keys, seed, n, occ, bucket, (t / dmax) as u32, (t % dmax) as u32) {
        Some(t)
    } else {
        first_fit(keys, seed, n, occ, bucket, dmax, limit, t + 1)
    }
}

/// The occupancy after a bucket claims the first `t` of its `slots`.
pub open spec fn occ_after(occ: Seq<bool>, slots: Seq<usize>, t: int) -> Seq<bool>
    decreases t,
{
    if t <= 0 {
        occ
    } else {
        occ_after(occ, slots, t - 1).update(slots[t - 1] as int, true)
    }
}

/// The slot map after a bucket claims the first `t` of its `slots` for its
/// members.
pub open spec fn pos_after(pos: Seq<usize>, bucket: Seq<usize>, slots: Seq<usize>, t: int) -> Seq<
    usize,
>
    decreases t,
{
    if t <= 0 {
        pos
    } else {
        pos_after(pos, bucket, slots, t - 1).update(slots[t - 1] as int, bucket[t - 1])
    }
}

/// The rest of one attempt, from position `t` of the processing order on.
pub open spec fn run_from(
    keys: Seq<String>,
    seed: u64,
    n: int,
    nb: int,
    dmax: int,
    limit: int,
    order: Seq<usize>,
    t: int,
    disps: Seq<(u32, u32)>,
    occ: Seq<bool>,
    pos: Seq<usize>,
) -> Option<(Seq<(u32, u32)>, Seq<usize>)>
    decreases order.len() - t,
{
    if t < 0 || t >= order.len() {
        Some((disps, pos))
    } else {
        let b = order[t] as int;
        let bucket = bucket_model(keys, seed, nb, b);
        match first_fit(keys, seed, n, occ, bucket, dmax, limit, 0) {
            None => None,
            Some(c) => {
                let d1 = (c / dmax) as u32;
                let d2 = (c % dmax) as u32;
                let slots = slots_model(keys, seed, n, bucket, d1, d2);
                run_from(
                    keys,
                    seed,
                    n,
                    nb,
                    dmax,
                    limit,
                    order,
                    t + 1,
                    disps.update(b, (d1, d2)),
                    occ_after(occ, slots, slots.len() as int),
                    pos_after(pos, bucket, slots, bucket.len() as int),
                )
            },
        }
    }
}

/// The bucket count for `n` entries: about one bucket per `LAMBDA` entries.
pub open spec fn spec_nbuckets(n: int) -> int {
    (n - 1) / (LAMBDA as int) + 1
}

/// The exclusive bound of the candidate displacement values for `n` entries.
pub open spec fn spec_dmax(n: int) -> int {
    if n < 16 {
        16
    } else if n > 0x100000 {
        0x100000
    } else {
        n
    }
}

/// The bounded per-bucket search budget for `n` entries.
pub open spec fn spec_budget_of(n: int) -> int {
    let ncap = if n > 0xffff_ffff {
        0xffff_ffff
    } else {
        n
    };
    let full = spec_dmax(n) * spec_dmax(n);
    let cap = 8 * ncap + 100_000;
    if full < cap {
        full
    } else {
        cap
    }
}

/// How many candidate pairs one bucket may scan: the whole pair space or the
/// budget, whichever ends first.
pub open spec fn spec_scan_limit(n: int) -> int {
    let full = spec_dmax(n) * spec_dmax(n);
    if spec_budget_of(n) < full {
        spec_budget_of(n)
    } else {
        full
    }
}

/// One whole construction attempt under `seed`, as a function of the keys
/// alone: the table the bounded greedy search emits, or `None` when some
/// bucket exhausts its scan.
pub open spec fn spec_attempt(keys: Seq<String>, seed: u64) -> Option<
    (Seq<(u32, u32)>, Seq<usize>),
>
    recommends
        keys.len() > 0,
{
    let n = keys.len() as int;
    let nb = spec_nbuckets(n);
    run_from(
        keys,
        seed,
        n,
        nb,
        spec_dmax(n),
        spec_scan_limit(n),
        order_from(lens_of(keys, seed, nb), n),
        0,
        Seq::new(nb as nat, |b: int| (0u32, 0u32)),
        Seq::new(n as nat, |s: int| false),
        Seq::new(n as nat, |s: int| 0usize),
    )
}

/// Whether one attempt under `seed` fails.
pub open spec fn spec_attempt_fails(keys: Seq<String>, seed: u64) -> bool {
    spec_attempt(keys, seed) is None
}

/// The seed of attempt `a`: `FIRST_SEED` advanced `a` times.
pub open spec fn spec_seed_at(a: int) -> u64
    decreases a,
{
    if a <= 0 {
        FIRST_SEED
    } else {
        spec_next_seed(spec_seed_at(a - 1))
    }
}

/// The keys of the entries, in order.
pub open spec fn keys_of<V>(entries: Seq<(String, V)>) -> Seq<String> {
    entries.map_values(|e: (String, V)| e.0)
}

} // verus!
