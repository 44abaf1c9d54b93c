//! The arithmetic of the sieve: coprimality against a list of known primes,
//! candidates in a range, filtering by a page of primes, partitions of a
//! range and the safe upper bound of a pass.
use vstd::prelude::*;
use vstd::string::StringExecFns;
use crate::errors::MathError;
use crate::partition::Partition;
use vstd::arithmetic::div_mod::{
    lemma_fundamental_div_mod, lemma_mod_bound, lemma_mod_multiples_basic,
};

verus! {

/// The largest value for which coprimality is tested; squaring is refused
/// from this value on.
pub const SAFE_MAX: u64 = 4294967295;

/// `d` divides `n`.
pub open spec fn divides(d: int, n: int) -> bool {
    d != 0 && n % d == 0
}

/// `p` exceeds `⌊√n⌋ + 1`, past which a scan for a divisor of `n` stops.
pub open spec fn beyond_root(p: int, n: int) -> bool {
    p >= 1 && (p - 1) * (p - 1) > n
}

/// Whether `n` passes the scan of `list`: no entry divides `n` unless an
/// entry at or before it already lies beyond the root bound of `n`.
pub open spec fn coprime_to_list(n: int, list: Seq<u64>) -> bool {
    forall|i: int|
        0 <= i < list.len() && #[trigger] divides(list[i] as int, n) ==> exists|j: int|
            0 <= j <= i && #[trigger] beyond_root(list[j] as int, n)
}

/// The predicate that keeps a candidate against `list`.
pub open spec fn passes(list: Seq<u64>) -> spec_fn(u64) -> bool {
    |n: u64| coprime_to_list(n as int, list)
}

/// The integers `lo, lo + 1, ..., hi - 1`.
pub open spec fn range_seq(lo: int, hi: int) -> Seq<u64> {
    Seq::new((if hi > lo { hi - lo } else { 0 }) as nat, |i: int| (lo + i) as u64)
}

/// The values of `[lo, hi)` that pass the scan of `list`, ascending.
pub open spec fn candidates_in(list: Seq<u64>, lo: int, hi: int) -> Seq<u64> {
    range_seq(lo, hi).filter(passes(list))
}

/// No value of `[from, from + delta)` exceeds the safe maximum.
pub open spec fn range_is_safe(from: int, delta: int) -> bool {
    delta == 0 || from + delta - 1 <= SAFE_MAX
}

/// Every value of `s` is at most the safe maximum.
pub open spec fn all_safe(s: Seq<u64>) -> bool {
    forall|i: int| 0 <= i < s.len() ==> #[trigger] s[i] <= SAFE_MAX
}

/// The size of each full partition: `⌈distance / parts⌉`.
pub open spec fn chunk_size(distance: int, parts: int) -> int {
    if parts <= 0 {
        0
    } else {
        distance / parts + if distance % parts == 0 {
            0int
        } else {
            1int
        }
    }
}

/// Partition number `k` of `[from, to)` split into `parts`: full chunks
/// first, the last one cut to what remains, `None` once nothing remains.
pub open spec fn partition_at(from: int, to: int, parts: int, k: int) -> Option<Partition> {
    let delta = chunk_size(to - from, parts);
    let start = k * delta;
    if start < to - from {
        Some(
            Partition {
                from: (from + start) as usize,
                delta: (if delta <= to - from - start {
                    delta
                } else {
                    to - from - start
                }) as usize,
            },
        )
    } else {
        None
    }
}

/// The whole partitioning of `[from, to)` into `parts`.
pub open spec fn partitioning(from: int, to: int, parts: int) -> Seq<Option<Partition>> {
    Seq::new(parts as nat, |k: int| partition_at(from, to, parts, k))
}

/// `p` is a partition with work that holds `x`.
pub open spec fn holds_value(p: Option<Partition>, x: int) -> bool {
    p matches Some(q) && q.from <= x < q.end()
}

/// Some partition of `ps` holds `x`.
pub open spec fn covered_by(ps: Seq<Option<Partition>>, x: int) -> bool {
    exists|k: int| 0 <= k < ps.len() && #[trigger] holds_value(ps[k], x)
}

/// The bound of a pass: `min(last², max)`, or `None` where the square is refused.
pub open spec fn max_for_sieve(last: u64, max: u64) -> Option<u64> {
    if last < SAFE_MAX {
        if last * last <= max {
            Some((last * last) as u64)
        } else {
            Some(max)
        }
    } else {
        None
    }
}

/// Squaring that refuses values whose square leaves the safe range.
pub trait CheckedSquare: Sized {
    /// What `checked_square` returns on `self`.
    spec fn checked_square_spec(self) -> Option<u64>;

    fn checked_square(self) -> (r: Option<u64>)
        ensures
            r == self.checked_square_spec(),
    ;
}

impl CheckedSquare for u64 {
    /// `Some(self²)` when `self` is below the 32-bit maximum, else `None`.
    open spec fn checked_square_spec(self) -> Option<u64> {
        if self < SAFE_MAX {
            Some((self * self) as u64)
        } else {
            None
        }
    }

    fn checked_square(self) -> (r: Option<u64>) {
        if self < SAFE_MAX {
            proof {
                assert(self * self <= SAFE_MAX * SAFE_MAX) by (nonlinear_arith)
                    requires
                        self < SAFE_MAX,
                ;
            }
            Some(self * self)
        } else {
            None
        }
    }
}

/// The bootstrap list of known primes.
pub fn init_primes() -> (r: Vec<u64>)
    ensures
        r@ == seq![2u64, 3, 5, 7, 11],
{
    let r: Vec<u64> = vec![2, 3, 5, 7, 11];
    assert(r@ =~= seq![2u64, 3, 5, 7, 11]);
    r
}

fn limit_error() -> (e: MathError) {
    MathError::Limit(String::from_str("the number is too big for an effective co-primality check"))
}

/// Whether `n` is not a multiple of `c`.
fn is_coprime(n: u64, c: u64) -> (r: bool)
    requires
        c != 0,
    ensures
        r == !divides(c as int, n as int),
{
    !(n % c == 0)
}

/// Whether `p` exceeds `⌊√n⌋ + 1`.
fn is_beyond_root(p: u64, n: u64) -> (r: bool)
    requires
        p != 0,
    ensures
        r == beyond_root(p as int, n as int),
{
    let q = p - 1;
    if q > SAFE_MAX {
        assert(q * q > n) by (nonlinear_arith)
            requires
                q > SAFE_MAX,
                n <= u64::MAX,
        ;
        true
    } else {
        assert(q * q <= SAFE_MAX * SAFE_MAX) by (nonlinear_arith)
            requires
                q <= SAFE_MAX,
        ;
        q * q > n
    }
}

/// Scans `list` in order for a divisor of `n`, stopping at the first entry
/// beyond `⌊√n⌋ + 1`; fails where `n` exceeds the safe maximum. A zero
/// entry divides nothing.
fn is_coprime_to_list(n: u64, list: &Vec<u64>) -> (r: Result<bool, MathError>)
    ensures
        r is Err <==> n > SAFE_MAX,
        r matches Ok(b) ==> b == coprime_to_list(n as int, list@),
{
    if n > SAFE_MAX {
        return Err(limit_error());
    }
    let mut i: usize = 0;
    while i < list.len()
        invariant
            n <= SAFE_MAX,
            i <= list.len(),
            forall|j: int|
                0 <= j < i ==> !beyond_root(#[trigger] list@[j] as int, n as int) && !divides(
                    list@[j] as int,
                    n as int,
                ),
        decreases list.len() - i,
    {
        let p = list[i];
        if p != 0 {
            if is_beyond_root(p, n) {
                assert forall|k: int|
                    0 <= k < list@.len() && #[trigger] divides(
                        list@[k] as int,
                        n as int,
                    ) implies exists|j: int|
                    0 <= j <= k && #[trigger] beyond_root(list@[j] as int, n as int) by {
                    assert(beyond_root(list@[i as int] as int, n as int));
                }
                return Ok(true);
            } else if !is_coprime(n, p) {
                assert(!coprime_to_list(n as int, list@)) by {
                    if exists|j: int|
                        0 <= j <= i && #[trigger] beyond_root(list@[j] as int, n as int) {
                        let j = choose|j: int|
                            0 <= j <= i && #[trigger] beyond_root(list@[j] as int, n as int);
                        assert(j < i || j == i);
                    }
                }
                return Ok(false);
            }
        }
        i = i + 1;
    }
    Ok(true)
}

/// The values of `part` that pass the scan of `init_primes`, ascending;
/// fails where the range holds a value beyond the safe maximum.
pub fn find_candidates(init_primes: &Vec<u64>, part: Partition) -> (r: Result<Vec<u64>, MathError>)
    ensures
        r is Ok <==> range_is_safe(part.from as int, part.delta as int),
        r matches Ok(v) ==> v@ == candidates_in(init_primes@, part.from as int, part.end()),
{
    let mut candidates: Vec<u64> = Vec::new();
    let mut p: u64 = part.from as u64;
    let mut left: usize = part.delta;
    while left > 0
        invariant
            part.from <= p,
            p + left == part.end(),
            range_is_safe(part.from as int, p - part.from),
            candidates@ == candidates_in(init_primes@, part.from as int, p as int),
        decreases left,
    {
        let ok = is_coprime_to_list(p, init_primes);
        match ok {
            Ok(keep) => {
                proof {
                    let lo = part.from as int;
                    assert(range_seq(lo, p + 1) =~= range_seq(lo, p as int).push(p));
                    range_seq(lo, p as int).lemma_filter_push(p, passes(init_primes@));
                }
                if keep {
                    candidates.push(p);
                }
            },
            Err(e) => {
                return Err(e);
            },
        }
        p = p + 1;
        left = left - 1;
    }
    Ok(candidates)
}

/// The candidates that pass the scan of `primes_page`, in their order;
/// fails where a candidate exceeds the safe maximum.
pub fn sieve_page(primes_page: &Vec<u64>, candidates: &Vec<u64>) -> (r: Result<Vec<u64>, MathError>)
    ensures
        r is Ok <==> all_safe(candidates@),
        r matches Ok(v) ==> v@ == candidates@.filter(passes(primes_page@)),
{
    let mut sieved: Vec<u64> = Vec::new();
    let mut i: usize = 0;
    while i < candidates.len()
        invariant
            i <= candidates.len(),
            forall|j: int| 0 <= j < i ==> #[trigger] candidates@[j] <= SAFE_MAX,
            sieved@ == candidates@.take(i as int).filter(passes(primes_page@)),
        decreases candidates.len() - i,
    {
        let p = candidates[i];
        let ok = is_coprime_to_list(p, primes_page);
        proof {
            assert(candidates@.take(i + 1) =~= candidates@.take(i as int).push(p));
            candidates@.take(i as int).lemma_filter_push(p, passes(primes_page@));
        }
        match ok {
            Ok(keep) => {
                if keep {
                    sieved.push(p);
                }
            },
            Err(e) => {
                return Err(e);
            },
        }
        i = i + 1;
    }
    assert(candidates@.take(i as int) =~= candidates@);
    Ok(sieved)
}

/// Splits `[from, to)` into `parts` contiguous partitions of `⌈(to - from) / parts⌉`
/// values each, front-loaded: the partition that would pass `to` is cut to
/// the remainder, and those past the end are `None`.
pub fn best_partitioning(from: usize, to: usize, parts: usize) -> (r: Vec<Option<Partition>>)
    requires
        from <= to,
    ensures
        r@ == partitioning(from as int, to as int, parts as int),
{
    let mut partitions: Vec<Option<Partition>> = Vec::new();
    if parts == 0 {
        assert(partitions@ =~= partitioning(from as int, to as int, parts as int));
        return partitions;
    }
    let distance = to - from;
    let extra: usize = if distance % parts == 0 {
        0
    } else {
        1
    };
    assert(distance / parts + extra <= usize::MAX) by (nonlinear_arith)
        requires
            parts >= 1,
            distance <= usize::MAX,
            extra == 1 ==> distance % parts != 0,
            extra <= 1,
    ;
    let delta = distance / parts + extra;
    assert(delta == chunk_size(distance as int, parts as int));
    let mut remaining = distance;
    let mut cursor = from;
    let mut part: usize = 0;
    while part < parts
        invariant
            from <= to,
            distance == to - from,
            delta == chunk_size(distance as int, parts as int),
            part <= parts,
            remaining <= distance,
            cursor == from + (distance - remaining),
            part * delta < distance ==> remaining == distance - part * delta,
            part * delta >= distance ==> remaining == 0,
            partitions@ =~= partitioning(from as int, to as int, parts as int).take(part as int),
        decreases parts - part,
    {
        let ghost k = part as int;
        assert((k + 1) * delta == k * delta + delta) by (nonlinear_arith);
        assert(k * delta >= 0) by (nonlinear_arith)
            requires
                k >= 0,
                delta >= 0,
        ;
        if remaining == 0 {
            partitions.push(None);
        } else if remaining < delta {
            partitions.push(Some(Partition { from: cursor, delta: remaining }));
            cursor = cursor + remaining;
            remaining = 0;
        } else {
            partitions.push(Some(Partition { from: cursor, delta: delta }));
            cursor = cursor + delta;
            remaining = remaining - delta;
        }
        part = part + 1;
        assert(partitions@[k] == partition_at(from as int, to as int, parts as int, k));
    }
    partitions
}

/// The bound of a pass: `min(last_prime², max)`; fails where `last_prime`
/// is at or beyond the safe maximum, whose square is refused.
pub fn best_max_for_sieve(last_prime: u64, max: u64) -> (r: Result<u64, MathError>)
    ensures
        r is Err <==> last_prime >= SAFE_MAX,
        r matches Ok(b) ==> max_for_sieve(last_prime, max) == Some(b),
{
    if last_prime < SAFE_MAX {
        assert(last_prime * last_prime <= SAFE_MAX * SAFE_MAX) by (nonlinear_arith)
            requires
                last_prime < SAFE_MAX,
        ;
    }
    if let Some(theo_limit) = last_prime.checked_square() {
        if theo_limit <= max {
            Ok(theo_limit)
        } else {
            Ok(max)
        }
    } else {
        Err(MathError::Limit(String::from_str("could not calculate the square of a prime")))
    }
}

/// Partitioning `[from, to)`, with `from < to`, into one or more parts
/// covers the range exactly: each partition that has work is non-empty,
/// the partitions follow one another without gap or overlap, the first
/// starts at `from`, those without work come only after all that have
/// work, and a value lies in some partition exactly when it lies in
/// `[from, to)`.
pub proof fn lemma_partitioning_covers(from: usize, to: usize, parts: usize)
    requires
        from < to,
        parts >= 1,
    ensures
        ({
            let ps = partitioning(from as int, to as int, parts as int);
            &&& ps.len() == parts
            &&& ps[0] matches Some(p0) && p0.from == from
            &&& forall|k: int| 0 <= k < parts && #[trigger] ps[k] is Some ==> ps[k]->Some_0.delta > 0
            &&& forall|k: int, l: int|
                0 <= k < l < parts && #[trigger] ps[l] is Some ==> #[trigger] ps[k] is Some
                    && ps[k]->Some_0.end() <= ps[l]->Some_0.from
            &&& forall|k: int|
                0 <= k && k + 1 < parts && #[trigger] ps[k + 1] is Some ==> ps[k]->Some_0.end()
                    == ps[k + 1]->Some_0.from
            &&& forall|x: int| #[trigger] covered_by(ps, x) <==> from <= x < to
        }),
{
    let ps = partitioning(from as int, to as int, parts as int);
    let d: int = to - from;
    let n: int = parts as int;
    let delta = chunk_size(d, n);
    lemma_fundamental_div_mod(d, n);
    lemma_mod_bound(d, n);
    assert(d <= delta * n) by (nonlinear_arith)
        requires
            d == n * (d / n) + d % n,
            0 <= d % n < n,
            delta == d / n + if d % n == 0 {
                0int
            } else {
                1int
            },
    ;
    assert(delta >= 1) by (nonlinear_arith)
        requires
            d <= delta * n,
            d >= 1,
            n >= 1,
    ;
    assert forall|k: int, l: int|
        0 <= k < l < parts && #[trigger] ps[l] is Some implies #[trigger] ps[k] is Some
            && ps[k]->Some_0.end() <= ps[l]->Some_0.from by {
        assert(k * delta + delta <= l * delta) by (nonlinear_arith)
            requires
                k < l,
                delta >= 1,
        ;
        assert(0 <= k * delta) by (nonlinear_arith)
            requires
                0 <= k,
                delta >= 1,
        ;
    }
    assert forall|k: int|
        0 <= k && k + 1 < parts && #[trigger] ps[k + 1] is Some implies ps[k]->Some_0.end()
            == ps[k + 1]->Some_0.from by {
        assert((k + 1) * delta == k * delta + delta) by (nonlinear_arith);
        assert(0 <= k * delta) by (nonlinear_arith)
            requires
                0 <= k,
                delta >= 1,
        ;
    }
    assert forall|x: int| #[trigger] covered_by(ps, x) <==> from <= x < to by {
        if from <= x < to {
            let k = (x - from) / delta;
            lemma_fundamental_div_mod(x - from, delta);
            lemma_mod_bound(x - from, delta);
            assert(0 <= k) by (nonlinear_arith)
                requires
                    k == (x - from) / delta,
                    x - from >= 0,
                    delta >= 1,
            ;
            assert(k * delta <= x - from < k * delta + delta) by (nonlinear_arith)
                requires
                    x - from == delta * k + (x - from) % delta,
                    0 <= (x - from) % delta < delta,
            ;
            assert(k < n) by (nonlinear_arith)
                requires
                    k * delta <= x - from,
                    x - from < d,
                    d <= delta * n,
                    delta >= 1,
            ;
            assert(holds_value(ps[k], x));
        }
        if covered_by(ps, x) {
            let k = choose|k: int| 0 <= k < ps.len() && #[trigger] holds_value(ps[k], x);
            assert(0 <= k * delta) by (nonlinear_arith)
                requires
                    0 <= k,
                    delta >= 1,
            ;
        }
    }
}

/// Filtering a sequence whose values all pass `pred` leaves it unchanged.
proof fn lemma_filter_all_pass(s: Seq<u64>, pred: spec_fn(u64) -> bool)
    requires
        forall|i: int| 0 <= i < s.len() ==> pred(#[trigger] s[i]),
    ensures
        s.filter(pred) == s,
    decreases s.len(),
{
    reveal(Seq::filter);
    if s.len() > 0 {
        lemma_filter_all_pass(s.drop_last(), pred);
        assert(s.drop_last().push(s.last()) =~= s);
    }
}

/// Sieving again by the same page changes nothing; and a candidate that
/// the page excluded is never brought back by sieving, by that page, any
/// candidates that include it.
pub proof fn lemma_sieve_idempotent(page: Seq<u64>, candidates: Seq<u64>, more: Seq<u64>, x: u64)
    ensures
        candidates.filter(passes(page)).filter(passes(page)) == candidates.filter(passes(page)),
        candidates.contains(x) && !candidates.filter(passes(page)).contains(x) ==> !more.filter(
            passes(page),
        ).contains(x),
{
    let pred = passes(page);
    let kept = candidates.filter(pred);
    assert forall|i: int| 0 <= i < kept.len() implies pred(#[trigger] kept[i]) by {
        candidates.lemma_filter_pred(pred, i);
    }
    lemma_filter_all_pass(kept, pred);
    if candidates.contains(x) && !kept.contains(x) {
        let i = choose|i: int| 0 <= i < candidates.len() && candidates[i] == x;
        if pred(x) {
            candidates.lemma_filter_contains(pred, i);
        }
        if more.filter(pred).contains(x) {
            let j = choose|j: int| 0 <= j < more.filter(pred).len() && more.filter(pred)[j] == x;
            more.lemma_filter_pred(pred, j);
        }
    }
}

/// `p` is prime.
pub open spec fn is_prime(p: int) -> bool {
    p >= 2 && forall|d: int| 2 <= d < p ==> #[trigger] (p % d) != 0
}

/// `list` is strictly ascending, its entries are at least 2, and it holds
/// every prime up to its last entry: the known primes, as they grow from the
/// bootstrap list.
pub open spec fn is_prime_prefix(list: Seq<u64>) -> bool {
    &&& forall|i: int, j: int| 0 <= i < j < list.len() ==> #[trigger] list[i] < #[trigger] list[j]
    &&& forall|i: int| 0 <= i < list.len() ==> #[trigger] list[i] >= 2
    &&& forall|p: int|
        #[trigger] is_prime(p) && list.len() > 0 && p <= list.last() ==> exists|i: int|
            0 <= i < list.len() && list[i] == p
}

/// The least divisor of `n` that is at least `k`, or `n`.
spec fn least_divisor_from(n: int, k: int) -> int
    decreases n - k,
{
    if k >= n {
        n
    } else if n % k == 0 {
        k
    } else {
        least_divisor_from(n, k + 1)
    }
}

proof fn lemma_least_divisor(n: int, k: int)
    requires
        2 <= k <= n,
    ensures
        k <= least_divisor_from(n, k) <= n,
        n % least_divisor_from(n, k) == 0,
        forall|d: int| k <= d < least_divisor_from(n, k) ==> #[trigger] (n % d) != 0,
    decreases n - k,
{
    if k < n && n % k != 0 {
        lemma_least_divisor(n, k + 1);
    }
    if k >= n {
        assert(n % n == 0) by (nonlinear_arith)
            requires
                n >= 2,
        ;
    }
}

/// A multiple of a multiple of `e` is a multiple of `e`.
proof fn lemma_divides_transitive(e: int, q: int, n: int)
    requires
        e >= 1,
        q >= 1,
        n >= 0,
        q % e == 0,
        n % q == 0,
    ensures
        n % e == 0,
{
    lemma_fundamental_div_mod(n, q);
    lemma_fundamental_div_mod(q, e);
    let a = n / q;
    let b = q / e;
    assert(n == e * (b * a)) by (nonlinear_arith)
        requires
            n == q * a,
            q == e * b,
    ;
    lemma_mod_multiples_basic(b * a, e);
    assert(e * (b * a) == (b * a) * e) by (nonlinear_arith);
}

/// The least divisor of `n` that is at least 2 is prime, is at most every
/// divisor of `n` from 2 on, and its square is at most `n` where `n` has a
/// divisor other than 1 and itself.
proof fn lemma_least_prime_factor(n: int, d: int)
    requires
        2 <= d < n,
        n % d == 0,
    ensures
        is_prime(least_divisor_from(n, 2)),
        least_divisor_from(n, 2) <= d,
        least_divisor_from(n, 2) * least_divisor_from(n, 2) <= n,
{
    let q = least_divisor_from(n, 2);
    lemma_least_divisor(n, 2);
    assert forall|e: int| 2 <= e < q implies #[trigger] (q % e) != 0 by {
        if q % e == 0 {
            lemma_divides_transitive(e, q, n);
        }
    }
    lemma_fundamental_div_mod(n, q);
    let m = n / q;
    assert(n == q * m);
    assert(m >= 2) by (nonlinear_arith)
        requires
            n == q * m,
            q <= d < n,
            q >= 2,
    ;
    assert(m <= n) by (nonlinear_arith)
        requires
            n == q * m,
            q >= 2,
            m >= 2,
    ;
    lemma_mod_multiples_basic(q, m);
    assert(n % m == 0) by {
        assert(q * m == n);
    }
    assert(q <= m);
    assert(q * q <= n) by (nonlinear_arith)
        requires
            n == q * m,
            q <= m,
            q >= 2,
    ;
}

/// The scan is exact against the known primes. A value that the scan of
/// `list` excludes has a divisor in `list`. A nonzero value that passes it
/// has no divisor in `list` but possibly itself, where `list` holds the
/// primes up to its last entry in ascending order. Both hold of every
/// candidate that sieving `candidates` by `list` keeps or drops, and so of
/// what `sieve_page` and `find_candidates` return.
pub proof fn lemma_scan_exact(list: Seq<u64>, candidates: Seq<u64>, x: u64)
    ensures
        candidates.contains(x) && !candidates.filter(passes(list)).contains(x) ==> exists|i: int|
            0 <= i < list.len() && #[trigger] divides(list[i] as int, x as int),
        is_prime_prefix(list) && x != 0 && candidates.filter(passes(list)).contains(x) ==> forall|
            i: int,
        |
            0 <= i < list.len() && #[trigger] divides(list[i] as int, x as int) ==> list[i] == x,
{
    let pred = passes(list);
    let kept = candidates.filter(pred);
    if candidates.contains(x) && !kept.contains(x) {
        let i = choose|i: int| 0 <= i < candidates.len() && candidates[i] == x;
        if pred(x) {
            candidates.lemma_filter_contains(pred, i);
        }
    }
    if is_prime_prefix(list) && x != 0 && kept.contains(x) {
        let j = choose|j: int| 0 <= j < kept.len() && kept[j] == x;
        candidates.lemma_filter_pred(pred, j);
        assert forall|i: int|
            0 <= i < list.len() && #[trigger] divides(list[i] as int, x as int) implies list[i]
            == x by {
            if list[i] != x {
                lemma_prefix_is_page(list, x as int);
                lemma_passing_has_no_proper_divisor(list, x as int, i);
            }
        }
    }
}

/// `list` is a page of known primes: strictly ascending, its entries at
/// least 2, and holding every prime from its first entry to its last.
pub open spec fn is_prime_page(list: Seq<u64>) -> bool {
    &&& forall|i: int, j: int| 0 <= i < j < list.len() ==> #[trigger] list[i] < #[trigger] list[j]
    &&& forall|i: int| 0 <= i < list.len() ==> #[trigger] list[i] >= 2
    &&& list.len() > 0
    &&& forall|p: int|
        #[trigger] is_prime(p) && list[0] <= p <= list.last() ==> exists|i: int|
            0 <= i < list.len() && list[i] == p
}

/// No prime below `b` divides `n`: the earlier pages were applied to `n`.
pub open spec fn free_below(n: int, b: int) -> bool {
    forall|q: int| #[trigger] is_prime(q) && q < b ==> n % q != 0
}

/// On a page of known primes, no entry is a divisor of a nonzero `n` that
/// passes the scan and that no smaller prime divides, other than `n` itself.
proof fn lemma_passing_has_no_proper_divisor(list: Seq<u64>, n: int, i: int)
    requires
        is_prime_page(list),
        free_below(n, list[0] as int),
        n >= 1,
        coprime_to_list(n, list),
        0 <= i < list.len(),
        list[i] != n,
    ensures
        !divides(list[i] as int, n),
{
    if divides(list[i] as int, n) {
        let d = list[i] as int;
        assert(d <= n) by (nonlinear_arith)
            requires
                n % d == 0,
                n >= 1,
                d >= 2,
        ;
        lemma_least_prime_factor(n, d);
        let q = least_divisor_from(n, 2);
        lemma_least_divisor(n, 2);
        assert(list[i] <= list.last()) by {
            if i < list.len() - 1 {
                assert(list[i] < list[list.len() - 1]);
            }
        }
        assert(is_prime(q));
        assert(q >= list[0]);
        let m = choose|m: int| 0 <= m < list.len() && list[m] == q;
        assert(divides(list[m] as int, n));
        let j = choose|j: int| 0 <= j <= m && #[trigger] beyond_root(list[j] as int, n);
        let a = list[j] as int;
        assert(a <= q) by {
            if j < m {
                assert(list[j] < list[m]);
            }
        }
        assert((a - 1) * (a - 1) <= n) by (nonlinear_arith)
            requires
                2 <= a <= q,
                q * q <= n,
        ;
    }
}

/// A list that holds the primes up to its last entry is a page that starts
/// at 2, below which there is no prime.
proof fn lemma_prefix_is_page(list: Seq<u64>, n: int)
    requires
        is_prime_prefix(list),
        list.len() > 0,
    ensures
        is_prime_page(list),
        list[0] == 2,
        free_below(n, 2),
{
    assert(is_prime(2)) by {
        assert forall|d: int| 2 <= d < 2 implies #[trigger] (2int % d) != 0 by {}
    }
    assert(list[0] >= 2);
    assert(2 <= list.last()) by {
        assert(list[list.len() - 1] >= 2);
    }
    let i = choose|i: int| 0 <= i < list.len() && list[i] == 2;
    if i > 0 {
        assert(list[0] < list[i]);
    }
}

/// The scan is exact against a page of known primes applied after the
/// smaller primes. A nonzero candidate that no prime below the page
/// divides, and that sieving by the page keeps, has no divisor in the page
/// but possibly itself. So it is of what `sieve_page` keeps of candidates
/// that the earlier pages already sieved.
pub proof fn lemma_page_scan_exact(page: Seq<u64>, candidates: Seq<u64>, x: u64)
    ensures
        is_prime_page(page) && x != 0 && free_below(x as int, page[0] as int)
            && candidates.filter(passes(page)).contains(x) ==> forall|i: int|
            0 <= i < page.len() && #[trigger] divides(page[i] as int, x as int) ==> page[i] == x,
{
    let pred = passes(page);
    let kept = candidates.filter(pred);
    if is_prime_page(page) && x != 0 && free_below(x as int, page[0] as int) && kept.contains(x) {
        let j = choose|j: int| 0 <= j < kept.len() && kept[j] == x;
        candidates.lemma_filter_pred(pred, j);
        assert forall|i: int|
            0 <= i < page.len() && #[trigger] divides(page[i] as int, x as int) implies page[i]
            == x by {
            if page[i] != x {
                lemma_passing_has_no_proper_divisor(page, x as int, i);
            }
        }
    }
}

/// The values of `s` in the spans of `ps`, each span taken relative to
/// `base`, concatenated in the order of the partitions.
pub open spec fn spans_of(s: Seq<u64>, ps: Seq<Option<Partition>>, base: int) -> Seq<u64>
    decreases ps.len(),
{
    if ps.len() == 0 {
        Seq::empty()
    } else {
        spans_of(s, ps.drop_last(), base) + match ps.last() {
            Some(p) => s.subrange(p.from - base, p.end() - base),
            None => Seq::empty(),
        }
    }
}

/// What the workers of a pass return over `ps`, concatenated in the order
/// of the partitions: the candidates of each partition against `list`.
pub open spec fn candidates_by_partition(list: Seq<u64>, ps: Seq<Option<Partition>>) -> Seq<u64>
    decreases ps.len(),
{
    if ps.len() == 0 {
        Seq::empty()
    } else {
        candidates_by_partition(list, ps.drop_last()) + match ps.last() {
            Some(p) => candidates_in(list, p.from as int, p.end()),
            None => Seq::empty(),
        }
    }
}

/// What the workers of a sieve return over the index spans `ps` of
/// `candidates`, concatenated in the order of the spans.
pub open spec fn sieved_by_partition(page: Seq<u64>, candidates: Seq<u64>, ps: Seq<Option<Partition>>) -> Seq<u64>
    decreases ps.len(),
{
    if ps.len() == 0 {
        Seq::empty()
    } else {
        sieved_by_partition(page, candidates, ps.drop_last()) + match ps.last() {
            Some(p) => candidates.subrange(p.from as int, p.end()).filter(passes(page)),
            None => Seq::empty(),
        }
    }
}

/// The spans of the first `m` partitions of `[from, to)` tile its first
/// `min(m * delta, to - from)` values.
proof fn lemma_spans_prefix(s: Seq<u64>, from: int, to: int, parts: int, m: int)
    requires
        0 <= from <= to <= usize::MAX,
        parts >= 1,
        s.len() == to - from,
        0 <= m <= parts,
    ensures
        ({
            let delta = chunk_size(to - from, parts);
            let e = if m * delta <= to - from {
                m * delta
            } else {
                to - from
            };
            spans_of(s, partitioning(from, to, parts).take(m), from) == s.subrange(0, e)
        }),
    decreases m,
{
    let d = to - from;
    let delta = chunk_size(d, parts);
    let ps = partitioning(from, to, parts);
    if m == 0 {
        assert(ps.take(0).len() == 0);
        assert(0 * delta == 0);
        assert(s.subrange(0, 0) =~= Seq::<u64>::empty());
        assert(spans_of(s, ps.take(0), from) =~= s.subrange(0, 0));
    } else {
        let k = m - 1;
        lemma_spans_prefix(s, from, to, parts, k);
        assert(ps.take(m).drop_last() =~= ps.take(k));
        assert(k * delta >= 0 && m * delta == k * delta + delta) by (nonlinear_arith)
            requires
                k >= 0,
                m == k + 1,
                delta >= 0,
        ;
        let ek = if k * delta <= d {
            k * delta
        } else {
            d
        };
        let em = if m * delta <= d {
            m * delta
        } else {
            d
        };
        let pm = ps.take(m);
        assert(pm.last() == partition_at(from, to, parts, k));
        assert(spans_of(s, pm, from) == spans_of(s, ps.take(k), from) + match pm.last() {
            Some(p) => s.subrange(p.from - from, p.end() - from),
            None => Seq::empty(),
        });
        if k * delta < d {
            let p = pm.last()->Some_0;
            assert(p.from - from == ek);
            assert(p.end() - from == em);
            assert(s.subrange(0, ek) + s.subrange(ek, em) =~= s.subrange(0, em));
        } else {
            assert(pm.last() is None);
            assert(ek == d && em == d);
            assert(s.subrange(0, ek) + Seq::<u64>::empty() =~= s.subrange(0, em));
        }
        assert(spans_of(s, pm, from) == s.subrange(0, em));
    }
}

/// The spans of the partitioning of `[from, to)`, taken relative to `from`,
/// tile a sequence of `to - from` values exactly.
proof fn lemma_spans_tile(s: Seq<u64>, from: int, to: int, parts: int)
    requires
        0 <= from <= to <= usize::MAX,
        parts >= 1,
        s.len() == to - from,
    ensures
        spans_of(s, partitioning(from, to, parts), from) == s,
{
    let d = to - from;
    let delta = chunk_size(d, parts);
    lemma_fundamental_div_mod(d, parts);
    lemma_mod_bound(d, parts);
    assert(d <= parts * delta) by (nonlinear_arith)
        requires
            d == parts * (d / parts) + d % parts,
            0 <= d % parts < parts,
            delta == d / parts + if d % parts == 0 {
                0int
            } else {
                1int
            },
    ;
    lemma_spans_prefix(s, from, to, parts, parts);
    let ps = partitioning(from, to, parts);
    assert(ps.take(parts) =~= ps);
    assert(s.subrange(0, d) =~= s);
}

/// Filtering the spans one by one is filtering their concatenation.
proof fn lemma_filter_spans(s: Seq<u64>, ps: Seq<Option<Partition>>, base: int, pred: spec_fn(u64) -> bool)
    ensures
        ({
            let parts = spans_of(s, ps, base);
            parts.filter(pred) == spans_filtered(s, ps, base, pred)
        }),
    decreases ps.len(),
{
    reveal(Seq::filter);
    if ps.len() > 0 {
        lemma_filter_spans(s, ps.drop_last(), base, pred);
        let tail = match ps.last() {
            Some(p) => s.subrange(p.from - base, p.end() - base),
            None => Seq::empty(),
        };
        Seq::filter_distributes_over_add(spans_of(s, ps.drop_last(), base), tail, pred);
        if ps.last() is None {
            assert(Seq::<u64>::empty().filter(pred) =~= Seq::<u64>::empty());
        }
    }
}

/// The spans of `ps` in `s`, each filtered by `pred`, concatenated in order.
pub open spec fn spans_filtered(s: Seq<u64>, ps: Seq<Option<Partition>>, base: int, pred: spec_fn(u64) -> bool) -> Seq<u64>
    decreases ps.len(),
{
    if ps.len() == 0 {
        Seq::empty()
    } else {
        spans_filtered(s, ps.drop_last(), base, pred) + match ps.last() {
            Some(p) => s.subrange(p.from - base, p.end() - base).filter(pred),
            None => Seq::empty(),
        }
    }
}

/// Over the values of `[from, to)`, a span of a partition is the range of
/// that partition.
proof fn lemma_candidates_by_partition(list: Seq<u64>, ps: Seq<Option<Partition>>, from: int, to: int)
    requires
        0 <= from <= to,
        forall|k: int|
            0 <= k < ps.len() && #[trigger] ps[k] is Some ==> from <= ps[k]->Some_0.from
                && ps[k]->Some_0.end() <= to,
    ensures
        candidates_by_partition(list, ps) == spans_filtered(range_seq(from, to), ps, from, passes(list)),
    decreases ps.len(),
{
    if ps.len() > 0 {
        let init = ps.drop_last();
        assert forall|k: int|
            0 <= k < init.len() && #[trigger] init[k] is Some implies from <= init[k]->Some_0.from
                && init[k]->Some_0.end() <= to by {
            assert(init[k] == ps[k]);
        }
        lemma_candidates_by_partition(list, init, from, to);
        if let Some(p) = ps.last() {
            assert(ps[ps.len() - 1] is Some);
            assert(range_seq(from, to).subrange(p.from - from, p.end() - from) =~= range_seq(
                p.from as int,
                p.end(),
            ));
        }
    }
}

proof fn lemma_sieved_by_partition(page: Seq<u64>, candidates: Seq<u64>, ps: Seq<Option<Partition>>)
    ensures
        sieved_by_partition(page, candidates, ps) == spans_filtered(candidates, ps, 0, passes(page)),
    decreases ps.len(),
{
    if ps.len() > 0 {
        lemma_sieved_by_partition(page, candidates, ps.drop_last());
    }
}

/// A pass split over workers finds what one pass over the whole range
/// finds: the candidates of the partitions of `[from, to)`, concatenated in
/// the order of the partitions, are the candidates of `[from, to)`.
pub proof fn lemma_partitioned_pass(list: Seq<u64>, from: usize, to: usize, parts: usize)
    requires
        from <= to,
        parts >= 1,
    ensures
        candidates_by_partition(list, partitioning(from as int, to as int, parts as int))
            == candidates_in(list, from as int, to as int),
{
    let ps = partitioning(from as int, to as int, parts as int);
    let r = range_seq(from as int, to as int);
    lemma_partitioning_covers_bounds(from, to, parts);
    lemma_candidates_by_partition(list, ps, from as int, to as int);
    lemma_filter_spans(r, ps, from as int, passes(list));
    lemma_spans_tile(r, from as int, to as int, parts as int);
}

/// A sieve split over workers keeps what one sieve of all the candidates
/// keeps: the survivors of the index spans of `candidates`, concatenated in
/// the order of the spans, are the survivors of `candidates`.
pub proof fn lemma_partitioned_sieve(page: Seq<u64>, candidates: Seq<u64>, parts: usize)
    requires
        candidates.len() <= usize::MAX,
        parts >= 1,
    ensures
        sieved_by_partition(page, candidates, partitioning(0, candidates.len() as int, parts as int))
            == candidates.filter(passes(page)),
{
    let ps = partitioning(0, candidates.len() as int, parts as int);
    lemma_sieved_by_partition(page, candidates, ps);
    lemma_filter_spans(candidates, ps, 0, passes(page));
    lemma_spans_tile(candidates, 0, candidates.len() as int, parts as int);
}

/// Every partition of `[from, to)` lies within it.
pub proof fn lemma_partitioning_covers_bounds(from: usize, to: usize, parts: usize)
    requires
        from <= to,
        parts >= 1,
    ensures
        ({
            let ps = partitioning(from as int, to as int, parts as int);
            forall|k: int|
                0 <= k < ps.len() && #[trigger] ps[k] is Some ==> from <= ps[k]->Some_0.from
                    && ps[k]->Some_0.end() <= to
        }),
{
    let ps = partitioning(from as int, to as int, parts as int);
    let delta = chunk_size(to - from, parts as int);
    assert forall|k: int| 0 <= k < ps.len() && #[trigger] ps[k] is Some implies from
        <= ps[k]->Some_0.from && ps[k]->Some_0.end() <= to by {
        assert(0 <= k * delta) by (nonlinear_arith)
            requires
                0 <= k,
                delta >= 0,
        ;
    }
}

} // verus!
