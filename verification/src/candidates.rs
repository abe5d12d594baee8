use crate::natural::Natural;
use vstd::prelude::*;

verus! {

/// Number of intervals between the first and the last candidate checkpoint.
pub const INTERVALS: usize = 20;

/// `x` to the power `n`.
pub open spec fn power(x: nat, n: nat) -> nat
    decreases n,
{
    if n == 0 {
        1
    } else {
        x * power(x, (n - 1) as nat)
    }
}

/// `c^20 * 10^k`: the twentieth power of `c * 10^(k/20)`.
pub open spec fn scaled_power(c: nat, k: nat) -> nat {
    power(c, 20) * power(10, k)
}

/// `c` is the whole part of `total * 10^(i/20) / 10`.
///
/// With `k = 20 - i` that number is `total / 10^(k/20)`, and `c` is its whole
/// part exactly when `c * 10^(k/20) <= total < (c + 1) * 10^(k/20)`. Both
/// sides are raised to the twentieth power, which leaves whole numbers only.
pub open spec fn is_candidate(c: nat, total: nat, i: nat) -> bool {
    &&& i <= 20
    &&& scaled_power(c, (20 - i) as nat) <= power(total, 20)
    &&& power(total, 20) < scaled_power(c + 1, (20 - i) as nat)
}

/// A power of a positive number is positive.
pub proof fn lemma_power_positive(x: nat, n: nat)
    requires
        x >= 1,
    ensures
        power(x, n) >= 1,
    decreases n,
{
    if n > 0 {
        lemma_power_positive(x, (n - 1) as nat);
        assert(x * power(x, (n - 1) as nat) >= 1) by (nonlinear_arith)
            requires
                x >= 1,
                power(x, (n - 1) as nat) >= 1,
        ;
    }
}

/// Powers grow with the base.
pub proof fn lemma_power_monotone(a: nat, b: nat, n: nat)
    requires
        a <= b,
    ensures
        power(a, n) <= power(b, n),
        a < b && n >= 1 ==> power(a, n) < power(b, n),
    decreases n,
{
    if n > 0 {
        let pa = power(a, (n - 1) as nat);
        let pb = power(b, (n - 1) as nat);
        lemma_power_monotone(a, b, (n - 1) as nat);
        if a < b {
            lemma_power_positive(b, (n - 1) as nat);
        }
        assert(a * pa <= b * pb && (a < b && pb >= 1 ==> a * pa < b * pb)) by (nonlinear_arith)
            requires
                a <= b,
                pa <= pb,
        ;
    }
}

/// `scaled_power` grows with `c`, and strictly so.
pub proof fn lemma_scaled_power_monotone(c1: nat, c2: nat, k: nat)
    requires
        c1 <= c2,
    ensures
        scaled_power(c1, k) <= scaled_power(c2, k),
        c1 < c2 ==> scaled_power(c1, k) < scaled_power(c2, k),
{
    lemma_power_monotone(c1, c2, 20);
    lemma_power_positive(10, k);
    let p1 = power(c1, 20);
    let p2 = power(c2, 20);
    let t = power(10, k);
    assert(p1 * t <= p2 * t && (p1 < p2 ==> p1 * t < p2 * t)) by (nonlinear_arith)
        requires
            p1 <= p2,
            t >= 1,
    ;
}

/// One more power of ten never makes `scaled_power` smaller.
pub proof fn lemma_scaled_power_drops(c: nat, k: nat)
    ensures
        scaled_power(c, k) <= scaled_power(c, k + 1),
{
    let p = power(c, 20);
    let t = power(10, k);
    assert(power(10, k + 1) == 10 * t);
    assert(p * t <= p * (10 * t)) by (nonlinear_arith);
}

/// `scaled_power` grows or stays with `k`.
pub proof fn lemma_scaled_power_upto(c: nat, k1: nat, k2: nat)
    requires
        k1 <= k2,
    ensures
        scaled_power(c, k1) <= scaled_power(c, k2),
    decreases k2 - k1,
{
    if k1 < k2 {
        lemma_scaled_power_upto(c, k1, (k2 - 1) as nat);
        lemma_scaled_power_drops(c, (k2 - 1) as nat);
    }
}

/// Zero to the twentieth power is zero.
pub proof fn lemma_power_zero()
    ensures
        power(0, 20) == 0,
{
    assert(power(0, 20) == 0 * power(0, 19));
}

/// There is at most one candidate for each total and each index.
pub proof fn lemma_candidate_unique(c1: nat, c2: nat, total: nat, i: nat)
    requires
        is_candidate(c1, total, i),
        is_candidate(c2, total, i),
    ensures
        c1 == c2,
{
    let k = (20 - i) as nat;
    if c1 < c2 {
        lemma_scaled_power_monotone(c1 + 1, c2, k);
    } else if c2 < c1 {
        lemma_scaled_power_monotone(c2 + 1, c1, k);
    }
}

/// Below any bound whose scaled power exceeds `total^20` there is a candidate.
proof fn lemma_candidate_below(total: nat, i: nat, bound: nat) -> (c: nat)
    requires
        i <= 20,
        power(total, 20) < scaled_power(bound + 1, (20 - i) as nat),
    ensures
        is_candidate(c, total, i),
        c <= bound,
    decreases bound,
{
    let k = (20 - i) as nat;
    if scaled_power(bound, k) <= power(total, 20) {
        bound
    } else {
        if bound == 0 {
            lemma_power_zero();
            assert(scaled_power(0, k) == 0) by (nonlinear_arith)
                requires
                    scaled_power(0, k) == power(0, 20) * power(10, k),
                    power(0, 20) == 0,
            ;
        }
        lemma_candidate_below(total, i, (bound - 1) as nat)
    }
}

/// For each total and each index up to 20 there is a candidate, and it does
/// not exceed the total.
pub proof fn lemma_candidate_exists(total: nat, i: nat) -> (c: nat)
    requires
        i <= 20,
    ensures
        is_candidate(c, total, i),
        c <= total,
{
    lemma_scaled_power_monotone(total, total + 1, 0);
    let k = (20 - i) as nat;
    lemma_scaled_power_upto(total + 1, 0, k);
    assert(scaled_power(total, 0) == power(total, 20)) by {
        assert(power(10, 0) == 1);
        assert(power(total, 20) * 1 == power(total, 20));
    }
    lemma_candidate_below(total, i, total)
}

/// The candidate checkpoint of index `i` for `total` trials: the whole part
/// of `total * 10^(i/20) / 10`.
pub open spec fn candidate_of(total: nat, i: nat) -> nat {
    choose|c: nat| is_candidate(c, total, i)
}

/// `candidate_of` is the candidate, for every index up to 20.
pub proof fn lemma_candidate_of(total: nat, i: nat)
    requires
        i <= 20,
    ensures
        is_candidate(candidate_of(total, i), total, i),
        candidate_of(total, i) <= total,
{
    let c = lemma_candidate_exists(total, i);
    lemma_candidate_unique(c, candidate_of(total, i), total, i);
}

/// A power of a product is the product of the powers.
pub proof fn lemma_power_of_product(a: nat, b: nat, n: nat)
    ensures
        power(a * b, n) == power(a, n) * power(b, n),
    decreases n,
{
    if n == 0 {
        assert(1nat * 1nat == 1nat);
    } else {
        let pa = power(a, (n - 1) as nat);
        let pb = power(b, (n - 1) as nat);
        lemma_power_of_product(a, b, (n - 1) as nat);
        assert((a * b) * (pa * pb) == (a * pa) * (b * pb)) by (nonlinear_arith);
    }
}

/// The last candidate is the total itself.
pub proof fn lemma_last_candidate(total: nat)
    ensures
        candidate_of(total, 20) == total,
{
    lemma_candidate_of(total, 20);
    assert(power(10, 0) == 1);
    assert(scaled_power(total, 0) == power(total, 20)) by {
        assert(power(total, 20) * 1 == power(total, 20));
    }
    assert(scaled_power(total + 1, 0) == power(total + 1, 20)) by {
        assert(power(total + 1, 20) * 1 == power(total + 1, 20));
    }
    lemma_power_monotone(total, total + 1, 20);
    lemma_candidate_unique(total, candidate_of(total, 20), total, 20);
}

/// The first candidate is a tenth of the total, rounded down.
pub proof fn lemma_first_candidate(total: nat)
    ensures
        candidate_of(total, 0) == total / 10,
{
    let q = total / 10;
    lemma_candidate_of(total, 0);
    lemma_power_of_product(q, 10, 20);
    lemma_power_of_product(q + 1, 10, 20);
    lemma_power_monotone(q * 10, total, 20);
    lemma_power_monotone(total, (q + 1) * 10, 20);
    lemma_candidate_unique(q, candidate_of(total, 0), total, 0);
}

/// Each candidate is at most the next one.
pub proof fn lemma_candidates_step(total: nat, i: nat)
    requires
        i < 20,
    ensures
        candidate_of(total, i) <= candidate_of(total, i + 1),
{
    let here = candidate_of(total, i);
    let next = candidate_of(total, i + 1);
    let k = (19 - i) as nat;
    lemma_candidate_of(total, i);
    lemma_candidate_of(total, i + 1);
    lemma_scaled_power_drops(here, k);
    if next < here {
        lemma_scaled_power_monotone(next + 1, here, k);
    }
}

/// The candidates never step down from one index to a later one.
pub proof fn lemma_candidates_ascend(total: nat, i: nat, j: nat)
    requires
        i <= j <= 20,
    ensures
        candidate_of(total, i) <= candidate_of(total, j),
    decreases j - i,
{
    if i < j {
        lemma_candidates_ascend(total, i, (j - 1) as nat);
        lemma_candidates_step(total, (j - 1) as nat);
    }
}

/// The candidate checkpoints for `total` trials, one for each index from 0
/// to 20.
pub open spec fn candidates_of(total: usize) -> Seq<usize> {
    Seq::new(21, |i: int| candidate_of(total as nat, i as nat) as usize)
}

/// Computes `c^20 * 10^k` exactly.
fn scaled(c: u64, k: usize) -> (r: Natural)
    ensures
        r@ == scaled_power(c as nat, k as nat),
{
    let mut acc = Natural::from_u64(1);
    let mut j: usize = 0;
    while j < 20
        invariant
            j <= 20,
            acc@ == power(c as nat, j as nat),
        decreases 20 - j,
    {
        proof {
            assert(power(c as nat, j as nat) * c == c * power(c as nat, j as nat))
                by (nonlinear_arith);
        }
        acc = acc.times(c);
        j += 1;
    }
    let mut j: usize = 0;
    proof {
        assert(power(c as nat, 20) * power(10, 0) == power(c as nat, 20)) by (nonlinear_arith)
            requires
                power(10, 0) == 1,
        ;
    }
    while j < k
        invariant
            j <= k,
            acc@ == power(c as nat, 20) * power(10, j as nat),
        decreases k - j,
    {
        proof {
            let p = power(c as nat, 20);
            let t = power(10, j as nat);
            assert(power(10, (j + 1) as nat) == 10 * t);
            assert(p * t * 10 == p * (10 * t)) by (nonlinear_arith);
        }
        acc = acc.times(10);
        j += 1;
    }
    acc
}

/// Computes the candidate checkpoint of index `i` for `total` trials by
/// bisection between zero and the total.
fn candidate(total: u64, i: usize) -> (c: u64)
    requires
        i <= 20,
    ensures
        is_candidate(c as nat, total as nat, i as nat),
        c <= total,
{
    let k: usize = 20 - i;
    let target = scaled(total, 0);
    let mut lo: u64 = 0;
    let mut span: u64 = total;
    proof {
        assert(power(10, 0) == 1);
        assert(power(total as nat, 20) * 1 == power(total as nat, 20));
        lemma_power_zero();
        assert(scaled_power(0, k as nat) == 0) by (nonlinear_arith)
            requires
                scaled_power(0, k as nat) == power(0, 20) * power(10, k as nat),
                power(0, 20) == 0,
        ;
        lemma_scaled_power_monotone(total as nat, (total + 1) as nat, 0);
        lemma_scaled_power_upto((total + 1) as nat, 0, k as nat);
    }
    while span > 0
        invariant
            k == 20 - i,
            i <= 20,
            target@ == power(total as nat, 20),
            lo + span <= total,
            scaled_power(lo as nat, k as nat) <= power(total as nat, 20),
            power(total as nat, 20) < scaled_power((lo + span + 1) as nat, k as nat),
        decreases span,
    {
        let step: u64 = span - span / 2;
        let mid: u64 = lo + step;
        if scaled(mid, k).at_most(&target) {
            lo = mid;
            span = span - step;
        } else {
            span = step - 1;
        }
    }
    lo
}

/// The candidate checkpoints for `total` trials: for each index `i` from 0 to
/// 20 the whole part of `total * 10^(i/20) / 10`, computed exactly.
pub fn candidate_checkpoints(total: usize) -> (r: Vec<usize>)
    ensures
        r@ == candidates_of(total),
{
    let mut out: Vec<usize> = Vec::new();
    let mut i: usize = 0;
    while i <= INTERVALS
        invariant
            i <= INTERVALS + 1,
            out@.len() == i,
            forall|j: int|
                0 <= j < i ==> #[trigger] out@[j] == candidate_of(total as nat, j as nat),
        decreases INTERVALS + 1 - i,
    {
        let c: u64 = candidate(total as u64, i);
        proof {
            lemma_candidate_of(total as nat, i as nat);
            lemma_candidate_unique(c as nat, candidate_of(total as nat, i as nat), total as nat, i as nat);
        }
        out.push(c as usize);
        i += 1;
    }
    proof {
        assert forall|j: int| 0 <= j < 21 implies out@[j] == #[trigger] candidates_of(total)[j] by {
            lemma_candidate_of(total as nat, j as nat);
        }
    }
    out
}

} // verus!
