use vstd::prelude::*;
use vstd::arithmetic::power2::{pow2, lemma_pow2_pos, lemma_pow2_unfold, lemma_pow2_adds, lemma_pow2_strictly_increases, lemma2_to64};
use vstd::arithmetic::div_mod::{lemma_fundamental_div_mod, lemma_mod_pos_bound};
use vstd::bits::lemma_u128_shr_is_div;
use crate::error::PartitionError;

verus! {

/// Fixed metadata overhead of every encoded segment, in bits (80 bytes).
pub const META_SIZE: u64 = 80 * 8;

/// `floor(log2(x))` for `x >= 1`; `0` for `x == 0`.
pub open spec fn log2_floor(x: nat) -> nat
    decreases x,
{
    if x < 2 {
        0
    } else {
        1 + log2_floor(x / 2)
    }
}

/// Counts that describe a segment: at least one element, no more revoked than present.
pub open spec fn valid_counts(r: nat, n: nat) -> bool {
    1 <= n && r <= n
}

/// The smaller of the revoked count `r` and the valid count `n - r`.
pub open spec fn minority(r: nat, n: nat) -> nat {
    if r <= n - r {
        r
    } else {
        (n - r) as nat
    }
}

/// Exponent of the coarse bitmap's bucket width for `r` minority elements
/// out of `n`: `floor(log2((n - r) / r))` when `2r < n`, otherwise `0`.
pub open spec fn rank_spec(r: nat, n: nat) -> nat {
    if 0 < r && 2 * r < n {
        log2_floor(((n - r) as nat) / r)
    } else {
        0
    }
}

/// Estimated size in bits of one encoded segment of `n` elements, `r` of them revoked:
/// `r'*k + r' + ((n - r') >> k) + META_SIZE` with `r' = min(r, n - r)` and `k` its rank,
/// or just `META_SIZE` when all elements agree.
pub open spec fn cost_spec(r: nat, n: nat) -> nat {
    let m = minority(r, n);
    if m == 0 {
        META_SIZE as nat
    } else {
        let k = rank_spec(m, n);
        (m * k + m + ((n - m) as nat) / pow2(k) + META_SIZE) as nat
    }
}

proof fn lemma_pow2_log2_floor(x: nat)
    requires
        1 <= x,
    ensures
        pow2(log2_floor(x)) <= x,
    decreases x,
{
    lemma2_to64();
    if x >= 2 {
        lemma_pow2_log2_floor(x / 2);
        lemma_pow2_unfold(log2_floor(x));
    }
}

proof fn lemma_log2_floor_u128(x: nat)
    requires
        1 <= x <= u128::MAX,
    ensures
        log2_floor(x) < 128,
{
    lemma_pow2_log2_floor(x);
    lemma2_to64();
    lemma_pow2_adds(64, 64);
    if log2_floor(x) > 128 {
        lemma_pow2_strictly_increases(128, log2_floor(x));
    }
}

proof fn lemma_exponent_below_pow2(k: nat)
    requires
        1 <= k,
    ensures
        k + 1 <= pow2(k),
    decreases k,
{
    lemma2_to64();
    if k > 1 {
        lemma_exponent_below_pow2((k - 1) as nat);
        lemma_pow2_unfold(k);
        lemma_pow2_pos((k - 1) as nat);
    }
}

/// With `2^k` minority-sized buckets fitting in the majority, the payload
/// `m*k + m + maj / 2^k` never exceeds the element count `m + maj`.
proof fn lemma_payload_bound(m: nat, maj: nat, k: nat)
    requires
        pow2(k) * m <= maj,
    ensures
        m * k + m + maj / pow2(k) <= m + maj,
{
    let p = pow2(k);
    lemma_pow2_pos(k);
    let d = maj / p;
    lemma_fundamental_div_mod(maj as int, p as int);
    lemma_mod_pos_bound(maj as int, p as int);
    assert(p * d <= maj);
    if k == 0 {
        lemma2_to64();
        assert(d == maj);
        assert(m * k == 0) by (nonlinear_arith)
            requires
                k == 0,
        ;
    } else {
        lemma_exponent_below_pow2(k);
        assert(p * (m * k + d) <= p * maj) by (nonlinear_arith)
            requires
                p * m <= maj,
                k + 1 <= p,
                p * d <= maj,
        {
            assert(p * (m * k + d) == (p * m) * k + p * d);
            assert((p * m) * k <= maj * k);
            assert(maj * k + maj == maj * (k + 1));
            assert(maj * (k + 1) <= maj * p);
        }
        assert(m * k + d <= maj) by (nonlinear_arith)
            requires
                p * (m * k + d) <= p * maj,
                p >= 1,
        ;
    }
}

proof fn lemma_quotient_pos(x: nat, d: nat)
    requires
        1 <= d <= x,
    ensures
        x / d >= 1,
{
    lemma_fundamental_div_mod(x as int, d as int);
    lemma_mod_pos_bound(x as int, d as int);
    if x / d == 0 {
        assert(d * (x / d) == 0) by (nonlinear_arith)
            requires
                x / d == 0,
        ;
    }
}

/// The rank of a minority count `r >= 1` fits the majority: `2^rank * r <= n - r`.
proof fn lemma_rank_fits(r: nat, n: nat)
    requires
        1 <= r,
        r <= n - r,
    ensures
        pow2(rank_spec(r, n)) * r <= n - r,
{
    lemma2_to64();
    let maj = (n - r) as nat;
    if 2 * r < n {
        let q = maj / r;
        lemma_fundamental_div_mod(maj as int, r as int);
        lemma_mod_pos_bound(maj as int, r as int);
        lemma_quotient_pos(maj, r);
        lemma_pow2_log2_floor(q);
        let p = pow2(log2_floor(q));
        assert(p * r <= maj) by (nonlinear_arith)
            requires
                p <= q,
                r * q <= maj,
                r >= 1,
        ;
        assert(rank_spec(r, n) == log2_floor(q));
    } else {
        assert(rank_spec(r, n) == 0);
        assert(pow2(0) * r == r);
    }
}

/// A segment never costs less than its fixed metadata.
pub proof fn lemma_cost_at_least_meta(r: nat, n: nat)
    requires
        valid_counts(r, n),
    ensures
        cost_spec(r, n) >= META_SIZE,
{
}

/// A segment never costs more than one bit per element plus its metadata.
pub proof fn lemma_cost_at_most(r: nat, n: nat)
    requires
        valid_counts(r, n),
    ensures
        cost_spec(r, n) <= n + META_SIZE,
{
    let m = minority(r, n);
    if m > 0 {
        lemma_rank_fits(m, n);
        lemma_payload_bound(m, (n - m) as nat, rank_spec(m, n));
    }
}

/// Encoding the revoked or the valid side costs the same.
pub proof fn lemma_cost_symmetric(r: nat, n: nat)
    requires
        valid_counts(r, n),
    ensures
        cost_spec(r, n) == cost_spec((n - r) as nat, n),
{
    assert(minority(r, n) == minority((n - r) as nat, n));
}

/// A segment with no revoked element costs exactly its metadata.
pub proof fn lemma_cost_none_revoked(n: nat)
    requires
        1 <= n,
    ensures
        cost_spec(0, n) == META_SIZE,
{
}

/// `floor(log2((n - r) / r))` when `2r < n`, otherwise `0`, for a minority count `r >= 1`;
/// computed exactly on integers.
pub fn rank(r: u128, n: u128) -> (k: u128)
    requires
        1 <= r,
        r <= n - r,
    ensures
        k == rank_spec(r as nat, n as nat),
        k < 128,
{
    if r + r >= n {
        return 0;
    }
    let q0 = (n - r) / r;
    proof {
        lemma_rank_fits(r as nat, n as nat);
        lemma_pow2_pos(rank_spec(r as nat, n as nat));
        lemma_quotient_pos((n - r) as nat, r as nat);
        lemma_log2_floor_u128(q0 as nat);
    }
    let mut q = q0;
    let mut k: u128 = 0;
    while q >= 2
        invariant
            1 <= q,
            k + log2_floor(q as nat) == log2_floor(q0 as nat),
            log2_floor(q0 as nat) < 128,
        decreases q,
    {
        q = q / 2;
        k = k + 1;
    }
    k
}

/// Exact `cost_spec` on wide counts.
pub(crate) fn cost_bits(r: u128, n: u128) -> (c: u128)
    requires
        valid_counts(r as nat, n as nat),
        n + META_SIZE <= u128::MAX,
    ensures
        c == cost_spec(r as nat, n as nat),
{
    proof {
        lemma_cost_at_most(r as nat, n as nat);
    }
    let m = if r <= n - r {
        r
    } else {
        n - r
    };
    if m == 0 {
        return META_SIZE as u128;
    }
    let k = rank(m, n);
    let maj = n - m;
    proof {
        lemma_u128_shr_is_div(maj, k);
        lemma_rank_fits(m as nat, n as nat);
        lemma_payload_bound(m as nat, maj as nat, k as nat);
        lemma_pow2_pos(k as nat);
        assert(m * k <= m * k + m + maj as nat / pow2(k as nat));
    }
    let h = maj >> k;
    m * k + m + h + META_SIZE as u128
}

/// Estimated encoded size, in bits, of a segment of `n` elements of which `r` are revoked.
pub fn cost(r: u64, n: u64) -> (res: Result<u64, PartitionError>)
    ensures
        !valid_counts(r as nat, n as nat) ==> res == Err::<u64, PartitionError>(
            PartitionError::InvalidRecord,
        ),
        valid_counts(r as nat, n as nat) && cost_spec(r as nat, n as nat) <= u64::MAX ==> res
            == Ok::<u64, PartitionError>(cost_spec(r as nat, n as nat) as u64),
        valid_counts(r as nat, n as nat) && cost_spec(r as nat, n as nat) > u64::MAX ==> res
            == Err::<u64, PartitionError>(PartitionError::Overflow),
{
    if n == 0 || r > n {
        return Err(PartitionError::InvalidRecord);
    }
    let c = cost_bits(r as u128, n as u128);
    if c > u64::MAX as u128 {
        Err(PartitionError::Overflow)
    } else {
        Ok(c as u64)
    }
}

} // verus!
