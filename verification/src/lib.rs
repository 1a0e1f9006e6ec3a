//! A simplified data-availability-sampling exchange: a proposer erasure-codes
//! a blob into shards and sends a subset; a validator accumulates shards per
//! filename and reconstructs the blob once enough distinct indices arrive, or
//! treats a below-threshold set as sampled evidence of availability.

use vstd::prelude::*;

pub mod accumulator;
pub mod codec;
pub mod digest;
pub mod identity;
pub mod message;
pub mod proposer;

verus! {

/// Number of data shards (`k`).
pub const DATA_SHARDS: usize = 4;

/// Number of parity shards (`m`).
pub const PARITY_SHARDS: usize = 2;

/// Total shards per blob (`n = k + m`).
pub const TOTAL_SHARDS: usize = 6;

/// Smallest multiple of `k` that is at least `len`.
pub open spec fn padded_len(len: nat, k: nat) -> nat
    recommends
        k > 0,
{
    if len % k == 0 {
        len
    } else {
        (len + k - len % k) as nat
    }
}

/// Extends `data` with trailing zero bytes up to the smallest multiple of `k`
/// at or above its length.
pub fn pad_data(data: &Vec<u8>, k: usize) -> (r: Vec<u8>)
    requires
        k > 0,
        data.len() + k <= usize::MAX,
    ensures
        r@.len() == padded_len(data@.len(), k as nat),
        r@.subrange(0, data@.len() as int) == data@,
        forall|i: int| data@.len() <= i < r@.len() ==> r@[i] == 0u8,
        r@.len() % (k as nat) == 0,
        r@.len() >= data@.len(),
        r@.len() < data@.len() + k,
{
    let mut padded: Vec<u8> = data.clone();
    let remainder: usize = padded.len() % k;
    if remainder != 0 {
        let padding: usize = k - remainder;
        let target: usize = padded.len() + padding;
        while padded.len() < target
            invariant
                padded.len() <= target,
                target == data@.len() + (k - data@.len() % (k as nat)),
                data@.len() % (k as nat) != 0,
                k > 0,
                target <= usize::MAX,
                padded@.subrange(0, data@.len() as int) == data@,
                padded@.len() >= data@.len(),
                forall|i: int| data@.len() <= i < padded@.len() ==> padded@[i] == 0u8,
            decreases target - padded.len(),
        {
            padded.push(0u8);
            assert(padded@.subrange(0, data@.len() as int) == data@);
        }
    }
    proof {
        let l = data@.len() as int;
        let kk = k as int;
        if l % kk != 0 {
            assert((l + kk - l % kk) % kk == 0) by (nonlinear_arith)
                requires
                    kk > 0,
                    l % kk != 0,
            ;
        }
    }
    padded
}

/// The padded length is minimal: every multiple of `k` at or above `len`
/// is at least `padded_len(len, k)`.
pub proof fn lemma_padded_len_minimal(len: nat, k: nat, c: nat)
    requires
        k > 0,
        c % k == 0,
        c >= len,
    ensures
        c >= padded_len(len, k),
{
    if len % k != 0 {
        assert(c >= len + (k - len % k)) by (nonlinear_arith)
            requires
                k > 0,
                c % k == 0,
                c >= len,
                len % k != 0,
        ;
    }
}

} // verus!
