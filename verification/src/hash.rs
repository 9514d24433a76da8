use vstd::prelude::*;
use crate::types;
use crate::types::{Chain, Count};
use crypto::digest::Digest;
use crypto::sha2::Sha256;
use std::sync::atomic::AtomicBool;
use std::sync::atomic::Ordering;

verus! {

/// The SHA-256 digest of a byte string, as rust-crypto's `Sha256` computes it.
pub uninterp spec fn sha256(data: Seq<u8>) -> Seq<u8>;

/// `n` successive applications of SHA-256 to `seed`.
pub open spec fn sha256_iter(seed: Seq<u8>, n: nat) -> Seq<u8>
    decreases n,
{
    if n == 0 {
        seed
    } else {
        sha256(sha256_iter(seed, (n - 1) as nat))
    }
}

/// Runs rust-crypto's `Sha256` (`new`, `input`, `result`) over the 32 bytes of
/// `data` and returns the digest. The contract claims that the result is the
/// SHA-256 digest of `data`, named `sha256`.
#[verifier::external_body]
fn sha256_digest(data: &types::Hash) -> (digest: types::Hash)
    ensures
        digest@ == sha256(data@),
{
    let mut sha = Sha256::new();
    let mut out = [0u8; 32];
    sha.input(data);
    sha.result(&mut out);
    out
}

/// Hashes `iv` exactly `count` times.
pub fn hash_count(iv: types::Hash, count: u64) -> (result: types::Hash)
    ensures
        result@ == sha256_iter(iv@, count as nat),
{
    let mut bytes = iv;
    let mut i: u64 = 0;
    while i < count
        invariant
            i <= count,
            bytes@ == sha256_iter(iv@, i as nat),
        decreases count - i,
    {
        bytes = sha256_digest(&bytes);
        i = i + 1;
    }
    bytes
}

/// Reads the stop flag that another thread may set at any time.
fn stop_requested(stopped: &AtomicBool) -> bool {
    stopped.load(Ordering::Relaxed)
}

/// Whether a chain goes on after `done` iterations when the stop flag was
/// just seen as `stop_seen`: only while no stop was seen, fewer than `target`
/// iterations are done (a `target` of 0 means no limit), and the count can
/// still grow.
pub fn keep_hashing(stop_seen: bool, done: u64, target: Count) -> (r: bool)
    ensures
        r == (!stop_seen && (target == 0 || done < target) && done < u64::MAX),
{
    !stop_seen && (target == 0 || done < target) && done < u64::MAX
}

/// One step of building a chain whose result after `done` iterations is
/// `bytes`, with the stop flag just seen as `stop_seen`: where `keep_hashing`
/// says to go on, the result hashed once more and `done + 1`; otherwise
/// `None`, and the chain ends as it is.
pub fn hash_step(bytes: types::Hash, done: u64, target: Count, stop_seen: bool) -> (next: Option<
    (types::Hash, u64),
>)
    ensures
        (!stop_seen && (target == 0 || done < target) && done < u64::MAX) ==> (next matches Some(
            (b, d),
        ) && b@ == sha256(bytes@) && d == done + 1),
        !(!stop_seen && (target == 0 || done < target) && done < u64::MAX) ==> next is None,
{
    if keep_hashing(stop_seen, done, target) {
        Some((sha256_digest(&bytes), done + 1))
    } else {
        None
    }
}

/// Builds one chain from `iv`: hashes until `stopped` is observed set, or
/// until `target` iterations are done when `target` is not 0 (0 means no
/// limit), and in any case stops at `u64::MAX` iterations, the most a count
/// can hold. Before each iteration the flag is read and `hash_step` takes
/// the chain one iteration further or ends it. Returns the seed, the number of iterations done,
/// and the result.
pub fn hash(iv: types::Hash, target: Count, stopped: &AtomicBool) -> (chain: Chain)
    ensures
        chain.0 == iv,
        chain.2@ == sha256_iter(iv@, chain.1 as nat),
        target > 0 ==> chain.1 <= target,
{
    let mut bytes = iv;
    let mut i: u64 = 0;
    loop
        invariant
            bytes@ == sha256_iter(iv@, i as nat),
            target > 0 ==> i <= target,
        decreases u64::MAX - i,
    {
        let stop_seen = stop_requested(stopped);
        match hash_step(bytes, i, target, stop_seen) {
            Some((next, done)) => {
                bytes = next;
                i = done;
            },
            None => {
                break;
            },
        }
    }
    (iv, i, bytes)
}

/// Hashing `a` times and then `b` times more is hashing `a + b` times: a
/// chain can be computed, and solved, in parts.
pub proof fn lemma_sha256_iter_add(seed: Seq<u8>, a: nat, b: nat)
    ensures
        sha256_iter(sha256_iter(seed, a), b) == sha256_iter(seed, a + b),
    decreases b,
{
    if b > 0 {
        lemma_sha256_iter_add(seed, a, (b - 1) as nat);
        assert((a + b - 1) as nat == a + (b - 1) as nat);
    }
}

} // verus!
