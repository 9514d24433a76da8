use vstd::prelude::*;
use vstd::utf8::encode_utf8;
use crate::puzzle::{chain_view, work_view, ChainView};
use crate::types::{Chain, Count, Work};
use crate::utils::digits::{format_u64, radix_digits};
use crate::utils::hex_utils::{hex_encode, hex_encode_spec};

verus! {

/// The longest chain one of `threads` workers builds: `chain_length`, or,
/// when that is 0 (no limit), an equal share of `target`.
pub fn thread_max_count(threads: u8, target: Count, chain_length: Count) -> (r: Count)
    requires
        chain_length != 0 || threads != 0,
    ensures
        r == (if chain_length == 0 {
            target / (threads as u64)
        } else {
            chain_length
        }),
{
    if chain_length == 0 {
        target / (threads as u64)
    } else {
        chain_length
    }
}

/// Records a chain that a worker finished and adds its iterations to the
/// running total; tells whether the workers should now stop, which is when
/// a target is set (not 0) and the total has reached it.
pub fn record_chain(work: &mut Work, total: &mut u64, chain: Chain, target: Count) -> (stop: bool)
    requires
        *old(total) + chain.1 <= u64::MAX,
    ensures
        final(work)@ == old(work)@.push(chain),
        *final(total) == *old(total) + chain.1,
        stop == (target != 0 && *final(total) >= target),
{
    work.push(chain);
    *total = *total + chain.1;
    target != 0 && *total >= target
}

/// The report printed for one chain of some work.
pub open spec fn chain_report(index: nat, c: ChainView) -> Seq<u8> {
    encode_utf8("Chain "@) + radix_digits(index, 10) + encode_utf8(": "@) + radix_digits(
        c.1 as nat,
        10,
    ) + encode_utf8(" iterations\n\tInitial Seed: "@) + hex_encode_spec(c.0) + encode_utf8(
        "\n\tResult Hash : "@,
    ) + hex_encode_spec(c.2) + seq![10u8]
}

/// The report printed for chains `from` onwards of some work.
pub open spec fn chains_report(w: Seq<ChainView>, from: nat) -> Seq<u8>
    decreases w.len() - from,
{
    if from >= w.len() {
        Seq::empty()
    } else {
        chain_report(from, w[from as int]) + chains_report(w, from + 1)
    }
}

/// The report printed after work is generated: an empty line, then for
/// each chain its index, its count, its seed and its result.
pub open spec fn work_report_spec(w: Seq<ChainView>) -> Seq<u8> {
    seq![10u8] + chains_report(w, 0)
}

fn push_literal(v: &mut Vec<u8>, s: &str)
    ensures
        final(v)@ == old(v)@ + encode_utf8(s@),
{
    let b = s.as_bytes();
    let ghost start = v@;
    let mut i: usize = 0;
    while i < b.len()
        invariant
            i <= b@.len(),
            b@ == encode_utf8(s@),
            v@ == start + b@.take(i as int),
        decreases b@.len() - i,
    {
        v.push(b[i]);
        i = i + 1;
        assert(v@ =~= start + b@.take(i as int));
    }
    assert(b@.take(b@.len() as int) =~= b@);
}

/// The reports of chains `0` to `n - 1`.
pub open spec fn chains_report_prefix(w: Seq<ChainView>, n: nat) -> Seq<u8>
    decreases n,
{
    if n == 0 {
        Seq::empty()
    } else {
        chains_report_prefix(w, (n - 1) as nat) + chain_report((n - 1) as nat, w[n - 1])
    }
}

proof fn lemma_report_prefix_split(w: Seq<ChainView>, n: nat)
    requires
        n <= w.len(),
    ensures
        chains_report(w, 0) == chains_report_prefix(w, n) + chains_report(w, n),
    decreases n,
{
    if n > 0 {
        lemma_report_prefix_split(w, (n - 1) as nat);
        assert(chains_report(w, (n - 1) as nat) == chain_report((n - 1) as nat, w[n - 1])
            + chains_report(w, n));
        assert(chains_report_prefix(w, (n - 1) as nat) + (chain_report((n - 1) as nat, w[n - 1])
            + chains_report(w, n)) =~= chains_report_prefix(w, n) + chains_report(w, n));
    } else {
        assert(Seq::<u8>::empty() + chains_report(w, 0) =~= chains_report(w, 0));
    }
}

/// The report printed after work is generated, as bytes.
pub fn work_report(work: &Work) -> (report: Vec<u8>)
    ensures
        report@ == work_report_spec(work_view(work@)),
{
    let ghost w = work_view(work@);
    let mut report: Vec<u8> = Vec::new();
    report.push(10u8);
    assert(report@ =~= seq![10u8] + chains_report_prefix(w, 0));
    for i in 0..work.len()
        invariant
            w == work_view(work@),
            report@ == seq![10u8] + chains_report_prefix(w, i as nat),
    {
        let (iv, count, hash) = work[i];
        let ghost before = report@;
        push_literal(&mut report, "Chain ");
        let mut index = format_u64(i as u64, 10);
        report.append(&mut index);
        push_literal(&mut report, ": ");
        let mut digits = format_u64(count, 10);
        report.append(&mut digits);
        push_literal(&mut report, " iterations\n\tInitial Seed: ");
        let mut iv_hex = hex_encode(&iv);
        report.append(&mut iv_hex);
        push_literal(&mut report, "\n\tResult Hash : ");
        let mut hash_hex = hex_encode(&hash);
        report.append(&mut hash_hex);
        report.push(10u8);
        proof {
            assert(w[i as int] == chain_view(work@[i as int]));
            assert(report@ =~= before + chain_report(i as nat, w[i as int]));
            assert(chains_report_prefix(w, (i + 1) as nat) == chains_report_prefix(w, i as nat)
                + chain_report(i as nat, w[i as int]));
            assert(report@ =~= seq![10u8] + chains_report_prefix(w, (i + 1) as nat));
        }
    }
    proof {
        lemma_report_prefix_split(w, w.len());
        assert(chains_report(w, w.len()) == Seq::<u8>::empty());
        assert(chains_report_prefix(w, w.len()) + Seq::<u8>::empty() =~= chains_report_prefix(
            w,
            w.len(),
        ));
    }
    report
}

} // verus!
