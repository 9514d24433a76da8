use vstd::prelude::*;
use vstd::string::StringSliceAdditionalSpecFns;
use crate::formats::lines::{
    find_first, find_from, lemma_find_first, lemma_find_first_append, line_bounds, split_line,
    strip_cr,
};
use crate::formats::puzzlefile::{lemma_no_byte_in_digits, lemma_no_byte_in_hex};
use crate::puzzle::{chain_view, work_view, ChainView};
use crate::types::{Chain, Count, Work};
use crate::utils::digits::{
    format_u64, lemma_parse_format_u64, lemma_radix_digits_shape,
    parse_u64, parse_u64_spec, radix_digits,
};
use crate::utils::hex_utils::{
    hex_decode_spec, hex_encode, hex_encode_spec, is_hex_string,
    lemma_hex_roundtrip, read_bytes,
};

verus! {

/// Why a line of a work file could not be read.
#[derive(Debug, Clone, Copy, PartialEq, Eq, Structural)]
pub enum WorkFileError {
    /// The first field is not sixty-four hex digits.
    InvalidIv,
    /// The line has no second field.
    MissingHash,
    /// The second field is not sixty-four hex digits.
    InvalidHash,
    /// The line has no third field.
    MissingCount,
    /// The third field is not a `u64`.
    InvalidCount,
}

/// `f` is the hex of a 32-byte value.
pub open spec fn is_hash_field(f: Seq<u8>) -> bool {
    f.len() == 64 && is_hex_string(f)
}

/// One line of a work file (without its line ending): seed and result in hex
/// and the count in decimal, separated by colons; text after a third colon is
/// ignored.
pub open spec fn parse_chain_spec(l: Seq<u8>) -> Result<ChainView, WorkFileError> {
    let e0 = find_first(l, 58u8) as int;
    let f0 = l.take(e0);
    if !is_hash_field(f0) {
        Err(WorkFileError::InvalidIv)
    } else if e0 >= l.len() {
        Err(WorkFileError::MissingHash)
    } else {
        let r1 = l.skip(e0 + 1);
        let e1 = find_first(r1, 58u8) as int;
        let f1 = r1.take(e1);
        if !is_hash_field(f1) {
            Err(WorkFileError::InvalidHash)
        } else if e1 >= r1.len() {
            Err(WorkFileError::MissingCount)
        } else {
            let r2 = r1.skip(e1 + 1);
            match parse_u64_spec(r2.take(find_first(r2, 58u8) as int), 10) {
                Some(count) => Ok((hex_decode_spec(f0), count, hex_decode_spec(f1))),
                None => Err(WorkFileError::InvalidCount),
            }
        }
    }
}

/// A work file: one chain per line, read until the first bad line.
pub open spec fn parse_work_spec(s: Seq<u8>) -> Result<Seq<ChainView>, WorkFileError>
    decreases s.len(),
{
    if s.len() == 0 {
        Ok(Seq::empty())
    } else {
        proof {
            lemma_find_first(s, 10u8);
        }
        match parse_chain_spec(split_line(s).0) {
            Err(e) => Err(e),
            Ok(chain) => match parse_work_spec(split_line(s).1) {
                Ok(rest) => Ok(seq![chain] + rest),
                Err(e) => Err(e),
            },
        }
    }
}

/// The line written for one chain: seed, result and count.
pub open spec fn work_line(c: ChainView) -> Seq<u8> {
    hex_encode_spec(c.0) + seq![58u8] + hex_encode_spec(c.2) + seq![58u8] + radix_digits(
        c.1 as nat,
        10,
    ) + seq![10u8]
}

/// The text of a work file: its chains' lines in order.
pub open spec fn work_text(w: Seq<ChainView>) -> Seq<u8>
    decreases w.len(),
{
    if w.len() == 0 {
        Seq::empty()
    } else {
        work_line(w[0]) + work_text(w.drop_first())
    }
}

/// The sum of the counts of some chains.
pub open spec fn work_count(w: Seq<ChainView>) -> nat
    decreases w.len(),
{
    if w.len() == 0 {
        0
    } else {
        work_count(w.drop_last()) + w.last().1 as nat
    }
}

fn parse_chain(line: &[u8]) -> (r: Result<Chain, WorkFileError>)
    ensures
        match r {
            Ok(c) => parse_chain_spec(line@) == Ok::<ChainView, WorkFileError>(chain_view(c)),
            Err(e) => parse_chain_spec(line@) == Err::<ChainView, WorkFileError>(e),
        },
{
    let ghost l = line@;
    assert(l.subrange(0, l.len() as int) =~= l);
    let e0 = find_from(line, 0, 58u8);
    assert(line@.subrange(0, e0 as int) =~= l.take(e0 as int));
    let iv = match read_bytes(&line[0..e0]) {
        Ok(iv) => iv,
        Err(_) => {
            return Err(WorkFileError::InvalidIv);
        },
    };
    if e0 == line.len() {
        return Err(WorkFileError::MissingHash);
    }
    let ghost r1 = l.skip(e0 + 1);
    assert(r1 =~= l.subrange(e0 + 1, l.len() as int));
    let e1 = find_from(line, e0 + 1, 58u8);
    assert(line@.subrange(e0 + 1, e1 as int) =~= r1.take(e1 - e0 - 1));
    let hash = match read_bytes(&line[e0 + 1..e1]) {
        Ok(hash) => hash,
        Err(_) => {
            return Err(WorkFileError::InvalidHash);
        },
    };
    if e1 == line.len() {
        return Err(WorkFileError::MissingCount);
    }
    let ghost r2 = r1.skip(e1 - e0 - 1 + 1);
    assert(r2 =~= l.subrange(e1 + 1, l.len() as int));
    let e2 = find_from(line, e1 + 1, 58u8);
    assert(line@.subrange(e1 + 1, e2 as int) =~= r2.take(e2 - e1 - 1));
    match parse_u64(&line[e1 + 1..e2], 10) {
        Some(count) => Ok((iv, count, hash)),
        None => Err(WorkFileError::InvalidCount),
    }
}

/// Reads a work file's text: one chain per line until the first line that is
/// not a chain, which is reported.
pub fn read_work(text: &str) -> (r: Result<Work, WorkFileError>)
    ensures
        match r {
            Ok(w) => parse_work_spec(text.spec_bytes()) == Ok::<Seq<ChainView>, WorkFileError>(
                work_view(w@),
            ),
            Err(e) => parse_work_spec(text.spec_bytes()) == Err::<Seq<ChainView>, WorkFileError>(
                e,
            ),
        },
{
    let s = text.as_bytes();
    let mut work: Work = Vec::new();
    let mut start: usize = 0;
    assert(s@.skip(0) =~= s@);
    while start < s.len()
        invariant
            s@ == text.spec_bytes(),
            start <= s@.len(),
            parse_work_spec(s@) == match parse_work_spec(s@.skip(start as int)) {
                Ok(rest) => Ok(work_view(work@) + rest),
                Err(e) => Err::<Seq<ChainView>, WorkFileError>(e),
            },
        decreases s@.len() - start,
    {
        let (end, next) = line_bounds(s, start);
        match parse_chain(&s[start..end]) {
            Ok(chain) => {
                let ghost before = work@;
                work.push(chain);
                proof {
                    assert(work_view(work@) =~= work_view(before) + seq![chain_view(chain)]);
                    match parse_work_spec(s@.skip(next as int)) {
                        Ok(rest) => {
                            assert(work_view(before) + (seq![chain_view(chain)] + rest)
                                =~= work_view(work@) + rest);
                        },
                        Err(e) => {},
                    }
                }
                start = next;
            },
            Err(e) => {
                return Err(e);
            },
        }
    }
    assert(s@.skip(start as int) =~= Seq::<u8>::empty());
    assert(work_view(work@) + Seq::<ChainView>::empty() =~= work_view(work@));
    Ok(work)
}

/// Reads a work file's text in which every line is a chain.
pub fn read_well_formed_work(text: &str) -> (w: Work)
    requires
        parse_work_spec(text.spec_bytes()) is Ok,
    ensures
        parse_work_spec(text.spec_bytes()) == Ok::<Seq<ChainView>, WorkFileError>(work_view(w@)),
{
    match read_work(text) {
        Ok(w) => w,
        Err(_) => Vec::new(),
    }
}

proof fn lemma_work_text_append(a: Seq<ChainView>, b: Seq<ChainView>)
    ensures
        work_text(a + b) == work_text(a) + work_text(b),
    decreases a.len(),
{
    if a.len() == 0 {
        assert(a + b =~= b);
        assert(work_text(a) + work_text(b) =~= work_text(b));
    } else {
        assert((a + b).drop_first() =~= a.drop_first() + b);
        lemma_work_text_append(a.drop_first(), b);
        assert(work_line(a[0]) + (work_text(a.drop_first()) + work_text(b)) =~= (work_line(a[0])
            + work_text(a.drop_first())) + work_text(b));
    }
}

/// Appends the text of a work file to `target`: one line per chain, seed and
/// result in lower-case hex and the count in decimal, separated by colons.
pub fn write_work(work: &Work, target: &mut Vec<u8>)
    ensures
        final(target)@ == old(target)@ + work_text(work_view(work@)),
{
    let ghost w = work_view(work@);
    let ghost start = target@;
    assert(w.take(0) =~= Seq::<ChainView>::empty());
    assert(start + work_text(w.take(0)) =~= start);
    for i in 0..work.len()
        invariant
            w == work_view(work@),
            target@ == start + work_text(w.take(i as int)),
    {
        let (initial_value, count, hash) = work[i];
        let mut line = hex_encode(&initial_value);
        line.push(58u8);
        let mut hash_hex = hex_encode(&hash);
        line.append(&mut hash_hex);
        line.push(58u8);
        let mut digits = format_u64(count, 10);
        line.append(&mut digits);
        line.push(10u8);
        proof {
            assert(w[i as int] == chain_view(work@[i as int]));
            assert(line@ =~= work_line(w[i as int]));
            assert(w.take(i + 1) =~= w.take(i as int) + seq![w[i as int]]);
            lemma_work_text_append(w.take(i as int), seq![w[i as int]]);
            assert(seq![w[i as int]].drop_first() =~= Seq::<ChainView>::empty());
            assert(work_text(Seq::<ChainView>::empty()) == Seq::<u8>::empty());
            assert(work_text(seq![w[i as int]]) =~= work_line(w[i as int]));
        }
        target.append(&mut line);
        assert(target@ =~= start + work_text(w.take(i + 1)));
    }
    assert(w.take(work@.len() as int) =~= w);
}

proof fn lemma_work_count_prefix(w: Seq<ChainView>, k: int)
    requires
        0 <= k <= w.len(),
    ensures
        work_count(w.take(k)) <= work_count(w),
    decreases w.len() - k,
{
    if k < w.len() {
        lemma_work_count_prefix(w, k + 1);
        assert(w.take(k + 1).drop_last() =~= w.take(k));
    } else {
        assert(w.take(k) =~= w);
    }
}

/// The total number of iterations in some work.
pub fn total_count(work: &Work) -> (total: u64)
    requires
        work_count(work_view(work@)) <= u64::MAX,
    ensures
        total == work_count(work_view(work@)),
{
    let ghost w = work_view(work@);
    let mut total: u64 = 0;
    for i in 0..work.len()
        invariant
            w == work_view(work@),
            work_count(w) <= u64::MAX,
            total == work_count(w.take(i as int)),
    {
        proof {
            assert(w.take(i + 1).drop_last() =~= w.take(i as int));
            lemma_work_count_prefix(w, i + 1);
        }
        total = total + work[i].1;
    }
    assert(w.take(work@.len() as int) =~= w);
    total
}

proof fn lemma_parse_chain_line(c: ChainView)
    requires
        c.0.len() == 32,
        c.2.len() == 32,
    ensures
        parse_chain_spec(
            hex_encode_spec(c.0) + seq![58u8] + hex_encode_spec(c.2) + seq![58u8] + radix_digits(
                c.1 as nat,
                10,
            ),
        ) == Ok::<ChainView, WorkFileError>(c),
{
    let h0 = hex_encode_spec(c.0);
    let h1 = hex_encode_spec(c.2);
    let d = radix_digits(c.1 as nat, 10);
    let l = h0 + seq![58u8] + h1 + seq![58u8] + d;
    lemma_hex_roundtrip(c.0);
    lemma_hex_roundtrip(c.2);
    lemma_radix_digits_shape(c.1 as nat, 10);
    lemma_parse_format_u64(c.1, 10);
    lemma_no_byte_in_hex(h0, 58u8);
    lemma_no_byte_in_hex(h1, 58u8);
    lemma_no_byte_in_digits(d, 58u8);
    assert(l =~= h0 + (seq![58u8] + h1 + seq![58u8] + d));
    lemma_find_first_append(h0, seq![58u8] + h1 + seq![58u8] + d, 58u8);
    assert(l.take(64) =~= h0);
    let r1 = l.skip(65);
    assert(r1 =~= h1 + (seq![58u8] + d));
    lemma_find_first_append(h1, seq![58u8] + d, 58u8);
    assert(r1.take(64) =~= h1);
    let r2 = r1.skip(65);
    assert(r2 =~= d);
    lemma_find_first(d, 58u8);
    assert(d.take(find_first(d, 58u8) as int) =~= d);
}

/// Reading the text written for some work gives that work back.
pub proof fn lemma_read_write_work(w: Seq<Chain>)
    ensures
        parse_work_spec(work_text(work_view(w))) == Ok::<Seq<ChainView>, WorkFileError>(
            work_view(w),
        ),
    decreases w.len(),
{
    let q = work_view(w);
    if w.len() > 0 {
        let t = work_text(q);
        let head = q[0];
        assert(head == chain_view(w[0]));
        assert(q.drop_first() =~= work_view(w.drop_first()));
        lemma_read_write_work(w.drop_first());
        let h0 = hex_encode_spec(head.0);
        let h1 = hex_encode_spec(head.2);
        let d = radix_digits(head.1 as nat, 10);
        let a = h0 + seq![58u8] + h1 + seq![58u8] + d;
        lemma_hex_roundtrip(head.0);
        lemma_hex_roundtrip(head.2);
        lemma_radix_digits_shape(head.1 as nat, 10);
        lemma_no_byte_in_hex(h0, 10u8);
        lemma_no_byte_in_hex(h1, 10u8);
        lemma_no_byte_in_digits(d, 10u8);
        lemma_no_byte_in_digits(d, 13u8);
        assert forall|j: int| 0 <= j < a.len() implies a[j] != 10u8 by {
            if j < 64 {
                assert(a[j] == h0[j]);
            } else if 64 < j < 129 {
                assert(a[j] == h1[j - 65]);
            } else if j > 129 {
                assert(a[j] == d[j - 130]);
            }
        }
        assert(t =~= a + (seq![10u8] + work_text(q.drop_first())));
        lemma_find_first_append(a, seq![10u8] + work_text(q.drop_first()), 10u8);
        assert(t.take(a.len() as int) =~= a);
        assert(a.last() == d.last());
        assert(strip_cr(a) == a);
        assert(t.skip(a.len() + 1int) =~= work_text(q.drop_first()));
        lemma_parse_chain_line(head);
        assert(seq![head] + q.drop_first() =~= q);
    } else {
        assert(q =~= Seq::<ChainView>::empty());
    }
}

/// Selects the chains with `count` iterations.
pub open spec fn count_is(count: u64) -> spec_fn(ChainView) -> bool {
    |c: ChainView| c.1 == count
}

/// The chains are in increasing order of count.
pub open spec fn sorted_by_count(s: Seq<ChainView>) -> bool {
    forall|i: int, j: int| 0 <= i < j < s.len() ==> s[i].1 <= s[j].1
}

/// `sorted` is what a stable sort of `orig` by count gives: it is ordered by
/// count, and for every count the chains with that count come in the order
/// they have in `orig`.
pub open spec fn stable_sort_by_count(sorted: Seq<ChainView>, orig: Seq<ChainView>) -> bool {
    &&& sorted.len() == orig.len()
    &&& sorted_by_count(sorted)
    &&& forall|count: u64| #[trigger]
        sorted.filter(count_is(count)) == orig.filter(count_is(count))
}

proof fn lemma_filter_none(s: Seq<ChainView>, count: u64)
    requires
        forall|j: int| 0 <= j < s.len() ==> s[j].1 != count,
    ensures
        s.filter(count_is(count)) == Seq::<ChainView>::empty(),
    decreases s.len(),
{
    reveal(Seq::filter);
    if s.len() > 0 {
        lemma_filter_none(s.drop_last(), count);
    }
}

proof fn lemma_filter_single(x: ChainView, count: u64)
    ensures
        seq![x].filter(count_is(count)) == (if x.1 == count {
            seq![x]
        } else {
            Seq::<ChainView>::empty()
        }),
{
    reveal(Seq::filter);
    assert(seq![x].drop_last() =~= Seq::<ChainView>::empty());
    assert(Seq::<ChainView>::empty().filter(count_is(count)) =~= Seq::<ChainView>::empty());
    assert(Seq::<ChainView>::empty().push(x) =~= seq![x]);
}

proof fn lemma_insert_filter(s: Seq<ChainView>, pos: int, x: ChainView, count: u64)
    requires
        0 <= pos <= s.len(),
        forall|j: int| pos <= j < s.len() ==> s[j].1 > x.1,
    ensures
        s.insert(pos, x).filter(count_is(count)) == (if x.1 == count {
            s.filter(count_is(count)).push(x)
        } else {
            s.filter(count_is(count))
        }),
{
    let a = s.take(pos);
    let b = s.skip(pos);
    assert(s =~= a + b);
    assert(s.insert(pos, x) =~= a + (seq![x] + b));
    Seq::filter_distributes_over_add(a, b, count_is(count));
    Seq::filter_distributes_over_add(seq![x], b, count_is(count));
    Seq::filter_distributes_over_add(a, seq![x] + b, count_is(count));
    lemma_filter_single(x, count);
    if x.1 == count {
        lemma_filter_none(b, count);
        assert(a.filter(count_is(count)) + (seq![x] + Seq::<ChainView>::empty()) =~= (
        a.filter(count_is(count)) + Seq::<ChainView>::empty()).push(x));
    } else {
        assert(Seq::<ChainView>::empty() + b.filter(count_is(count)) =~= b.filter(
            count_is(count),
        ));
    }
}

/// Sorts chains by count, keeping the order of chains with equal counts.
fn sort_by_count(work: Work) -> (sorted: Work)
    ensures
        stable_sort_by_count(work_view(sorted@), work_view(work@)),
{
    let ghost w = work_view(work@);
    let mut sorted: Work = Vec::new();
    for i in 0..work.len()
        invariant
            w == work_view(work@),
            sorted@.len() == i,
            sorted_by_count(work_view(sorted@)),
            forall|count: u64| #[trigger]
                work_view(sorted@).filter(count_is(count)) == w.take(i as int).filter(
                    count_is(count),
                ),
    {
        let chain = work[i];
        let mut pos: usize = 0;
        while pos < sorted.len() && sorted[pos].1 <= chain.1
            invariant
                pos <= sorted@.len(),
                forall|j: int| 0 <= j < pos ==> sorted@[j].1 <= chain.1,
            decreases sorted@.len() - pos,
        {
            pos = pos + 1;
        }
        let ghost before = work_view(sorted@);
        proof {
            assert forall|j: int| pos <= j < before.len() implies before[j].1 > chain.1 by {
                assert(sorted_by_count(before));
                if pos < before.len() {
                    assert(before[pos as int].1 > chain.1);
                    assert(before[pos as int].1 <= before[j].1);
                }
            }
        }
        sorted.insert(pos, chain);
        proof {
            let after = work_view(sorted@);
            let x = chain_view(chain);
            assert(after =~= before.insert(pos as int, x));
            assert(w[i as int] == x);
            assert(w.take(i + 1) =~= w.take(i as int) + seq![x]);
            assert forall|count: u64| #[trigger]
                after.filter(count_is(count)) == w.take(i + 1).filter(count_is(count)) by {
                lemma_insert_filter(before, pos as int, x, count);
                Seq::filter_distributes_over_add(w.take(i as int), seq![x], count_is(count));
                lemma_filter_single(x, count);
                if x.1 == count {
                    assert(w.take(i as int).filter(count_is(count)) + seq![x] =~= w.take(
                        i as int,
                    ).filter(count_is(count)).push(x));
                } else {
                    assert(w.take(i as int).filter(count_is(count)) + Seq::<ChainView>::empty()
                        =~= w.take(i as int).filter(count_is(count)));
                }
            }
            assert forall|a: int, b: int| 0 <= a < b < after.len() implies after[a].1
                <= after[b].1 by {
                assert(sorted_by_count(before));
                if a < pos && b > pos {
                    assert(after[a] == before[a]);
                    assert(after[b] == before[b - 1]);
                } else if a < pos && b == pos {
                    assert(after[a] == before[a]);
                } else if a == pos {
                    assert(after[b] == before[b - 1]);
                } else if a > pos {
                    assert(after[a] == before[a - 1]);
                    assert(after[b] == before[b - 1]);
                } else {
                    assert(after[a] == before[a]);
                    assert(after[b] == before[b]);
                }
            }
        }
    }
    assert(w.take(work@.len() as int) =~= w);
    sorted
}

/// How `split` divides `work` for `amount`: for 0, everything goes to the
/// first part; otherwise the two parts together are the work stably sorted by
/// count, and the first part is the shortest prefix of that order whose
/// iterations reach `amount` (all of it when none does).
pub open spec fn is_split(first: Seq<Chain>, rest: Seq<Chain>, work: Seq<Chain>, amount: u64) -> bool {
    &&& amount == 0 ==> first == work && rest.len() == 0
    &&& amount > 0 ==> stable_sort_by_count(work_view(first) + work_view(rest), work_view(work))
    &&& amount > 0 ==> forall|k: int|
        0 <= k < first.len() ==> work_count(#[trigger] work_view(first).take(k)) < amount
    &&& amount > 0 && rest.len() > 0 ==> work_count(work_view(first)) >= amount
}

/// Splits work so that the first part has at least `amount` iterations, or
/// is all of the work. An `amount` of 0 means everything: the work is
/// returned whole, with nothing left over. Otherwise the chains are taken in
/// increasing order of count (a stable sort) for as long as the iterations
/// taken so far are fewer than `amount`; the rest is left over.
pub fn split(work: Work, amount: Count) -> (parts: (Work, Work))
    ensures
        is_split(parts.0@, parts.1@, work@, amount),
{
    if amount == 0 {
        return (work, Vec::new());
    }
    let sorted = sort_by_count(work);
    let ghost s = work_view(sorted@);
    let mut out_solution: Work = Vec::new();
    let mut out_work: Work = Vec::new();
    let mut acc: u64 = 0;
    for j in 0..sorted.len()
        invariant
            s == work_view(sorted@),
            amount > 0,
            work_view(out_solution@) + work_view(out_work@) =~= s.take(j as int),
            out_work@.len() > 0 ==> work_count(work_view(out_solution@)) >= amount,
            acc < amount ==> acc == work_count(work_view(out_solution@)),
            acc >= amount ==> work_count(work_view(out_solution@)) >= amount,
            forall|k: int|
                0 <= k < out_solution@.len() ==> work_count(
                    #[trigger] work_view(out_solution@).take(k),
                ) < amount,
    {
        let chain = sorted[j];
        let hashes = chain.1;
        let ghost sol = work_view(out_solution@);
        if acc < amount {
            out_solution.push(chain);
            proof {
                let sol2 = work_view(out_solution@);
                assert(sol2 =~= sol.push(chain_view(chain)));
                assert(sol2.drop_last() =~= sol);
                assert forall|k: int| 0 <= k < sol2.len() implies work_count(
                    #[trigger] sol2.take(k),
                ) < amount by {
                    if k < sol.len() {
                        assert(sol2.take(k) =~= sol.take(k));
                    } else {
                        assert(sol2.take(k) =~= sol);
                    }
                }
                assert(out_work@.len() == 0);
                assert(work_view(out_work@) =~= Seq::<ChainView>::empty());
                assert(s.take(j + 1) =~= s.take(j as int).push(s[j as int]));
                assert(s[j as int] == chain_view(chain));
            }
            acc = acc.saturating_add(hashes);
        } else {
            let ghost ow = work_view(out_work@);
            out_work.push(chain);
            proof {
                assert(work_view(out_work@) =~= ow.push(chain_view(chain)));
                assert(s.take(j + 1) =~= s.take(j as int).push(s[j as int]));
                assert(s[j as int] == chain_view(chain));
            }
        }
    }
    assert(s.take(sorted@.len() as int) =~= s);
    (out_solution, out_work)
}

} // verus!
