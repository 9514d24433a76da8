use vstd::prelude::*;
use crate::hash::{hash_count, sha256_iter};
use crate::types;
use crate::types::{Chain, Puzzle, PuzzlePiece, Work};

verus! {

/// Abstract view of a chain: seed bytes, iteration count, result bytes.
pub type ChainView = (Seq<u8>, u64, Seq<u8>);

/// Abstract view of a puzzle entry: masked seed bytes and iteration count.
pub type PieceView = (Seq<u8>, u64);

pub open spec fn chain_view(c: Chain) -> ChainView {
    (c.0@, c.1, c.2@)
}

pub open spec fn piece_view(p: PuzzlePiece) -> PieceView {
    (p.0@, p.1)
}

pub open spec fn work_view(w: Seq<Chain>) -> Seq<ChainView> {
    w.map_values(|c: Chain| chain_view(c))
}

pub open spec fn puzzle_view(p: Seq<PuzzlePiece>) -> Seq<PieceView> {
    p.map_values(|q: PuzzlePiece| piece_view(q))
}

/// Thirty-two zero bytes: the mask of the first puzzle entry.
pub open spec fn zero32() -> Seq<u8> {
    Seq::new(32, |i: int| 0u8)
}

/// Bytewise exclusive or of the first 32 bytes of `a` and `b`.
pub open spec fn xor32(a: Seq<u8>, b: Seq<u8>) -> Seq<u8> {
    Seq::new(32, |i: int| a[i] ^ b[i])
}

/// A chain is valid when its result is its seed hashed `count` times.
pub open spec fn chain_valid(c: ChainView) -> bool {
    c.2 == sha256_iter(c.0, c.1 as nat)
}

/// The mask of entry `i` of a puzzle when it is solved in order: zero for the
/// first entry, and for the others the result of the chain recovered from the
/// previous entry.
pub open spec fn solve_mask(p: Seq<PieceView>, i: nat) -> Seq<u8>
    decreases i,
{
    if i == 0 {
        zero32()
    } else {
        let j = (i - 1) as int;
        sha256_iter(xor32(p[j].0, solve_mask(p, (i - 1) as nat)), p[j].1 as nat)
    }
}

/// The work that solving a puzzle recovers: entry `i` unmasked, its count,
/// and the result of hashing it.
pub open spec fn solve_spec(p: Seq<PieceView>) -> Seq<ChainView> {
    Seq::new(
        p.len(),
        |i: int| (xor32(p[i].0, solve_mask(p, i as nat)), p[i].1, solve_mask(p, (i + 1) as nat)),
    )
}

/// The mask that turns chain `i` of some work into a puzzle entry: zero for
/// the first chain, the previous chain's result for the others.
pub open spec fn convert_mask(w: Seq<ChainView>, i: int) -> Seq<u8> {
    if i == 0 {
        zero32()
    } else {
        w[i - 1].2
    }
}

/// The puzzle made from some work: each seed masked with the previous result.
pub open spec fn convert_spec(w: Seq<ChainView>) -> Seq<PieceView> {
    Seq::new(w.len(), |i: int| (xor32(convert_mask(w, i), w[i].0), w[i].1))
}

fn xor(hash1: types::Hash, hash2: types::Hash) -> (hash: types::Hash)
    ensures
        hash@ == xor32(hash1@, hash2@),
{
    let mut hash: types::Hash = [0u8; 32];
    for i in 0..32
        invariant
            forall|j: int| 0 <= j < i ==> hash@[j] == hash1@[j] ^ hash2@[j],
    {
        hash[i] = hash1[i] ^ hash2[i];
    }
    assert(hash@ =~= xor32(hash1@, hash2@));
    hash
}

proof fn lemma_xor32_zero(a: Seq<u8>)
    requires
        a.len() == 32,
    ensures
        xor32(zero32(), a) == a,
        xor32(a, zero32()) == a,
{
    assert forall|i: int| 0 <= i < 32 implies xor32(zero32(), a)[i] == a[i] && xor32(a, zero32())[i]
        == a[i] by {
        let x = a[i];
        assert(0u8 ^ x == x && x ^ 0u8 == x) by (bit_vector);
    }
    assert(xor32(zero32(), a) =~= a);
    assert(xor32(a, zero32()) =~= a);
}

proof fn lemma_xor32_comm(a: Seq<u8>, b: Seq<u8>)
    ensures
        xor32(a, b) == xor32(b, a),
{
    assert forall|i: int| 0 <= i < 32 implies xor32(a, b)[i] == xor32(b, a)[i] by {
        let x = a[i];
        let y = b[i];
        assert(x ^ y == y ^ x) by (bit_vector);
    }
    assert(xor32(a, b) =~= xor32(b, a));
}

/// Making a puzzle keeps each chain's count, stores the first seed in the
/// clear and every later seed masked with the result of the chain just
/// before it; the puzzle made from the first `k` chains is the first `k`
/// entries of the puzzle made from all of them.
pub proof fn lemma_convert_masks_with_previous_result(w: Seq<ChainView>, k: int)
    requires
        forall|i: int| 0 <= i < w.len() ==> (#[trigger] w[i]).0.len() == 32,
        0 <= k <= w.len(),
    ensures
        convert_spec(w).len() == w.len(),
        forall|i: int| 0 <= i < w.len() ==> (#[trigger] convert_spec(w)[i]).1 == w[i].1,
        w.len() > 0 ==> convert_spec(w)[0].0 == w[0].0,
        forall|i: int|
            0 < i < w.len() ==> (#[trigger] convert_spec(w)[i]).0 == xor32(w[i].0, w[i - 1].2),
        convert_spec(w.take(k)) == convert_spec(w).take(k),
{
    assert forall|i: int| 0 < i < w.len() implies (#[trigger] convert_spec(w)[i]).0 == xor32(
        w[i].0,
        w[i - 1].2,
    ) by {
        lemma_xor32_comm(w[i - 1].2, w[i].0);
    }
    if w.len() > 0 {
        lemma_xor32_zero(w[0].0);
    }
    assert(convert_spec(w.take(k)) =~= convert_spec(w).take(k));
}

/// Solving a puzzle recovers valid chains: each one's result is its seed
/// hashed its count times, its count is the entry's count, the first seed is
/// the first entry in the clear, and every later seed is its entry unmasked
/// with the result of the chain just before it.
pub proof fn lemma_solve_unmasks_with_previous_result(p: Seq<PieceView>)
    requires
        forall|i: int| 0 <= i < p.len() ==> (#[trigger] p[i]).0.len() == 32,
    ensures
        solve_spec(p).len() == p.len(),
        forall|i: int|
            0 <= i < p.len() ==> (#[trigger] solve_spec(p)[i]).1 == p[i].1 && solve_spec(p)[i].2
                == sha256_iter(solve_spec(p)[i].0, p[i].1 as nat),
        p.len() > 0 ==> solve_spec(p)[0].0 == p[0].0,
        forall|i: int|
            0 < i < p.len() ==> (#[trigger] solve_spec(p)[i]).0 == xor32(p[i].0, solve_spec(p)[i - 1].2),
{
    if p.len() > 0 {
        lemma_xor32_zero(p[0].0);
    }
}

/// Solves every entry of the puzzle in order, recovering the work it was made from.
pub fn solve_puzzle(puzzle: Puzzle) -> (work: Work)
    ensures
        work_view(work@) == solve_spec(puzzle_view(puzzle@)),
        work@.len() == puzzle@.len(),
        forall|i: int| 0 <= i < work@.len() ==> (#[trigger] work@[i]).1 == puzzle@[i].1,
        forall|i: int|
            0 <= i < work@.len() ==> (#[trigger] work@[i]).2@ == sha256_iter(
                work@[i].0@,
                work@[i].1 as nat,
            ),
        work@.len() > 0 ==> work@[0].0 == puzzle@[0].0,
        forall|i: int|
            0 < i < work@.len() ==> (#[trigger] work@[i]).0@ == xor32(
                puzzle@[i].0@,
                work@[i - 1].2@,
            ),
{
    let ghost p = puzzle_view(puzzle@);
    let mut last_hash: types::Hash = [0u8; 32];
    let mut work: Work = Vec::new();
    assert(last_hash@ =~= zero32());
    for i in 0..puzzle.len()
        invariant
            p == puzzle_view(puzzle@),
            p.len() == puzzle@.len(),
            work@.len() == i,
            last_hash@ == solve_mask(p, i as nat),
            work_view(work@) =~= solve_spec(p).take(i as int),
    {
        let (xor_seed, count) = puzzle[i];
        assert(p[i as int] == piece_view(puzzle@[i as int]));
        let seed = xor(xor_seed, last_hash);
        last_hash = hash_count(seed, count);
        assert(last_hash@ == solve_mask(p, (i + 1) as nat));
        work.push((seed, count, last_hash));
        assert(work_view(work@) =~= solve_spec(p).take(i + 1));
    }
    proof {
        assert(work_view(work@) =~= solve_spec(p));
        assert forall|i: int| 0 <= i < work@.len() implies (#[trigger] work@[i]).1 == puzzle@[i].1
            && work@[i].2@ == sha256_iter(work@[i].0@, work@[i].1 as nat) && (i > 0
            ==> work@[i].0@ == xor32(puzzle@[i].0@, work@[i - 1].2@)) by {
            assert(work_view(work@)[i] == chain_view(work@[i]));
            assert(p[i] == piece_view(puzzle@[i]));
            if i > 0 {
                assert(work_view(work@)[i - 1] == chain_view(work@[i - 1]));
            }
        }
        if work@.len() > 0 {
            assert(work_view(work@)[0] == chain_view(work@[0]));
            assert(p[0] == piece_view(puzzle@[0]));
            lemma_xor32_zero(puzzle@[0].0@);
            assert(work@[0].0@ == puzzle@[0].0@);
            assert(work@[0].0 =~= puzzle@[0].0);
        }
    }
    work
}

/// Turns work into a puzzle: each chain's seed is masked with the result of
/// the chain before it, so that only the first seed is in the clear.
pub fn convert_to_puzzle(work: Work) -> (puzzle: Puzzle)
    ensures
        puzzle_view(puzzle@) == convert_spec(work_view(work@)),
        puzzle@.len() == work@.len(),
        forall|i: int| 0 <= i < puzzle@.len() ==> (#[trigger] puzzle@[i]).1 == work@[i].1,
        work@.len() > 0 ==> puzzle@[0].0 == work@[0].0,
        forall|i: int|
            0 < i < puzzle@.len() ==> (#[trigger] puzzle@[i]).0@ == xor32(
                work@[i].0@,
                work@[i - 1].2@,
            ),
{
    let ghost w = work_view(work@);
    let mut last_hash: types::Hash = [0u8; 32];
    let mut puzzle: Puzzle = Vec::new();
    assert(last_hash@ =~= zero32());
    for i in 0..work.len()
        invariant
            w == work_view(work@),
            w.len() == work@.len(),
            puzzle@.len() == i,
            last_hash@ == convert_mask(w, i as int),
            puzzle_view(puzzle@) =~= convert_spec(w).take(i as int),
    {
        let (iv, count, hash) = work[i];
        assert(w[i as int] == chain_view(work@[i as int]));
        puzzle.push((xor(last_hash, iv), count));
        last_hash = hash;
        assert(puzzle_view(puzzle@) =~= convert_spec(w).take(i + 1));
    }
    proof {
        assert(puzzle_view(puzzle@) =~= convert_spec(w));
        assert forall|i: int| 0 <= i < puzzle@.len() implies (#[trigger] puzzle@[i]).1 == work@[i].1
            && (i > 0 ==> puzzle@[i].0@ == xor32(work@[i].0@, work@[i - 1].2@)) by {
            assert(puzzle_view(puzzle@)[i] == piece_view(puzzle@[i]));
            assert(w[i] == chain_view(work@[i]));
            if i > 0 {
                assert(w[i - 1] == chain_view(work@[i - 1]));
                lemma_xor32_comm(work@[i - 1].2@, work@[i].0@);
            }
        }
        if work@.len() > 0 {
            assert(puzzle_view(puzzle@)[0] == piece_view(puzzle@[0]));
            assert(w[0] == chain_view(work@[0]));
            lemma_xor32_zero(work@[0].0@);
            assert(puzzle@[0].0 =~= work@[0].0);
        }
    }
    puzzle
}

proof fn lemma_xor_byte_cancel(a: u8, m: u8)
    ensures
        m ^ (a ^ m) == a,
        (m ^ a) ^ m == a,
{
    assert(m ^ (a ^ m) == a) by (bit_vector);
    assert((m ^ a) ^ m == a) by (bit_vector);
}

proof fn lemma_xor32_cancel(a: Seq<u8>, m: Seq<u8>)
    requires
        a.len() == 32,
    ensures
        xor32(m, xor32(a, m)) == a,
        xor32(xor32(m, a), m) == a,
{
    assert forall|i: int| 0 <= i < 32 implies xor32(m, xor32(a, m))[i] == a[i] && xor32(
        xor32(m, a),
        m,
    )[i] == a[i] by {
        lemma_xor_byte_cancel(a[i], m[i]);
    }
    assert(xor32(m, xor32(a, m)) =~= a);
    assert(xor32(xor32(m, a), m) =~= a);
}

/// Turning the work recovered from a puzzle back into a puzzle gives the same
/// puzzle: solving only removes the masks that making the puzzle put on.
pub proof fn lemma_convert_after_solve(p: Seq<PuzzlePiece>)
    ensures
        convert_spec(solve_spec(puzzle_view(p))) == puzzle_view(p),
{
    let q = puzzle_view(p);
    let s = solve_spec(q);
    assert forall|i: int| 0 <= i < q.len() implies convert_spec(s)[i] == q[i] by {
        assert(q[i] == piece_view(p[i]));
        assert(convert_mask(s, i) == solve_mask(q, i as nat));
        lemma_xor32_cancel(q[i].0, solve_mask(q, i as nat));
    }
    assert(convert_spec(s) =~= q);
}

proof fn lemma_solve_mask_of_convert(w: Seq<Chain>, i: nat)
    requires
        i <= w.len(),
        forall|k: int| 0 <= k < w.len() ==> chain_valid(#[trigger] work_view(w)[k]),
    ensures
        solve_mask(convert_spec(work_view(w)), i) == convert_mask(work_view(w), i as int),
    decreases i,
{
    if i > 0 {
        let ww = work_view(w);
        let j = (i - 1) as int;
        lemma_solve_mask_of_convert(w, (i - 1) as nat);
        assert(ww[j] == chain_view(w[j]));
        lemma_xor32_cancel(ww[j].0, convert_mask(ww, j));
        assert(chain_valid(ww[j]));
    }
}

/// Solving the puzzle made from valid work (each chain's result is its seed
/// hashed `count` times) recovers exactly that work.
pub proof fn lemma_solve_after_convert(w: Seq<Chain>)
    requires
        forall|k: int| 0 <= k < w.len() ==> chain_valid(#[trigger] work_view(w)[k]),
    ensures
        solve_spec(convert_spec(work_view(w))) == work_view(w),
{
    let ww = work_view(w);
    let c = convert_spec(ww);
    assert forall|i: int| 0 <= i < ww.len() implies solve_spec(c)[i] == ww[i] by {
        lemma_solve_mask_of_convert(w, i as nat);
        lemma_solve_mask_of_convert(w, (i + 1) as nat);
        assert(ww[i] == chain_view(w[i]));
        lemma_xor32_cancel(ww[i].0, convert_mask(ww, i));
    }
    assert(solve_spec(c) =~= ww);
}

/// Extending a puzzle with a new chain in front: the puzzle made from the
/// longer work is the new chain's seed in the clear with its count, followed
/// by the old puzzle whose first entry is xor'd with the new chain's result.
pub proof fn lemma_extend_puzzle(c: Chain, w: Seq<Chain>)
    requires
        w.len() > 0,
    ensures
        convert_spec(work_view(seq![c] + w)) == seq![(c.0@, c.1)] + convert_spec(
            work_view(w),
        ).update(0, (xor32(c.2@, convert_spec(work_view(w))[0].0), convert_spec(work_view(w))[0].1)),
{
    let ww = work_view(w);
    let big = work_view(seq![c] + w);
    let old_p = convert_spec(ww);
    let rhs = seq![(c.0@, c.1)] + old_p.update(0, (xor32(c.2@, old_p[0].0), old_p[0].1));
    assert(big.len() == rhs.len());
    assert forall|i: int| 0 <= i < big.len() implies convert_spec(big)[i] == rhs[i] by {
        assert((seq![c] + w)[i] == (if i == 0 { c } else { w[i - 1] }));
        if i == 0 {
            assert forall|k: int| 0 <= k < 32 implies xor32(zero32(), c.0@)[k] == c.0@[k] by {
                let b = c.0@[k];
                assert(0u8 ^ b == b) by (bit_vector);
            }
            assert(xor32(zero32(), c.0@) =~= c.0@);
        } else if i == 1 {
            assert(ww[0] == chain_view(w[0]));
            assert forall|k: int| 0 <= k < 32 implies xor32(zero32(), w[0].0@)[k] == w[0].0@[k] by {
                let b = w[0].0@[k];
                assert(0u8 ^ b == b) by (bit_vector);
            }
            assert(xor32(zero32(), w[0].0@) =~= w[0].0@);
            assert(big[0] == chain_view(c));
            assert(big[1] == chain_view(w[0]));
        } else {
            assert(big[i - 1] == ww[i - 2]);
            assert(big[i] == ww[i - 1]);
        }
    }
    assert(convert_spec(big) =~= rhs);
}

} // verus!
