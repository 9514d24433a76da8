use vstd::prelude::*;

verus! {

/// A SHA-256 sized value: a chain's seed, a chain's result, or a puzzle entry.
pub type Hash = [u8; 32];

/// A number of SHA-256 iterations.
pub type Count = u64;

/// One hash chain: the seed, the number of iterations, and the result.
pub type Chain = (Hash, Count, Hash);

/// A list of hash chains, as produced by the work generator.
pub type Work = Vec<Chain>;

/// One puzzle entry: the seed xor'd with the previous chain's result, and the
/// number of iterations to apply to the recovered seed.
pub type PuzzlePiece = (Hash, Count);

/// A puzzle: the first entry's seed is in the clear, the others are masked.
pub type Puzzle = Vec<PuzzlePiece>;

} // verus!
