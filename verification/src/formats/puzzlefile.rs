use vstd::prelude::*;
use vstd::string::StringSliceAdditionalSpecFns;
use crate::formats::lines::{
    find_first, find_from, lemma_find_first, lemma_find_first_append, line_bounds, split_line,
};
use crate::formats::workfile::work_count;
use crate::puzzle::{convert_spec, piece_view, puzzle_view, work_view, PieceView};
use crate::types::{Chain, Puzzle, PuzzlePiece};
use crate::utils::digits::{
    all_digits, format_u64, lemma_parse_format_u64, lemma_radix_digits_shape, parse_u64,
    parse_u64_spec, radix_digits,
};
use crate::utils::hex_utils::{
    hex_decode_spec, hex_encode, hex_encode_spec, is_hex_string, lemma_hex_roundtrip, read_bytes,
};

verus! {

/// Why a line of a puzzle file could not be read.
#[derive(Debug, Clone, Copy, PartialEq, Eq, Structural)]
pub enum PuzzleFileError {
    /// The part before the first `:` is not sixty-four hex digits.
    InvalidSeed,
    /// The line has no `:`.
    MissingCount,
    /// The part after the first `:` (up to the next `:`) is not a `u64`.
    InvalidCount,
}

/// One line of a puzzle file (without its line ending): the seed as hex, a
/// colon, and the count in decimal; text after a second colon is ignored.
pub open spec fn parse_piece_spec(l: Seq<u8>) -> Result<PieceView, PuzzleFileError> {
    let e0 = find_first(l, 58u8) as int;
    let seed = l.take(e0);
    if !(seed.len() == 64 && is_hex_string(seed)) {
        Err(PuzzleFileError::InvalidSeed)
    } else if e0 >= l.len() {
        Err(PuzzleFileError::MissingCount)
    } else {
        let rest = l.skip(e0 + 1);
        match parse_u64_spec(rest.take(find_first(rest, 58u8) as int), 10) {
            Some(count) => Ok((hex_decode_spec(seed), count)),
            None => Err(PuzzleFileError::InvalidCount),
        }
    }
}

/// A puzzle file: one entry per line, read until the first bad line.
pub open spec fn parse_puzzle_spec(s: Seq<u8>) -> Result<Seq<PieceView>, PuzzleFileError>
    decreases s.len(),
{
    if s.len() == 0 {
        Ok(Seq::empty())
    } else {
        proof {
            lemma_find_first(s, 10u8);
        }
        match parse_piece_spec(split_line(s).0) {
            Err(e) => Err(e),
            Ok(piece) => match parse_puzzle_spec(split_line(s).1) {
                Ok(rest) => Ok(seq![piece] + rest),
                Err(e) => Err(e),
            },
        }
    }
}

/// The line written for one puzzle entry.
pub open spec fn puzzle_line(piece: PieceView) -> Seq<u8> {
    hex_encode_spec(piece.0) + seq![58u8] + radix_digits(piece.1 as nat, 10) + seq![10u8]
}

/// The text of a puzzle file: its entries' lines in order.
pub open spec fn puzzle_text(p: Seq<PieceView>) -> Seq<u8>
    decreases p.len(),
{
    if p.len() == 0 {
        Seq::empty()
    } else {
        puzzle_line(p[0]) + puzzle_text(p.drop_first())
    }
}

/// The sum of the counts of a puzzle's entries.
pub open spec fn puzzle_count(p: Seq<PieceView>) -> nat
    decreases p.len(),
{
    if p.len() == 0 {
        0
    } else {
        puzzle_count(p.drop_last()) + p.last().1 as nat
    }
}

fn parse_piece(line: &[u8]) -> (r: Result<PuzzlePiece, PuzzleFileError>)
    ensures
        match r {
            Ok(piece) => parse_piece_spec(line@) == Ok::<PieceView, PuzzleFileError>(
                piece_view(piece),
            ),
            Err(e) => parse_piece_spec(line@) == Err::<PieceView, PuzzleFileError>(e),
        },
{
    let ghost l = line@;
    assert(l.subrange(0, l.len() as int) =~= l);
    let e0 = find_from(line, 0, 58u8);
    assert(line@.subrange(0, e0 as int) =~= l.take(e0 as int));
    let seed = match read_bytes(&line[0..e0]) {
        Ok(seed) => seed,
        Err(_) => {
            return Err(PuzzleFileError::InvalidSeed);
        },
    };
    if e0 == line.len() {
        return Err(PuzzleFileError::MissingCount);
    }
    let ghost rest = l.skip(e0 + 1);
    assert(rest =~= l.subrange(e0 + 1, l.len() as int));
    let e1 = find_from(line, e0 + 1, 58u8);
    assert(line@.subrange(e0 + 1, e1 as int) =~= rest.take(e1 - e0 - 1));
    match parse_u64(&line[e0 + 1..e1], 10) {
        Some(count) => Ok((seed, count)),
        None => Err(PuzzleFileError::InvalidCount),
    }
}

/// Reads a puzzle file's text: one entry per line until the first line that
/// is not an entry, which is reported.
pub fn read_puzzle(text: &str) -> (r: Result<Puzzle, PuzzleFileError>)
    ensures
        match r {
            Ok(p) => parse_puzzle_spec(text.spec_bytes()) == Ok::<
                Seq<PieceView>,
                PuzzleFileError,
            >(puzzle_view(p@)),
            Err(e) => parse_puzzle_spec(text.spec_bytes()) == Err::<
                Seq<PieceView>,
                PuzzleFileError,
            >(e),
        },
{
    let s = text.as_bytes();
    let mut puzzle: Puzzle = Vec::new();
    let mut start: usize = 0;
    assert(s@.skip(0) =~= s@);
    while start < s.len()
        invariant
            s@ == text.spec_bytes(),
            start <= s@.len(),
            parse_puzzle_spec(s@) == match parse_puzzle_spec(s@.skip(start as int)) {
                Ok(rest) => Ok(puzzle_view(puzzle@) + rest),
                Err(e) => Err::<Seq<PieceView>, PuzzleFileError>(e),
            },
        decreases s@.len() - start,
    {
        let (end, next) = line_bounds(s, start);
        let ghost here = s@.skip(start as int);
        match parse_piece(&s[start..end]) {
            Ok(piece) => {
                let ghost before = puzzle@;
                puzzle.push(piece);
                proof {
                    assert(puzzle_view(puzzle@) =~= puzzle_view(before) + seq![piece_view(piece)]);
                    match parse_puzzle_spec(s@.skip(next as int)) {
                        Ok(rest) => {
                            assert(puzzle_view(before) + (seq![piece_view(piece)] + rest)
                                =~= puzzle_view(puzzle@) + rest);
                        },
                        Err(e) => {},
                    }
                }
                start = next;
            },
            Err(e) => {
                return Err(e);
            },
        }
    }
    assert(s@.skip(start as int) =~= Seq::<u8>::empty());
    assert(puzzle_view(puzzle@) + Seq::<PieceView>::empty() =~= puzzle_view(puzzle@));
    Ok(puzzle)
}

/// Reads a puzzle file's text in which every line is an entry.
pub fn read_well_formed_puzzle(text: &str) -> (p: Puzzle)
    requires
        parse_puzzle_spec(text.spec_bytes()) is Ok,
    ensures
        parse_puzzle_spec(text.spec_bytes()) == Ok::<Seq<PieceView>, PuzzleFileError>(
            puzzle_view(p@),
        ),
{
    match read_puzzle(text) {
        Ok(p) => p,
        Err(_) => Vec::new(),
    }
}

proof fn lemma_puzzle_text_append(a: Seq<PieceView>, b: Seq<PieceView>)
    ensures
        puzzle_text(a + b) == puzzle_text(a) + puzzle_text(b),
    decreases a.len(),
{
    if a.len() == 0 {
        assert(a + b =~= b);
        assert(puzzle_text(a) + puzzle_text(b) =~= puzzle_text(b));
    } else {
        assert((a + b).drop_first() =~= a.drop_first() + b);
        lemma_puzzle_text_append(a.drop_first(), b);
        assert(puzzle_line(a[0]) + (puzzle_text(a.drop_first()) + puzzle_text(b)) =~= (
        puzzle_line(a[0]) + puzzle_text(a.drop_first())) + puzzle_text(b));
    }
}

/// Appends the text of a puzzle file to `target`: one line per entry, the
/// seed in lower-case hex, a colon, and the count in decimal.
pub fn write_puzzle(puzzle: &Puzzle, target: &mut Vec<u8>)
    ensures
        final(target)@ == old(target)@ + puzzle_text(puzzle_view(puzzle@)),
{
    let ghost p = puzzle_view(puzzle@);
    let ghost start = target@;
    assert(p.take(0) =~= Seq::<PieceView>::empty());
    assert(start + puzzle_text(p.take(0)) =~= start);
    for i in 0..puzzle.len()
        invariant
            p == puzzle_view(puzzle@),
            target@ == start + puzzle_text(p.take(i as int)),
    {
        let (hash, count) = puzzle[i];
        let mut line = hex_encode(&hash);
        line.push(58u8);
        let mut digits = format_u64(count, 10);
        line.append(&mut digits);
        line.push(10u8);
        proof {
            assert(p[i as int] == piece_view(puzzle@[i as int]));
            assert(line@ =~= puzzle_line(p[i as int]));
            assert(p.take(i + 1) =~= p.take(i as int) + seq![p[i as int]]);
            lemma_puzzle_text_append(p.take(i as int), seq![p[i as int]]);
            assert(seq![p[i as int]].drop_first() =~= Seq::<PieceView>::empty());
            assert(puzzle_text(Seq::<PieceView>::empty()) == Seq::<u8>::empty());
            assert(puzzle_text(seq![p[i as int]]) =~= puzzle_line(p[i as int]));
        }
        let ghost before = target@;
        target.append(&mut line);
        assert(target@ =~= start + puzzle_text(p.take(i + 1)));
    }
    assert(p.take(puzzle@.len() as int) =~= p);
}

/// The total number of iterations needed to solve a puzzle.
pub fn total_count(puzzle: Puzzle) -> (total: u64)
    requires
        puzzle_count(puzzle_view(puzzle@)) <= u64::MAX,
    ensures
        total == puzzle_count(puzzle_view(puzzle@)),
{
    let ghost p = puzzle_view(puzzle@);
    let mut total: u64 = 0;
    for i in 0..puzzle.len()
        invariant
            p == puzzle_view(puzzle@),
            puzzle_count(p) <= u64::MAX,
            total == puzzle_count(p.take(i as int)),
    {
        proof {
            assert(p.take(i + 1).drop_last() =~= p.take(i as int));
            lemma_puzzle_count_prefix(p, i + 1);
        }
        total = total + puzzle[i].1;
    }
    assert(p.take(puzzle@.len() as int) =~= p);
    total
}

proof fn lemma_puzzle_count_prefix(p: Seq<PieceView>, k: int)
    requires
        0 <= k <= p.len(),
    ensures
        puzzle_count(p.take(k)) <= puzzle_count(p),
    decreases p.len() - k,
{
    if k < p.len() {
        lemma_puzzle_count_prefix(p, k + 1);
        assert(p.take(k + 1).drop_last() =~= p.take(k));
    } else {
        assert(p.take(k) =~= p);
    }
}

pub proof fn lemma_no_byte_in_hex(h: Seq<u8>, c: u8)
    requires
        is_hex_string(h),
        c == 10u8 || c == 13u8 || c == 58u8,
    ensures
        forall|j: int| 0 <= j < h.len() ==> h[j] != c,
{
    assert forall|j: int| 0 <= j < h.len() implies h[j] != c by {
        assert(crate::utils::hex_utils::is_hex_digit(h[j]));
    }
}

pub proof fn lemma_no_byte_in_digits(d: Seq<u8>, c: u8)
    requires
        all_digits(d, 10),
        c == 10u8 || c == 13u8 || c == 58u8,
    ensures
        forall|j: int| 0 <= j < d.len() ==> d[j] != c,
{
    assert forall|j: int| 0 <= j < d.len() implies d[j] != c by {
        assert(crate::utils::digits::is_digit_in(d[j], 10));
    }
}

/// Reading one written line gives its entry back.
proof fn lemma_parse_piece_line(piece: PieceView)
    requires
        piece.0.len() == 32,
    ensures
        parse_piece_spec(hex_encode_spec(piece.0) + seq![58u8] + radix_digits(piece.1 as nat, 10))
            == Ok::<PieceView, PuzzleFileError>(piece),
{
    let h = hex_encode_spec(piece.0);
    let d = radix_digits(piece.1 as nat, 10);
    let l = h + seq![58u8] + d;
    lemma_hex_roundtrip(piece.0);
    lemma_radix_digits_shape(piece.1 as nat, 10);
    lemma_parse_format_u64(piece.1, 10);
    lemma_no_byte_in_hex(h, 58u8);
    lemma_no_byte_in_digits(d, 58u8);
    assert(l =~= h + (seq![58u8] + d));
    lemma_find_first_append(h, seq![58u8] + d, 58u8);
    assert(find_first(l, 58u8) == 64);
    assert(l.take(64) =~= h);
    assert(l.skip(65) =~= d);
    lemma_find_first(d, 58u8);
    assert(d.take(find_first(d, 58u8) as int) =~= d);
}

/// Reading the text written for a puzzle gives that puzzle back.
pub proof fn lemma_read_write_puzzle(p: Seq<PuzzlePiece>)
    ensures
        parse_puzzle_spec(puzzle_text(puzzle_view(p))) == Ok::<Seq<PieceView>, PuzzleFileError>(
            puzzle_view(p),
        ),
    decreases p.len(),
{
    let q = puzzle_view(p);
    if p.len() > 0 {
        let t = puzzle_text(q);
        let head = q[0];
        assert(head == piece_view(p[0]));
        assert(q.drop_first() =~= puzzle_view(p.drop_first()));
        lemma_read_write_puzzle(p.drop_first());
        let h = hex_encode_spec(head.0);
        let d = radix_digits(head.1 as nat, 10);
        let a = h + seq![58u8] + d;
        lemma_hex_roundtrip(head.0);
        lemma_radix_digits_shape(head.1 as nat, 10);
        lemma_no_byte_in_hex(h, 10u8);
        lemma_no_byte_in_digits(d, 10u8);
        lemma_no_byte_in_digits(d, 13u8);
        assert forall|j: int| 0 <= j < a.len() implies a[j] != 10u8 by {
            if j < h.len() {
                assert(a[j] == h[j]);
            } else if j > h.len() {
                assert(a[j] == d[j - h.len() - 1]);
            }
        }
        assert(t =~= a + (seq![10u8] + puzzle_text(q.drop_first())));
        lemma_find_first_append(a, seq![10u8] + puzzle_text(q.drop_first()), 10u8);
        assert(find_first(t, 10u8) == a.len());
        assert(t.take(a.len() as int) =~= a);
        assert(a.last() == d.last());
        assert(strip_cr_is_identity(a));
        assert(t.skip(a.len() + 1int) =~= puzzle_text(q.drop_first()));
        lemma_parse_piece_line(head);
        assert(seq![head] + q.drop_first() =~= q);
    } else {
        assert(q =~= Seq::<PieceView>::empty());
    }
}

spec fn strip_cr_is_identity(l: Seq<u8>) -> bool {
    crate::formats::lines::strip_cr(l) == l
}

/// Making a puzzle out of work keeps the total number of iterations: a
/// puzzle takes as long to solve as the work took to make.
pub proof fn lemma_puzzle_count_of_work(w: Seq<Chain>)
    ensures
        puzzle_count(convert_spec(work_view(w))) == work_count(work_view(w)),
    decreases w.len(),
{
    if w.len() > 0 {
        let ww = work_view(w);
        let shorter = w.drop_last();
        lemma_puzzle_count_of_work(shorter);
        assert(work_view(shorter) =~= ww.drop_last());
        assert(convert_spec(ww).drop_last() =~= convert_spec(ww.drop_last()));
    }
}

} // verus!
