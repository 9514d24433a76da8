use vstd::prelude::*;
use vstd::utf8::{
    decode_utf8_encode_utf8, encode_utf8, encode_utf8_valid_utf8, is_ascii_chars,
    is_ascii_chars_encode_utf8, valid_utf8,
};
use crate::formats::lines::{find_first, find_from, lemma_find_first, lemma_find_first_append};
use crate::formats::puzzlefile::{
    lemma_no_byte_in_digits, lemma_no_byte_in_hex, puzzle_line, puzzle_text, write_puzzle,
};
use crate::puzzle::{piece_view, puzzle_view, PieceView};
use crate::types::PuzzlePiece;
use crate::utils::digits::{
    is_digit_in, lemma_parse_format_u64, lemma_radix_digits_shape, parse_u64,
    parse_u64_spec, radix_digits,
};
use crate::utils::hex_utils::{
    hex_decode, hex_decode_spec, hex_encode_spec, is_hex_digit, is_hex_string,
    lemma_hex_roundtrip,
};
use crate::utils::text::string_from_utf8;

verus! {

/// Why the puzzle stored in an archive could not be read.
#[derive(Debug, Clone, Copy, PartialEq, Eq, Structural)]
pub enum PuzzleEntryError {
    /// A line has no `:`.
    MissingCount,
    /// The part before the first `:` is not an even number of hex digits.
    InvalidHex,
    /// The part after the first `:` (up to the next `:`) is not a `u64`.
    InvalidCount,
    /// The hex part does not denote exactly 32 bytes.
    WrongLength,
}

/// The time-lock puzzle kept inside an archive.
pub struct Puzzle {
    entries: Vec<PuzzlePiece>,
}

impl View for Puzzle {
    type V = Seq<PieceView>;

    closed spec fn view(&self) -> Seq<PieceView> {
        puzzle_view(self.entries@)
    }
}

/// The solution of a solved puzzle: one whose only entry has no iterations
/// left, so that its value is in the clear.
pub open spec fn solution_spec(p: Seq<PieceView>) -> Option<Seq<u8>> {
    if p.len() == 1 && p[0].1 == 0 {
        Some(p[0].0)
    } else {
        None
    }
}

/// The puzzle that holds a solution in the clear.
pub open spec fn solved_spec(solution: Seq<u8>) -> Seq<PieceView> {
    seq![(solution, 0u64)]
}

/// One non-empty line of the stored puzzle: the value in hex, a colon, the
/// count in decimal; text after a second colon is ignored.
pub open spec fn parse_entry_spec(l: Seq<u8>) -> Result<PieceView, PuzzleEntryError> {
    let e0 = find_first(l, 58u8) as int;
    let value = l.take(e0);
    if e0 >= l.len() {
        Err(PuzzleEntryError::MissingCount)
    } else {
        let rest = l.skip(e0 + 1);
        let count = rest.take(find_first(rest, 58u8) as int);
        if !is_hex_string(value) {
            Err(PuzzleEntryError::InvalidHex)
        } else {
            match parse_u64_spec(count, 10) {
                None => Err(PuzzleEntryError::InvalidCount),
                Some(c) => if value.len() != 64 {
                    Err(PuzzleEntryError::WrongLength)
                } else {
                    Ok((hex_decode_spec(value), c))
                },
            }
        }
    }
}

/// The stored puzzle: the text is split at every newline, empty lines are
/// skipped, and each other line is an entry.
pub open spec fn parse_entries_spec(s: Seq<u8>) -> Result<Seq<PieceView>, PuzzleEntryError>
    decreases s.len(),
{
    if s.len() == 0 {
        Ok(Seq::empty())
    } else {
        proof {
            lemma_find_first(s, 10u8);
        }
        let e = find_first(s, 10u8) as int;
        let line = s.take(e);
        let rest = if e < s.len() {
            s.skip(e + 1)
        } else {
            Seq::<u8>::empty()
        };
        if line.len() == 0 {
            parse_entries_spec(rest)
        } else {
            match parse_entry_spec(line) {
                Err(err) => Err(err),
                Ok(entry) => match parse_entries_spec(rest) {
                    Ok(more) => Ok(seq![entry] + more),
                    Err(err) => Err(err),
                },
            }
        }
    }
}

pub(crate) fn to_hash(v: &Vec<u8>) -> (h: [u8; 32])
    requires
        v@.len() == 32,
    ensures
        h@ == v@,
{
    let mut h = [0u8; 32];
    for i in 0..32
        invariant
            v@.len() == 32,
            forall|j: int| 0 <= j < i ==> h@[j] == v@[j],
    {
        h[i] = v[i];
    }
    assert(h@ =~= v@);
    h
}

fn parse_entry(line: &[u8]) -> (r: Result<PuzzlePiece, PuzzleEntryError>)
    ensures
        match r {
            Ok(piece) => parse_entry_spec(line@) == Ok::<PieceView, PuzzleEntryError>(
                piece_view(piece),
            ),
            Err(e) => parse_entry_spec(line@) == Err::<PieceView, PuzzleEntryError>(e),
        },
{
    let ghost l = line@;
    assert(l.subrange(0, l.len() as int) =~= l);
    let e0 = find_from(line, 0, 58u8);
    assert(line@.subrange(0, e0 as int) =~= l.take(e0 as int));
    if e0 == line.len() {
        return Err(PuzzleEntryError::MissingCount);
    }
    let ghost rest = l.skip(e0 + 1);
    assert(rest =~= l.subrange(e0 + 1, l.len() as int));
    let e1 = find_from(line, e0 + 1, 58u8);
    assert(line@.subrange(e0 + 1, e1 as int) =~= rest.take(e1 - e0 - 1));
    let value = match hex_decode(&line[0..e0]) {
        Ok(v) => v,
        Err(_) => {
            return Err(PuzzleEntryError::InvalidHex);
        },
    };
    let count = match parse_u64(&line[e0 + 1..e1], 10) {
        Some(c) => c,
        None => {
            return Err(PuzzleEntryError::InvalidCount);
        },
    };
    if value.len() != 32 {
        return Err(PuzzleEntryError::WrongLength);
    }
    Ok((to_hash(&value), count))
}

proof fn lemma_ascii_valid_utf8(s: Seq<u8>)
    requires
        forall|i: int| 0 <= i < s.len() ==> s[i] < 128,
    ensures
        valid_utf8(s),
{
    let chars = Seq::new(s.len(), |i: int| s[i] as char);
    assert(is_ascii_chars(chars));
    is_ascii_chars_encode_utf8(chars);
    encode_utf8_valid_utf8(chars);
    assert(encode_utf8(chars) =~= s);
}

pub proof fn lemma_puzzle_text_ascii(p: Seq<PieceView>)
    ensures
        forall|i: int| 0 <= i < puzzle_text(p).len() ==> 0 < #[trigger] puzzle_text(p)[i] < 128,
    decreases p.len(),
{
    if p.len() > 0 {
        lemma_puzzle_text_ascii(p.drop_first());
        let h = hex_encode_spec(p[0].0);
        let d = radix_digits(p[0].1 as nat, 10);
        lemma_hex_roundtrip(p[0].0);
        lemma_radix_digits_shape(p[0].1 as nat, 10);
        let l = puzzle_line(p[0]);
        assert forall|i: int| 0 <= i < l.len() implies 0 < #[trigger] l[i] < 128 by {
            if i < h.len() {
                assert(is_hex_digit(h[i]));
            } else if h.len() < i < h.len() + 1 + d.len() {
                assert(is_digit_in(d[i - h.len() - 1], 10));
            }
        }
        let t = puzzle_text(p);
        assert forall|i: int| 0 <= i < t.len() implies 0 < #[trigger] t[i] < 128 by {
            if i >= l.len() {
                assert(t[i] == puzzle_text(p.drop_first())[i - l.len()]);
            }
        }
    }
}

impl Puzzle {
    /// The puzzle that holds `solution` in the clear: one entry with no
    /// iterations left.
    pub fn solved_with_solution(solution: [u8; 32]) -> (p: Self)
        ensures
            p@ == solved_spec(solution@),
    {
        let mut entries = Vec::new();
        entries.push((solution, 0u64));
        let p = Puzzle { entries };
        assert(p@ =~= solved_spec(solution@));
        p
    }

    /// The solution, once the puzzle is solved: a single entry with no
    /// iterations left.
    pub fn solution(&self) -> (r: Option<[u8; 32]>)
        ensures
            r matches Some(s) ==> solution_spec(self@) == Some(s@),
            r is None ==> solution_spec(self@) is None,
            r matches Some(s) ==> self@.len() == 1 && self@[0].1 == 0 && s@ == self@[0].0,
            self@.len() != 1 ==> r is None,
            self@.len() == 1 && self@[0].1 == 0 ==> r is Some,
    {
        if self.entries.len() == 1 && self.entries[0].1 == 0 {
            Some(self.entries[0].0)
        } else {
            None
        }
    }

    /// The stored form of the puzzle: one line per entry, the value in
    /// lower-case hex, a colon, and the count in decimal.
    pub fn as_bytes(&self) -> (bytes: Vec<u8>)
        ensures
            bytes@ == puzzle_text(self@),
    {
        let mut bytes = Vec::new();
        write_puzzle(&self.entries, &mut bytes);
        assert(bytes@ =~= puzzle_text(self@));
        bytes
    }

    /// The stored form of the puzzle as text.
    pub fn as_str(&self) -> (s: String)
        ensures
            encode_utf8(s@) == puzzle_text(self@),
    {
        let bytes = self.as_bytes();
        proof {
            lemma_puzzle_text_ascii(self@);
            lemma_ascii_valid_utf8(bytes@);
            decode_utf8_encode_utf8(bytes@);
        }
        match string_from_utf8(bytes) {
            Some(s) => s,
            None => String::new(),
        }
    }

    /// Reads a stored puzzle; reports the first line that is not an entry.
    pub fn from_bytes(bytes: Vec<u8>) -> (r: Result<Self, PuzzleEntryError>)
        ensures
            match r {
                Ok(p) => parse_entries_spec(bytes@) == Ok::<Seq<PieceView>, PuzzleEntryError>(p@),
                Err(e) => parse_entries_spec(bytes@) == Err::<Seq<PieceView>, PuzzleEntryError>(
                    e,
                ),
            },
    {
        let s = bytes.as_slice();
        let mut entries: Vec<PuzzlePiece> = Vec::new();
        let mut start: usize = 0;
        assert(s@.skip(0) =~= s@);
        while start < s.len()
            invariant
                s@ == bytes@,
                start <= s@.len(),
                parse_entries_spec(s@) == match parse_entries_spec(s@.skip(start as int)) {
                    Ok(rest) => Ok(puzzle_view(entries@) + rest),
                    Err(e) => Err::<Seq<PieceView>, PuzzleEntryError>(e),
                },
            decreases s@.len() - start,
        {
            let ghost here = s@.skip(start as int);
            assert(here =~= s@.subrange(start as int, s@.len() as int));
            let end = find_from(s, start, 10u8);
            proof {
                lemma_find_first(here, 10u8);
            }
            let next = if end < s.len() {
                end + 1
            } else {
                end
            };
            assert(s@.subrange(start as int, end as int) =~= here.take(end - start));
            assert(s@.skip(next as int) =~= (if end < s@.len() {
                here.skip(end - start + 1)
            } else {
                Seq::<u8>::empty()
            }));
            if end > start {
                match parse_entry(&s[start..end]) {
                    Ok(piece) => {
                        let ghost before = entries@;
                        entries.push(piece);
                        proof {
                            assert(puzzle_view(entries@) =~= puzzle_view(before) + seq![
                                piece_view(piece),
                            ]);
                            match parse_entries_spec(s@.skip(next as int)) {
                                Ok(rest) => {
                                    assert(puzzle_view(before) + (seq![piece_view(piece)] + rest)
                                        =~= puzzle_view(entries@) + rest);
                                },
                                Err(e) => {},
                            }
                        }
                    },
                    Err(e) => {
                        return Err(e);
                    },
                }
            }
            start = next;
        }
        assert(s@.skip(start as int) =~= Seq::<u8>::empty());
        let p = Puzzle { entries };
        assert(p@ + Seq::<PieceView>::empty() =~= p@);
        Ok(p)
    }

    /// Reads a stored puzzle in which every non-empty line is an entry.
    pub fn from_well_formed_bytes(bytes: Vec<u8>) -> (p: Self)
        requires
            parse_entries_spec(bytes@) is Ok,
        ensures
            parse_entries_spec(bytes@) == Ok::<Seq<PieceView>, PuzzleEntryError>(p@),
    {
        match Puzzle::from_bytes(bytes) {
            Ok(p) => p,
            Err(_) => Puzzle { entries: Vec::new() },
        }
    }
}

/// Reading back the stored form of a puzzle gives the puzzle.
pub proof fn lemma_entries_roundtrip(p: Seq<PuzzlePiece>)
    ensures
        parse_entries_spec(puzzle_text(puzzle_view(p))) == Ok::<
            Seq<PieceView>,
            PuzzleEntryError,
        >(puzzle_view(p)),
    decreases p.len(),
{
    let q = puzzle_view(p);
    if p.len() > 0 {
        let t = puzzle_text(q);
        let head = q[0];
        assert(head == piece_view(p[0]));
        assert(q.drop_first() =~= puzzle_view(p.drop_first()));
        lemma_entries_roundtrip(p.drop_first());
        let h = hex_encode_spec(head.0);
        let d = radix_digits(head.1 as nat, 10);
        let a = h + seq![58u8] + d;
        lemma_hex_roundtrip(head.0);
        lemma_radix_digits_shape(head.1 as nat, 10);
        lemma_parse_format_u64(head.1, 10);
        lemma_no_byte_in_hex(h, 10u8);
        lemma_no_byte_in_digits(d, 10u8);
        lemma_no_byte_in_hex(h, 58u8);
        lemma_no_byte_in_digits(d, 58u8);
        assert forall|j: int| 0 <= j < a.len() implies a[j] != 10u8 by {
            if j < h.len() {
                assert(a[j] == h[j]);
            } else if j > h.len() {
                assert(a[j] == d[j - h.len() - 1]);
            }
        }
        assert(t =~= a + (seq![10u8] + puzzle_text(q.drop_first())));
        lemma_find_first_append(a, seq![10u8] + puzzle_text(q.drop_first()), 10u8);
        assert(t.take(a.len() as int) =~= a);
        assert(t.skip(a.len() + 1int) =~= puzzle_text(q.drop_first()));
        assert(a =~= h + (seq![58u8] + d));
        lemma_find_first_append(h, seq![58u8] + d, 58u8);
        assert(a.take(64) =~= h);
        assert(a.skip(65) =~= d);
        lemma_find_first(d, 58u8);
        assert(d.take(find_first(d, 58u8) as int) =~= d);
        assert(seq![head] + q.drop_first() =~= q);
    } else {
        assert(q =~= Seq::<PieceView>::empty());
    }
}

/// Reading back the stored form of any puzzle gives that puzzle:
/// `Puzzle::from_bytes(p.as_bytes())` is `Ok` with the entries of `p`.
pub proof fn lemma_puzzle_bytes_roundtrip(p: Puzzle)
    ensures
        parse_entries_spec(puzzle_text(p@)) == Ok::<Seq<PieceView>, PuzzleEntryError>(p@),
{
    lemma_entries_roundtrip(p.entries@);
}

/// Only a puzzle of exactly one entry with no iterations left is solved; a
/// puzzle with two or more entries, or whose single entry still has work,
/// has no solution, and the solution of a solved puzzle is its entry's value.
pub proof fn lemma_solution_only_when_solved(p: Seq<PieceView>)
    ensures
        p.len() != 1 ==> solution_spec(p) is None,
        p.len() == 1 && p[0].1 != 0 ==> solution_spec(p) is None,
        p.len() == 1 && p[0].1 == 0 ==> solution_spec(p) == Some(p[0].0),
{
}

/// A solved puzzle stored in an archive and read back gives its solution:
/// the key an archive is created with is the key its puzzle yields.
pub proof fn lemma_stored_solution(solution: [u8; 32])
    ensures
        parse_entries_spec(puzzle_text(solved_spec(solution@))) == Ok::<
            Seq<PieceView>,
            PuzzleEntryError,
        >(solved_spec(solution@)),
        solution_spec(solved_spec(solution@)) == Some(solution@),
{
    let p: Seq<PuzzlePiece> = seq![(solution, 0u64)];
    assert(puzzle_view(p) =~= solved_spec(solution@));
    lemma_entries_roundtrip(p);
}

} // verus!
