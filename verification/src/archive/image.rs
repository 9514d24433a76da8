use vstd::prelude::*;
use vstd::utf8::encode_utf8;
use crate::archive::layout::{initial_entries_spec, puzzle_name};
use crate::archive::listing::all_zero;
use crate::archive::puzzle::{
    lemma_entries_roundtrip, solution_spec, solved_spec, lemma_puzzle_text_ascii, parse_entries_spec, PuzzleEntryError};
use crate::formats::puzzlefile::puzzle_text;
use crate::puzzle::{puzzle_view, PieceView};
use crate::types::PuzzlePiece;
use crate::archive::tar::{
    header_bytes, header_encodable, lemma_header_bytes_shape, lemma_header_roundtrip, padding_spec,
    parse_header_spec, zeros, HeaderView,
};

verus! {

/// An entry as it is written: (name, data, size recorded in the header). The
/// data is followed by zeros up to the size, and the whole by zeros up to a
/// whole number of 512-byte blocks.
pub type EntrySpec = (Seq<char>, Seq<u8>, u64);

/// The header written for an entry named `name` of `size` bytes: mode 0o664,
/// owner, group and modification time 0.
pub open spec fn entry_header(name: Seq<char>, size: u64) -> HeaderView {
    HeaderView { name, mode: 436, uid: 0, gid: 0, size, mtime: 0 }
}

/// The bytes an entry takes in an archive: its header block, its data, and
/// zeros up to its size and then to the end of its last block.
pub open spec fn entry_image(e: EntrySpec) -> Seq<u8> {
    header_bytes(entry_header(e.0, e.2)) + e.1 + zeros(
        (e.2 - e.1.len() + padding_spec(e.2 as nat, 512)) as nat,
    )
}

/// The bytes of an archive made of `es`, written one after the other.
pub open spec fn archive_image(es: Seq<EntrySpec>) -> Seq<u8>
    decreases es.len(),
{
    if es.len() == 0 {
        Seq::empty()
    } else {
        entry_image(es[0]) + archive_image(es.drop_first())
    }
}

/// An entry that can be written and read back: its header fits, the UTF-8 of
/// its name does not end in a zero byte, and its data fits its size.
pub open spec fn entry_writable(e: EntrySpec) -> bool {
    &&& header_encodable(entry_header(e.0, e.2))
    &&& (encode_utf8(e.0).len() == 0 || encode_utf8(e.0).last() != 0u8)
    &&& e.1.len() <= e.2
}

/// The listing of an archive's bytes from the header at `pos` on, step by
/// step as `TarListing::add_block` takes them: reading stops at the end of
/// the bytes or at an all-zero block; a block that is cut short, cannot be
/// read as a header, or is followed by an offset beyond `u64` fails the
/// listing.
pub open spec fn listing_spec(image: Seq<u8>, pos: nat) -> Option<Seq<(HeaderView, u64)>>
    decreases image.len() - pos,
{
    if pos >= image.len() {
        Some(Seq::empty())
    } else if pos + 512 > image.len() {
        None
    } else {
        let block = image.subrange(pos as int, pos + 512int);
        if all_zero(block) {
            Some(Seq::empty())
        } else {
            match parse_header_spec(block) {
                None => None,
                Some(h) => {
                    let next = pos + 512 + h.size + padding_spec(h.size as nat, 512);
                    if next > u64::MAX {
                        None
                    } else if next >= image.len() {
                        Some(seq![(h, pos as u64)])
                    } else {
                        match listing_spec(image, next as nat) {
                            Some(rest) => Some(seq![(h, pos as u64)] + rest),
                            None => None,
                        }
                    }
                },
            }
        }
    }
}

/// The listing expected of entries `es` written from offset `pos` on: each
/// entry's header with the offset at which it starts.
pub open spec fn listed_entries(es: Seq<EntrySpec>, pos: nat) -> Seq<(HeaderView, u64)>
    decreases es.len(),
{
    if es.len() == 0 {
        Seq::empty()
    } else {
        seq![(entry_header(es[0].0, es[0].2), pos as u64)] + listed_entries(
            es.drop_first(),
            pos + entry_image(es[0]).len(),
        )
    }
}

proof fn lemma_entry_image_len(e: EntrySpec)
    requires
        entry_writable(e),
    ensures
        entry_image(e).len() == 512 + e.2 + padding_spec(e.2 as nat, 512),
        entry_image(e).subrange(0, 512) == header_bytes(entry_header(e.0, e.2)),
{
    lemma_header_bytes_shape(entry_header(e.0, e.2));
    let h = header_bytes(entry_header(e.0, e.2));
    assert(entry_image(e).subrange(0, 512) =~= h);
}

proof fn lemma_archive_image_empty(es: Seq<EntrySpec>)
    requires
        forall|i: int| 0 <= i < es.len() ==> entry_writable(#[trigger] es[i]),
        archive_image(es).len() == 0,
    ensures
        es.len() == 0,
{
    if es.len() > 0 {
        lemma_entry_image_len(es[0]);
    }
}

proof fn lemma_listing_from(pre: Seq<u8>, es: Seq<EntrySpec>)
    requires
        forall|i: int| 0 <= i < es.len() ==> entry_writable(#[trigger] es[i]),
        pre.len() + archive_image(es).len() <= u64::MAX,
    ensures
        listing_spec(pre + archive_image(es), pre.len()) == Some(listed_entries(es, pre.len())),
    decreases es.len(),
{
    let image = pre + archive_image(es);
    let p = pre.len();
    if es.len() == 0 {
        assert(image =~= pre);
    } else {
        let e = es[0];
        let rest = es.drop_first();
        let hv = entry_header(e.0, e.2);
        lemma_entry_image_len(e);
        lemma_header_bytes_shape(hv);
        lemma_header_roundtrip(hv);
        let ei = entry_image(e);
        assert(image =~= (pre + ei) + archive_image(rest));
        let block = image.subrange(p as int, p + 512int);
        assert(block =~= ei.subrange(0, 512));
        assert(block[156] == 48u8);
        assert(!all_zero(block));
        assert(parse_header_spec(block) == Some(hv));
        let next = p + ei.len();
        assert forall|i: int| 0 <= i < rest.len() implies entry_writable(#[trigger] rest[i]) by {
            assert(rest[i] == es[i + 1]);
        }
        if next >= image.len() {
            lemma_archive_image_empty(rest);
            assert(listed_entries(rest, next) =~= Seq::<(HeaderView, u64)>::empty());
            assert(seq![(hv, p as u64)] + Seq::<(HeaderView, u64)>::empty() =~= seq![
                (hv, p as u64),
            ]);
        } else {
            lemma_listing_from(pre + ei, rest);
        }
    }
}

/// Listing an archive written as the entries `es` gives, for each entry in
/// order, its header (name, size, mode 0o664, owner, group and time 0) and
/// the offset of its header block, which is the sum of the sizes of the
/// entries before it, each padded to whole blocks and with its header.
pub proof fn lemma_listing_of_written(es: Seq<EntrySpec>)
    requires
        forall|i: int| 0 <= i < es.len() ==> entry_writable(#[trigger] es[i]),
        archive_image(es).len() <= u64::MAX,
    ensures
        listing_spec(archive_image(es), 0) == Some(listed_entries(es, 0)),
{
    lemma_listing_from(Seq::empty(), es);
    assert(Seq::<u8>::empty() + archive_image(es) =~= archive_image(es));
}

/// The index of the first listed entry named `name`, the entry that
/// `TarListing::find_entry` picks.
pub open spec fn first_named(l: Seq<(HeaderView, u64)>, name: Seq<char>) -> Option<nat>
    decreases l.len(),
{
    if l.len() == 0 {
        None
    } else if l[0].0.name == name {
        Some(0)
    } else {
        match first_named(l.drop_first(), name) {
            Some(i) => Some(i + 1),
            None => None,
        }
    }
}

/// The index of the first of the entries `es` named `name`.
pub open spec fn first_entry_named(es: Seq<EntrySpec>, name: Seq<char>) -> Option<nat>
    decreases es.len(),
{
    if es.len() == 0 {
        None
    } else if es[0].0 == name {
        Some(0)
    } else {
        match first_entry_named(es.drop_first(), name) {
            Some(i) => Some(i + 1),
            None => None,
        }
    }
}

/// What reading the entry named `name` gives: the `size` bytes after the
/// header of the first listed entry with that name; nothing when no entry has
/// that name.
pub open spec fn contents_spec(image: Seq<u8>, l: Seq<(HeaderView, u64)>, name: Seq<char>) -> Seq<
    u8,
> {
    match first_named(l, name) {
        Some(i) => image.subrange(l[i as int].1 + 512, l[i as int].1 + 512 + l[i as int].0.size),
        None => Seq::empty(),
    }
}

/// `s` up to its first zero byte.
pub open spec fn until_zero(s: Seq<u8>) -> Seq<u8>
    decreases s.len(),
{
    if s.len() == 0 || s[0] == 0u8 {
        Seq::empty()
    } else {
        seq![s[0]] + until_zero(s.drop_first())
    }
}

/// What reading the entry named `name` up to its first zero byte gives.
pub open spec fn zero_term_spec(image: Seq<u8>, l: Seq<(HeaderView, u64)>, name: Seq<char>) -> Seq<
    u8,
> {
    until_zero(contents_spec(image, l, name))
}

/// `first_named` is the first index with the name, as `find_entry` states
/// its result.
pub proof fn lemma_first_named(l: Seq<(HeaderView, u64)>, name: Seq<char>)
    ensures
        first_named(l, name) matches Some(i) ==> i < l.len() && l[i as int].0.name == name
            && forall|j: int| 0 <= j < i ==> l[j].0.name != name,
        first_named(l, name) is None ==> forall|j: int| 0 <= j < l.len() ==> l[j].0.name != name,
    decreases l.len(),
{
    if l.len() > 0 {
        lemma_first_named(l.drop_first(), name);
        assert forall|j: int| 1 <= j < l.len() implies l[j] == l.drop_first()[j - 1] by {}
    }
}

proof fn lemma_listed_len(es: Seq<EntrySpec>, pos: nat)
    ensures
        listed_entries(es, pos).len() == es.len(),
    decreases es.len(),
{
    if es.len() > 0 {
        lemma_listed_len(es.drop_first(), pos + entry_image(es[0]).len());
    }
}

proof fn lemma_read_from(pre: Seq<u8>, es: Seq<EntrySpec>, name: Seq<char>)
    requires
        forall|i: int| 0 <= i < es.len() ==> entry_writable(#[trigger] es[i]),
        pre.len() + archive_image(es).len() <= u64::MAX,
    ensures
        first_named(listed_entries(es, pre.len()), name) == first_entry_named(es, name),
        first_entry_named(es, name) matches Some(i) ==> {
            let l = listed_entries(es, pre.len());
            &&& i < es.len()
            &&& l[i as int].0.size == es[i as int].2
            &&& (pre + archive_image(es)).subrange(
                l[i as int].1 + 512,
                l[i as int].1 + 512 + l[i as int].0.size,
            ) == es[i as int].1 + zeros((es[i as int].2 - es[i as int].1.len()) as nat)
        },
    decreases es.len(),
{
    if es.len() > 0 {
        let e = es[0];
        let rest = es.drop_first();
        let p = pre.len();
        let ei = entry_image(e);
        lemma_entry_image_len(e);
        let l = listed_entries(es, p);
        let hv = entry_header(e.0, e.2);
        assert forall|i: int| 0 <= i < rest.len() implies entry_writable(#[trigger] rest[i]) by {
            assert(rest[i] == es[i + 1]);
        }
        assert(l.drop_first() =~= listed_entries(rest, p + ei.len()));
        assert(pre + archive_image(es) =~= (pre + ei) + archive_image(rest));
        lemma_read_from(pre + ei, rest, name);
        if e.0 == name {
            let image = pre + archive_image(es);
            assert(image.subrange(p + 512int, p + 512int + e.2) =~= e.1 + zeros(
                (e.2 - e.1.len()) as nat,
            ));
        } else {
            match first_entry_named(rest, name) {
                Some(i) => {
                    lemma_listed_len(rest, p + ei.len());
                    assert(l[i + 1int] == listed_entries(rest, p + ei.len())[i as int]);
                    assert(es[i + 1int] == rest[i as int]);
                },
                None => {},
            }
        }
    }
}

/// Reading an entry by name from an archive written as `es` gives the data
/// of the first entry with that name, followed by zeros up to its size (for
/// an entry that is not sparse, exactly its data); nothing when no entry has
/// that name.
pub proof fn lemma_read_of_written(es: Seq<EntrySpec>, name: Seq<char>)
    requires
        forall|i: int| 0 <= i < es.len() ==> entry_writable(#[trigger] es[i]),
        archive_image(es).len() <= u64::MAX,
    ensures
        listing_spec(archive_image(es), 0) == Some(listed_entries(es, 0)),
        match first_entry_named(es, name) {
            Some(i) => contents_spec(archive_image(es), listed_entries(es, 0), name)
                == es[i as int].1 + zeros((es[i as int].2 - es[i as int].1.len()) as nat),
            None => contents_spec(archive_image(es), listed_entries(es, 0), name) == Seq::<
                u8,
            >::empty(),
        },
{
    lemma_listing_of_written(es);
    lemma_read_from(Seq::empty(), es, name);
    assert(Seq::<u8>::empty() + archive_image(es) =~= archive_image(es));
}

proof fn lemma_until_zero_no_zero(d: Seq<u8>, k: nat)
    requires
        forall|i: int| 0 <= i < d.len() ==> d[i] != 0u8,
    ensures
        until_zero(d + zeros(k)) == d,
    decreases d.len(),
{
    if d.len() == 0 {
        assert(d + zeros(k) =~= zeros(k));
        assert(d =~= Seq::<u8>::empty());
    } else {
        lemma_until_zero_no_zero(d.drop_first(), k);
        assert((d + zeros(k)).drop_first() =~= d.drop_first() + zeros(k));
        assert(seq![d[0]] + d.drop_first() =~= d);
    }
}

/// Reading up to the first zero byte the entry named `name` from an archive
/// written as `es` gives the data of the first entry with that name, when
/// that data holds no zero byte.
pub proof fn lemma_zero_term_read_of_written(es: Seq<EntrySpec>, name: Seq<char>, i: nat)
    requires
        forall|j: int| 0 <= j < es.len() ==> entry_writable(#[trigger] es[j]),
        archive_image(es).len() <= u64::MAX,
        first_entry_named(es, name) == Some(i),
        forall|j: int| 0 <= j < es[i as int].1.len() ==> es[i as int].1[j] != 0u8,
    ensures
        zero_term_spec(archive_image(es), listed_entries(es, 0), name) == es[i as int].1,
{
    lemma_read_of_written(es, name);
    lemma_until_zero_no_zero(es[i as int].1, (es[i as int].2 - es[i as int].1.len()) as nat);
}

/// The puzzle stored in an archive reads back: when the first entry named
/// `puzzle` of an archive written as `es` holds the stored form of a puzzle
/// (sparse or not), reading it up to its first zero byte and parsing it gives
/// that puzzle.
pub proof fn lemma_puzzle_of_written(es: Seq<EntrySpec>, i: nat, pieces: Seq<PuzzlePiece>)
    requires
        forall|j: int| 0 <= j < es.len() ==> entry_writable(#[trigger] es[j]),
        archive_image(es).len() <= u64::MAX,
        first_entry_named(es, puzzle_name()) == Some(i),
        es[i as int].1 == puzzle_text(puzzle_view(pieces)),
    ensures
        parse_entries_spec(
            zero_term_spec(archive_image(es), listed_entries(es, 0), puzzle_name()),
        ) == Ok::<Seq<PieceView>, PuzzleEntryError>(puzzle_view(pieces)),
{
    lemma_puzzle_text_ascii(puzzle_view(pieces));
    assert forall|j: int| 0 <= j < es[i as int].1.len() implies es[i as int].1[j] != 0u8 by {
        assert(0 < puzzle_text(puzzle_view(pieces))[j]);
    }
    lemma_zero_term_read_of_written(es, puzzle_name(), i);
    lemma_entries_roundtrip(pieces);
}

/// A new archive's puzzle yields the key it was created with: in an archive
/// that starts with the entries `initial_entries` makes (whatever entries
/// follow them), reading the `puzzle` entry back gives the solved puzzle
/// whose solution is `solution`.
pub proof fn lemma_new_archive_puzzle(
    public_pem: Seq<char>,
    encrypted_private_key: Seq<u8>,
    solution: [u8; 32],
    later: Seq<EntrySpec>,
)
    requires
        forall|j: int|
            0 <= j < (initial_entries_spec(public_pem, encrypted_private_key, solution@)
                + later).len() ==> entry_writable(
                #[trigger] (initial_entries_spec(public_pem, encrypted_private_key, solution@)
                    + later)[j],
            ),
        archive_image(
            initial_entries_spec(public_pem, encrypted_private_key, solution@) + later,
        ).len() <= u64::MAX,
    ensures
        parse_entries_spec(
            zero_term_spec(
                archive_image(
                    initial_entries_spec(public_pem, encrypted_private_key, solution@) + later,
                ),
                listed_entries(
                    initial_entries_spec(public_pem, encrypted_private_key, solution@) + later,
                    0,
                ),
                puzzle_name(),
            ),
        ) == Ok::<Seq<PieceView>, PuzzleEntryError>(solved_spec(solution@)),
        solution_spec(solved_spec(solution@)) == Some(solution@),
{
    let es = initial_entries_spec(public_pem, encrypted_private_key, solution@) + later;
    let e1 = es.drop_first();
    let e2 = e1.drop_first();
    assert(es[0].0.len() != puzzle_name().len());
    assert(e1[0] == es[1]);
    assert(e1[0].0.len() != puzzle_name().len());
    assert(e2[0] == es[2]);
    assert(first_entry_named(e2, puzzle_name()) == Some(0nat));
    assert(first_entry_named(e1, puzzle_name()) == Some(1nat));
    assert(first_entry_named(es, puzzle_name()) == Some(2nat));
    let pieces: Seq<PuzzlePiece> = seq![(solution, 0u64)];
    assert(puzzle_view(pieces) =~= solved_spec(solution@));
    lemma_puzzle_of_written(es, 2, pieces);
}

} // verus!
