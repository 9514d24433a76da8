use vstd::prelude::*;
use vstd::string::StringSliceAdditionalSpecFns;
use vstd::utf8::{
    decode_utf8, encode_utf8, encode_utf8_decode_utf8, encode_utf8_valid_utf8,
    is_char_boundary_start_end_of_seq, is_char_boundary_iff_not_is_continuation_byte, valid_utf8_split,
};
use vstd::slice::slice_to_vec;
use crate::archive::tar::{
    lemma_padding_rounds_up, padding_for, padding_spec, parse_header_spec, HeaderView, TarHeader,
};
use crate::utils::text::string_from_utf8;

verus! {

/// What to do after a header block has been looked at.
#[derive(Debug, Clone, Copy, PartialEq, Eq, Structural)]
pub enum ListingStep {
    /// The block is all zeros: the archive ends here.
    End,
    /// The entry was recorded; the next header block starts at this offset.
    Next(u64),
    /// The block is not a header this program can read.
    Invalid,
}

/// The entries of an archive: each header with the offset of its block.
#[derive(Debug)]
pub struct TarListing {
    pub entries: Vec<(TarHeader, u64)>,
}

impl View for TarListing {
    type V = Seq<(HeaderView, u64)>;

    open spec fn view(&self) -> Seq<(HeaderView, u64)> {
        self.entries@.map_values(|e: (TarHeader, u64)| (e.0@, e.1))
    }
}

pub open spec fn all_zero(b: Seq<u8>) -> bool {
    forall|i: int| 0 <= i < b.len() ==> b[i] == 0u8
}

/// The offset of the header that follows the entry whose header starts at
/// `start` and whose data is `size` bytes long, padded to whole blocks.
pub open spec fn next_header(start: u64, size: u64) -> int {
    start + 512 + size + padding_spec(size as nat, 512)
}

/// The next header starts on the same 512-byte alignment as the header
/// before it, past the whole of that entry's data.
pub proof fn lemma_next_header_aligned(start: u64, size: u64)
    ensures
        next_header(start, size) % 512 == start % 512,
        next_header(start, size) >= start + 512 + size,
        next_header(start, size) < start + 1024 + size,
{
    lemma_padding_rounds_up(size as nat, 512);
    let p = padding_spec(size as nat, 512) as int;
    assert((start + 512 + size + p) % 512 == start % 512) by (nonlinear_arith)
        requires
            (size + p) % 512 == 0,
    {
        let k = (size + p) / 512;
        assert(size + p == 512 * k);
        assert(start + 512 + size + p == start + 512 * (k + 1));
    }
}

/// The bytes of the name prefix `aes_keys/`.
pub open spec fn key_prefix() -> Seq<u8> {
    seq![97u8, 101u8, 115u8, 95u8, 107u8, 101u8, 121u8, 115u8, 47u8]
}

/// The position just after the last `/` of `s`, or 0 without one.
pub open spec fn after_last_slash(s: Seq<u8>) -> nat
    decreases s.len(),
{
    if s.len() == 0 {
        0
    } else if s.last() == 47u8 {
        s.len()
    } else {
        after_last_slash(s.drop_last())
    }
}

/// An entry that holds an encrypted file key: its name starts with `aes_keys/`.
pub open spec fn is_key_entry(h: HeaderView) -> bool {
    let b = encode_utf8(h.name);
    b.len() >= 9 && b.take(9) == key_prefix()
}

/// The id under which a key entry stores its file: the part of the name after
/// the last `/`.
pub open spec fn entry_id(h: HeaderView) -> Seq<char> {
    let b = encode_utf8(h.name);
    decode_utf8(b.skip(after_last_slash(b) as int))
}

/// The ids of all the key entries, in order.
pub open spec fn key_ids_spec(v: Seq<(HeaderView, u64)>) -> Seq<Seq<char>>
    decreases v.len(),
{
    if v.len() == 0 {
        Seq::empty()
    } else if is_key_entry(v.last().0) {
        key_ids_spec(v.drop_last()).push(entry_id(v.last().0))
    } else {
        key_ids_spec(v.drop_last())
    }
}

pub(crate) fn str_eq(a: &str, b: &str) -> (r: bool)
    ensures
        r == (a@ == b@),
{
    let x = a.as_bytes();
    let y = b.as_bytes();
    assert(x@ == encode_utf8(a@));
    assert(y@ == encode_utf8(b@));
    proof {
        encode_utf8_decode_utf8(a@);
        encode_utf8_decode_utf8(b@);
    }
    if x.len() != y.len() {
        return false;
    }
    let mut i: usize = 0;
    while i < x.len()
        invariant
            x@.len() == y@.len(),
            x@ == encode_utf8(a@),
            y@ == encode_utf8(b@),
            i <= x@.len(),
            forall|j: int| 0 <= j < i ==> x@[j] == y@[j],
        decreases x@.len() - i,
    {
        if x[i] != y[i] {
            assert(x@[i as int] != y@[i as int]);
            assert(x@ != y@);
            return false;
        }
        i = i + 1;
    }
    assert(x@ =~= y@);
    true
}

proof fn lemma_after_last_slash(s: Seq<u8>)
    ensures
        after_last_slash(s) <= s.len(),
        after_last_slash(s) > 0 ==> s[after_last_slash(s) - 1] == 47u8,
        forall|j: int| after_last_slash(s) <= j < s.len() ==> s[j] != 47u8,
    decreases s.len(),
{
    if s.len() > 0 && s.last() != 47u8 {
        lemma_after_last_slash(s.drop_last());
        assert forall|j: int| after_last_slash(s) <= j < s.len() implies s[j] != 47u8 by {
            if j < s.len() - 1 {
                assert(s[j] == s.drop_last()[j]);
            }
        }
    }
}

fn entry_id_of(name: &str) -> (id: String)
    ensures
        id@ == decode_utf8(encode_utf8(name@).skip(after_last_slash(encode_utf8(name@)) as int)),
{
    let b = name.as_bytes();
    let ghost s = b@;
    let mut k: usize = b.len();
    assert(s.take(s.len() as int) =~= s);
    while k > 0 && b[k - 1] != 47u8
        invariant
            k <= s.len(),
            s == b@,
            after_last_slash(s) == after_last_slash(s.take(k as int)),
        decreases k,
    {
        assert(s.take(k as int).drop_last() =~= s.take(k - 1));
        k = k - 1;
    }
    proof {
        assert(s.take(s.len() as int) =~= s);
        if k > 0 {
            assert(s.take(k as int).last() == 47u8);
        } else {
            assert(s.take(0) =~= Seq::<u8>::empty());
        }
        encode_utf8_valid_utf8(name@);
        is_char_boundary_start_end_of_seq(s);
        if 0 < k < s.len() {
            let x = s.skip(k - 1);
            is_char_boundary_iff_not_is_continuation_byte(s, k - 1);
            valid_utf8_split(s, k - 1);
            assert(s.subrange(k - 1, s.len() as int) =~= x);
            assert(x[0] == 47u8);
            assert(x.subrange(1, x.len() as int) =~= s.skip(k as int));
        } else if k == 0 {
            assert(s.skip(0) =~= s);
        } else {
            assert(s.skip(k as int) =~= Seq::<u8>::empty());
        }
    }
    let tail = slice_to_vec(&b[k..b.len()]);
    assert(tail@ =~= s.skip(k as int));
    match string_from_utf8(tail) {
        Some(id) => id,
        None => String::new(),
    }
}

fn has_key_prefix(name: &str) -> (r: bool)
    ensures
        r == (encode_utf8(name@).len() >= 9 && encode_utf8(name@).take(9) == key_prefix()),
{
    let b = name.as_bytes();
    if b.len() < 9 {
        return false;
    }
    let r = b[0] == 97u8 && b[1] == 101u8 && b[2] == 115u8 && b[3] == 95u8 && b[4] == 107u8
        && b[5] == 101u8 && b[6] == 121u8 && b[7] == 115u8 && b[8] == 47u8;
    assert(r ==> b@.take(9) =~= key_prefix());
    assert(b@.take(9) == key_prefix() ==> b@.take(9)[8] == 47u8 && b@.take(9)[0] == 97u8);
    r
}

impl TarListing {
    pub fn new() -> (l: Self)
        ensures
            l@ == Seq::<(HeaderView, u64)>::empty(),
    {
        let l = TarListing { entries: Vec::new() };
        assert(l@ =~= Seq::<(HeaderView, u64)>::empty());
        l
    }

    /// Looks at the 512-byte block read at offset `header_start`: an all-zero
    /// block ends the archive; a header is recorded and the offset of the next
    /// header (past the entry's data, padded to whole blocks) is given back;
    /// a block that is not a readable header, or whose next offset does not
    /// fit in a `u64`, is refused and nothing is recorded.
    pub fn add_block(&mut self, header_start: u64, block: &[u8; 512]) -> (step: ListingStep)
        ensures
            step matches ListingStep::Next(n) ==> n % 512 == header_start % 512 && n
                >= header_start + 512,
            all_zero(block@) ==> step == ListingStep::End && final(self)@ == old(self)@,
            !all_zero(block@) && parse_header_spec(block@) is None ==> step
                == ListingStep::Invalid && final(self)@ == old(self)@,
            !all_zero(block@) ==> (parse_header_spec(block@) matches Some(h) ==> {
                if next_header(header_start, h.size) <= u64::MAX {
                    step == ListingStep::Next(next_header(header_start, h.size) as u64)
                        && final(self)@ == old(self)@.push((h, header_start))
                } else {
                    step == ListingStep::Invalid && final(self)@ == old(self)@
                }
            }),
    {
        let mut i: usize = 0;
        while i < 512
            invariant
                i <= 512,
                forall|j: int| 0 <= j < i ==> block@[j] == 0u8,
                self@ == old(self)@,
            decreases 512 - i,
        {
            if block[i] != 0u8 {
                assert(!all_zero(block@));
                return self.add_header(header_start, block);
            }
            i = i + 1;
        }
        ListingStep::End
    }

    fn add_header(&mut self, header_start: u64, block: &[u8; 512]) -> (step: ListingStep)
        ensures
            parse_header_spec(block@) is None ==> step == ListingStep::Invalid && final(self)@
                == old(self)@,
            parse_header_spec(block@) matches Some(h) ==> {
                if next_header(header_start, h.size) <= u64::MAX {
                    step == ListingStep::Next(next_header(header_start, h.size) as u64)
                        && final(self)@ == old(self)@.push((h, header_start))
                } else {
                    step == ListingStep::Invalid && final(self)@ == old(self)@
                }
            },
    {
        let header = match TarHeader::try_from_bytes(block) {
            Some(h) => h,
            None => {
                return ListingStep::Invalid;
            },
        };
        let padding = padding_for(header.size, 512);
        let next = match header_start.checked_add(512) {
            Some(a) => match a.checked_add(header.size) {
                Some(b) => b.checked_add(padding),
                None => None,
            },
            None => None,
        };
        match next {
            Some(next) => {
                let ghost before = self.entries@;
                self.entries.push((header, header_start));
                assert(self@ =~= before.map_values(|e: (TarHeader, u64)| (e.0@, e.1)).push(
                    (header@, header_start),
                ));
                proof {
                lemma_next_header_aligned(header_start, header.size);
            }
            ListingStep::Next(next)
            },
            None => ListingStep::Invalid,
        }
    }

    /// The index of the first entry named `name`.
    pub fn find_entry(&self, name: &str) -> (r: Option<usize>)
        ensures
            r matches Some(i) ==> i < self@.len() && self@[i as int].0.name == name@ && forall|
                j: int,
            |
                0 <= j < i ==> self@[j].0.name != name@,
            r is None ==> forall|j: int| 0 <= j < self@.len() ==> self@[j].0.name != name@,
    {
        let mut i: usize = 0;
        while i < self.entries.len()
            invariant
                i <= self@.len(),
                self@.len() == self.entries@.len(),
                forall|j: int| 0 <= j < i ==> self@[j].0.name != name@,
            decreases self.entries@.len() - i,
        {
            if str_eq(self.entries[i].0.name.as_str(), name) {
                return Some(i);
            }
            i = i + 1;
        }
        None
    }

    /// The ids of the files whose keys the archive holds: for every entry
    /// whose name starts with `aes_keys/`, the part of its name after the
    /// last `/`, in the order of the entries.
    pub fn key_uuids(&self) -> (ids: Vec<String>)
        ensures
            ids@.map_values(|s: String| s@) == key_ids_spec(self@),
    {
        let mut ids: Vec<String> = Vec::new();
        let mut i: usize = 0;
        while i < self.entries.len()
            invariant
                i <= self@.len(),
                self@.len() == self.entries@.len(),
                ids@.map_values(|s: String| s@) == key_ids_spec(self@.take(i as int)),
            decreases self.entries@.len() - i,
        {
            let name = self.entries[i].0.name.as_str();
            let ghost before = ids@;
            proof {
                assert(self@.take(i + 1).drop_last() =~= self@.take(i as int));
                assert(self@.take(i + 1).last() == self@[i as int]);
            }
            if has_key_prefix(name) {
                let id = entry_id_of(name);
                ids.push(id);
                assert(ids@.map_values(|s: String| s@) =~= before.map_values(|s: String| s@).push(
                    id@,
                ));
            }
            i = i + 1;
        }
        assert(self@.take(self@.len() as int) =~= self@);
        ids
    }
}

} // verus!
