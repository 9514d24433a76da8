use vstd::prelude::*;
use vstd::slice::slice_to_vec;
use vstd::utf8::{
    encode_scalar, encode_utf8, encode_utf8_decode_utf8, encode_utf8_valid_utf8, is_ascii_chars,
    is_ascii_chars_encode_utf8,
};
use crate::archive::listing::{
    after_last_slash, entry_id, is_key_entry, key_ids_spec, key_prefix, str_eq,
};
use crate::archive::tar::HeaderView;
use crate::archive::puzzle::{solved_spec, Puzzle};
use crate::formats::puzzlefile::puzzle_text;
use crate::keys::{rsa_encrypt, rsa_pkcs1v15_encrypt};
use crate::utils::text::string_from_utf8;

verus! {

/// One entry to append to an archive: its name, the bytes written after its
/// header, and the size recorded in its header. The size is the length of the
/// data, but for a sparse entry, whose further bytes read as zeros.
pub struct ArchiveEntry {
    pub name: String,
    pub data: Vec<u8>,
    pub size: u64,
}

/// An entry as (name, data, size).
pub open spec fn entry_view(e: ArchiveEntry) -> (Seq<char>, Seq<u8>, u64) {
    (e.name@, e.data@, e.size)
}

/// The size of the sparse entry that holds the puzzle: one GiB, room for the
/// puzzle to grow in place.
pub const PUZZLE_ENTRY_SIZE: u64 = 1073741824;

/// `contents/`: the prefix of the entries that hold encrypted files.
pub open spec fn contents_prefix() -> Seq<char> {
    seq!['c', 'o', 'n', 't', 'e', 'n', 't', 's', '/']
}

/// `filenames/`: the prefix of the entries that hold encrypted file names.
pub open spec fn filenames_prefix() -> Seq<char> {
    seq!['f', 'i', 'l', 'e', 'n', 'a', 'm', 'e', 's', '/']
}

/// `aes_keys/`: the prefix of the entries that hold encrypted file keys.
pub open spec fn keys_prefix() -> Seq<char> {
    seq!['a', 'e', 's', '_', 'k', 'e', 'y', 's', '/']
}

/// `rsa_id.pub`: the entry that holds the archive's public key.
pub open spec fn public_key_name() -> Seq<char> {
    seq!['r', 's', 'a', '_', 'i', 'd', '.', 'p', 'u', 'b']
}

/// `rsa_id.enc`: the entry that holds the archive's encrypted private key.
pub open spec fn private_key_name() -> Seq<char> {
    seq!['r', 's', 'a', '_', 'i', 'd', '.', 'e', 'n', 'c']
}

/// `puzzle`: the entry that holds the archive's puzzle.
pub open spec fn puzzle_name() -> Seq<char> {
    seq!['p', 'u', 'z', 'z', 'l', 'e']
}

pub proof fn lemma_encode_utf8_concat(a: Seq<char>, b: Seq<char>)
    ensures
        encode_utf8(a + b) == encode_utf8(a) + encode_utf8(b),
    decreases a.len(),
{
    if a.len() == 0 {
        assert(a + b =~= b);
        assert(encode_utf8(a) + encode_utf8(b) =~= encode_utf8(b));
    } else {
        assert((a + b).drop_first() =~= a.drop_first() + b);
        assert((a + b)[0] == a[0]);
        lemma_encode_utf8_concat(a.drop_first(), b);
        let e0 = encode_scalar(a[0] as u32);
        assert(e0 + (encode_utf8(a.drop_first()) + encode_utf8(b)) =~= (e0 + encode_utf8(
            a.drop_first(),
        )) + encode_utf8(b));
    }
}

/// `p` followed by `s`.
fn concat(p: &str, s: &str) -> (r: String)
    ensures
        r@ == p@ + s@,
{
    let mut bytes = slice_to_vec(p.as_bytes());
    let sb = s.as_bytes();
    let ghost pb = bytes@;
    let mut i: usize = 0;
    while i < sb.len()
        invariant
            i <= sb@.len(),
            bytes@ == pb + sb@.take(i as int),
        decreases sb@.len() - i,
    {
        bytes.push(sb[i]);
        i = i + 1;
        assert(bytes@ =~= pb + sb@.take(i as int));
    }
    assert(sb@.take(sb@.len() as int) =~= sb@);
    proof {
        lemma_encode_utf8_concat(p@, s@);
        encode_utf8_valid_utf8(p@ + s@);
        encode_utf8_decode_utf8(p@ + s@);
    }
    match string_from_utf8(bytes) {
        Some(r) => r,
        None => String::new(),
    }
}

/// The names of the three entries that store one file under `uuid`:
/// `contents/uuid` (the encrypted file), `filenames/uuid` (its encrypted
/// name) and `aes_keys/uuid` (its encrypted key).
pub fn entry_names(uuid: &str) -> (n: (String, String, String))
    ensures
        n.0@ == contents_prefix() + uuid@,
        n.1@ == filenames_prefix() + uuid@,
        n.2@ == keys_prefix() + uuid@,
{
    proof {
        reveal_strlit("contents/");
        reveal_strlit("filenames/");
        reveal_strlit("aes_keys/");
    }
    let c = concat("contents/", uuid);
    let f = concat("filenames/", uuid);
    let k = concat("aes_keys/", uuid);
    assert("contents/"@ =~= contents_prefix());
    assert("filenames/"@ =~= filenames_prefix());
    assert("aes_keys/"@ =~= keys_prefix());
    (c, f, k)
}

/// The three entries that add one file to an archive, in the order they are
/// written: the encrypted contents, the encrypted name, and the file key
/// RSA-encrypted with the archive's public key (padding drawn from `seed`).
/// `None` where the public key cannot be used.
pub fn file_entries(
    public_pem: &str,
    seed: [u8; 32],
    uuid: &str,
    file_key: [u8; 32],
    encrypted_data: Vec<u8>,
    encrypted_name: Vec<u8>,
) -> (r: Option<Vec<ArchiveEntry>>)
    ensures
        match rsa_pkcs1v15_encrypt(public_pem@, seed@, file_key@) {
            None => r is None,
            Some(k) => r matches Some(v) && v@.len() == 3 && entry_view(v@[0]) == (
                contents_prefix() + uuid@,
                encrypted_data@,
                encrypted_data@.len() as u64,
            ) && entry_view(v@[1]) == (
                filenames_prefix() + uuid@,
                encrypted_name@,
                encrypted_name@.len() as u64,
            ) && entry_view(v@[2]) == (keys_prefix() + uuid@, k, k.len() as u64),
        },
{
    let encrypted_key = match rsa_encrypt(public_pem, seed, file_key.as_slice()) {
        Some(c) => c,
        None => {
            return None;
        },
    };
    let (c, f, k) = entry_names(uuid);
    let data_size = encrypted_data.len() as u64;
    let name_size = encrypted_name.len() as u64;
    let key_size = encrypted_key.len() as u64;
    let mut v: Vec<ArchiveEntry> = Vec::new();
    v.push(ArchiveEntry { name: c, data: encrypted_data, size: data_size });
    v.push(ArchiveEntry { name: f, data: encrypted_name, size: name_size });
    v.push(ArchiveEntry { name: k, data: encrypted_key, size: key_size });
    Some(v)
}

/// The entries a new archive starts with: (name, data, size) of the public
/// key, the encrypted private key, and the sparse entry that holds the solved
/// puzzle.
pub open spec fn initial_entries_spec(
    public_pem: Seq<char>,
    encrypted_private_key: Seq<u8>,
    solution: Seq<u8>,
) -> Seq<(Seq<char>, Seq<u8>, u64)> {
    seq![
        (public_key_name(), encode_utf8(public_pem), encode_utf8(public_pem).len() as u64),
        (private_key_name(), encrypted_private_key, encrypted_private_key.len() as u64),
        (puzzle_name(), puzzle_text(solved_spec(solution)), PUZZLE_ENTRY_SIZE),
    ]
}

/// The entries a new archive starts with, in order: `rsa_id.pub` with the
/// public key, `rsa_id.enc` with the encrypted private key, and `puzzle`, a
/// sparse entry of `PUZZLE_ENTRY_SIZE` bytes that holds the solved puzzle
/// whose solution is `solution`, the key the private key is encrypted with.
pub fn initial_entries(public_pem: &str, encrypted_private_key: Vec<u8>, solution: [u8; 32]) -> (r:
    Vec<ArchiveEntry>)
    ensures
        r@.len() == 3,
        forall|i: int|
            0 <= i < 3 ==> entry_view(#[trigger] r@[i]) == initial_entries_spec(
                public_pem@,
                encrypted_private_key@,
                solution@,
            )[i],
{
    proof {
        reveal_strlit("rsa_id.pub");
        reveal_strlit("rsa_id.enc");
        reveal_strlit("puzzle");
    }
    let public_name = "rsa_id.pub".to_owned();
    let private_name = "rsa_id.enc".to_owned();
    let puzzle_entry_name = "puzzle".to_owned();
    assert(public_name@ =~= public_key_name());
    assert(private_name@ =~= private_key_name());
    assert(puzzle_entry_name@ =~= puzzle_name());
    let public_data = slice_to_vec(public_pem.as_bytes());
    let public_size = public_data.len() as u64;
    let private_size = encrypted_private_key.len() as u64;
    let puzzle_data = Puzzle::solved_with_solution(solution).as_bytes();
    let mut v: Vec<ArchiveEntry> = Vec::new();
    v.push(ArchiveEntry { name: public_name, data: public_data, size: public_size });
    v.push(ArchiveEntry { name: private_name, data: encrypted_private_key, size: private_size });
    v.push(ArchiveEntry { name: puzzle_entry_name, data: puzzle_data, size: PUZZLE_ENTRY_SIZE });
    assert(entry_view(v@[0]) == initial_entries_spec(
        public_pem@,
        encrypted_private_key@,
        solution@,
    )[0]);
    v
}

/// The index of the first of `filenames` that is `target`, or `None` when
/// none is.
pub fn find_by_filename(filenames: &Vec<String>, target: &str) -> (r: Option<usize>)
    ensures
        r matches Some(i) ==> i < filenames@.len() && filenames@[i as int]@ == target@ && forall|
            j: int,
        |
            0 <= j < i ==> filenames@[j]@ != target@,
        r is None ==> forall|j: int| 0 <= j < filenames@.len() ==> filenames@[j]@ != target@,
{
    let mut i: usize = 0;
    while i < filenames.len()
        invariant
            i <= filenames@.len(),
            forall|j: int| 0 <= j < i ==> filenames@[j]@ != target@,
        decreases filenames@.len() - i,
    {
        if str_eq(filenames[i].as_str(), target) {
            return Some(i);
        }
        i = i + 1;
    }
    None
}

proof fn lemma_after_last_slash_concat(a: Seq<u8>, c: Seq<u8>)
    requires
        a.len() > 0,
        a.last() == 47u8,
        forall|i: int| 0 <= i < c.len() ==> c[i] != 47u8,
    ensures
        after_last_slash(a + c) == a.len(),
    decreases c.len(),
{
    if c.len() == 0 {
        assert(a + c =~= a);
    } else {
        assert((a + c).drop_last() =~= a + c.drop_last());
        assert((a + c).last() == c.last());
        lemma_after_last_slash_concat(a, c.drop_last());
    }
}

/// Once the three entries that store a file under `uuid` are listed, the ids
/// of the key entries (`TarListing::key_uuids`) gain exactly `uuid`, as long
/// as the id is ASCII without a `/`, as the ids this program makes are.
pub proof fn lemma_key_uuids_after_file_entries(
    listed: Seq<(HeaderView, u64)>,
    uuid: Seq<char>,
    contents: (HeaderView, u64),
    filename: (HeaderView, u64),
    key: (HeaderView, u64),
)
    requires
        contents.0.name == contents_prefix() + uuid,
        filename.0.name == filenames_prefix() + uuid,
        key.0.name == keys_prefix() + uuid,
        is_ascii_chars(uuid),
        !uuid.contains('/'),
    ensures
        key_ids_spec(listed.push(contents).push(filename).push(key)) == key_ids_spec(listed).push(
            uuid,
        ),
{
    let eu = encode_utf8(uuid);
    is_ascii_chars_encode_utf8(uuid);
    assert forall|i: int| 0 <= i < eu.len() implies eu[i] != 47u8 by {
        assert(uuid[i] as u8 == eu[i]);
        if eu[i] == 47u8 {
            assert(uuid[i] == '/');
            assert(uuid.contains('/'));
        }
    }
    let cp = contents_prefix();
    let fp = filenames_prefix();
    let kp = keys_prefix();
    assert(is_ascii_chars(cp));
    assert(is_ascii_chars(fp));
    assert(is_ascii_chars(kp));
    is_ascii_chars_encode_utf8(cp);
    is_ascii_chars_encode_utf8(fp);
    is_ascii_chars_encode_utf8(kp);
    lemma_encode_utf8_concat(cp, uuid);
    lemma_encode_utf8_concat(fp, uuid);
    lemma_encode_utf8_concat(kp, uuid);
    let bc = encode_utf8(contents.0.name);
    let bf = encode_utf8(filename.0.name);
    let bk = encode_utf8(key.0.name);
    assert(cp[0] as u8 == encode_utf8(cp)[0]);
    assert(bc[0] == 99u8);
    assert(bc.take(9)[0] != key_prefix()[0]);
    assert(!is_key_entry(contents.0));
    assert(fp[0] as u8 == encode_utf8(fp)[0]);
    assert(bf[0] == 102u8);
    assert(bf.take(9)[0] != key_prefix()[0]);
    assert(!is_key_entry(filename.0));
    assert forall|i: int| 0 <= i < 9 implies encode_utf8(kp)[i] == key_prefix()[i] by {
        assert(kp[i] as u8 == encode_utf8(kp)[i]);
    }
    assert(encode_utf8(kp) =~= key_prefix());
    assert(bk.take(9) =~= key_prefix());
    assert(is_key_entry(key.0));
    lemma_after_last_slash_concat(key_prefix(), eu);
    assert(bk.skip(9) =~= eu);
    encode_utf8_decode_utf8(uuid);
    assert(entry_id(key.0) == uuid);
    let l1 = listed.push(contents);
    let l2 = l1.push(filename);
    let l3 = l2.push(key);
    assert(l3.drop_last() =~= l2);
    assert(l2.drop_last() =~= l1);
    assert(l1.drop_last() =~= listed);
    assert(key_ids_spec(l1) == key_ids_spec(listed));
    assert(key_ids_spec(l2) == key_ids_spec(l1));
    assert(key_ids_spec(l3) == key_ids_spec(l2).push(entry_id(key.0)));
}

} // verus!
