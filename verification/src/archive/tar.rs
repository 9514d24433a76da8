use vstd::prelude::*;
use vstd::string::StringSliceAdditionalSpecFns;
use vstd::slice::slice_to_vec;
use vstd::utf8::{
    decode_utf8, encode_utf8, encode_utf8_decode_utf8, encode_utf8_valid_utf8, is_ascii_chars, is_ascii_chars_encode_utf8,
    is_char_boundary_iff_is_leading_byte, valid_utf8, valid_utf8_concat, valid_utf8_split,
};
use crate::utils::digits::{
    format_u64, is_digit_in, lemma_parse_zero_padded, lemma_radix_digits_shape, parse_u64, parse_u64_spec, radix_digits,
};
use crate::utils::text::string_from_utf8;
use radix_fmt::radix;

verus! {

/// `n` zero bytes.
pub open spec fn zeros(n: nat) -> Seq<u8> {
    Seq::new(n, |i: int| 0u8)
}

/// `b` followed by zero bytes up to `size` bytes.
pub open spec fn filled(b: Seq<u8>, size: nat) -> Seq<u8> {
    b + zeros((size - b.len()) as nat)
}

/// A NUL-terminated octal field of `size` bytes: the octal digits of `n`,
/// left-padded with `0` digits.
pub open spec fn octal_field(n: nat, size: nat) -> Seq<u8> {
    Seq::new((size - 1 - radix_digits(n, 8).len()) as nat, |i: int| 48u8) + radix_digits(n, 8)
        + seq![0u8]
}

/// `n` fits in an octal field of `size` bytes.
pub open spec fn fits_octal(n: nat, size: nat) -> bool {
    size >= 1 && radix_digits(n, 8).len() <= size - 1
}

/// The checksum field: a `0`, the sum as a six-byte octal field, a space.
pub open spec fn checksum_field(sum: nat) -> Seq<u8> {
    seq![48u8] + octal_field(sum, 6) + seq![32u8]
}

/// The sum of the bytes of `s`.
pub open spec fn byte_sum(s: Seq<u8>) -> nat
    decreases s.len(),
{
    if s.len() == 0 {
        0
    } else {
        byte_sum(s.drop_last()) + s.last() as nat
    }
}

/// The padding that rounds `buffer_size` up to a multiple of `multiple_of`.
pub open spec fn padding_spec(buffer_size: nat, multiple_of: nat) -> nat {
    if buffer_size % multiple_of == 0 {
        0
    } else {
        (multiple_of - buffer_size % multiple_of) as nat
    }
}

/// The padding after `buffer_size` bytes is the fewest bytes that end them
/// on a multiple of `multiple_of`: less than `multiple_of`, and the padded
/// length is a multiple of it.
pub proof fn lemma_padding_rounds_up(buffer_size: nat, multiple_of: nat)
    requires
        multiple_of > 0,
    ensures
        padding_spec(buffer_size, multiple_of) < multiple_of,
        (buffer_size + padding_spec(buffer_size, multiple_of)) % multiple_of == 0,
        buffer_size % multiple_of == 0 ==> padding_spec(buffer_size, multiple_of) == 0,
{
    let b = buffer_size as int;
    let m = multiple_of as int;
    let q = b / m;
    let r = b % m;
    assert(b == m * q + r && 0 <= r < m) by (nonlinear_arith)
        requires
            m > 0,
            q == b / m,
            r == b % m,
    ;
    if r != 0 {
        let t = b + (m - r);
        assert(t % m == 0) by (nonlinear_arith)
            requires
                b == m * q + r,
                t == b + (m - r),
                m > 0,
        {
            assert(t == m * (q + 1));
        }
    }
}

/// How many bytes must follow `buffer_size` bytes to reach a multiple of
/// `multiple_of`.
pub fn padding_for(buffer_size: u64, multiple_of: u64) -> (r: u64)
    requires
        multiple_of > 0,
    ensures
        r == padding_spec(buffer_size as nat, multiple_of as nat),
        r < multiple_of,
        (buffer_size + r) % (multiple_of as int) == 0,
{
    proof {
        lemma_padding_rounds_up(buffer_size as nat, multiple_of as nat);
    }
    if buffer_size % multiple_of == 0 {
        0
    } else {
        multiple_of - (buffer_size % multiple_of)
    }
}

/// `data` followed by zero bytes up to the next multiple of `size`.
pub fn padded(data: &[u8], size: usize) -> (r: Vec<u8>)
    requires
        size > 0,
        data@.len() + padding_spec(data@.len(), size as nat) <= usize::MAX,
    ensures
        r@ == data@ + zeros(padding_spec(data@.len(), size as nat)),
        r@.len() % (size as nat) == 0,
        data@.len() <= r@.len() < data@.len() + size,
        forall|i: int| data@.len() <= i < r@.len() ==> r@[i] == 0u8,
{
    proof {
        lemma_padding_rounds_up(data@.len(), size as nat);
    }
    let padding = padding_for(data.len() as u64, size as u64);
    let mut padded = slice_to_vec(data);
    let ghost start = padded@;
    let mut k: u64 = 0;
    while k < padding
        invariant
            k <= padding,
            padding == padding_spec(data@.len(), size as nat),
            padded@ == data@ + zeros(k as nat),
        decreases padding - k,
    {
        padded.push(0u8);
        k = k + 1;
        assert(padded@ =~= data@ + zeros(k as nat));
    }
    padded
}

/// `s` as bytes, followed by zero bytes up to `size` bytes.
pub fn as_bytes_filled(s: &str, size: usize) -> (r: Vec<u8>)
    requires
        s.spec_bytes().len() <= size,
    ensures
        r@ == filled(s.spec_bytes(), size as nat),
{
    let s_bytes = s.as_bytes();
    let mut bytes = slice_to_vec(s_bytes);
    while bytes.len() < size
        invariant
            s_bytes@.len() <= bytes@.len() <= size,
            bytes@ == s_bytes@ + zeros((bytes@.len() - s_bytes@.len()) as nat),
        decreases size - bytes@.len(),
    {
        bytes.push(0u8);
        assert(bytes@ =~= s_bytes@ + zeros((bytes@.len() - s_bytes@.len()) as nat));
    }
    bytes
}

/// Calls `radix_fmt::radix(n, 8)` and writes it out. The contract claims what
/// the crate's source shows: for base 8 it formats `n` with `{:o}`, the octal
/// digits without leading zeros (`0` for zero).
#[verifier::external_body]
fn octal_digits(n: u64) -> (r: Vec<u8>)
    ensures
        r@ == radix_digits(n as nat, 8),
{
    radix(n, 8).to_string().into_bytes()
}

/// `n` as a NUL-terminated, zero-padded octal field of `size` bytes.
pub fn octal(n: u64, size: usize) -> (r: Vec<u8>)
    requires
        fits_octal(n as nat, size as nat),
    ensures
        r@ == octal_field(n as nat, size as nat),
{
    let formatted = octal_digits(n);
    let lead = size - 1 - formatted.len();
    let mut bytes: Vec<u8> = Vec::new();
    while bytes.len() < lead
        invariant
            bytes@.len() <= lead,
            bytes@ == Seq::new(bytes@.len(), |i: int| 48u8),
        decreases lead - bytes@.len(),
    {
        bytes.push(48u8);
        assert(bytes@ =~= Seq::new(bytes@.len(), |i: int| 48u8));
    }
    let mut digits = formatted;
    bytes.append(&mut digits);
    bytes.push(0u8);
    assert(bytes@ =~= octal_field(n as nat, size as nat));
    bytes
}

/// The checksum field of a tar header for the byte sum `checksum`.
pub fn checksum_string(checksum: u64) -> (r: Vec<u8>)
    requires
        fits_octal(checksum as nat, 6),
    ensures
        r@ == checksum_field(checksum as nat),
{
    let mut bytes = Vec::new();
    bytes.push(48u8);
    let mut field = octal(checksum, 6);
    bytes.append(&mut field);
    bytes.push(32u8);
    assert(bytes@ =~= checksum_field(checksum as nat));
    bytes
}

fn extend_from_with_sized_octal(bytes: &mut Vec<u8>, n: u64, size: usize)
    requires
        fits_octal(n as nat, size as nat),
    ensures
        final(bytes)@ == old(bytes)@ + octal_field(n as nat, size as nat),
{
    let mut field = octal(n, size);
    bytes.append(&mut field);
}

fn extend_from_with_sized_str(bytes: &mut Vec<u8>, s: &str, size: usize)
    requires
        s.spec_bytes().len() <= size,
    ensures
        final(bytes)@ == old(bytes)@ + filled(s.spec_bytes(), size as nat),
{
    let mut field = as_bytes_filled(s, size);
    bytes.append(&mut field);
}

fn extend_zeros(bytes: &mut Vec<u8>, size: usize)
    ensures
        final(bytes)@ == old(bytes)@ + zeros(size as nat),
{
    let ghost start = bytes@;
    let mut k: usize = 0;
    while k < size
        invariant
            k <= size,
            bytes@ == start + zeros(k as nat),
        decreases size - k,
    {
        bytes.push(0u8);
        k = k + 1;
        assert(bytes@ =~= start + zeros(k as nat));
    }
}

/// What a tar header holds: the file's name and its numeric fields.
pub struct HeaderView {
    pub name: Seq<char>,
    pub mode: u64,
    pub uid: u64,
    pub gid: u64,
    pub size: u64,
    pub mtime: u64,
}

/// The fields of a tar header that this archive format uses.
#[derive(Debug)]
pub struct TarHeader {
    pub name: String,
    pub mode: u64,
    pub uid: u64,
    pub gid: u64,
    pub size: u64,
    pub mtime: u64,
}

impl View for TarHeader {
    type V = HeaderView;

    open spec fn view(&self) -> HeaderView {
        HeaderView {
            name: self.name@,
            mode: self.mode,
            uid: self.uid,
            gid: self.gid,
            size: self.size,
            mtime: self.mtime,
        }
    }
}

/// The first 500 bytes of a header, with the checksum field still blank
/// (eight spaces): name, mode, uid, gid, size and mtime fields, type flag
/// `0`, an empty link name, the `ustar ` magic and ` \0` version, and empty
/// owner, group, device, prefix and time fields.
pub open spec fn header_fields(h: HeaderView) -> Seq<u8> {
    filled(encode_utf8(h.name), 100) + octal_field(h.mode as nat, 8) + octal_field(h.uid as nat, 8)
        + octal_field(h.gid as nat, 8) + octal_field(h.size as nat, 12) + octal_field(
        h.mtime as nat,
        12,
    ) + Seq::new(8, |i: int| 32u8) + seq![48u8] + zeros(100) + seq![
        117u8,
        115u8,
        116u8,
        97u8,
        114u8,
        32u8,
    ] + seq![32u8, 0u8] + zeros(32) + zeros(32) + zeros(8) + zeros(8) + zeros(131) + zeros(12)
        + zeros(12)
}

/// Every field of the header fits its width: the name's UTF-8 in 100 bytes
/// and the octal numbers in their fields (the checksum then always fits; see
/// `lemma_checksum_fits`).
pub open spec fn header_encodable(h: HeaderView) -> bool {
    &&& encode_utf8(h.name).len() <= 100
    &&& fits_octal(h.mode as nat, 8)
    &&& fits_octal(h.uid as nat, 8)
    &&& fits_octal(h.gid as nat, 8)
    &&& fits_octal(h.size as nat, 12)
    &&& fits_octal(h.mtime as nat, 12)
}

/// The 512-byte header block: the fields with the checksum (the byte sum of
/// the fields with a blank checksum) filled in, then zero bytes.
pub open spec fn header_bytes(h: HeaderView) -> Seq<u8> {
    let f = header_fields(h);
    f.take(148) + checksum_field(byte_sum(f)) + f.skip(156) + zeros(12)
}

proof fn lemma_byte_sum_push(s: Seq<u8>, b: u8)
    ensures
        byte_sum(s.push(b)) == byte_sum(s) + b,
{
    assert(s.push(b).drop_last() =~= s);
}

proof fn lemma_byte_sum_append(a: Seq<u8>, b: Seq<u8>)
    ensures
        byte_sum(a + b) == byte_sum(a) + byte_sum(b),
    decreases b.len(),
{
    if b.len() == 0 {
        assert(a + b =~= a);
    } else {
        assert((a + b).drop_last() =~= a + b.drop_last());
        lemma_byte_sum_append(a, b.drop_last());
    }
}

proof fn lemma_byte_sum_le(s: Seq<u8>, m: nat)
    requires
        forall|i: int| 0 <= i < s.len() ==> s[i] <= m,
    ensures
        byte_sum(s) <= m * s.len(),
    decreases s.len(),
{
    if s.len() > 0 {
        lemma_byte_sum_le(s.drop_last(), m);
        assert(m * s.len() == m * s.drop_last().len() + m) by (nonlinear_arith)
            requires
                s.drop_last().len() + 1 == s.len(),
        ;
    }
}

spec fn pow8(k: nat) -> nat
    decreases k,
{
    if k == 0 {
        1
    } else {
        8 * pow8((k - 1) as nat)
    }
}

proof fn lemma_octal_digits_len(n: nat, k: nat)
    requires
        k >= 1,
        n < pow8(k),
    ensures
        radix_digits(n, 8).len() <= k,
    decreases k,
{
    if n >= 8 {
        assert(pow8(1) == 8) by {
            reveal_with_fuel(pow8, 2);
        }
        assert(k >= 2);
        lemma_octal_digits_len(n / 8, (k - 1) as nat);
    }
}

proof fn lemma_octal_field_bytes(n: nat, size: nat)
    requires
        fits_octal(n, size),
    ensures
        octal_field(n, size).len() == size,
        forall|i: int| 0 <= i < size ==> octal_field(n, size)[i] <= 55,
{
    let d = radix_digits(n, 8);
    lemma_radix_digits_shape(n, 8);
    let o = octal_field(n, size);
    assert forall|i: int| 0 <= i < size implies o[i] <= 55 by {
        let k = (size - 1 - d.len()) as int;
        if k <= i < k + d.len() {
            assert(o[i] == d[i - k]);
            assert(is_digit_in(d[i - k], 8));
        }
    }
}

/// The byte sum of a header's fields always fits the five octal digits of
/// the checksum field, whatever the name and the numbers, once each of them
/// fits its own field.
pub proof fn lemma_checksum_fits(h: HeaderView)
    requires
        encode_utf8(h.name).len() <= 100,
        fits_octal(h.mode as nat, 8),
        fits_octal(h.uid as nat, 8),
        fits_octal(h.gid as nat, 8),
        fits_octal(h.size as nat, 12),
        fits_octal(h.mtime as nat, 12),
    ensures
        byte_sum(header_fields(h)) < 32768,
        fits_octal(byte_sum(header_fields(h)), 6),
{
    let name = filled(encode_utf8(h.name), 100);
    let om = octal_field(h.mode as nat, 8);
    let ou = octal_field(h.uid as nat, 8);
    let og = octal_field(h.gid as nat, 8);
    let os = octal_field(h.size as nat, 12);
    let ot = octal_field(h.mtime as nat, 12);
    let spaces = Seq::new(8, |i: int| 32u8);
    let magic = seq![117u8, 115u8, 116u8, 97u8, 114u8, 32u8];
    let version = seq![32u8, 0u8];
    let rest = zeros(32) + zeros(32) + zeros(8) + zeros(8) + zeros(131) + zeros(12) + zeros(12);
    lemma_octal_field_bytes(h.mode as nat, 8);
    lemma_octal_field_bytes(h.uid as nat, 8);
    lemma_octal_field_bytes(h.gid as nat, 8);
    lemma_octal_field_bytes(h.size as nat, 12);
    lemma_octal_field_bytes(h.mtime as nat, 12);
    lemma_byte_sum_le(name, 255);
    lemma_byte_sum_le(om, 55);
    lemma_byte_sum_le(ou, 55);
    lemma_byte_sum_le(og, 55);
    lemma_byte_sum_le(os, 55);
    lemma_byte_sum_le(ot, 55);
    lemma_byte_sum_le(spaces, 32);
    lemma_byte_sum_le(seq![48u8], 48);
    lemma_byte_sum_le(zeros(100), 0);
    lemma_byte_sum_le(magic, 117);
    lemma_byte_sum_le(version, 32);
    lemma_byte_sum_le(rest, 0);
    let a1 = name + om;
    let a2 = a1 + ou;
    let a3 = a2 + og;
    let a4 = a3 + os;
    let a5 = a4 + ot;
    let a6 = a5 + spaces;
    let a7 = a6 + seq![48u8];
    let a8 = a7 + zeros(100);
    let a9 = a8 + magic;
    let a10 = a9 + version;
    let a11 = a10 + rest;
    lemma_byte_sum_append(name, om);
    lemma_byte_sum_append(a1, ou);
    lemma_byte_sum_append(a2, og);
    lemma_byte_sum_append(a3, os);
    lemma_byte_sum_append(a4, ot);
    lemma_byte_sum_append(a5, spaces);
    lemma_byte_sum_append(a6, seq![48u8]);
    lemma_byte_sum_append(a7, zeros(100));
    lemma_byte_sum_append(a8, magic);
    lemma_byte_sum_append(a9, version);
    lemma_byte_sum_append(a10, rest);
    assert(header_fields(h) =~= a11);
    let sum = byte_sum(header_fields(h));
    assert(sum <= 25500 + 2640 + 256 + 48 + 702 + 64);
    assert(pow8(5) == 32768) by {
        reveal_with_fuel(pow8, 6);
    }
    lemma_octal_digits_len(sum, 5);
}

impl TarHeader {
    /// A header for a regular file of `size` bytes named `name`, with mode
    /// 0o664 and zero owner and modification time.
    pub fn new(name: String, size: u64) -> (h: Self)
        ensures
            h@ == (HeaderView { name: name@, mode: 436, uid: 0, gid: 0, size, mtime: 0 }),
    {
        TarHeader { name, mode: 436, uid: 0, gid: 0, size, mtime: 0 }
    }

    fn fields(&self) -> (bytes: Vec<u8>)
        requires
            encode_utf8(self@.name).len() <= 100,
            fits_octal(self.mode as nat, 8),
            fits_octal(self.uid as nat, 8),
            fits_octal(self.gid as nat, 8),
            fits_octal(self.size as nat, 12),
            fits_octal(self.mtime as nat, 12),
        ensures
            bytes@ == header_fields(self@),
    {
        let mut bytes: Vec<u8> = Vec::new();
        extend_from_with_sized_str(&mut bytes, self.name.as_str(), 100);
        extend_from_with_sized_octal(&mut bytes, self.mode, 8);
        extend_from_with_sized_octal(&mut bytes, self.uid, 8);
        extend_from_with_sized_octal(&mut bytes, self.gid, 8);
        extend_from_with_sized_octal(&mut bytes, self.size, 12);
        extend_from_with_sized_octal(&mut bytes, self.mtime, 12);
        let ghost before_spaces = bytes@;
        let mut k: usize = 0;
        while k < 8
            invariant
                k <= 8,
                bytes@ == before_spaces + Seq::new(k as nat, |i: int| 32u8),
            decreases 8 - k,
        {
            bytes.push(32u8);
            k = k + 1;
            assert(bytes@ =~= before_spaces + Seq::new(k as nat, |i: int| 32u8));
        }
        bytes.push(48u8);
        extend_zeros(&mut bytes, 100);
        bytes.push(117u8);
        bytes.push(115u8);
        bytes.push(116u8);
        bytes.push(97u8);
        bytes.push(114u8);
        bytes.push(32u8);
        bytes.push(32u8);
        bytes.push(0u8);
        extend_zeros(&mut bytes, 32);
        extend_zeros(&mut bytes, 32);
        extend_zeros(&mut bytes, 8);
        extend_zeros(&mut bytes, 8);
        extend_zeros(&mut bytes, 131);
        extend_zeros(&mut bytes, 12);
        extend_zeros(&mut bytes, 12);
        assert(bytes@ =~= header_fields(self@));
        bytes
    }

    /// The 512-byte tar header block for this header.
    pub fn as_bytes(&self) -> (bytes: Vec<u8>)
        requires
            header_encodable(self@),
        ensures
            bytes@ == header_bytes(self@),
            bytes@.len() == 512,
    {
        let mut bytes = self.fields();
        let ghost f = bytes@;
        assert(f.len() == 500);
        let mut correct_checksum: u64 = 0;
        let mut i: usize = 0;
        while i < bytes.len()
            invariant
                bytes@ == f,
                i <= f.len(),
                f.len() == 500,
                correct_checksum == byte_sum(f.take(i as int)),
                correct_checksum <= 255 * i,
            decreases f.len() - i,
        {
            proof {
                assert(f.take(i + 1) =~= f.take(i as int).push(f[i as int]));
                lemma_byte_sum_push(f.take(i as int), f[i as int]);
            }
            correct_checksum = correct_checksum + bytes[i] as u64;
            i = i + 1;
        }
        assert(f.take(500) =~= f);
        proof {
            lemma_checksum_fits(self@);
        }
        let checksum_bytes = checksum_string(correct_checksum);
        let mut j: usize = 0;
        while j < 8
            invariant
                j <= 8,
                checksum_bytes@ == checksum_field(byte_sum(f)),
                checksum_bytes@.len() == 8,
                bytes@.len() == 500,
                forall|k: int| 0 <= k < 148 ==> bytes@[k] == f[k],
                forall|k: int| 156 <= k < 500 ==> bytes@[k] == f[k],
                forall|k: int| 0 <= k < j ==> bytes@[148 + k] == checksum_bytes@[k],
            decreases 8 - j,
        {
            bytes.set(148 + j, checksum_bytes[j]);
            j = j + 1;
        }
        bytes.resize(512, 0u8);
        assert(bytes@ =~= header_bytes(self@));
        bytes
    }

    /// The header block, or `None` when a field does not fit its width.
    pub fn try_as_bytes(&self) -> (r: Option<Vec<u8>>)
        ensures
            r is Some <==> header_encodable(self@),
            r matches Some(bytes) ==> bytes@ == header_bytes(self@),
    {
        if self.name.as_str().as_bytes().len() > 100 || format_u64(self.mode, 8).len() > 7
            || format_u64(self.uid, 8).len() > 7 || format_u64(self.gid, 8).len() > 7
            || format_u64(self.size, 8).len() > 11 || format_u64(self.mtime, 8).len() > 11 {
            return None;
        }
        Some(self.as_bytes())
    }
}

/// `s` without its trailing zero bytes.
pub open spec fn trim_zeros(s: Seq<u8>) -> Seq<u8>
    decreases s.len(),
{
    if s.len() > 0 && s.last() == 0u8 {
        trim_zeros(s.drop_last())
    } else {
        s
    }
}

/// The header that a 512-byte block holds, or `None` for a block that is not
/// a readable header: the name field must be valid UTF-8 (its trailing
/// NUL characters are dropped), and the mode, uid, gid, size and mtime
/// fields must read as octal numbers (their last byte is not read).
pub open spec fn parse_header_spec(b: Seq<u8>) -> Option<HeaderView> {
    let name_field = b.subrange(0, 100);
    let mode = parse_u64_spec(b.subrange(100, 107), 8);
    let uid = parse_u64_spec(b.subrange(108, 115), 8);
    let gid = parse_u64_spec(b.subrange(116, 123), 8);
    let size = parse_u64_spec(b.subrange(124, 135), 8);
    let mtime = parse_u64_spec(b.subrange(136, 147), 8);
    if valid_utf8(name_field) && mode is Some && uid is Some && gid is Some && size is Some
        && mtime is Some {
        Some(
            HeaderView {
                name: decode_utf8(trim_zeros(name_field)),
                mode: mode.unwrap(),
                uid: uid.unwrap(),
                gid: gid.unwrap(),
                size: size.unwrap(),
                mtime: mtime.unwrap(),
            },
        )
    } else {
        None
    }
}

proof fn lemma_zero_byte_valid()
    ensures
        valid_utf8(seq![0u8]),
{
    let c = seq!['\0'];
    assert(is_ascii_chars(c));
    is_ascii_chars_encode_utf8(c);
    encode_utf8_valid_utf8(c);
    assert(encode_utf8(c) =~= seq![0u8]);
}

/// Trailing zero bytes change nothing to whether bytes are valid UTF-8.
proof fn lemma_valid_utf8_trim_zeros(s: Seq<u8>)
    ensures
        valid_utf8(s) <==> valid_utf8(trim_zeros(s)),
    decreases s.len(),
{
    if s.len() > 0 && s.last() == 0u8 {
        let t = s.drop_last();
        lemma_valid_utf8_trim_zeros(t);
        assert(s =~= t + seq![0u8]);
        if valid_utf8(t) {
            lemma_zero_byte_valid();
            valid_utf8_concat(t, seq![0u8]);
        }
        if valid_utf8(s) {
            is_char_boundary_iff_is_leading_byte(s, s.len() - 1);
            valid_utf8_split(s, s.len() - 1);
            assert(s.subrange(0, s.len() - 1) =~= t);
        }
    }
}

fn read_octal(bytes: &[u8; 512], start: usize, end: usize) -> (r: Option<u64>)
    requires
        start <= end <= 512,
    ensures
        r == parse_u64_spec(bytes@.subrange(start as int, end as int), 8),
{
    let field = &bytes[start..end];
    parse_u64(field, 8)
}

impl TarHeader {
    /// Reads a header block; `None` for a block that is not a readable header.
    pub fn try_from_bytes(bytes: &[u8; 512]) -> (r: Option<TarHeader>)
        ensures
            match r {
                Some(h) => parse_header_spec(bytes@) == Some(h@),
                None => parse_header_spec(bytes@) is None,
            },
    {
        let ghost name_field = bytes@.subrange(0, 100);
        let mut k: usize = 100;
        assert(name_field.take(100) =~= name_field);
        while k > 0 && bytes[k - 1] == 0u8
            invariant
                k <= 100,
                name_field == bytes@.subrange(0, 100),
                trim_zeros(name_field) == trim_zeros(name_field.take(k as int)),
            decreases k,
        {
            assert(name_field.take(k as int).drop_last() =~= name_field.take(k - 1));
            k = k - 1;
        }
        assert(trim_zeros(name_field.take(k as int)) == name_field.take(k as int));
        proof {
            lemma_valid_utf8_trim_zeros(name_field);
        }
        let name_bytes = slice_to_vec(&bytes[0..k]);
        assert(name_bytes@ =~= name_field.take(k as int));
        let name = match string_from_utf8(name_bytes) {
            Some(name) => name,
            None => {
                return None;
            },
        };
        let mode = match read_octal(bytes, 100, 107) {
            Some(v) => v,
            None => {
                return None;
            },
        };
        let uid = match read_octal(bytes, 108, 115) {
            Some(v) => v,
            None => {
                return None;
            },
        };
        let gid = match read_octal(bytes, 116, 123) {
            Some(v) => v,
            None => {
                return None;
            },
        };
        let size = match read_octal(bytes, 124, 135) {
            Some(v) => v,
            None => {
                return None;
            },
        };
        let mtime = match read_octal(bytes, 136, 147) {
            Some(v) => v,
            None => {
                return None;
            },
        };
        Some(TarHeader { name, mode, uid, gid, size, mtime })
    }

    /// Reads a header block that `try_from_bytes` accepts.
    pub fn from_bytes(bytes: &[u8; 512]) -> (h: TarHeader)
        requires
            parse_header_spec(bytes@) is Some,
        ensures
            parse_header_spec(bytes@) == Some(h@),
    {
        match TarHeader::try_from_bytes(bytes) {
            Some(h) => h,
            None => TarHeader::new(String::new(), 0),
        }
    }
}

proof fn lemma_trim_zeros_filled(s: Seq<u8>, k: nat)
    requires
        s.len() == 0 || s.last() != 0u8,
    ensures
        trim_zeros(s + zeros(k)) == s,
    decreases k,
{
    if k > 0 {
        assert((s + zeros(k)).drop_last() =~= s + zeros((k - 1) as nat));
        lemma_trim_zeros_filled(s, (k - 1) as nat);
    } else {
        assert(s + zeros(k) =~= s);
    }
}

proof fn lemma_octal_field_read(n: u64, size: nat)
    requires
        fits_octal(n as nat, size),
    ensures
        parse_u64_spec(octal_field(n as nat, size).take(size - 1), 8) == Some(n),
{
    let d = radix_digits(n as nat, 8);
    let z = (size - 1 - d.len()) as nat;
    assert(octal_field(n as nat, size).take(size - 1) =~= Seq::new(z, |i: int| 48u8) + d);
    lemma_parse_zero_padded(n, z, 8);
}

/// A header block is 512 bytes, and its type flag (byte 156) is the digit
/// `0`, so it is never all zeros.
pub proof fn lemma_header_bytes_shape(h: HeaderView)
    requires
        header_encodable(h),
    ensures
        header_bytes(h).len() == 512,
        header_bytes(h)[156] == 48u8,
{
    lemma_octal_field_bytes(h.mode as nat, 8);
    lemma_octal_field_bytes(h.uid as nat, 8);
    lemma_octal_field_bytes(h.gid as nat, 8);
    lemma_octal_field_bytes(h.size as nat, 12);
    lemma_octal_field_bytes(h.mtime as nat, 12);
    let f = header_fields(h);
    let a = filled(encode_utf8(h.name), 100) + octal_field(h.mode as nat, 8) + octal_field(
        h.uid as nat,
        8,
    ) + octal_field(h.gid as nat, 8) + octal_field(h.size as nat, 12) + octal_field(
        h.mtime as nat,
        12,
    ) + Seq::new(8, |i: int| 32u8);
    assert(a.len() == 156);
    assert(f.len() == 500);
    assert(f[156] == 48u8);
    lemma_checksum_fits(h);
    lemma_octal_field_bytes(byte_sum(f), 6);
    let c = checksum_field(byte_sum(f));
    assert(c.len() == 8);
    let b = f.take(148) + c + f.skip(156);
    assert(b.len() == 500);
    assert(b[156] == f.skip(156)[0]);
    assert(header_bytes(h) == b + zeros(12));
}

/// Reading the block written for a header gives that header back, when every
/// field fits its width and the UTF-8 of the name does not end in a zero byte
/// (such trailing NUL characters are dropped on reading).
#[verifier::rlimit(40)]
#[verifier::spinoff_prover]
pub proof fn lemma_header_roundtrip(h: HeaderView)
    requires
        header_encodable(h),
        encode_utf8(h.name).len() == 0 || encode_utf8(h.name).last() != 0u8,
    ensures
        parse_header_spec(header_bytes(h)) == Some(h),
{
    let e = encode_utf8(h.name);
    let f = header_fields(h);
    let b = header_bytes(h);
    let name_field = filled(e, 100);
    let om = octal_field(h.mode as nat, 8);
    let ou = octal_field(h.uid as nat, 8);
    let og = octal_field(h.gid as nat, 8);
    let os = octal_field(h.size as nat, 12);
    let ot = octal_field(h.mtime as nat, 12);
    assert(name_field.len() == 100);
    assert(b.subrange(0, 100) =~= name_field);
    assert(b.subrange(100, 107) =~= om.take(7));
    assert(b.subrange(108, 115) =~= ou.take(7));
    assert(b.subrange(116, 123) =~= og.take(7));
    assert(b.subrange(124, 135) =~= os.take(11));
    assert(b.subrange(136, 147) =~= ot.take(11));
    lemma_octal_field_read(h.mode, 8);
    lemma_octal_field_read(h.uid, 8);
    lemma_octal_field_read(h.gid, 8);
    lemma_octal_field_read(h.size, 12);
    lemma_octal_field_read(h.mtime, 12);
    lemma_trim_zeros_filled(e, (100 - e.len()) as nat);
    lemma_valid_utf8_trim_zeros(name_field);
    encode_utf8_valid_utf8(h.name);
    encode_utf8_decode_utf8(h.name);
}

} // verus!
