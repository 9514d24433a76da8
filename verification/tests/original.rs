use std::sync::atomic::AtomicBool;
use timelock::archive::tar::{octal, TarHeader};
use timelock::hash::{hash, hash_count};

#[test]
fn test_octal() {
    let result = octal(0, 8);
    let expected = b"0000000\0";
    assert_eq!(result, expected);

    let result = octal(1, 8);
    let expected = b"0000001\0";
    assert_eq!(result, expected);

    let result = octal(9, 8);
    let expected = b"0000011\0";
    assert_eq!(result, expected);

    let result = octal(9, 12);
    let expected = b"00000000011\0";
    assert_eq!(result, expected);

    let result = octal(431, 12);
    let expected = b"00000000657\0";
    assert_eq!(result, expected);
}

#[test]
fn test_new_tar_header() {
    let header = TarHeader::new("test file".to_owned(), 512);

    let bytes = header.as_bytes();

    assert!(
        bytes[0..100].starts_with(b"test file\0"),
        "Name field is incorrect"
    );
    assert_eq!(bytes[100..108], *b"0000664\0", "Mode field is incorrect");
    assert_eq!(bytes[108..116], *b"0000000\0", "UID field is incorrect");
    assert_eq!(bytes[116..124], *b"0000000\0", "GID field is incorrect");
    assert_eq!(
        bytes[124..136],
        *b"00000001000\0",
        "Size field is incorrect"
    );
    assert_eq!(
        bytes[136..148],
        *b"00000000000\0",
        "Mtime field is incorrect"
    );
    assert_eq!(bytes[156], b'0', "Typeflag field is incorrect");
    assert_eq!(bytes[157..257], [0; 100], "Linkname field is incorrect");

    assert_eq!(
        std::str::from_utf8(&bytes[148..156]).unwrap(),
        std::str::from_utf8(b"007500\0 ").unwrap(),
        "Checksum field is incorrect"
    );
}

#[test]
fn hash_count_smoketest_null_array_20_times() {
    let iv = [0u8; 32];

    let result = hash_count(iv, 20);

    assert_eq!(
        result,
        [
            152, 33, 24, 130, 189, 19, 8, 155, 108, 207, 31, 202, 129, 247, 240, 228, 171, 246, 53,
            42, 12, 57, 201, 177, 31, 20, 44, 172, 35, 63, 18, 128
        ]
    );
}

#[test]
fn hash_smoketest_null_array_20_times() {
    let iv = [0u8; 32];

    let ab = AtomicBool::new(false);

    let result = hash(iv, 20, &ab);

    assert_eq!(
        result,
        (
            [0u8; 32],
            20,
            [
                152, 33, 24, 130, 189, 19, 8, 155, 108, 207, 31, 202, 129, 247, 240, 228, 171,
                246, 53, 42, 12, 57, 201, 177, 31, 20, 44, 172, 35, 63, 18, 128
            ]
        )
    );
}
