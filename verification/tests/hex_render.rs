//! Checks of the hexadecimal renderers, including a known SHA-256 digest.

use jiyunet::hexfmt::{slice_to_hexadecimal, u8_slice_to_string};

#[test]
fn test_slice_to_hexadecimal_1() {
    assert_eq!(slice_to_hexadecimal(&[0xca, 0xfe, 0xba, 0xbe]), "cafebabe");
}

#[test]
fn test_slice_to_hexadecimal_2() {
    assert_eq!(slice_to_hexadecimal(&[0xde, 0xad, 0xbe, 0xef]), "deadbeef");
}

#[test]
fn test_slice_to_hexadecimal_3() {
    assert_eq!(
        slice_to_hexadecimal(&[0x01, 0x23, 0x45, 0x67, 0x89, 0xab, 0xcd, 0xef]),
        "0123456789abcdef"
    );
}

#[test]
fn test_u8_slice_to_string() {
    // `{:X}`-style: no leading zero below 16.
    assert_eq!(u8_slice_to_string(&[0x0a, 0xfe, 0x03]), "AFE3");
    assert_eq!(u8_slice_to_string(&[0xde, 0xad]), "DEAD");
}

#[test]
fn sha256_known_digests() {
    // SHA-256 of the empty string and of "abc" are published test vectors;
    // this pins the hashing wrapper to the real algorithm.
    let empty = jiyunet::sig::Hash::of_slice(&[]);
    assert_eq!(
        slice_to_hexadecimal(&empty.into_array()),
        "e3b0c44298fc1c149afbf4c8996fb92427ae41e4649b934ca495991b7852b855"
    );
    let abc = jiyunet::sig::Hash::of_slice(&[0x61, 0x62, 0x63]);
    assert_eq!(
        slice_to_hexadecimal(&abc.into_array()),
        "ba7816bf8f01cfea414140de5dae2223b00361a396177a9cb410ff61f20015ad"
    );
}

#[test]
fn address_is_pure_function_of_bytes() {
    let a1 = jiyunet::Address::of_slice(&[1, 2, 3]);
    let a2 = jiyunet::Address::of_slice(&[1, 2, 3]);
    let a3 = jiyunet::Address::of_slice(&[1, 2, 4]);
    assert_eq!(a1, a2);
    assert_ne!(a1, a3);
}
