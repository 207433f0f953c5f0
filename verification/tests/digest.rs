use yarn_berry_fetcher::digest::{integrity_of, integrity_of_text};

#[test]
fn checksums_are_sha512_in_hexadecimal() {
    assert_eq!(
        integrity_of(b""),
        "cf83e1357eefb8bdf1542850d66d8007d620e4050b5715dc83f4a921d36ce9ce47d0d13c5d85f2b0ff8318d2877eec2f63b931bd47417a81a538327af927da3e"
    );
    assert_eq!(
        integrity_of_text("abc"),
        "ddaf35a193617abacc417349ae20413112e6fa4e89a97ea20a9eeee64b55d39a2192992a274fc1a836ba3c23a3feebbd454d4423643ce80e2a9ac94fa54ca49f"
    );
}

#[test]
fn checksums_have_one_length() {
    for bytes in [&b"x"[..], &[0, 255, 16][..]] {
        let sum = integrity_of(bytes);
        assert_eq!(sum.len(), 128);
        assert!(sum.chars().all(|c| c.is_ascii_hexdigit() && !c.is_ascii_uppercase()));
    }
}
