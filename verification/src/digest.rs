//! Checksums.

use sha2::Digest;
use vstd::prelude::*;
use vstd::string::*;
use vstd::utf8::*;

verus! {

/// The SHA-512 sum of bytes.
pub uninterp spec fn sha512(bytes: Seq<u8>) -> Seq<u8>;

/// A hexadecimal digit, the letters being small.
pub open spec fn hex_digit(n: int) -> char {
    if n < 10 {
        ('0' as int + n) as char
    } else {
        ('a' as int + n - 10) as char
    }
}

/// Bytes in hexadecimal, the upper half of each byte first.
pub open spec fn hex_text(bytes: Seq<u8>) -> Seq<char> {
    Seq::new(
        2 * bytes.len(),
        |i: int|
            if i % 2 == 0 {
                hex_digit(bytes[i / 2] as int / 16)
            } else {
                hex_digit(bytes[i / 2] as int % 16)
            },
    )
}

/// The checksum of bytes as it is written.
pub open spec fn checksum(bytes: Seq<u8>) -> Seq<char> {
    hex_text(sha512(bytes))
}

/// The SHA-512 sum by `sha2::Sha512::digest`. It is named, and has 64 bytes.
#[verifier::external_body]
fn sha512_of(bytes: &[u8]) -> (r: Vec<u8>)
    ensures
        r@ == sha512(bytes@),
        r@.len() == 64,
{
    sha2::Sha512::digest(bytes).to_vec()
}

/// Bytes in hexadecimal by `hex::encode`, which writes two digits for each byte.
#[verifier::external_body]
fn to_hex(bytes: &[u8]) -> (r: String)
    ensures
        r@ == hex_text(bytes@),
{
    hex::encode(bytes)
}

/// Writes the checksum of bytes, such as those of a zip file.
pub fn integrity_of(bytes: &[u8]) -> (r: String)
    ensures
        r@ == checksum(bytes@),
        r@.len() == 128,
{
    let sum = sha512_of(bytes);
    to_hex(sum.as_slice())
}

/// Writes the checksum of a text.
pub fn integrity_of_text(s: &str) -> (r: String)
    ensures
        r@ == checksum(encode_utf8(s@)),
        r@.len() == 128,
{
    integrity_of(s.as_bytes())
}

/// A checksum is made of hexadecimal digits with small letters, which are one byte each.
pub proof fn law_checksums_are_hexadecimal(bytes: Seq<u8>)
    ensures
        forall|i: int|
            0 <= i < checksum(bytes).len() ==> '0' <= #[trigger] checksum(bytes)[i] <= '9' || 'a'
                <= checksum(bytes)[i] <= 'f',
        is_ascii_chars(checksum(bytes)),
        encode_utf8(checksum(bytes)).len() == checksum(bytes).len(),
        checksum(bytes).len() == 2 * sha512(bytes).len(),
{
    let s = checksum(bytes);
    assert forall|i: int| 0 <= i < s.len() implies '0' <= #[trigger] s[i] <= '9' || 'a' <= s[i]
        <= 'f' by {
        let b = sha512(bytes)[i / 2];
        assert(0 <= b as int / 16 < 16);
    }
    is_ascii_chars_encode_utf8(s);
}

/// The worth of a hexadecimal digit.
pub open spec fn digit_worth(c: char) -> int {
    if '0' <= c <= '9' {
        c as int - '0' as int
    } else {
        c as int - 'a' as int + 10
    }
}

/// The bytes can be read off their digits: two for each byte, in the order of the bytes, the one that
/// counts sixteen times first.
pub proof fn law_digits_read_back(bytes: Seq<u8>, i: int)
    requires
        0 <= i < bytes.len(),
    ensures
        hex_text(bytes).len() == 2 * bytes.len(),
        16 * digit_worth(hex_text(bytes)[2 * i]) + digit_worth(hex_text(bytes)[2 * i + 1])
            == bytes[i],
{
    let b = bytes[i] as int;
    assert((2 * i) / 2 == i && (2 * i + 1) / 2 == i);
    assert((2 * i) % 2 == 0 && (2 * i + 1) % 2 == 1);
    assert(0 <= b / 16 < 16 && 0 <= b % 16 < 16);
    assert(digit_worth(hex_digit(b / 16)) == b / 16);
    assert(digit_worth(hex_digit(b % 16)) == b % 16);
}

} // verus!
