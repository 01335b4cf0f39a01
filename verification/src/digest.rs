//! Digests, hexadecimal text and big-endian numbers.
use sha2::Digest;
use vstd::prelude::*;
use vstd::string::*;

use crate::text::{chars_of, string_of};

verus! {

/// The SHA-256 of bytes, as `sha2` computes it.
pub uninterp spec fn sha256_of(bytes: Seq<u8>) -> Seq<u8>;

/// `sha2::Sha256::digest`: 32 bytes that are a function of the input.
#[verifier::external_body]
pub(crate) fn sha256(bytes: &[u8]) -> (r: Vec<u8>)
    ensures
        r@ == sha256_of(bytes@),
        r@.len() == 32,
{
    sha2::Sha256::digest(bytes).to_vec()
}

/// The SHA-1 of bytes, as `sha1` computes it.
pub uninterp spec fn sha1_of(bytes: Seq<u8>) -> Seq<u8>;

/// `sha1::Sha1::digest`: 20 bytes that are a function of the input.
#[verifier::external_body]
pub(crate) fn sha1(bytes: &[u8]) -> (r: Vec<u8>)
    ensures
        r@ == sha1_of(bytes@),
        r@.len() == 20,
{
    sha1::Sha1::digest(bytes).to_vec()
}

/// The character of a hexadecimal digit.
pub open spec fn hex_char(d: int) -> char {
    if d < 10 {
        (48 + d) as char
    } else {
        (87 + d) as char
    }
}

/// Bytes as lower-case hexadecimal text.
pub open spec fn hex_text(bytes: Seq<u8>) -> Seq<char> {
    Seq::new(
        2 * bytes.len(),
        |i: int|
            if i % 2 == 0 {
                hex_char(bytes[i / 2] as int / 16)
            } else {
                hex_char(bytes[i / 2] as int % 16)
            },
    )
}

/// `hex::encode`: two lower-case digits for each byte, the high half first.
#[verifier::external_body]
pub(crate) fn hex_encode(bytes: &[u8]) -> (r: String)
    ensures
        r@ == hex_text(bytes@),
{
    hex::encode(bytes)
}

/// The SHA-256 of bytes as text.
pub open spec fn sha256_text(bytes: Seq<u8>) -> Seq<char> {
    hex_text(sha256_of(bytes))
}

/// The SHA-256 of bytes as text.
pub fn sha256_hex(bytes: &[u8]) -> (r: String)
    ensures
        r@ == sha256_text(bytes@),
        r@.len() == 64,
{
    let digest = sha256(bytes);
    hex_encode(&digest)
}

/// A number as eight bytes, the most significant first.
pub open spec fn be8(n: int) -> Seq<u8> {
    seq![
        (n / 0x100_0000_0000_0000 % 256) as u8,
        (n / 0x1_0000_0000_0000 % 256) as u8,
        (n / 0x100_0000_0000 % 256) as u8,
        (n / 0x1_0000_0000 % 256) as u8,
        (n / 0x100_0000 % 256) as u8,
        (n / 0x1_0000 % 256) as u8,
        (n / 0x100 % 256) as u8,
        (n % 256) as u8,
    ]
}

/// Appends a number as eight bytes, the most significant first.
pub fn push_be8(out: &mut Vec<u8>, n: u64)
    ensures
        final(out)@ == old(out)@ + be8(n as int),
{
    out.push((n / 0x100_0000_0000_0000 % 256) as u8);
    out.push((n / 0x1_0000_0000_0000 % 256) as u8);
    out.push((n / 0x100_0000_0000 % 256) as u8);
    out.push((n / 0x1_0000_0000 % 256) as u8);
    out.push((n / 0x100_0000 % 256) as u8);
    out.push((n / 0x1_0000 % 256) as u8);
    out.push((n / 0x100 % 256) as u8);
    out.push((n % 256) as u8);
    assert(out@ =~= old(out)@ + be8(n as int));
}

/// A signed number as it stands in eight bytes.
pub open spec fn twos(n: int) -> int {
    if n < 0 {
        n + 0x1_0000_0000_0000_0000
    } else {
        n
    }
}

/// Appends a signed number as eight bytes, the most significant first.
pub fn push_be8_signed(out: &mut Vec<u8>, n: i64)
    ensures
        final(out)@ == old(out)@ + be8(twos(n as int)),
{
    let bits: u64 = if n < 0 {
        (n as i128 + 0x1_0000_0000_0000_0000) as u64
    } else {
        n as u64
    };
    push_be8(out, bits);
}

/// Appends bytes.
pub fn push_bytes(out: &mut Vec<u8>, bytes: &[u8])
    ensures
        final(out)@ == old(out)@ + bytes@,
{
    out.extend_from_slice(bytes);
    assert(out@ =~= old(out)@ + bytes@);
}

/// A number in lower-case hexadecimal digits, without leading zeros.
pub open spec fn hex_number(n: nat) -> Seq<char>
    decreases n,
{
    if n < 16 {
        seq![hex_char(n as int)]
    } else {
        hex_number(n / 16).push(hex_char((n % 16) as int))
    }
}

fn hex_digit(d: u64) -> (r: char)
    requires
        d < 16,
    ensures
        r == hex_char(d as int),
{
    let code: u8 = if d < 10 {
        48 + d as u8
    } else {
        87 + d as u8
    };
    code as char
}

/// Writes a number in hexadecimal digits.
pub fn hex_number_text(n: u64) -> (r: String)
    ensures
        r@ == hex_number(n as nat),
    decreases n,
{
    if n < 16 {
        let mut out = String::new();
        out.push(hex_digit(n));
        assert(out@ =~= seq![hex_char(n as int)]);
        out
    } else {
        let mut out = hex_number_text(n / 16);
        out.push(hex_digit(n % 16));
        out
    }
}

/// Thirty-two digits in the groups of a UUID.
pub open spec fn hyphenated(digits: Seq<char>) -> Seq<char> {
    digits.subrange(0, 8) + "-"@ + digits.subrange(8, 12) + "-"@ + digits.subrange(12, 16) + "-"@
        + digits.subrange(16, 20) + "-"@ + digits.subrange(20, 32)
}

/// Writes thirty-two digits in the groups of a UUID.
pub fn hyphenate(digits: &str) -> (r: String)
    requires
        digits@.len() >= 32,
    ensures
        r@ == hyphenated(digits@),
{
    let chars = chars_of(digits);
    let mut out = string_of(&chars, 0, 8);
    out.append("-");
    out.append(string_of(&chars, 8, 12).as_str());
    out.append("-");
    out.append(string_of(&chars, 12, 16).as_str());
    out.append("-");
    out.append(string_of(&chars, 16, 20).as_str());
    out.append("-");
    out.append(string_of(&chars, 20, 32).as_str());
    out
}

/// A UUID as it is written: thirty-two hexadecimal digits in groups.
pub open spec fn uuid_text_of(uuid: u128) -> Seq<char> {
    hyphenated(simple_text_of(uuid))
}

/// Writes a UUID.
pub fn uuid_text(uuid: u128) -> (r: String)
    ensures
        r@ == uuid_text_of(uuid),
{
    let digits = simple_text(uuid);
    hyphenate(digits.as_str())
}

/// A UUID as thirty-two hexadecimal digits.
pub open spec fn simple_text_of(uuid: u128) -> Seq<char> {
    hex_text(
        be8((uuid / 0x1_0000_0000_0000_0000) as int) + be8(
            (uuid % 0x1_0000_0000_0000_0000) as int,
        ),
    )
}

/// Writes a UUID as thirty-two hexadecimal digits.
pub fn simple_text(uuid: u128) -> (r: String)
    ensures
        r@ == simple_text_of(uuid),
{
    let mut bytes: Vec<u8> = Vec::new();
    push_be8(&mut bytes, (uuid / 0x1_0000_0000_0000_0000) as u64);
    assert(bytes@ =~= be8((uuid / 0x1_0000_0000_0000_0000) as int));
    push_be8(&mut bytes, (uuid % 0x1_0000_0000_0000_0000) as u64);
    hex_encode(&bytes)
}

/// `uuid::Uuid::new_v4`: a version 4 uuid; the rest is random.
#[verifier::external_body]
pub(crate) fn fresh_v4() -> (r: u128)
    ensures
        crate::capture::event::uuid_version(r) == 4,
{
    uuid::Uuid::new_v4().as_u128()
}

} // verus!
