//! The calls that leave the crate. Everything in this module is believed by the verifier
//! on the word of its contract; the rest of the crate is proved from these contracts.

use std::time::Instant;

use bytes::Bytes;
use hex::FromHexError;
use rand::{Rng, RngCore};
use vstd::prelude::*;

verus! {

#[verifier::external_type_specification]
#[verifier::external_body]
pub struct ExBytes(bytes::Bytes);

#[verifier::external_type_specification]
#[verifier::external_body]
pub struct ExFromHexError(hex::FromHexError);

#[verifier::external_type_specification]
#[verifier::external_body]
pub struct ExInstant(std::time::Instant);

/// The 32 bytes that BLAKE3 makes of `data`.
pub uninterp spec fn blake3_hash(data: Seq<u8>) -> Seq<u8>;

/// The bytes that a shared buffer holds.
pub uninterp spec fn buffer_bytes(b: bytes::Bytes) -> Seq<u8>;

/// `c` is a hexadecimal digit, in either case.
pub open spec fn is_hex_digit(c: char) -> bool {
    ||| '0' <= c <= '9'
    ||| 'a' <= c <= 'f'
    ||| 'A' <= c <= 'F'
}

/// The number that a hexadecimal digit stands for.
pub open spec fn hex_digit_value(c: char) -> int {
    if '0' <= c <= '9' {
        c as int - '0' as int
    } else if 'a' <= c <= 'f' {
        c as int - 'a' as int + 10
    } else {
        c as int - 'A' as int + 10
    }
}

/// The lower-case hexadecimal digit of a number below sixteen.
pub open spec fn hex_digit(n: int) -> char {
    if n < 10 {
        ('0' as int + n) as char
    } else {
        ('a' as int + n - 10) as char
    }
}

/// `s` is an even number of hexadecimal digits.
pub open spec fn is_hex(s: Seq<char>) -> bool {
    &&& s.len() % 2 == 0
    &&& forall|i: int| 0 <= i < s.len() ==> is_hex_digit(#[trigger] s[i])
}

/// The bytes that `s` writes, two digits each.
pub open spec fn hex_value(s: Seq<char>) -> Seq<u8> {
    Seq::new(
        (s.len() / 2) as nat,
        |i: int| (16 * hex_digit_value(s[2 * i]) + hex_digit_value(s[2 * i + 1])) as u8,
    )
}

/// The lower-case hexadecimal text of `data`, two digits for each byte.
pub open spec fn hex_text(data: Seq<u8>) -> Seq<char> {
    Seq::new(
        (2 * data.len()) as nat,
        |i: int|
            if i % 2 == 0 {
                hex_digit(data[i / 2] as int / 16)
            } else {
                hex_digit(data[i / 2] as int % 16)
            },
    )
}

/// Hashes `data` with `blake3::hash`. The digest depends on the data alone; nothing more
/// is claimed of its value than that name.
#[verifier::external_body]
pub(crate) fn content_hash(data: &[u8]) -> (r: [u8; 32])
    ensures
        r@ == blake3_hash(data@),
{
    *blake3::hash(data).as_bytes()
}

/// `hex::encode`: two lower-case digits for each byte, in order.
#[verifier::external_body]
pub(crate) fn encode_hex(data: &[u8]) -> (r: String)
    ensures
        r@ == hex_text(data@),
{
    hex::encode(data)
}

/// `hex::decode`: succeeds exactly on an even number of hexadecimal digits in either case,
/// and then yields the bytes that they write.
#[verifier::external_body]
pub(crate) fn decode_hex(text: &str) -> (r: Result<Vec<u8>, FromHexError>)
    ensures
        r is Ok <==> is_hex(text@),
        r matches Ok(bytes) ==> bytes@ == hex_value(text@),
{
    hex::decode(text)
}

/// `hex::decode_to_slice` into an array: succeeds exactly on `2 * N` hexadecimal digits in
/// either case, and then yields the bytes that they write.
#[verifier::external_body]
pub(crate) fn decode_hex_array<const N: usize>(text: &str) -> (r: Result<[u8; N], FromHexError>)
    ensures
        match r {
            Ok(bytes) => is_hex(text@) && text@.len() == 2 * N && bytes@ == hex_value(text@),
            Err(_) => !is_hex(text@) || text@.len() != 2 * N,
        },
{
    let mut out = [0u8; N];
    hex::decode_to_slice(text, &mut out)?;
    Ok(out)
}

/// `constant_time_eq::constant_time_eq_n`: whether two arrays hold the same bytes.
#[verifier::external_body]
pub(crate) fn same_bytes_in_constant_time(a: &[u8; 32], b: &[u8; 32]) -> (r: bool)
    ensures
        r == (a@ == b@),
{
    constant_time_eq::constant_time_eq_n(a, b)
}

/// `Bytes::deref`: the bytes that the buffer holds.
#[verifier::external_body]
pub(crate) fn buffer_slice(buffer: &Bytes) -> (r: &[u8])
    ensures
        r@ == buffer_bytes(*buffer),
{
    &buffer[..]
}

/// `Bytes::clone`: another handle on the same bytes.
#[verifier::external_body]
pub(crate) fn share_buffer(buffer: &Bytes) -> (r: Bytes)
    ensures
        buffer_bytes(r) == buffer_bytes(*buffer),
{
    buffer.clone()
}

/// `Rng::gen_range` of the thread's generator: some number of the half-open range. Which
/// one is a matter of chance.
#[verifier::external_body]
pub(crate) fn random_below(low: u64, high: u64) -> (r: u64)
    requires
        low < high,
    ensures
        low <= r < high,
{
    rand::thread_rng().gen_range(low..high)
}

/// `RngCore::fill_bytes` of the thread's generator: every byte of the buffer is left to
/// chance, and their number stays the same.
#[verifier::external_body]
pub(crate) fn fill_random(buffer: &mut Vec<u8>)
    ensures
        final(buffer)@.len() == old(buffer)@.len(),
{
    rand::thread_rng().fill_bytes(buffer);
}

/// `Instant::now`: a reading of the machine's monotonic clock.
#[verifier::external_body]
pub(crate) fn clock_start() -> Instant {
    Instant::now()
}

/// `Instant::elapsed`: how many nanoseconds ago `start` was read. The number is the
/// clock's.
#[verifier::external_body]
pub(crate) fn nanos_since(start: &Instant) -> u128 {
    start.elapsed().as_nanos()
}

/// Reading hexadecimal text that was written for some bytes gives those bytes back.
pub proof fn hex_round_trip(data: Seq<u8>)
    ensures
        is_hex(hex_text(data)),
        hex_text(data).len() == 2 * data.len(),
        hex_value(hex_text(data)) == data,
{
    let t = hex_text(data);
    assert forall|i: int| 0 <= i < t.len() implies is_hex_digit(#[trigger] t[i]) by {
        hex_digit_round_trip(data[i / 2] as int / 16);
        hex_digit_round_trip(data[i / 2] as int % 16);
    }
    assert forall|i: int| 0 <= i < data.len() implies #[trigger] hex_value(t)[i] == data[i] by {
        hex_digit_round_trip(data[i] as int / 16);
        hex_digit_round_trip(data[i] as int % 16);
        assert((2 * i) / 2 == i && (2 * i) % 2 == 0);
        assert((2 * i + 1) / 2 == i && (2 * i + 1) % 2 == 1);
    }
    assert(hex_value(t) =~= data);
}

proof fn hex_digit_round_trip(n: int)
    requires
        0 <= n < 16,
    ensures
        is_hex_digit(hex_digit(n)),
        hex_digit_value(hex_digit(n)) == n,
{
}

} // verus!
