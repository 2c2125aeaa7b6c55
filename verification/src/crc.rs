//! CRC-16-CCITT (CCITT-FALSE), the checksum of a transport frame.
//!
//! Initial value `0xffff`, polynomial `0x1021`, no reflection, no final xor.
//! The firmware appends the little-endian result before SLIP-escaping it.

use crate::wire::{read_u16, CRC16_CCITT_INIT};
use vstd::prelude::*;

verus! {

/// One shift of the checksum register: the top bit leaves and selects the
/// polynomial.
pub open spec fn shifted(c: u16) -> u16 {
    if c & 0x8000 != 0 {
        (c << 1) ^ 0x1021
    } else {
        c << 1
    }
}

/// The register after the byte `b`.
pub open spec fn after_byte(c: u16, b: u8) -> u16 {
    shifted(shifted(shifted(shifted(shifted(shifted(shifted(shifted(c ^ ((b as u16) << 8)))))))))
}

/// The register after the bytes of `s`, starting from `c`.
pub open spec fn after_bytes(c: u16, s: Seq<u8>) -> u16
    decreases s.len(),
{
    if s.len() == 0 {
        c
    } else {
        after_byte(after_bytes(c, s.drop_last()), s.last())
    }
}

/// The checksum of `s`.
pub open spec fn checksum(s: Seq<u8>) -> u16 {
    after_bytes(CRC16_CCITT_INIT, s)
}

/// `Crc::<u16>::checksum` of the crate `crc`, for the algorithm it catalogues as
/// `CRC_16_IBM_3740`: sixteen bits wide, polynomial `0x1021`, register started at
/// `0xffff`, bits taken from the top, result neither reflected nor inverted.
#[verifier::external_body]
fn crc_of(bytes: &[u8]) -> (r: u16)
    ensures
        r == checksum(bytes@),
{
    crc::Crc::<u16>::new(&crc::CRC_16_IBM_3740).checksum(bytes)
}

/// Compute CRC-16-CCITT over `header` followed by `payload`.
pub fn compute(header: &[u8], payload: &[u8]) -> (r: u16)
    ensures
        r == checksum(header@ + payload@),
{
    let mut bytes: Vec<u8> = Vec::new();
    bytes.extend_from_slice(header);
    bytes.extend_from_slice(payload);
    assert(bytes@ =~= header@ + payload@);
    crc_of(bytes.as_slice())
}

/// Verify a frame: `crc_bytes` is the little-endian trailing checksum.
pub fn verify(header: &[u8], payload: &[u8], crc_bytes: &[u8; 2]) -> (r: bool)
    ensures
        r == (checksum(header@ + payload@) == crc_bytes[0] + 0x100 * crc_bytes[1]),
{
    let expected = compute(header, payload);
    expected == read_u16(crc_bytes.as_slice(), 0)
}

/// Feeding two pieces one after the other is feeding their concatenation.
pub proof fn checksum_is_streaming(c: u16, a: Seq<u8>, b: Seq<u8>)
    ensures
        after_bytes(c, a + b) == after_bytes(after_bytes(c, a), b),
    decreases b.len(),
{
    if b.len() == 0 {
        assert(a + b =~= a);
    } else {
        checksum_is_streaming(c, a, b.drop_last());
        assert((a + b).drop_last() =~= a + b.drop_last());
    }
}

proof fn lemma_shift_is_injective(c: u16, d: u16)
    requires
        shifted(c) == shifted(d),
    ensures
        c == d,
{
    assert((if c & 0x8000 != 0 {
        (c << 1) ^ 0x1021
    } else {
        c << 1
    }) == (if d & 0x8000 != 0 {
        (d << 1) ^ 0x1021
    } else {
        d << 1
    }) ==> c == d) by (bit_vector);
}

proof fn lemma_shifts_are_injective(c: u16, d: u16, n: nat)
    requires
        shifted_times(c, n) == shifted_times(d, n),
    ensures
        c == d,
    decreases n,
{
    if n > 0 {
        lemma_shifts_are_injective(shifted(c), shifted(d), (n - 1) as nat);
        lemma_shift_is_injective(c, d);
    }
}

spec fn shifted_times(c: u16, n: nat) -> u16
    decreases n,
{
    if n == 0 {
        c
    } else {
        shifted_times(shifted(c), (n - 1) as nat)
    }
}

proof fn lemma_after_byte_is_injective(c: u16, d: u16, a: u8, b: u8)
    requires
        after_byte(c, a) == after_byte(d, b),
    ensures
        c ^ ((a as u16) << 8) == d ^ ((b as u16) << 8),
        a == b ==> c == d,
        c == d ==> a == b,
{
    let x = c ^ ((a as u16) << 8);
    let y = d ^ ((b as u16) << 8);
    reveal_with_fuel(shifted_times, 9);
    assert(shifted_times(x, 8) == after_byte(c, a));
    assert(shifted_times(y, 8) == after_byte(d, b));
    lemma_shifts_are_injective(x, y, 8);
    assert(c ^ ((a as u16) << 8) == d ^ ((b as u16) << 8) ==> (a == b ==> c == d) && (c == d ==> a
        == b)) by (bit_vector);
}

proof fn lemma_after_bytes_is_injective(c: u16, d: u16, s: Seq<u8>)
    requires
        c != d,
    ensures
        after_bytes(c, s) != after_bytes(d, s),
    decreases s.len(),
{
    if s.len() > 0 {
        lemma_after_bytes_is_injective(c, d, s.drop_last());
        if after_bytes(c, s) == after_bytes(d, s) {
            lemma_after_byte_is_injective(
                after_bytes(c, s.drop_last()),
                after_bytes(d, s.drop_last()),
                s.last(),
                s.last(),
            );
        }
    }
}

/// A frame in which exactly one byte was changed has another checksum.
pub proof fn checksum_detects_a_changed_byte(s: Seq<u8>, i: int, b: u8)
    requires
        0 <= i < s.len(),
        b != s[i],
    ensures
        checksum(s.update(i, b)) != checksum(s),
{
    let t = s.update(i, b);
    let head = s.take(i);
    let tail = s.skip(i + 1);
    assert(s =~= head.push(s[i]) + tail);
    assert(t =~= head.push(b) + tail);
    checksum_is_streaming(CRC16_CCITT_INIT, head.push(s[i]), tail);
    checksum_is_streaming(CRC16_CCITT_INIT, head.push(b), tail);
    let c = checksum(head);
    assert(head.push(s[i]).drop_last() =~= head);
    assert(head.push(b).drop_last() =~= head);
    if after_byte(c, s[i]) == after_byte(c, b) {
        lemma_after_byte_is_injective(c, c, s[i], b);
    }
    lemma_after_bytes_is_injective(after_byte(c, s[i]), after_byte(c, b), tail);
}

} // verus!
