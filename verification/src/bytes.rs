//! Big-endian numbers, the byte order of every multi-byte field of an
//! ICMPv6 message.
use vstd::prelude::*;

use crate::error::ParseError;

verus! {

/// The number that a byte sequence denotes, most significant byte first.
pub open spec fn be_value(bytes: Seq<u8>) -> nat
    decreases bytes.len(),
{
    if bytes.len() == 0 {
        0
    } else {
        be_value(bytes.drop_last()) * 256 + bytes.last() as nat
    }
}

/// The `n` bytes, most significant byte first, that denote `value` modulo
/// `256^n`.
pub open spec fn be_bytes(value: nat, n: nat) -> Seq<u8>
    decreases n,
{
    if n == 0 {
        Seq::empty()
    } else {
        be_bytes(value / 256, (n - 1) as nat).push((value % 256) as u8)
    }
}

/// `256^n`: the count of numbers that `n` bytes can denote.
pub open spec fn pow256(n: nat) -> nat
    decreases n,
{
    if n == 0 {
        1
    } else {
        256 * pow256((n - 1) as nat)
    }
}

/// `n` bytes denote a number below `256^n`.
pub proof fn lemma_be_value_bound(bytes: Seq<u8>)
    ensures
        be_value(bytes) < pow256(bytes.len()),
    decreases bytes.len(),
{
    if bytes.len() > 0 {
        lemma_be_value_bound(bytes.drop_last());
    }
}

/// Writing a number as `n` bytes and reading the bytes back gives the number,
/// for every number that `n` bytes can denote.
pub proof fn law_read_back_written_number(value: nat, n: nat)
    requires
        value < pow256(n),
    ensures
        be_bytes(value, n).len() == n,
        be_value(be_bytes(value, n)) == value,
    decreases n,
{
    if n > 0 {
        law_read_back_written_number(value / 256, (n - 1) as nat);
        assert(be_bytes(value, n).drop_last() =~= be_bytes(value / 256, (n - 1) as nat));
    }
}

/// Reading bytes as a number and writing the number in as many bytes gives
/// the bytes.
pub proof fn law_write_back_read_number(bytes: Seq<u8>)
    ensures
        be_bytes(be_value(bytes), bytes.len()) == bytes,
    decreases bytes.len(),
{
    if bytes.len() > 0 {
        law_write_back_read_number(bytes.drop_last());
        assert(be_value(bytes) / 256 == be_value(bytes.drop_last()));
        assert(be_value(bytes) % 256 == bytes.last());
        assert(be_bytes(be_value(bytes), bytes.len()) =~= bytes);
    } else {
        assert(bytes =~= Seq::empty());
    }
}

/// Extracts the `N` bytes of `buf` that start at offset `start`.
///
/// Fails if the buffer ends before them, wherever they would start.
pub fn get_slice<const N: usize>(buf: &[u8], start: usize) -> (res: Result<[u8; N], ParseError>)
    ensures
        match res {
            Ok(bytes) => start + N <= buf@.len() && bytes@ == buf@.subrange(
                start as int,
                start + N,
            ),
            Err(e) => start + N > buf@.len() && e == ParseError::Truncated,
        },
{
    if N > buf.len() || start > buf.len() - N {
        return Err(ParseError::Truncated);
    }
    let mut out: [u8; N] = [0u8;N];
    let mut i: usize = 0;
    while i < N
        invariant
            i <= N,
            start + N <= buf@.len(),
            buf@.len() <= usize::MAX,
            forall|j: int| 0 <= j < i ==> out@[j] == buf@[start + j],
        decreases N - i,
    {
        out[i] = buf[start + i];
        i = i + 1;
    }
    assert(out@ =~= buf@.subrange(start as int, start + N));
    Ok(out)
}

/// Reads a two-byte number.
pub fn u16_from_be(bytes: [u8; 2]) -> (value: u16)
    ensures
        value as nat == be_value(bytes@),
{
    proof {
        reveal_with_fuel(be_value, 3);
    }
    bytes[0] as u16 * 256 + bytes[1] as u16
}

/// Reads a four-byte number.
pub fn u32_from_be(bytes: [u8; 4]) -> (value: u32)
    ensures
        value as nat == be_value(bytes@),
{
    proof {
        reveal_with_fuel(be_value, 5);
    }
    ((bytes[0] as u32 * 256 + bytes[1] as u32) * 256 + bytes[2] as u32) * 256 + bytes[3] as u32
}

/// Reads a sixteen-byte number.
pub fn u128_from_be(bytes: [u8; 16]) -> (value: u128)
    ensures
        value as nat == be_value(bytes@),
{
    let mut value: u128 = 0;
    let mut i: usize = 0;
    while i < 16
        invariant
            i <= 16,
            value as nat == be_value(bytes@.take(i as int)),
        decreases 16 - i,
    {
        proof {
            let next = bytes@.take(i + 1);
            assert(next.drop_last() =~= bytes@.take(i as int));
            lemma_be_value_bound(next);
            lemma_pow256_bound(next.len());
        }
        value = value * 256 + bytes[i] as u128;
        i = i + 1;
    }
    assert(bytes@.take(16) =~= bytes@);
    value
}

/// The two bytes of a 16-bit number.
pub open spec fn u16_bytes(value: u16) -> Seq<u8> {
    be_bytes(value as nat, 2)
}

/// The four bytes of a 32-bit number.
pub open spec fn u32_bytes(value: u32) -> Seq<u8> {
    be_bytes(value as nat, 4)
}

/// Writes a two-byte number.
pub fn u16_to_be(value: u16) -> (bytes: [u8; 2])
    ensures
        bytes@ == u16_bytes(value),
{
    let bytes = [(value / 256) as u8, (value % 256) as u8];
    proof {
        reveal_with_fuel(be_bytes, 3);
        assert(bytes@ =~= u16_bytes(value));
    }
    bytes
}

/// Writes a four-byte number.
pub fn u32_to_be(value: u32) -> (bytes: [u8; 4])
    ensures
        bytes@ == u32_bytes(value),
{
    let bytes = [
        (value / 256 / 256 / 256) as u8,
        (value / 256 / 256 % 256) as u8,
        (value / 256 % 256) as u8,
        (value % 256) as u8,
    ];
    proof {
        reveal_with_fuel(be_bytes, 5);
        assert(bytes@ =~= u32_bytes(value));
    }
    bytes
}

/// Zero is written as zero bytes.
pub proof fn lemma_zero_bytes()
    ensures
        u16_bytes(0) == seq![0u8, 0],
        u32_bytes(0) == seq![0u8, 0, 0, 0],
{
    reveal_with_fuel(be_bytes, 5);
    assert(u16_bytes(0) =~= seq![0u8, 0]);
    assert(u32_bytes(0) =~= seq![0u8, 0, 0, 0]);
}

/// Up to sixteen bytes denote a number below `2^128`.
proof fn lemma_pow256_bound(n: nat)
    requires
        n <= 16,
    ensures
        pow256(n) <= u128::MAX + 1,
{
    reveal_with_fuel(pow256, 17);
}

} // verus!
