//! Bit packing and unpacking.
//!
//! The packer turns the concatenated code bits into the binary payload of
//! a compressed stream: a little-endian 64-bit count of the code bits,
//! then the bits packed eight to a byte, the first bit of the stream in
//! the least significant position.  A final partial byte is padded with
//! `0` bits; the count tells the unpacker exactly where the code bits end,
//! so the pad bits are never taken for codes and a payload cut short is
//! always noticed.

use vstd::prelude::*;
use vstd::arithmetic::div_mod::lemma_fundamental_div_mod;

use crate::errors::HuffError;

verus! {

/// Bit `k` of byte `b`, counting from the least significant position.
pub open spec fn bit_at(b: u8, k: int) -> bool {
    (b >> (k as u8)) & 1 == 1
}

/// Bit `m` of a packed byte sequence: bit `m % 8` of byte `m / 8`.
pub open spec fn payload_bit(bytes: Seq<u8>, m: int) -> bool {
    bit_at(bytes[m / 8], m % 8)
}

/// The little-endian eight-byte encoding of a 64-bit count.
pub open spec fn le64_bytes(n: u64) -> Seq<u8> {
    seq![
        (n & 0xff) as u8,
        ((n >> 8) & 0xff) as u8,
        ((n >> 16) & 0xff) as u8,
        ((n >> 24) & 0xff) as u8,
        ((n >> 32) & 0xff) as u8,
        ((n >> 40) & 0xff) as u8,
        ((n >> 48) & 0xff) as u8,
        ((n >> 56) & 0xff) as u8,
    ]
}

/// The count read back from eight little-endian bytes.
pub open spec fn le64_value(bytes: Seq<u8>) -> u64
    recommends
        bytes.len() >= 8,
{
    (bytes[0] as u64) | ((bytes[1] as u64) << 8) | ((bytes[2] as u64) << 16) | ((bytes[3] as u64)
        << 24) | ((bytes[4] as u64) << 32) | ((bytes[5] as u64) << 40) | ((bytes[6] as u64) << 48)
        | ((bytes[7] as u64) << 56)
}

/// The number of bytes the packed form of `n` bits occupies.
pub open spec fn packed_len(n: int) -> int {
    (n + 7) / 8
}

proof fn lemma_le64_parts(n: u64, b0: u8, b1: u8, b2: u8, b3: u8, b4: u8, b5: u8, b6: u8, b7: u8)
    by (bit_vector)
    requires
        b0 == (n & 0xff) as u8,
        b1 == ((n >> 8) & 0xff) as u8,
        b2 == ((n >> 16) & 0xff) as u8,
        b3 == ((n >> 24) & 0xff) as u8,
        b4 == ((n >> 32) & 0xff) as u8,
        b5 == ((n >> 40) & 0xff) as u8,
        b6 == ((n >> 48) & 0xff) as u8,
        b7 == ((n >> 56) & 0xff) as u8,
    ensures
        (b0 as u64) | ((b1 as u64) << 8) | ((b2 as u64) << 16) | ((b3 as u64) << 24) | ((b4
            as u64) << 32) | ((b5 as u64) << 40) | ((b6 as u64) << 48) | ((b7 as u64) << 56) == n,
{
}

/// Reading back the little-endian encoding of a count gives the count.
pub proof fn lemma_le64_roundtrip(n: u64)
    ensures
        le64_value(le64_bytes(n)) == n,
{
    let s = le64_bytes(n);
    lemma_le64_parts(
        n,
        s[0],
        s[1],
        s[2],
        s[3],
        s[4],
        s[5],
        s[6],
        s[7],
    );
}

proof fn lemma_bit_at_zero(j: u8)
    by (bit_vector)
    requires
        j < 8,
    ensures
        (0u8 >> j) & 1 == 0,
{
}

proof fn lemma_bit_at_or(acc: u8, k: u8, j: u8)
    by (bit_vector)
    requires
        k < 8,
        j < 8,
    ensures
        j == k ==> ((acc | (1u8 << k)) >> j) & 1 == 1,
        j != k ==> ((acc | (1u8 << k)) >> j) & 1 == (acc >> j) & 1,
{
}

/// The announced bit count fits in `cb` bytes exactly when the number of
/// bytes it needs, rounded up, does.
proof fn lemma_ceil_div8(c: u64, cb: u64)
    ensures
        (c / 8 + (if c % 8 == 0 {
            0u64
        } else {
            1u64
        })) <= cb <==> c <= 8 * (cb as int),
{
    lemma_fundamental_div_mod(c as int, 8);
}

/// Packs the code bits into the payload: the bit count as eight
/// little-endian bytes, then the bits eight to a byte from the least
/// significant position, the last byte padded with `0` bits.
#[verifier::rlimit(50)]
pub fn pack_bits(bits: &Vec<bool>) -> (out: Vec<u8>)
    ensures
        out@.len() == 8 + packed_len(bits@.len() as int),
        out@.take(8) == le64_bytes(bits@.len() as u64),
        forall|m: int|
            0 <= m < bits@.len() ==> payload_bit(out@.skip(8), m) == bits@[m],
        forall|m: int|
            bits@.len() <= m < 8 * packed_len(bits@.len() as int) ==> payload_bit(
                out@.skip(8),
                m,
            ) == false,
{
    let count: u64 = bits.len() as u64;
    let mut out: Vec<u8> = Vec::new();
    out.push((count & 0xff) as u8);
    out.push(((count >> 8) & 0xff) as u8);
    out.push(((count >> 16) & 0xff) as u8);
    out.push(((count >> 24) & 0xff) as u8);
    out.push(((count >> 32) & 0xff) as u8);
    out.push(((count >> 40) & 0xff) as u8);
    out.push(((count >> 48) & 0xff) as u8);
    out.push(((count >> 56) & 0xff) as u8);
    proof {
        assert(out@ =~= le64_bytes(count));
    }
    let mut i: usize = 0;
    let mut acc: u8 = 0;
    let mut k: u8 = 0;
    proof {
        assert forall|j: int| 0 <= j < 8 implies bit_at(0u8, j) == false by {
            lemma_bit_at_zero(j as u8);
        }
    }
    while i < bits.len()
        invariant
            0 <= i <= bits@.len(),
            k < 8,
            i == 8 * (out@.len() - 8) + k,
            out@.len() >= 8,
            out@.take(8) == le64_bytes(bits@.len() as u64),
            forall|m: int| 0 <= m < 8 * (out@.len() - 8) ==> payload_bit(out@.skip(8), m)
                == bits@[m],
            forall|j: int| 0 <= j < k ==> bit_at(acc, j) == bits@[8 * (out@.len() - 8) + j],
            forall|j: int| k <= j < 8 ==> bit_at(acc, j) == false,
        decreases bits@.len() - i,
    {
        let ghost acc0 = acc;
        if bits[i] {
            acc = acc | (1u8 << k);
        }
        proof {
            assert forall|j: int| 0 <= j < 8 implies bit_at(acc, j) == (if j == k as int {
                bits@[i as int]
            } else {
                bit_at(acc0, j)
            }) by {
                if bits@[i as int] {
                    lemma_bit_at_or(acc0, k, j as u8);
                }
            }
        }
        k = k + 1;
        if k == 8 {
            let ghost out0 = out@;
            out.push(acc);
            proof {
                assert(out@.take(8) =~= out0.take(8));
                assert(out@.skip(8) =~= out0.skip(8).push(acc));
                assert forall|m: int| 0 <= m < 8 * (out@.len() - 8) implies payload_bit(
                    out@.skip(8),
                    m,
                ) == bits@[m] by {
                    if m < 8 * (out0.len() - 8) {
                        assert(out@.skip(8)[m / 8] == out0.skip(8)[m / 8]);
                    } else {
                        assert(m / 8 == out0.len() - 8);
                        assert(out@.skip(8)[m / 8] == acc);
                        assert(bit_at(acc, m % 8) == bits@[8 * (out0.len() - 8) + m % 8]);
                    }
                }
            }
            acc = 0;
            k = 0;
            proof {
                assert forall|j: int| 0 <= j < 8 implies bit_at(0u8, j) == false by {
                    lemma_bit_at_zero(j as u8);
                }
            }
        }
        i += 1;
    }
    if k > 0 {
        let ghost out0 = out@;
        out.push(acc);
        proof {
            assert(out@.take(8) =~= out0.take(8));
            assert(out@.skip(8) =~= out0.skip(8).push(acc));
            assert forall|m: int| 0 <= m < 8 * (out@.len() - 8) implies (m < bits@.len()
                ==> payload_bit(out@.skip(8), m) == bits@[m]) && (bits@.len() <= m
                ==> payload_bit(out@.skip(8), m) == false) by {
                if m < 8 * (out0.len() - 8) {
                    assert(out@.skip(8)[m / 8] == out0.skip(8)[m / 8]);
                } else {
                    assert(m / 8 == out0.len() - 8);
                    assert(out@.skip(8)[m / 8] == acc);
                }
            }
        }
    }
    proof {
        assert(out@.len() - 8 == packed_len(bits@.len() as int));
    }
    out
}

/// Reads the payload back into its code bits.  Succeeds exactly when at
/// least the eight count bytes are there and the announced count fits in
/// the bytes that follow; trailing pad bits are ignored.  A payload cut
/// short fails with `UndecodableTail`.
pub fn unpack_bits(bytes: &Vec<u8>, start: usize) -> (r: Result<Vec<bool>, HuffError>)
    requires
        start <= bytes@.len(),
    ensures
        match r {
            Ok(bits) => {
                let payload = bytes@.skip(start as int);
                &&& payload.len() >= 8
                &&& bits@.len() == le64_value(payload.take(8))
                &&& bits@.len() <= 8 * (payload.len() - 8)
                &&& forall|m: int|
                    0 <= m < bits@.len() ==> bits@[m] == payload_bit(payload.skip(8), m)
            },
            Err(e) => {
                let payload = bytes@.skip(start as int);
                &&& e == HuffError::UndecodableTail
                &&& (payload.len() < 8 || le64_value(payload.take(8)) > 8 * (payload.len() - 8))
            },
        },
{
    let n = bytes.len();
    if n - start < 8 {
        return Err(HuffError::UndecodableTail);
    }
    let b0 = bytes[start];
    let b1 = bytes[start + 1];
    let b2 = bytes[start + 2];
    let b3 = bytes[start + 3];
    let b4 = bytes[start + 4];
    let b5 = bytes[start + 5];
    let b6 = bytes[start + 6];
    let b7 = bytes[start + 7];
    let count: u64 = (b0 as u64) | ((b1 as u64) << 8) | ((b2 as u64) << 16) | ((b3 as u64) << 24)
        | ((b4 as u64) << 32) | ((b5 as u64) << 40) | ((b6 as u64) << 48) | ((b7 as u64) << 56);
    let ghost payload = bytes@.skip(start as int);
    proof {
        assert(payload.take(8)[0] == b0);
        assert(payload.take(8)[1] == b1);
        assert(payload.take(8)[2] == b2);
        assert(payload.take(8)[3] == b3);
        assert(payload.take(8)[4] == b4);
        assert(payload.take(8)[5] == b5);
        assert(payload.take(8)[6] == b6);
        assert(payload.take(8)[7] == b7);
        assert(count == le64_value(payload.take(8)));
    }
    let cap_bytes: u64 = (n - start - 8) as u64;
    let needed: u64 = count / 8 + if count % 8 == 0 {
        0
    } else {
        1
    };
    proof {
        lemma_ceil_div8(count, cap_bytes);
        assert(payload.len() - 8 == cap_bytes);
    }
    if needed > cap_bytes {
        return Err(HuffError::UndecodableTail);
    }
    let base = start + 8;
    let mut bits: Vec<bool> = Vec::new();
    let mut m: u64 = 0;
    while m < count
        invariant
            0 <= m <= count,
            base == start + 8,
            base <= bytes@.len(),
            n == bytes@.len(),
            count <= 8 * (bytes@.len() - start - 8),
            bits@.len() == m,
            forall|j: int|
                0 <= j < m ==> bits@[j] == payload_bit(
                    bytes@.skip(start as int).skip(8),
                    j,
                ),
        decreases count - m,
    {
        proof {
            lemma_fundamental_div_mod(m as int, 8);
            assert(m / 8 < (bytes@.len() - start - 8));
            assert((m / 8) as int == m as int / 8);
        }
        let idx = (m / 8) as usize;
        let bi = base + idx;
        let b = bytes[bi];
        let kk = (m % 8) as u8;
        let bit = ((b >> kk) & 1) == 1;
        bits.push(bit);
        proof {
            let rest = bytes@.skip(start as int).skip(8);
            assert(rest =~= bytes@.skip(start as int + 8));
            assert(rest[m as int / 8] == bytes@[start as int + 8 + m as int / 8]);
            assert(b == rest[m as int / 8]);
            assert(kk == (m as int % 8) as u8);
            assert(bit == bit_at(b, m as int % 8));
            assert(bit == payload_bit(rest, m as int));
        }
        m += 1;
    }
    Ok(bits)
}

} // verus!
