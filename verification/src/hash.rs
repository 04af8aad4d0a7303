//! The 64-bit fingerprint used to derive cache keys.
//!
//! The algorithm is pinned so that a given selection of template names
//! always maps to the same file name: SipHash-1-3 with an all-zero key (one
//! compression round per block, three finalization rounds), over the bytes
//! of the hashed text followed by a single `0xff` terminator byte. Both the
//! specification and the executable code below spell the algorithm out in
//! full; nothing about the fingerprint is taken on trust.

use vstd::prelude::*;

verus! {

/// One SipHash mixing round over the four-word state.
pub open spec fn sip_round(v: (u64, u64, u64, u64)) -> (u64, u64, u64, u64) {
    let (v0, v1, v2, v3) = v;
    let v0 = v0.wrapping_add(v1);
    let v1 = (v1 << 13u64) | (v1 >> 51u64);
    let v1 = v1 ^ v0;
    let v0 = (v0 << 32u64) | (v0 >> 32u64);
    let v2 = v2.wrapping_add(v3);
    let v3 = (v3 << 16u64) | (v3 >> 48u64);
    let v3 = v3 ^ v2;
    let v0 = v0.wrapping_add(v3);
    let v3 = (v3 << 21u64) | (v3 >> 43u64);
    let v3 = v3 ^ v0;
    let v2 = v2.wrapping_add(v1);
    let v1 = (v1 << 17u64) | (v1 >> 47u64);
    let v1 = v1 ^ v2;
    let v2 = (v2 << 32u64) | (v2 >> 32u64);
    (v0, v1, v2, v3)
}

/// Feeding one 64-bit message word into the state: one round between the
/// two xors.
pub open spec fn sip_compress(v: (u64, u64, u64, u64), m: u64) -> (u64, u64, u64, u64) {
    let (v0, v1, v2, v3) = v;
    let v3 = v3 ^ m;
    let (v0, v1, v2, v3) = sip_round((v0, v1, v2, v3));
    let v0 = v0 ^ m;
    (v0, v1, v2, v3)
}

/// The initial state for the all-zero key.
pub open spec fn sip_init() -> (u64, u64, u64, u64) {
    (0x736f6d6570736575u64, 0x646f72616e646f6du64, 0x6c7967656e657261u64, 0x7465646279746573u64)
}

/// The 64-bit word formed from eight bytes at `off`, least significant
/// byte first.
pub open spec fn le64_at(b: Seq<u8>, off: int) -> u64
    recommends
        0 <= off,
        off + 8 <= b.len(),
{
    (b[off] as u64) | ((b[off + 1] as u64) << 8u64) | ((b[off + 2] as u64) << 16u64) | ((b[off + 3]
        as u64) << 24u64) | ((b[off + 4] as u64) << 32u64) | ((b[off + 5] as u64) << 40u64) | ((b[
        off + 6] as u64) << 48u64) | ((b[off + 7] as u64) << 56u64)
}

/// The state after the first `i` whole blocks of `data` have been fed in.
pub open spec fn sip_blocks(data: Seq<u8>, i: int) -> (u64, u64, u64, u64)
    decreases i,
{
    if i <= 0 {
        sip_init()
    } else {
        sip_compress(sip_blocks(data, i - 1), le64_at(data, 8 * (i - 1)))
    }
}

/// The word formed from the first `k` bytes past the last whole block,
/// least significant byte first.
pub open spec fn sip_tail_word(data: Seq<u8>, k: int) -> u64
    decreases k,
{
    if k <= 0 {
        0u64
    } else {
        sip_tail_word(data, k - 1) | ((data[8 * (data.len() as int / 8) + (k - 1)] as u64) << ((8 * (
        k - 1)) as u64))
    }
}

/// SipHash-1-3 of `data` under the all-zero key.
pub open spec fn siphash13(data: Seq<u8>) -> u64 {
    let nb = data.len() as int / 8;
    let rem = data.len() as int % 8;
    let m = sip_tail_word(data, rem) | (((data.len() % 256) as u64) << 56u64);
    let (v0, v1, v2, v3) = sip_compress(sip_blocks(data, nb), m);
    let v2 = v2 ^ 0xffu64;
    let (v0, v1, v2, v3) = sip_round(sip_round(sip_round((v0, v1, v2, v3))));
    v0 ^ v1 ^ v2 ^ v3
}

fn sip_round_exec(v: (u64, u64, u64, u64)) -> (r: (u64, u64, u64, u64))
    ensures
        r == sip_round(v),
{
    let (v0, v1, v2, v3) = v;
    let v0 = v0.wrapping_add(v1);
    let v1 = (v1 << 13u64) | (v1 >> 51u64);
    let v1 = v1 ^ v0;
    let v0 = (v0 << 32u64) | (v0 >> 32u64);
    let v2 = v2.wrapping_add(v3);
    let v3 = (v3 << 16u64) | (v3 >> 48u64);
    let v3 = v3 ^ v2;
    let v0 = v0.wrapping_add(v3);
    let v3 = (v3 << 21u64) | (v3 >> 43u64);
    let v3 = v3 ^ v0;
    let v2 = v2.wrapping_add(v1);
    let v1 = (v1 << 17u64) | (v1 >> 47u64);
    let v1 = v1 ^ v2;
    let v2 = (v2 << 32u64) | (v2 >> 32u64);
    (v0, v1, v2, v3)
}

fn sip_compress_exec(v: (u64, u64, u64, u64), m: u64) -> (r: (u64, u64, u64, u64))
    ensures
        r == sip_compress(v, m),
{
    let (v0, v1, v2, v3) = v;
    let v3 = v3 ^ m;
    let (v0, v1, v2, v3) = sip_round_exec((v0, v1, v2, v3));
    let v0 = v0 ^ m;
    (v0, v1, v2, v3)
}

/// SipHash-1-3 of the given bytes under the all-zero key.
pub fn siphash13_bytes(data: &Vec<u8>) -> (r: u64)
    ensures
        r == siphash13(data@),
{
    let n: usize = data.len();
    let nb: usize = n / 8;
    let mut v: (u64, u64, u64, u64) = (
        0x736f6d6570736575u64,
        0x646f72616e646f6du64,
        0x6c7967656e657261u64,
        0x7465646279746573u64,
    );
    let mut i: usize = 0;
    while i < nb
        invariant
            i <= nb,
            nb == data@.len() as int / 8,
            n == data@.len(),
            v == sip_blocks(data@, i as int),
        decreases nb - i,
    {
        let base: usize = 8 * i;
        let m: u64 = (data[base] as u64) | ((data[base + 1] as u64) << 8u64) | ((data[base + 2]
            as u64) << 16u64) | ((data[base + 3] as u64) << 24u64) | ((data[base + 4] as u64)
            << 32u64) | ((data[base + 5] as u64) << 40u64) | ((data[base + 6] as u64) << 48u64) | ((
        data[base + 7] as u64) << 56u64);
        proof {
            assert(m == le64_at(data@, 8 * i as int));
        }
        v = sip_compress_exec(v, m);
        i = i + 1;
    }
    let rem: usize = n % 8;
    let mut m: u64 = 0;
    let mut j: usize = 0;
    while j < rem
        invariant
            j <= rem,
            rem == data@.len() as int % 8,
            nb == data@.len() as int / 8,
            n == data@.len(),
            m == sip_tail_word(data@, j as int),
        decreases rem - j,
    {
        m = m | ((data[8 * nb + j] as u64) << ((8 * j) as u64));
        j = j + 1;
    }
    m = m | (((n % 256) as u64) << 56u64);
    v = sip_compress_exec(v, m);
    let (v0, v1, v2, v3) = v;
    let v2 = v2 ^ 0xffu64;
    let (v0, v1, v2, v3) = sip_round_exec(sip_round_exec(sip_round_exec((v0, v1, v2, v3))));
    v0 ^ v1 ^ v2 ^ v3
}

} // verus!
