//! Little-endian integer fields read out of raw on-disk bytes.

use vstd::prelude::*;

verus! {

/// 256 to the power `n`: the number of values `n` bytes can take.
pub open spec fn pow256(n: nat) -> int
    decreases n,
{
    if n == 0 {
        1
    } else {
        256 * pow256((n - 1) as nat)
    }
}

/// The unsigned little-endian value of the `n` bytes of `b` starting at `o`.
pub open spec fn le_bytes(b: Seq<u8>, o: int, n: nat) -> int
    decreases n,
{
    if n == 0 {
        0
    } else {
        b[o] + 256 * le_bytes(b, o + 1, (n - 1) as nat)
    }
}

pub proof fn lemma_le_bytes_bound(b: Seq<u8>, o: int, n: nat)
    ensures
        0 <= le_bytes(b, o, n) < pow256(n),
    decreases n,
{
    if n > 0 {
        lemma_le_bytes_bound(b, o + 1, (n - 1) as nat);
    }
}

pub proof fn lemma_pow256_le_8(n: nat)
    requires
        n <= 8,
    ensures
        pow256(n) <= 0x1_0000_0000_0000_0000,
{
    assert(pow256(0) == 1);
    assert(pow256(1) == 256);
    assert(pow256(2) == 0x1_0000);
    assert(pow256(3) == 0x100_0000);
    assert(pow256(4) == 0x1_0000_0000);
    assert(pow256(5) == 0x100_0000_0000);
    assert(pow256(6) == 0x1_0000_0000_0000);
    assert(pow256(7) == 0x100_0000_0000_0000);
    assert(pow256(8) == 0x1_0000_0000_0000_0000);
}

/// Reads the `n`-byte little-endian field of `b` at offset `o`.
pub fn read_le(b: &[u8], o: usize, n: usize) -> (r: u64)
    requires
        o + n <= b@.len(),
        n <= 8,
    ensures
        r as int == le_bytes(b@, o as int, n as nat),
{
    let blen: usize = b.len();
    let mut i: usize = n;
    let mut acc: u64 = 0;
    proof {
        lemma_le_bytes_bound(b@, (o + i) as int, (n - i) as nat);
    }
    while i > 0
        invariant
            i <= n,
            n <= 8,
            o + n <= blen,
            blen == b@.len(),
            acc as int == le_bytes(b@, o + i, (n - i) as nat),
        decreases i,
    {
        i = i - 1;
        proof {
            lemma_le_bytes_bound(b@, o + i + 1, (n - i - 1) as nat);
            lemma_le_bytes_bound(b@, o + i, (n - i) as nat);
            lemma_pow256_le_8((n - i) as nat);
            assert(le_bytes(b@, o + i, (n - i) as nat) == b@[o + i] + 256 * le_bytes(
                b@,
                o + i + 1,
                (n - i - 1) as nat,
            ));
        }
        acc = acc * 256 + (b[o + i] as u64);
    }
    acc
}

} // verus!
