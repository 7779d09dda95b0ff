//! Little-endian payload encoding of the binary format.
use vstd::prelude::*;
use crate::opcodes;

verus! {

/// The `k` little-endian bytes of `x` (modulo `256^k`).
pub open spec fn le_bytes(x: nat, k: nat) -> Seq<u8>
    decreases k,
{
    if k == 0 {
        Seq::empty()
    } else {
        seq![(x % 256) as u8] + le_bytes(x / 256, (k - 1) as nat)
    }
}

/// The value of little-endian bytes.
pub open spec fn le_value(s: Seq<u8>) -> nat
    decreases s.len(),
{
    if s.len() == 0 {
        0
    } else {
        s[0] as nat + 256 * le_value(s.drop_first())
    }
}

/// A `NUM` instruction carrying the encoding `bits`.
pub open spec fn num_ins(bits: u64) -> Seq<u8> {
    seq![opcodes::NUM] + le_bytes(bits as nat, 8)
}

pub proof fn lemma_le_bytes_len(x: nat, k: nat)
    ensures
        le_bytes(x, k).len() == k,
    decreases k,
{
    if k > 0 {
        lemma_le_bytes_len(x / 256, (k - 1) as nat);
    }
}

pub open spec fn p256(k: nat) -> nat
    decreases k,
{
    if k == 0 {
        1
    } else {
        256 * p256((k - 1) as nat)
    }
}

/// Encoding then decoding gives back the value (below `256^k`).
pub proof fn lemma_le_roundtrip(x: nat, k: nat)
    requires
        x < p256(k),
    ensures
        le_value(le_bytes(x, k)) == x,
    decreases k,
{
    if k > 0 {
        lemma_le_bytes_len(x / 256, (k - 1) as nat);
        let s = le_bytes(x, k);
        assert(s.drop_first() =~= le_bytes(x / 256, (k - 1) as nat));
        assert(x / 256 < p256((k - 1) as nat)) by (nonlinear_arith)
            requires x < 256 * p256((k - 1) as nat);
        lemma_le_roundtrip(x / 256, (k - 1) as nat);
    }
}

pub proof fn lemma_p256_8()
    ensures
        p256(8) == 0x10000000000000000,
{
    reveal_with_fuel(p256, 9);
}

/// The nine bytes of a `NUM` instruction.
pub fn num_instruction(bits: u64) -> (r: [u8; 9])
    ensures
        r@ == num_ins(bits),
{
    let mut r = [0u8; 9];
    r[0] = opcodes::NUM;
    let mut y: u64 = bits;
    let mut k: usize = 0;
    proof {
        assert(r@.subrange(0, 1) =~= seq![opcodes::NUM]);
    }
    while k < 8
        invariant
            k <= 8,
            r@.len() == 9,
            r@.subrange(0, k + 1) + le_bytes(y as nat, (8 - k) as nat) =~= num_ins(bits),
        decreases 8 - k,
    {
        let ghost before = r@.subrange(0, k + 1);
        proof {
            let rest = le_bytes(y as nat, (8 - k) as nat);
            assert(rest == seq![(y % 256) as u8] + le_bytes((y / 256) as nat, (8 - k - 1) as nat));
            assert(before.push((y % 256) as u8) + le_bytes((y / 256) as nat, (8 - k - 1) as nat) =~= before + rest);
        }
        r[k + 1] = (y % 256) as u8;
        proof {
            assert(r@.subrange(0, k + 2) =~= before.push((y % 256) as u8));
        }
        y = y / 256;
        k = k + 1;
    }
    proof {
        assert(r@.subrange(0, 9) =~= r@);
        assert(le_bytes(y as nat, 0) =~= Seq::<u8>::empty());
    }
    r
}

/// The value of the 8 bytes at `i`.
pub fn read_le8(s: &[u8], i: usize) -> (r: u64)
    requires
        i + 8 <= s@.len(),
    ensures
        r == le_value(s@.subrange(i as int, i + 8)),
{
    let mut acc: u64 = 0;
    let mut k: usize = 8;
    proof {
        assert(s@.subrange(i + 8, i + 8) =~= Seq::<u8>::empty());
    }
    while k > 0
        invariant
            k <= 8,
            i + 8 <= s.len(),
            acc == le_value(s@.subrange(i + k, i + 8)),
            acc < p256((8 - k) as nat),
        decreases k,
    {
        k = k - 1;
        let ghost t = s@.subrange(i + k, i + 8);
        proof {
            assert(t.drop_first() =~= s@.subrange(i + k + 1, i + 8));
            lemma_p256_8();
            assert(p256((8 - k) as nat) == 256 * p256((8 - k - 1) as nat));
            reveal_with_fuel(p256, 9);
            assert(p256((8 - k) as nat) <= 0x10000000000000000);
            assert(s@[i + k] as nat + 256 * acc < p256((8 - k) as nat)) by (nonlinear_arith)
                requires acc < p256((8 - k - 1) as nat), s@[i + k] < 256,
                    p256((8 - k) as nat) == 256 * p256((8 - k - 1) as nat);
        }
        acc = s[i + k] as u64 + 256 * acc;
    }
    acc
}

} // verus!
