//! Byte-level building blocks shared by the canonical encoding, the
//! proposer seed and the virtual machine's operands.
use vstd::prelude::*;

verus! {

/// `256^k`.
pub open spec fn pow256(k: nat) -> nat
    decreases k,
{
    if k == 0 {
        1
    } else {
        256 * pow256((k - 1) as nat)
    }
}

/// The unsigned integer whose little-endian bytes are `s`.
pub open spec fn le_value(s: Seq<u8>) -> nat
    decreases s.len(),
{
    if s.len() == 0 {
        0
    } else {
        s[0] as nat + 256 * le_value(s.drop_first())
    }
}

/// The `k` low bytes of `n`, least significant first.
pub open spec fn le_bytes(n: nat, k: nat) -> Seq<u8>
    decreases k,
{
    if k == 0 {
        Seq::empty()
    } else {
        seq![(n % 256) as u8] + le_bytes(n / 256, (k - 1) as nat)
    }
}

/// The fixed-width (8 byte, little-endian) encoding of a length or count.
pub open spec fn u64_le(n: nat) -> Seq<u8> {
    le_bytes(n, 8)
}

pub proof fn lemma_pow256_positive(k: nat)
    ensures
        pow256(k) >= 1,
    decreases k,
{
    if k > 0 {
        lemma_pow256_positive((k - 1) as nat);
    }
}

pub proof fn lemma_le_bytes_len(n: nat, k: nat)
    ensures
        le_bytes(n, k).len() == k,
    decreases k,
{
    if k > 0 {
        lemma_le_bytes_len(n / 256, (k - 1) as nat);
    }
}

pub proof fn lemma_le_value_bound(s: Seq<u8>)
    ensures
        le_value(s) < pow256(s.len()),
    decreases s.len(),
{
    if s.len() > 0 {
        let rest = s.drop_first();
        lemma_le_value_bound(rest);
        let x = le_value(rest);
        let p = pow256(rest.len());
        let b = s[0] as nat;
        assert(b + 256 * x < 256 * p) by (nonlinear_arith)
            requires
                x < p,
                b < 256,
        ;
    }
}

pub proof fn lemma_le_round_trip(n: nat, k: nat)
    ensures
        le_value(le_bytes(n, k)) == n % pow256(k),
    decreases k,
{
    if k == 0 {
        assert(n % 1 == 0);
    } else {
        lemma_le_round_trip(n / 256, (k - 1) as nat);
        lemma_pow256_positive((k - 1) as nat);
        vstd::arithmetic::div_mod::lemma_mod_breakdown(n as int, 256, pow256((k - 1) as nat) as int);
        assert(le_bytes(n, k).drop_first() =~= le_bytes(n / 256, (k - 1) as nat));
    }
}

/// Appends the 8-byte little-endian encoding of `n`.
pub fn push_u64_le(out: &mut Vec<u8>, n: u64)
    ensures
        final(out)@ == old(out)@ + u64_le(n as nat),
{
    let ghost start = out@;
    let mut m: u64 = n;
    let mut i: usize = 0;
    while i < 8
        invariant
            i <= 8,
            out@ + le_bytes(m as nat, (8 - i) as nat) == start + le_bytes(n as nat, 8),
        decreases 8 - i,
    {
        let ghost before = out@;
        assert(le_bytes(m as nat, (8 - i) as nat) == seq![(m as nat % 256) as u8] + le_bytes(
            (m / 256) as nat,
            (8 - i - 1) as nat,
        ));
        out.push((m % 256) as u8);
        assert(out@ + le_bytes((m / 256) as nat, (8 - i - 1) as nat) =~= before + (seq![(m as nat
            % 256) as u8] + le_bytes((m / 256) as nat, (8 - i - 1) as nat)));
        m = m / 256;
        i = i + 1;
    }
    assert(le_bytes(m as nat, 0) =~= Seq::<u8>::empty());
    assert(out@ =~= out@ + le_bytes(m as nat, 0));
}

/// Reads the unsigned little-endian integer held in `s[start..start + 8]`.
pub fn read_u64_le(s: &[u8], start: usize) -> (r: u64)
    requires
        start + 8 <= s@.len(),
    ensures
        r as nat == le_value(s@.subrange(start as int, start + 8)),
{
    let ghost w = s@.subrange(start as int, start + 8);
    let len = s.len();
    let mut v: u64 = 0;
    let mut i: usize = 8;
    proof {
        assert(w.subrange(8, 8) =~= Seq::<u8>::empty());
    }
    while i > 0
        invariant
            i <= 8,
            start + 8 <= s@.len(),
            len == s@.len(),
            w == s@.subrange(start as int, start + 8),
            v as nat == le_value(w.subrange(i as int, 8)),
        decreases i,
    {
        let ghost tail = w.subrange(i as int, 8);
        i = i - 1;
        let b = s[start + i];
        proof {
            let cur = w.subrange(i as int, 8);
            assert(cur.drop_first() =~= tail);
            assert(cur[0] == b);
            lemma_le_value_bound(tail);
            assert(pow256(tail.len()) <= pow256(7)) by {
                lemma_pow256_mono(tail.len(), 7);
            }
            assert(pow256(7) == 0x100_0000_0000_0000) by {
                reveal_with_fuel(pow256, 8);
            }
        }
        v = v * 256 + b as u64;
    }
    assert(w.subrange(0, 8) =~= w);
    v
}

pub proof fn lemma_pow256_mono(a: nat, b: nat)
    requires
        a <= b,
    ensures
        pow256(a) <= pow256(b),
    decreases b,
{
    if a < b {
        lemma_pow256_mono(a, (b - 1) as nat);
        lemma_pow256_positive((b - 1) as nat);
    }
}

/// Byte-wise equality of two 32-byte values.
pub fn eq32(a: &[u8; 32], b: &[u8; 32]) -> (r: bool)
    ensures
        r == (a@ == b@),
{
    let mut i: usize = 0;
    while i < 32
        invariant
            i <= 32,
            forall|j: int| 0 <= j < i ==> a@[j] == b@[j],
        decreases 32 - i,
    {
        if a[i] != b[i] {
            return false;
        }
        i = i + 1;
    }
    assert(a@ =~= b@);
    true
}

/// Appends every byte of `src`.
pub fn push_all(out: &mut Vec<u8>, src: &[u8])
    ensures
        final(out)@ == old(out)@ + src@,
{
    let ghost start = out@;
    let mut i: usize = 0;
    while i < src.len()
        invariant
            i <= src@.len(),
            out@ == start + src@.subrange(0, i as int),
        decreases src@.len() - i,
    {
        out.push(src[i]);
        assert(src@.subrange(0, i + 1) =~= src@.subrange(0, i as int).push(src@[i as int]));
        assert(out@ =~= start + src@.subrange(0, i + 1));
        i = i + 1;
    }
    assert(src@.subrange(0, i as int) =~= src@);
}

} // verus!
