//! Little-endian integers and byte-sequence helpers shared by the serializer
//! and the parser.
use vstd::prelude::*;

verus! {

/// `256^n`.
pub open spec fn pow256(n: nat) -> nat
    decreases n,
{
    if n == 0 {
        1
    } else {
        256 * pow256((n - 1) as nat)
    }
}

/// `2^n`.
pub open spec fn pow2(n: nat) -> nat
    decreases n,
{
    if n == 0 {
        1
    } else {
        2 * pow2((n - 1) as nat)
    }
}

pub proof fn lemma_pow2_mono(i: nat, j: nat)
    requires
        i <= j,
    ensures
        pow2(i) <= pow2(j),
    decreases j - i,
{
    if i < j {
        lemma_pow2_mono(i, (j - 1) as nat);
    }
}

/// The `n` low bytes of `x`, least significant first.
pub open spec fn le_bytes(x: nat, n: nat) -> Seq<u8>
    decreases n,
{
    if n == 0 {
        Seq::empty()
    } else {
        seq![(x % 256) as u8] + le_bytes(x / 256, (n - 1) as nat)
    }
}

/// The unsigned integer whose little-endian bytes are `s`.
pub open spec fn le_value(s: Seq<u8>) -> nat
    decreases s.len(),
{
    if s.len() == 0 {
        0
    } else {
        s[0] as nat + 256 * le_value(s.drop_first())
    }
}

/// `n` zero bytes.
pub open spec fn zeros(n: int) -> Seq<u8> {
    Seq::new(n as nat, |i: int| 0u8)
}

/// `s` with the bytes from `at` on replaced by `w`.
pub open spec fn overwrite(s: Seq<u8>, at: int, w: Seq<u8>) -> Seq<u8> {
    s.subrange(0, at) + w + s.subrange(at + w.len(), s.len() as int)
}

pub proof fn lemma_le_bytes_len(x: nat, n: nat)
    ensures
        le_bytes(x, n).len() == n,
    decreases n,
{
    if n > 0 {
        lemma_le_bytes_len(x / 256, (n - 1) as nat);
    }
}

pub proof fn lemma_le_bytes_zero(n: nat)
    ensures
        le_bytes(0, n) == zeros(n as int),
    decreases n,
{
    if n > 0 {
        lemma_le_bytes_zero((n - 1) as nat);
        assert(le_bytes(0, n) =~= zeros(n as int));
    } else {
        assert(le_bytes(0, n) =~= zeros(n as int));
    }
}

/// Reading back the bytes of a value that fits gives the value.
pub proof fn lemma_le_round_trip(x: nat, n: nat)
    requires
        x < pow256(n),
    ensures
        le_value(le_bytes(x, n)) == x,
        le_bytes(x, n).len() == n,
    decreases n,
{
    lemma_le_bytes_len(x, n);
    if n > 0 {
        let m = (n - 1) as nat;
        assert(x / 256 < pow256(m));
        lemma_le_round_trip(x / 256, m);
        assert(le_bytes(x, n).drop_first() =~= le_bytes(x / 256, m));
    }
}

/// A value read from `n` bytes is below `256^n`.
pub proof fn lemma_le_value_bound(s: Seq<u8>)
    ensures
        le_value(s) < pow256(s.len()),
    decreases s.len(),
{
    if s.len() > 0 {
        lemma_le_value_bound(s.drop_first());
        assert(pow256(s.len()) == 256 * pow256(s.drop_first().len()));
    }
}

pub proof fn lemma_overwrite_len(s: Seq<u8>, at: int, w: Seq<u8>)
    requires
        0 <= at,
        at + w.len() <= s.len(),
    ensures
        overwrite(s, at, w).len() == s.len(),
        overwrite(s, at, w).subrange(at, at + w.len()) =~= w,
{
}

/// Appends the `n` low bytes of `x`, least significant first.
pub fn push_le(data: &mut Vec<u8>, x: u64, n: usize)
    requires
        n <= 8,
    ensures
        final(data)@ == old(data)@ + le_bytes(x as nat, n as nat),
{
    let mut rest: u64 = x;
    let mut i: usize = 0;
    while i < n
        invariant
            0 <= i <= n,
            data@ + le_bytes(rest as nat, (n - i) as nat) == old(data)@ + le_bytes(x as nat, n as nat),
        decreases n - i,
    {
        let ghost before = data@;
        data.push((rest % 256) as u8);
        proof {
            assert(le_bytes(rest as nat, (n - i) as nat) == seq![(rest % 256) as u8] + le_bytes(
                (rest / 256) as nat,
                (n - i - 1) as nat,
            ));
            assert(data@ + le_bytes((rest / 256) as nat, (n - i - 1) as nat) =~= before + le_bytes(
                rest as nat,
                (n - i) as nat,
            ));
        }
        rest = rest / 256;
        i = i + 1;
    }
    assert(data@ =~= data@ + le_bytes(rest as nat, 0));
}

/// Overwrites `data[start..start + len]` with the `len` low bytes of `value`.
pub fn write_to_slice(data: &mut Vec<u8>, start: usize, len: usize, value: u64)
    requires
        len <= 8,
        start + len <= old(data)@.len(),
    ensures
        final(data)@ == overwrite(old(data)@, start as int, le_bytes(value as nat, len as nat)),
{
    let ghost w = le_bytes(value as nat, len as nat);
    proof {
        lemma_le_bytes_len(value as nat, len as nat);
    }
    let total = data.len();
    let mut rest: u64 = value;
    let mut i: usize = 0;
    while i < len
        invariant
            0 <= i <= len,
            data@.len() == total,
            start + len <= data@.len(),
            data@.len() == old(data)@.len(),
            w.len() == len,
            w == le_bytes(value as nat, len as nat),
            le_bytes(rest as nat, (len - i) as nat) == w.subrange(i as int, len as int),
            forall|j: int| 0 <= j < data@.len() && !(start <= j < start + i) ==> data@[j] == old(data)@[j],
            forall|j: int| start <= j < start + i ==> data@[j] == w[j - start],
        decreases len - i,
    {
        proof {
            assert(le_bytes(rest as nat, (len - i) as nat)[0] == (rest % 256) as u8);
        }
        data[start + i] = (rest % 256) as u8;
        proof {
            assert(le_bytes((rest / 256) as nat, (len - i - 1) as nat) =~= le_bytes(
                rest as nat,
                (len - i) as nat,
            ).drop_first());
        }
        rest = rest / 256;
        i = i + 1;
    }
    assert(data@ =~= overwrite(old(data)@, start as int, w));
}

} // verus!
