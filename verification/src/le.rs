//! Little-endian numbers in sequences of bytes.

use vstd::prelude::*;

verus! {

/// The number that bytes write, the lowest one first.
pub open spec fn value(s: Seq<u8>) -> nat
    decreases s.len(),
{
    if s.len() == 0 {
        0
    } else {
        s[0] as nat + 256 * value(s.drop_first())
    }
}

/// The `k` lowest bytes of a number, the lowest one first.
pub open spec fn bytes(v: nat, k: nat) -> Seq<u8>
    decreases k,
{
    if k == 0 {
        Seq::empty()
    } else {
        seq![(v % 256) as u8] + bytes(v / 256, (k - 1) as nat)
    }
}

/// 256 to the power `k`.
pub open spec fn power(k: nat) -> nat
    decreases k,
{
    if k == 0 {
        1
    } else {
        256 * power((k - 1) as nat)
    }
}

/// The number of four bytes.
pub open spec fn u32_of(s: Seq<u8>) -> u32 {
    value(s) as u32
}

/// The number of eight bytes.
pub open spec fn u64_of(s: Seq<u8>) -> u64 {
    value(s) as u64
}

/// The signed number of eight bytes, in two's complement.
pub open spec fn i64_of(s: Seq<u8>) -> i64 {
    signed(value(s))
}

pub open spec fn signed(v: nat) -> i64 {
    if v < 0x8000_0000_0000_0000 {
        v as i64
    } else {
        (v - 0x1_0000_0000_0000_0000) as i64
    }
}

/// The bits of a signed number, in two's complement.
pub open spec fn unsigned(v: i64) -> nat {
    if v >= 0 {
        v as nat
    } else {
        (v + 0x1_0000_0000_0000_0000) as nat
    }
}

pub proof fn lemma_powers()
    ensures
        power(2) == 0x1_0000,
        power(4) == 0x1_0000_0000,
        power(8) == 0x1_0000_0000_0000_0000,
{
    reveal_with_fuel(power, 9);
}

pub proof fn lemma_bytes_len(v: nat, k: nat)
    ensures
        bytes(v, k).len() == k,
    decreases k,
{
    if k > 0 {
        lemma_bytes_len(v / 256, (k - 1) as nat);
    }
}

/// What is written is what is read.
pub proof fn lemma_value_bytes(v: nat, k: nat)
    requires
        v < power(k),
    ensures
        value(bytes(v, k)) == v,
    decreases k,
{
    if k > 0 {
        lemma_value_bytes(v / 256, (k - 1) as nat);
        assert(bytes(v, k).drop_first() =~= bytes(v / 256, (k - 1) as nat));
    }
}

pub proof fn lemma_value_bound(s: Seq<u8>)
    ensures
        value(s) < power(s.len()),
    decreases s.len(),
{
    if s.len() > 0 {
        lemma_value_bound(s.drop_first());
    }
}

/// Appends the `k` lowest bytes of a number.
pub fn put(buf: &mut Vec<u8>, v: u64, k: usize)
    ensures
        final(buf)@ == old(buf)@ + bytes(v as nat, k as nat),
{
    let ghost before = buf@;
    let mut rest: u64 = v;
    let mut i: usize = 0;
    while i < k
        invariant
            i <= k,
            before + bytes(v as nat, k as nat) == buf@ + bytes(rest as nat, (k - i) as nat),
        decreases k - i,
    {
        let ghost b0 = buf@;
        let ghost r0 = rest;
        buf.push((rest % 256) as u8);
        rest = rest / 256;
        i = i + 1;
        assert(buf@ + bytes(rest as nat, (k - i) as nat) =~= b0 + bytes(
            r0 as nat,
            (k - i + 1) as nat,
        ));
    }
    assert(buf@ =~= before + bytes(v as nat, k as nat));
}

/// The number that a few bytes write.
pub fn get(s: &[u8]) -> (r: u64)
    requires
        s@.len() <= 8,
    ensures
        r == value(s@),
{
    let mut acc: u64 = 0;
    let mut i: usize = s.len();
    proof {
        lemma_value_bound(s@.skip(i as int));
    }
    while i > 0
        invariant
            i <= s@.len() <= 8,
            acc == value(s@.skip(i as int)),
        decreases i,
    {
        i = i - 1;
        proof {
            let t = s@.skip(i as int);
            assert(t.drop_first() =~= s@.skip(i + 1));
            lemma_value_bound(t);
            lemma_powers();
            lemma_power_grows(t.len(), 8);
        }
        acc = s[i] as u64 + 256 * acc;
    }
    assert(s@.skip(0) =~= s@);
    acc
}

pub proof fn lemma_power_grows(j: nat, k: nat)
    requires
        j <= k,
    ensures
        power(j) <= power(k),
    decreases k - j,
{
    if j < k {
        lemma_power_grows((j + 1) as nat, k);
    }
}

/// Reads bits as a signed number.
pub fn to_signed(v: u64) -> (r: i64)
    ensures
        r == signed(v as nat),
{
    if v < 0x8000_0000_0000_0000 {
        v as i64
    } else {
        (v as i128 - 0x1_0000_0000_0000_0000) as i64
    }
}

/// The bits of a signed number.
pub fn to_unsigned(v: i64) -> (r: u64)
    ensures
        r == unsigned(v),
{
    if v >= 0 {
        v as u64
    } else {
        (v as i128 + 0x1_0000_0000_0000_0000) as u64
    }
}

} // verus!
