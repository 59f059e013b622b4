//! Integers and audio samples as bytes.

use vstd::prelude::*;

verus! {

/// 256 to the power `k`.
pub open spec fn pow256(k: nat) -> nat
    decreases k,
{
    if k == 0 {
        1
    } else {
        256 * pow256((k - 1) as nat)
    }
}

/// The lowest `k` bytes of `n`, highest byte first.
pub open spec fn be_bytes(n: nat, k: nat) -> Seq<u8>
    decreases k,
{
    if k == 0 {
        Seq::empty()
    } else {
        be_bytes(n / 256, (k - 1) as nat).push((n % 256) as u8)
    }
}

/// The number whose bytes are `s`, highest byte first.
pub open spec fn be_value(s: Seq<u8>) -> nat
    decreases s.len(),
{
    if s.len() == 0 {
        0
    } else {
        256 * be_value(s.drop_last()) + s.last() as nat
    }
}

/// The lowest `k` bytes of `n`, lowest byte first.
pub open spec fn le_bytes(n: nat, k: nat) -> Seq<u8>
    decreases k,
{
    if k == 0 {
        Seq::empty()
    } else {
        seq![(n % 256) as u8] + le_bytes(n / 256, (k - 1) as nat)
    }
}

/// The number whose bytes are `s`, lowest byte first.
pub open spec fn le_value(s: Seq<u8>) -> nat
    decreases s.len(),
{
    if s.len() == 0 {
        0
    } else {
        s[0] as nat + 256 * le_value(s.skip(1))
    }
}

/// The 32-bit two's complement of `v`.
pub open spec fn twos_complement(v: i32) -> nat {
    if v < 0 {
        (v + 0x1_0000_0000) as nat
    } else {
        v as nat
    }
}

/// The number whose 32-bit two's complement is `n`.
pub open spec fn from_twos_complement(n: nat) -> int {
    if n >= 0x8000_0000 {
        n - 0x1_0000_0000
    } else {
        n as int
    }
}

/// A sample as it stands in a packet: four bytes, lowest first.
pub open spec fn sample_bytes(v: i32) -> Seq<u8> {
    le_bytes(twos_complement(v), 4)
}

/// The samples one behind the other.
pub open spec fn payload_bytes(samples: Seq<i32>) -> Seq<u8>
    decreases samples.len(),
{
    if samples.len() == 0 {
        Seq::empty()
    } else {
        payload_bytes(samples.drop_last()) + sample_bytes(samples.last())
    }
}

pub proof fn lemma_be_len(n: nat, k: nat)
    ensures
        be_bytes(n, k).len() == k,
    decreases k,
{
    if k > 0 {
        lemma_be_len(n / 256, (k - 1) as nat);
    }
}

pub proof fn lemma_le_len(n: nat, k: nat)
    ensures
        le_bytes(n, k).len() == k,
    decreases k,
{
    if k > 0 {
        lemma_le_len(n / 256, (k - 1) as nat);
    }
}

/// A number that fits in `k` bytes is read back from its `k` bytes, highest first.
pub proof fn law_be_reads_back(n: nat, k: nat)
    requires
        n < pow256(k),
    ensures
        be_value(be_bytes(n, k)) == n,
    decreases k,
{
    if k > 0 {
        law_be_reads_back(n / 256, (k - 1) as nat);
        assert(be_bytes(n, k).drop_last() == be_bytes(n / 256, (k - 1) as nat));
    }
}

/// A number that fits in `k` bytes is read back from its `k` bytes, lowest first.
pub proof fn law_le_reads_back(n: nat, k: nat)
    requires
        n < pow256(k),
    ensures
        le_value(le_bytes(n, k)) == n,
    decreases k,
{
    if k > 0 {
        law_le_reads_back(n / 256, (k - 1) as nat);
        assert(le_bytes(n, k).skip(1) == le_bytes(n / 256, (k - 1) as nat));
    }
}

proof fn lemma_be_value_bound(s: Seq<u8>)
    ensures
        be_value(s) < pow256(s.len()),
    decreases s.len(),
{
    if s.len() > 0 {
        lemma_be_value_bound(s.drop_last());
    }
}

proof fn lemma_pow256_monotone(a: nat, b: nat)
    requires
        a <= b,
    ensures
        1 <= pow256(a) <= pow256(b),
    decreases b,
{
    if b > 0 {
        if a == b {
            lemma_pow256_monotone((a - 1) as nat, (b - 1) as nat);
        } else {
            lemma_pow256_monotone(a, (b - 1) as nat);
        }
    }
}

/// 256 to the powers that occur as widths of integers.
pub proof fn lemma_pow256_values()
    ensures
        pow256(1) == 0x100,
        pow256(2) == 0x1_0000,
        pow256(4) == 0x1_0000_0000,
        pow256(8) == 0x1_0000_0000_0000_0000,
{
    reveal_with_fuel(pow256, 9);
}

/// A sample is read back from its four bytes.
pub proof fn law_sample_reads_back(v: i32)
    ensures
        sample_bytes(v).len() == 4,
        from_twos_complement(le_value(sample_bytes(v))) == v,
{
    lemma_pow256_values();
    lemma_le_len(twos_complement(v), 4);
    law_le_reads_back(twos_complement(v), 4);
}

/// Samples stand in a payload in their order, four bytes each.
pub proof fn law_payload_layout(samples: Seq<i32>)
    ensures
        payload_bytes(samples).len() == 4 * samples.len(),
        forall|i: int|
            0 <= i < samples.len() ==> #[trigger] payload_bytes(samples).subrange(
                4 * i,
                4 * i + 4,
            ) == sample_bytes(samples[i]),
    decreases samples.len(),
{
    if samples.len() > 0 {
        let init = samples.drop_last();
        law_payload_layout(init);
        law_sample_reads_back(samples.last());
        let whole = payload_bytes(samples);
        assert forall|i: int| 0 <= i < samples.len() implies #[trigger] whole.subrange(
            4 * i,
            4 * i + 4,
        ) == sample_bytes(samples[i]) by {
            if i < init.len() {
                assert(whole.subrange(4 * i, 4 * i + 4) == payload_bytes(init).subrange(
                    4 * i,
                    4 * i + 4,
                ));
                assert(init[i] == samples[i]);
            } else {
                assert(whole.subrange(4 * i, 4 * i + 4) == sample_bytes(samples.last()));
            }
        }
    }
}

/// Appends the lowest `width` bytes of `n`, highest first.
pub fn push_be(out: &mut Vec<u8>, n: u64, width: usize)
    ensures
        final(out)@ == old(out)@ + be_bytes(n as nat, width as nat),
    decreases width,
{
    if width > 0 {
        push_be(out, n / 256, width - 1);
        out.push((n % 256) as u8);
        assert(out@ == old(out)@ + be_bytes(n as nat, width as nat));
    } else {
        assert(out@ == old(out)@ + be_bytes(n as nat, width as nat));
    }
}

/// The number in the `width` bytes of `buf` from `at` on, highest first.
pub fn read_be(buf: &Vec<u8>, at: usize, width: usize) -> (r: u64)
    requires
        width <= 8,
        at + width <= buf@.len(),
    ensures
        r == be_value(buf@.subrange(at as int, at + width)),
    decreases width,
{
    if width == 0 {
        0
    } else {
        let high: u64 = read_be(buf, at, width - 1);
        let end: usize = buf.len();
        assert(at + width <= end);
        let low: u8 = buf[at + (width - 1)];
        proof {
            let s = buf@.subrange(at as int, at + width);
            assert(s.drop_last() == buf@.subrange(at as int, at + width - 1));
            lemma_be_value_bound(s);
            lemma_pow256_monotone(width as nat, 8);
            lemma_pow256_values();
        }
        high * 256 + low as u64
    }
}

/// Appends a sample, lowest byte first.
fn push_sample(out: &mut Vec<u8>, v: i32)
    ensures
        final(out)@ == old(out)@ + sample_bytes(v),
{
    let n: u32 = v as u32;
    proof {
        assert(v < 0 ==> v as u32 == v + 0x1_0000_0000) by (bit_vector);
        assert(v >= 0 ==> v as u32 == v) by (bit_vector);
        reveal_with_fuel(le_bytes, 5);
    }
    out.push((n % 256) as u8);
    out.push((n / 256 % 256) as u8);
    out.push((n / 256 / 256 % 256) as u8);
    out.push((n / 256 / 256 / 256 % 256) as u8);
    assert(out@ == old(out)@ + sample_bytes(v));
}

/// The samples as bytes, one behind the other.
pub fn encode_samples(samples: &Vec<i32>) -> (r: Vec<u8>)
    ensures
        r@ == payload_bytes(samples@),
{
    let mut out: Vec<u8> = Vec::new();
    let mut i: usize = 0;
    while i < samples.len()
        invariant
            i <= samples.len(),
            out@ == payload_bytes(samples@.take(i as int)),
        decreases samples.len() - i,
    {
        push_sample(&mut out, samples[i]);
        assert(samples@.take(i + 1).drop_last() == samples@.take(i as int));
        i += 1;
    }
    assert(samples@.take(i as int) == samples@);
    out
}

/// A number is written with its last byte behind the bytes of what stands before it.
pub proof fn law_bytes_are_written_out(
    out: &mut Vec<u8>,
    high: &mut Vec<u8>,
    n: u64,
    width: usize,
)
    requires
        width > 0,
        *old(out) == *old(high),
        call_ensures(push_be, (out, n, width), ()),
        call_ensures(push_be, (high, n / 256, (width - 1) as usize), ()),
    ensures
        final(out)@.len() == old(out)@.len() + width,
        final(out)@.take(old(out)@.len() as int) == old(out)@,
        final(out)@ == final(high)@.push((n % 256) as u8),
{
    lemma_be_len(n as nat, width as nat);
    lemma_be_len((n / 256) as nat, (width - 1) as nat);
    assert(final(out)@.take(old(out)@.len() as int) =~= old(out)@);
    assert(final(out)@ =~= final(high)@.push((n % 256) as u8));
}

/// A number is read with its last byte as what is below 256, behind what stands before it.
pub proof fn law_bytes_are_read(buf: &Vec<u8>, at: usize, width: usize, high: u64, r: u64)
    requires
        0 < width <= 8,
        at + width <= buf@.len(),
        call_ensures(read_be, (buf, at, (width - 1) as usize), high),
        call_ensures(read_be, (buf, at, width), r),
    ensures
        r == 256 * high + buf@[at + width - 1],
        width == 1 ==> high == 0,
{
    let s = buf@.subrange(at as int, at + width);
    assert(s.drop_last() =~= buf@.subrange(at as int, at + width - 1));
    assert(s.last() == buf@[at + width - 1]);
}

} // verus!
