//! The frame checksum: ten little-endian words folded into 15 bits.
use vstd::prelude::*;

verus! {

/// Number of bytes the checksum covers.
pub const CHECKSUM_SPAN: usize = 20;

/// The little-endian 16-bit word at word position `i` of `s`.
pub open spec fn word_at(s: Seq<u8>, i: int) -> int {
    s[2 * i] as int + 256 * (s[2 * i + 1] as int)
}

/// The accumulator after the first `n` words: each step doubles it and adds
/// the next word.
pub open spec fn checksum_acc(s: Seq<u8>, n: nat) -> int
    decreases n,
{
    if n == 0 {
        0
    } else {
        2 * checksum_acc(s, (n - 1) as nat) + word_at(s, n - 1)
    }
}

/// The 15-bit checksum of the first 20 bytes of `s`: the accumulator's low 15
/// bits plus its high bits, truncated to 15 bits again.
pub open spec fn checksum_of(s: Seq<u8>) -> int {
    let a = checksum_acc(s, 10);
    (a % 32768 + a / 32768) % 32768
}

/// The largest value the accumulator can reach after `n` words.
spec fn acc_cap(n: nat) -> int
    decreases n,
{
    if n == 0 {
        0
    } else {
        2 * acc_cap((n - 1) as nat) + 65535
    }
}

proof fn lemma_acc_bounded(s: Seq<u8>, n: nat)
    requires
        2 * n <= s.len(),
    ensures
        0 <= checksum_acc(s, n) <= acc_cap(n),
    decreases n,
{
    if n > 0 {
        lemma_acc_bounded(s, (n - 1) as nat);
    }
}

proof fn lemma_acc_cap_small(n: nat)
    requires
        n <= 10,
    ensures
        acc_cap(n) <= 67042305,
{
    reveal_with_fuel(acc_cap, 11);
}

/// Joining two bytes by shift and or is the same as by arithmetic.
pub proof fn lemma_le_word(lsb: u32, msb: u32)
    requires
        lsb < 256,
        msb < 256,
    ensures
        (msb << 8) | lsb == msb * 256 + lsb,
{
    assert((msb << 8) | lsb == msb * 256 + lsb) by (bit_vector)
        requires
            lsb < 256,
            msb < 256,
    ;
}

/// Computes the checksum of the first 20 bytes of `data`, the span a frame's
/// checksum covers.
pub fn calc_checksum(data: &[u8]) -> (r: u32)
    requires
        data@.len() >= CHECKSUM_SPAN,
    ensures
        r as int == checksum_of(data@),
        r < 32768,
{
    let mut chk32: u32 = 0;
    let mut i: usize = 0;
    while i < 10
        invariant
            i <= 10,
            data@.len() >= 20,
            chk32 as int == checksum_acc(data@, i as nat),
        decreases 10 - i,
    {
        let lsb = data[2 * i] as u32;
        let msb = data[2 * i + 1] as u32;
        let val = (msb << 8) | lsb;
        proof {
            lemma_le_word(lsb, msb);
        }
        proof {
            lemma_acc_bounded(data@, i as nat);
            lemma_acc_cap_small(i as nat);
        }
        assert(chk32 << 1 == chk32 * 2) by (bit_vector)
            requires
                chk32 <= 67042305,
        ;
        chk32 = (chk32 << 1) + val;
        i = i + 1;
    }
    let low = chk32 & 0x7FFF;
    let high = chk32 >> 15;
    assert(low == chk32 % 32768 && high == chk32 / 32768) by (bit_vector)
        requires
            low == chk32 & 0x7FFF,
            high == chk32 >> 15,
    ;
    let mut check_sum = low + high;
    let folded = check_sum;
    check_sum &= 0x7FFF;
    assert(check_sum == folded % 32768) by (bit_vector)
        requires
            check_sum == folded & 0x7FFF,
    ;
    check_sum
}

} // verus!
