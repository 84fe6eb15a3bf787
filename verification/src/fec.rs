//! Forward-error-correction codes: bit parity and the generalized
//! extended-Hamming codeword construction.

use vstd::prelude::*;

verus! {

use vstd::arithmetic::power2::{pow2, lemma2_to64, lemma_pow2_pos, lemma_pow2_adds,
    lemma_pow2_strictly_increases};
use vstd::arithmetic::div_mod::{lemma_fundamental_div_mod,
    lemma_fundamental_div_mod_converse_div, lemma_fundamental_div_mod_converse_mod,
    lemma_add_mod_noop, lemma_breakdown, lemma_div_denominator};
use vstd::bits::{lemma_u64_shr_is_div, lemma_u64_shl_is_mul, lemma_u64_pow2_no_overflow,
    lemma_u64_low_bits_mask_is_mod};
use vstd::bits::low_bits_mask;

/// Which block code a page uses: the fixed 24/12 Golay code (declared but
/// not implemented) or an extended Hamming code of a given order.
#[derive(Copy, Clone, Debug)]
pub enum FecOrder {
    Golay,
    Hamming(u8),
}

impl FecOrder {
    /// Encoded (channel) width of one code symbol, in bits.
    pub open spec fn spec_large_bits(self) -> int {
        match self {
            FecOrder::Golay => 24,
            FecOrder::Hamming(x) => pow2(x as nat) as int,
        }
    }

    /// Raw (payload) width of one code symbol, in bits.
    pub open spec fn spec_small_bits(self) -> int {
        match self {
            FecOrder::Golay => 12,
            FecOrder::Hamming(x) => self.spec_large_bits() - 1 - x,
        }
    }

    /// The orders the codec supports: Golay is declared (and rejected at
    /// encoding time), and Hamming orders 2 through 6 keep every shift of
    /// the 64-bit code register in range.
    pub open spec fn wf(self) -> bool {
        match self {
            FecOrder::Golay => true,
            FecOrder::Hamming(x) => 2 <= x <= 6,
        }
    }

    pub fn large_bits(&self) -> (r: u64)
        requires
            self matches FecOrder::Hamming(x) ==> x < 64,
        ensures
            r == self.spec_large_bits(),
    {
        match *self {
            FecOrder::Golay => 24,
            FecOrder::Hamming(x) => {
                proof {
                    lemma_u64_pow2_no_overflow(x as nat);
                    lemma_u64_shl_is_mul(1u64, x as u64);
                }
                1u64 << (x as u64)
            },
        }
    }

    pub fn small_bits(&self) -> (r: u64)
        requires
            self matches FecOrder::Hamming(x) ==> x < 64,
        ensures
            r == self.spec_small_bits(),
    {
        match *self {
            FecOrder::Golay => 12,
            FecOrder::Hamming(x) => {
                let lb = self.large_bits();
                proof {
                    let b = x as u64;
                    assert(1u64 << b >= b + 1) by (bit_vector)
                        requires b < 64u64;
                    lemma_u64_pow2_no_overflow(x as nat);
                    lemma_u64_shl_is_mul(1u64, x as u64);
                }
                lb - 1 - (x as u64)
            },
        }
    }
}

impl Default for FecOrder {
    fn default() -> (r: Self)
        ensures
            r == FecOrder::Golay,
    {
        FecOrder::Golay
    }
}

/// Number of set bits in the binary representation of a non-negative integer.
pub open spec fn popcount(x: int) -> int
    decreases x,
{
    if x <= 0 {
        0
    } else {
        x % 2 + popcount(x / 2)
    }
}

/// Parity of the set-bit count, the value the XOR fold concentrates in bit 0.
pub open spec fn spec_parity(x: u64) -> u64 {
    (popcount(x as int) % 2) as u64
}

/// The fold-and-shift cascade that `parity` runs, from a given fold width down.
pub open spec fn fold_from(x: u64, bit: u64) -> u64
    decreases bit,
{
    if bit == 0 {
        x & 1
    } else {
        fold_from(x ^ (x >> bit), bit / 2)
    }
}

/// Popcount parity distributes over XOR: bits cancel in pairs.
proof fn lemma_popcount_xor(a: u64, b: u64)
    ensures
        popcount((a ^ b) as int) % 2 == (popcount(a as int) + popcount(b as int)) % 2,
    decreases a + b,
{
    if a == 0 && b == 0 {
        assert(a ^ b == 0) by (bit_vector)
            requires a == 0u64 && b == 0u64;
    } else {
        let a2 = a >> 1u64;
        let b2 = b >> 1u64;
        assert((a ^ b) % 2 == (a % 2 + b % 2) % 2
            && ((a ^ b) >> 1u64) == (a >> 1u64) ^ (b >> 1u64)
            && (a >> 1u64) == a / 2 && (b >> 1u64) == b / 2
            && ((a ^ b) >> 1u64) == (a ^ b) / 2
            && a / 2 + b / 2 < a + b) by (bit_vector)
            requires a != 0u64 || b != 0u64;
        lemma_popcount_xor(a2, b2);
        let e = (a ^ b) as int % 2;
        let pa = popcount(a2 as int);
        let pb = popcount(b2 as int);
        assert(popcount((a ^ b) as int) == e + popcount((a2 ^ b2) as int));
        lemma_add_mod_noop(e, popcount((a2 ^ b2) as int), 2);
        lemma_add_mod_noop(e, pa + pb, 2);
        assert(popcount(a as int) == a as int % 2 + pa);
        assert(popcount(b as int) == b as int % 2 + pb);
        lemma_add_mod_noop(a as int % 2 + b as int % 2, pa + pb, 2);
        assert((a as int % 2 + b as int % 2) % 2 == e);
    }
}

/// Popcount splits at any bit position: low part plus high part.
proof fn lemma_popcount_split(x: int, k: nat)
    requires
        x >= 0,
    ensures
        popcount(x) == popcount(x % pow2(k) as int) + popcount(x / pow2(k) as int),
    decreases k,
{
    lemma_pow2_pos(k);
    if k == 0 {
        assert(pow2(0) == 1) by { lemma2_to64(); }
        assert(x % 1int == 0 && x / 1int == x) by (nonlinear_arith)
            requires x >= 0;
    } else {
        let h = pow2((k - 1) as nat) as int;
        assert(pow2(k) == 2 * pow2((k - 1) as nat)) by {
            lemma_pow2_adds(1, (k - 1) as nat);
            lemma2_to64();
        }
        let p = pow2(k) as int;
        let x2 = x / 2;
        lemma_breakdown(x, 2, h);
        assert(x % p == 2 * (x2 % h) + x % 2);
        lemma_div_denominator(x, 2, h);
        assert(x / p == x2 / h);
        lemma_popcount_split(x2, (k - 1) as nat);
        if x == 0 {
        } else {
            assert(popcount(x) == x % 2 + popcount(x2));
            let m = x % p;
            assert(m == (x2 % h) * 2 + x % 2);
            lemma_fundamental_div_mod_converse_div(m, 2, x2 % h, x % 2);
            lemma_fundamental_div_mod_converse_mod(m, 2, x2 % h, x % 2);
            if m == 0 {
                assert(x2 % h == 0 && x % 2 == 0);
                assert(popcount(m) == x % 2 + popcount(x2 % h));
            } else {
                assert(popcount(m) == m % 2 + popcount(m / 2));
            }
        }
    }
}

/// Popcount of a value is the popcount of its low `k` bits plus that of the rest.
proof fn lemma_popcount_mask_shift(x: u64, k: u64)
    requires
        k < 64,
    ensures
        popcount((x & (((1u64 << k) - 1) as u64)) as int) + popcount((x >> k) as int)
            == popcount(x as int),
{
    lemma_u64_shr_is_div(x, k);
    lemma_u64_low_bits_mask_is_mod(x, k as nat);
    lemma_u64_pow2_no_overflow(k as nat);
    lemma_u64_shl_is_mul(1u64, k);
    assert(low_bits_mask(k as nat) == (pow2(k as nat) - 1) as u64) by {
        vstd::bits::lemma_low_bits_mask_values();
        lemma_pow2_pos(k as nat);
        reveal(vstd::bits::low_bits_mask);
    }
    lemma_popcount_split(x as int, k as nat);
}

/// One fold step keeps the popcount parity of the live low window.
proof fn lemma_fold_step(x: u64, b: u64)
    requires
        1 <= b <= 16,
    ensures
        popcount(((x ^ (x >> b)) & (((1u64 << b) - 1) as u64)) as int) % 2
            == popcount((x & (((1u64 << (2 * b)) - 1) as u64)) as int) % 2,
{
    let m1 = ((1u64 << b) - 1) as u64;
    let m2 = ((1u64 << (2 * b)) - 1) as u64;
    let lo = x & m1;
    let mid = (x >> b) & m1;
    assert((x ^ (x >> b)) & m1 == lo ^ mid
        && (x & m2) & m1 == lo
        && (x & m2) >> b == mid) by (bit_vector)
        requires 1u64 <= b <= 16u64 && m1 == ((1u64 << b) - 1) as u64
            && m2 == ((1u64 << (2 * b)) - 1) as u64 && lo == x & m1 && mid == (x >> b) & m1;
    lemma_popcount_mask_shift(x & m2, b);
    lemma_popcount_xor(lo, mid);
}

/// The 32-bit fold step: the full word's popcount parity moves into the low half.
proof fn lemma_fold_step32(x: u64)
    ensures
        popcount(((x ^ (x >> 32u64)) & 0xFFFF_FFFFu64) as int) % 2
            == popcount(x as int) % 2,
{
    let lo = x & 0xFFFF_FFFFu64;
    let mid = x >> 32u64;
    assert((x ^ (x >> 32u64)) & 0xFFFF_FFFFu64 == lo ^ mid
        && mid & 0xFFFF_FFFFu64 == mid
        && ((1u64 << 32u64) - 1) as u64 == 0xFFFF_FFFFu64) by (bit_vector)
        requires lo == x & 0xFFFF_FFFFu64 && mid == x >> 32u64;
    lemma_popcount_mask_shift(x, 32);
    lemma_popcount_xor(lo, mid);
}

/// The fold cascade from width `b` computes the popcount parity of the low
/// `2 * b` bits.
proof fn lemma_fold_from(x: u64, b: u64)
    requires
        b == 1 || b == 2 || b == 4 || b == 8 || b == 16,
    ensures
        fold_from(x, b) == spec_parity(x & (((1u64 << (2 * b)) - 1) as u64)),
    decreases b,
{
    let z = x ^ (x >> b);
    if b == 1 {
        assert(fold_from(x, 1) == z & 1) by {
            reveal_with_fuel(fold_from, 3);
        }
        assert(z & 1 == 0 || z & 1 == 1) by (bit_vector);
        assert(((1u64 << 1u64) - 1) as u64 == 1u64
            && ((1u64 << 2u64) - 1) as u64 == 3u64) by (bit_vector);
        assert(popcount(1int) == 1) by {
            reveal_with_fuel(popcount, 3);
        }
        assert(popcount((z & 1) as int) % 2 == (z & 1) as int);
        lemma_fold_step(x, 1);
    } else {
        lemma_fold_from(z, b / 2);
        assert(2 * (b / 2) == b);
        lemma_fold_step(x, b);
    }
}

/// The full fold from width 32 computes the popcount parity of the whole word.
proof fn lemma_fold_from_32(x: u64)
    ensures
        fold_from(x, 32) == spec_parity(x),
{
    let z = x ^ (x >> 32u64);
    lemma_fold_from(z, 16);
    assert((1u64 << 32u64) - 1 == 0xFFFF_FFFFu64) by (bit_vector);
    lemma_fold_step32(x);
}

/// XOR-reduction of all 64 bits: the population-count parity of `input`,
/// computed by folding the word onto itself by decreasing powers of two.
pub fn parity(mut input: u64) -> (r: u64)
    ensures
        r == popcount(input as int) % 2,
{
    let ghost x0 = input;
    let mut bit: u64 = 32;
    while bit > 0
        invariant
            bit <= 32,
            fold_from(input, bit) == fold_from(x0, 32),
        decreases bit,
    {
        input = input ^ (input >> bit);
        bit = bit / 2;
    }
    proof {
        lemma_fold_from_32(x0);
    }
    input & 1
}

/// Code-order selection as the configuration string carries it: `1` selects
/// Golay, any other value a Hamming order.
impl FecOrder {
    pub fn from_code(x: u8) -> (r: FecOrder)
        ensures
            r == (if x == 1 { FecOrder::Golay } else { FecOrder::Hamming(x) }),
    {
        if x == 1 {
            FecOrder::Golay
        } else {
            FecOrder::Hamming(x)
        }
    }

    pub fn code(self) -> (r: u8)
        ensures
            r == (match self {
                FecOrder::Golay => 1u8,
                FecOrder::Hamming(x) => x,
            }),
    {
        match self {
            FecOrder::Golay => 1,
            FecOrder::Hamming(x) => x,
        }
    }
}

/// The mask that keeps a symbol's raw payload bits.
pub open spec fn spec_small_mask(order: u8) -> u64 {
    ((1u64 << (FecOrder::Hamming(order).spec_small_bits() as u64)) - 1) as u64
}

/// `split` groups the bits below `bit` and the bits at or above it, and
/// opens a zero gap between the groups by shifting the high group up.
pub open spec fn spec_split(x: u64, bit: u64) -> u64
    recommends
        bit < 64,
{
    let low = x & (((1u64 << bit) - 1) as u64);
    ((x ^ low) << 1u64) | low
}

/// Inserts a zero bit at position `bit`, shifting the bits at or above that
/// position up by one: opens the slot reserved for a parity bit.
pub fn split(input: u64, bit: u64) -> (r: u64)
    requires
        bit < 64,
    ensures
        r == spec_split(input, bit),
{
    proof {
        assert(1u64 << bit >= 1) by (bit_vector)
            requires bit < 64u64;
    }
    let mut high = input;
    let low = input & ((1u64 << bit) - 1);
    high = high ^ low;
    (high << 1) | low
}

/// The parity-check mask for parity position `xp`: ones at exactly the
/// register positions whose binary index has the bit `xp` set, a repeating
/// block of `xp` ones then `xp` zeros tiled from the top of the register.
pub open spec fn spec_tile_mask(xp: u64) -> u64 {
    if xp == 1 {
        0xAAAA_AAAA_AAAA_AAAAu64
    } else if xp == 2 {
        0xCCCC_CCCC_CCCC_CCCCu64
    } else if xp == 4 {
        0xF0F0_F0F0_F0F0_F0F0u64
    } else if xp == 8 {
        0xFF00_FF00_FF00_FF00u64
    } else if xp == 16 {
        0xFFFF_0000_FFFF_0000u64
    } else {
        0xFFFF_FFFF_0000_0000u64
    }
}

pub fn tile_mask(xp: u64) -> (r: u64)
    ensures
        r == spec_tile_mask(xp),
{
    if xp == 1 {
        0xAAAA_AAAA_AAAA_AAAAu64
    } else if xp == 2 {
        0xCCCC_CCCC_CCCC_CCCCu64
    } else if xp == 4 {
        0xF0F0_F0F0_F0F0_F0F0u64
    } else if xp == 8 {
        0xFF00_FF00_FF00_FF00u64
    } else if xp == 16 {
        0xFFFF_0000_FFFF_0000u64
    } else {
        0xFFFF_FFFF_0000_0000u64
    }
}

/// The remaining gap-opening passes of the codeword construction, for
/// parity positions `2^(bit-1)` from `bit` up to `order`.
pub open spec fn splits_from(x: u64, bit: int, order: int) -> u64
    decreases order + 1 - bit,
{
    if bit < 3 || bit > order {
        x
    } else {
        splits_from(spec_split(x, 1u64 << ((bit - 1) as u64)), bit + 1, order)
    }
}

/// The remaining parity-filling passes of the codeword construction, for
/// parity positions `2^(bit-1)` from `bit` down to 1.
pub open spec fn par_from(x: u64, bit: int) -> u64
    decreases bit,
{
    if bit <= 0 {
        x
    } else {
        let xp = 1u64 << ((bit - 1) as u64);
        par_from(x | (spec_parity(x & spec_tile_mask(xp)) << xp), bit - 1)
    }
}

/// The extended-Hamming codeword of `input`'s low `small_bits` payload
/// bits: payload shifted up past the reserved parity slots, positional
/// parities at the power-of-two positions, overall parity at position 0.
pub open spec fn spec_hamming(input: u64, order: u8) -> u64 {
    let a = (input & spec_small_mask(order)) << 3u64;
    let b = splits_from(a, 3, order as int);
    let c = par_from(b, order as int);
    c | spec_parity(c)
}

/// Builds the extended-Hamming codeword for the payload in `input`'s low
/// `small_bits(order)` bits; higher input bits are ignored.
pub fn hamming(input: u64, order: u8) -> (r: u64)
    requires
        2 <= order <= 6,
    ensures
        r == spec_hamming(input, order),
{
    let small = FecOrder::Hamming(order).small_bits();
    proof {
        lemma2_to64();
        if order < 6 {
            lemma_pow2_strictly_increases(order as nat, 6);
        }
        assert(small < 64);
        assert(1u64 << small >= 1) by (bit_vector)
            requires small < 64u64;
    }
    let mut input = input & ((1u64 << small) - 1);
    input = input << 3;
    let ghost a = input;
    if order >= 3 {
        let mut bit: u8 = 3;
        while bit <= order
            invariant
                3 <= bit <= order + 1,
                2 <= order <= 6,
                splits_from(input, bit as int, order as int)
                    == splits_from(a, 3, order as int),
            decreases order + 1 - bit,
        {
            proof {
                assert(1u64 << (((bit - 1) as u8) as u64) <= 32) by (bit_vector)
                    requires 2 <= ((bit - 1) as u8) as u64 <= 5;
            }
            input = split(input, 1u64 << ((bit - 1) as u64));
            bit = bit + 1;
        }
    }
    assert(input == splits_from(a, 3, order as int));
    let ghost b = input;
    let mut bit: u8 = order;
    while bit >= 1
        invariant
            bit <= order,
            2 <= order <= 6,
            par_from(input, bit as int) == par_from(b, order as int),
        decreases bit,
    {
        proof {
            assert(1u64 << (((bit - 1) as u8) as u64) <= 32) by (bit_vector)
                requires ((bit - 1) as u8) as u64 <= 5;
        }
        let xp = 1u64 << ((bit - 1) as u64);
        let pbit = parity(input & tile_mask(xp));
        input = input | (pbit << xp);
        bit = bit - 1;
    }
    let p = parity(input);
    input | p
}


/// Splitting a register below width `m` yields one below width `m + 1`.
proof fn lemma_split_width(x: u64, bit: u64, m: u64)
    requires
        bit < 64,
        m <= 62,
        x < (1u64 << m),
    ensures
        spec_split(x, bit) < (1u64 << ((m + 1) as u64)),
{
    assert(x < (1u64 << m) ==> ({
        let low = x & (((1u64 << bit) - 1) as u64);
        (((x ^ low) << 1u64) | low) < (1u64 << ((m + 1) as u64))
    })) by (bit_vector)
        requires bit < 64u64 && m <= 62u64;
}

/// The gap-opening passes add one bit of width each.
proof fn lemma_splits_from_width(x: u64, bit: int, order: int, m: u64)
    requires
        3 <= bit,
        order <= 6,
        x < (1u64 << m),
        m + (order + 1 - bit) <= 63,
    ensures
        splits_from(x, bit, order) < (1u64 << ((m + (if order + 1 - bit >= 0 {
            order + 1 - bit
        } else {
            0
        })) as u64)),
    decreases order + 1 - bit,
{
    if bit > order {
    } else {
        let e = (bit - 1) as u64;
        let xp = 1u64 << e;
        assert(xp <= 32) by (bit_vector)
            requires e <= 5u64 && xp == 1u64 << e;
        lemma_split_width(x, xp, m);
        lemma_splits_from_width(spec_split(x, xp), bit + 1, order, (m + 1) as u64);
    }
}

/// Filling a parity position below width `bl` keeps the register below `bl`.
proof fn lemma_par_from_width(x: u64, bit: int, bl: u64)
    requires
        0 <= bit <= 6,
        bl < 64,
        bit == 0 || (1u64 << ((bit - 1) as u64)) < bl,
        x < (1u64 << bl),
    ensures
        par_from(x, bit) < (1u64 << bl),
    decreases bit,
{
    if bit > 0 {
        let e = (bit - 1) as u64;
        let xp = 1u64 << e;
        let p = spec_parity(x & spec_tile_mask(xp));
        assert(p <= 1) by {
            assert(popcount((x & spec_tile_mask(xp)) as int) % 2 == 0
                || popcount((x & spec_tile_mask(xp)) as int) % 2 == 1);
        }
        let y = x | (p << xp);
        assert(y < (1u64 << bl)) by (bit_vector)
            requires
                y == x | (p << xp),
                xp == 1u64 << e,
                x < (1u64 << bl),
                p <= 1u64,
                e <= 5u64,
                xp < bl,
                bl < 64u64;
        if bit >= 2 {
            assert(1u64 << ((e - 1) as u64) < 1u64 << e) by (bit_vector)
                requires 1 <= e <= 5u64;
        }
        lemma_par_from_width(y, bit - 1, bl);
    }
}

/// A codeword of order 2 through 6 is exactly `large_bits` wide: the
/// construction never sets a bit at or above position `2^order`.
pub proof fn lemma_hamming_width(x: u64, order: u8)
    requires
        2 <= order <= 6,
    ensures
        (spec_hamming(x, order) as nat) < pow2(pow2(order as nat)),
{
    lemma2_to64();
    vstd::arithmetic::power2::lemma2_to64_rest();
    if order == 6 {
        assert((spec_hamming(x, order) as nat) < pow2(64));
    } else {
        let small = FecOrder::Hamming(order).spec_small_bits();
        let sm = small as u64;
        assert(pow2(order as nat) >= order + 2);
        lemma_pow2_strictly_increases(order as nat, 6);
        assert(1 <= sm <= 57 && sm == pow2(order as nat) - 1 - order);
        let a = (x & spec_small_mask(order)) << 3u64;
        let sm3 = (sm + 3) as u64;
        assert(a < (1u64 << sm3)) by (bit_vector)
            requires
                1 <= sm <= 57u64,
                sm3 == sm + 3,
                a == (x & (((1u64 << sm) - 1) as u64)) << 3u64;
        let b = splits_from(a, 3, order as int);
        lemma_splits_from_width(a, 3, order as int, sm3);
        let bl = (sm3 + (order - 2)) as u64;
        assert(bl == pow2(order as nat));
        assert(b < (1u64 << bl));
        let ou: u64 = order as u64;
        assert((1u64 << ((ou - 1) as u64)) < (1u64 << ou)) by (bit_vector)
            requires 2 <= ou <= 5u64;
        vstd::bits::lemma_u64_pow2_no_overflow(ou as nat);
        vstd::bits::lemma_u64_shl_is_mul(1u64, ou);
        assert((1u64 << ou) == bl);
        let c = par_from(b, order as int);
        lemma_par_from_width(b, order as int, bl);
        let p = spec_parity(c);
        assert(p <= 1) by {
            assert(popcount(c as int) % 2 == 0 || popcount(c as int) % 2 == 1);
        }
        assert((c | p) < (1u64 << bl)) by (bit_vector)
            requires c < (1u64 << bl) && p <= 1u64 && 1 <= bl < 64u64;
        vstd::bits::lemma_u64_pow2_no_overflow(bl as nat);
        vstd::bits::lemma_u64_shl_is_mul(1u64, bl);
    }
}


/// The parity positions still unfilled when the parity pass reaches `bit`:
/// position 0 and the positions `2^(j-1)` for `j` up to `bit`.
pub open spec fn reserved_mask(bit: u64) -> u64 {
    if bit == 0 {
        0x1u64
    } else if bit == 1 {
        0x3u64
    } else if bit == 2 {
        0x7u64
    } else if bit == 3 {
        0x17u64
    } else if bit == 4 {
        0x117u64
    } else if bit == 5 {
        0x1_0117u64
    } else {
        0x1_0001_0117u64
    }
}

/// A register with one bit has popcount one.
proof fn lemma_popcount_single(xp: u64)
    requires
        xp < 64,
    ensures
        popcount((1u64 << xp) as int) == 1,
{
    lemma_popcount_mask_shift(1u64 << xp, xp);
    assert((1u64 << xp) & (((1u64 << xp) - 1) as u64) == 0
        && (1u64 << xp) >> xp == 1) by (bit_vector)
        requires xp < 64u64;
    assert(popcount(1int) == 1) by {
        reveal_with_fuel(popcount, 3);
    }
}

/// The gap-opening passes leave every reserved parity position zero.
proof fn lemma_splits_from_zero(y: u64, bit: int, order: int)
    requires
        3 <= bit <= order + 1,
        2 <= order <= 6,
        y & reserved_mask((bit - 1) as u64) == 0,
    ensures
        splits_from(y, bit, order) & reserved_mask(order as u64) == 0,
    decreases order + 1 - bit,
{
    if bit > order {
    } else {
        let e = (bit - 1) as u64;
        let xp = 1u64 << e;
        let z = spec_split(y, xp);
        assert(z & reserved_mask((e + 1) as u64) == 0) by (bit_vector)
            requires
                2 <= e <= 5u64,
                xp == 1u64 << e,
                y & reserved_mask(e) == 0,
                z == ({
                    let low = y & (((1u64 << xp) - 1) as u64);
                    (((y ^ low) << 1u64) | low)
                });
        assert((e + 1) as u64 == ((bit + 1) - 1) as u64);
        lemma_splits_from_zero(z, bit + 1, order);
    }
}

/// The parity passes fill each reserved position so that every positional
/// parity check of the result is even, and position 0 stays free for the
/// overall parity.
proof fn lemma_par_from_checks(y: u64, bit: int, order: int)
    requires
        0 <= bit <= order,
        2 <= order <= 6,
        y & reserved_mask(bit as u64) == 0,
        forall|j: int| bit < j <= order ==> spec_parity(
            y & #[trigger] spec_tile_mask(1u64 << ((j - 1) as u64))) == 0,
    ensures
        par_from(y, bit) & 1 == 0,
        forall|j: int| 1 <= j <= order ==> spec_parity(
            par_from(y, bit) & #[trigger] spec_tile_mask(1u64 << ((j - 1) as u64))) == 0,
    decreases bit,
{
    if bit == 0 {
        assert(y & 1 == 0) by (bit_vector)
            requires y & reserved_mask(0) == 0;
    } else {
        let e = (bit - 1) as u64;
        let xp = 1u64 << e;
        let tm = spec_tile_mask(xp);
        let p = spec_parity(y & tm);
        let z = y | (p << xp);
        assert(p <= 1) by {
            assert(popcount((y & tm) as int) % 2 == 0
                || popcount((y & tm) as int) % 2 == 1);
        }
        // the new bit leaves the remaining reserved positions untouched
        assert(z & reserved_mask(e) == 0) by (bit_vector)
            requires
                e <= 5u64,
                xp == 1u64 << e,
                p <= 1u64,
                z == y | (p << xp),
                y & reserved_mask((e + 1) as u64) == 0;
        // the filled position makes check `bit` even
        assert(z & tm == (y & tm) ^ (p << xp)
            && (p << xp) == (if p == 1 { 1u64 << xp } else { 0u64 })) by (bit_vector)
            requires
                e <= 5u64,
                xp == 1u64 << e,
                p <= 1u64,
                z == y | (p << xp),
                tm == spec_tile_mask(1u64 << e),
                y & reserved_mask((e + 1) as u64) == 0;
        lemma_popcount_xor(y & tm, p << xp);
        if p == 1 {
            assert(xp <= 32) by (bit_vector)
                requires e <= 5u64 && xp == 1u64 << e;
            lemma_popcount_single(xp);
        }
        assert(spec_parity(z & tm) == 0) by {
            lemma_add_mod_noop(popcount((y & tm) as int), popcount((p << xp) as int), 2);
        }
        // the other checks see nothing: their masks miss position `xp`
        assert forall|j: int| bit <= j <= order && j != bit implies
            z & #[trigger] spec_tile_mask(1u64 << ((j - 1) as u64))
                == y & spec_tile_mask(1u64 << ((j - 1) as u64)) by {
            let f = (j - 1) as u64;
            assert(z & spec_tile_mask(1u64 << f) == y & spec_tile_mask(1u64 << f))
                by (bit_vector)
                requires
                    e <= 5u64,
                    f <= 5u64,
                    e != f,
                    p <= 1u64,
                    xp == 1u64 << e,
                    z == y | (p << xp);
        }
        lemma_par_from_checks(z, bit - 1, order);
    }
}

/// Every positional parity check of a fresh codeword is even, and so is
/// its overall parity: the starting point for locating and detecting
/// transmission errors.
pub proof fn lemma_hamming_checks(x: u64, order: u8)
    requires
        2 <= order <= 6,
    ensures
        spec_parity(spec_hamming(x, order)) == 0,
        forall|j: int| 1 <= j <= order ==> spec_parity(
            spec_hamming(x, order) & #[trigger] spec_tile_mask(1u64 << ((j - 1) as u64))) == 0,
{
    let a = (x & spec_small_mask(order)) << 3u64;
    let m = spec_small_mask(order);
    assert(a & reserved_mask(2) == 0) by (bit_vector)
        requires a == (x & m) << 3u64;
    let b = splits_from(a, 3, order as int);
    lemma_splits_from_zero(a, 3, order as int);
    let c = par_from(b, order as int);
    assert(b & reserved_mask(order as u64) == 0);
    assert forall|j: int| (order as int) < j <= order as int implies spec_parity(
        b & #[trigger] spec_tile_mask(1u64 << ((j - 1) as u64))) == 0 by {
    }
    lemma_par_from_checks(b, order as int, order as int);
    let p = spec_parity(c);
    assert(p <= 1) by {
        assert(popcount(c as int) % 2 == 0 || popcount(c as int) % 2 == 1);
    }
    let h = c | p;
    // position 0 was zero, so the final OR is an XOR of the overall parity
    assert(h == c ^ p && (p == 0 || p == 1u64 << 0u64)) by (bit_vector)
        requires h == c | p && p <= 1u64 && c & 1 == 0;
    lemma_popcount_xor(c, p);
    if p == 1 {
        lemma_popcount_single(0);
    }
    assert(spec_parity(h) == 0) by {
        lemma_add_mod_noop(popcount(c as int), popcount(p as int), 2);
    }
    // the overall-parity bit sits at position 0, outside every check mask
    assert forall|j: int| 1 <= j <= order implies spec_parity(
        h & #[trigger] spec_tile_mask(1u64 << ((j - 1) as u64))) == 0 by {
        let f = (j - 1) as u64;
        assert(h & spec_tile_mask(1u64 << f) == c & spec_tile_mask(1u64 << f))
            by (bit_vector)
            requires f <= 5u64 && p <= 1u64 && h == c | p;
    }
}


/// The positional parity checks of `w`, gathered into a position word:
/// bit `k-1` is the parity of check `k`.
pub open spec fn spec_syndrome_upto(w: u64, k: int) -> u64
    decreases k,
{
    if k <= 0 {
        0
    } else {
        spec_syndrome_upto(w, k - 1)
            | (spec_parity(w & spec_tile_mask(1u64 << ((k - 1) as u64))) << ((k - 1) as u64))
    }
}

/// The syndrome of a received word: the failing positional checks name a
/// bit position.
pub open spec fn spec_syndrome(w: u64, order: u8) -> u64 {
    spec_syndrome_upto(w, order as int)
}

/// What one flipped bit does to every check: each positional parity of the
/// disturbed word reads the corresponding bit of the flipped position.
proof fn lemma_flip_checks(h: u64, order: u8, j: u64)
    requires
        2 <= order <= 6,
        j < pow2(order as nat),
        spec_parity(h) == 0,
        forall|k: int| 1 <= k <= order ==> spec_parity(
            h & #[trigger] spec_tile_mask(1u64 << ((k - 1) as u64))) == 0,
    ensures
        spec_parity(h ^ (1u64 << j)) == 1,
        spec_syndrome(h ^ (1u64 << j), order) == j,
        forall|k: int| 1 <= k <= order ==> spec_parity(
            (h ^ (1u64 << j)) & #[trigger] spec_tile_mask(1u64 << ((k - 1) as u64)))
                == (j >> ((k - 1) as u64)) & 1,
{
    lemma2_to64();
    if (order as nat) < 6 {
        lemma_pow2_strictly_increases(order as nat, 6);
    }
    assert(j < 64);
    let ou: u64 = order as u64;
    assert((1u64 << ou) as nat == pow2(order as nat)) by {
        vstd::bits::lemma_u64_pow2_no_overflow(order as nat);
        vstd::bits::lemma_u64_shl_is_mul(1u64, ou);
    }
    let e = 1u64 << j;
    let w = h ^ e;
    lemma_popcount_single(j);
    lemma_popcount_xor(h, e);
    assert(spec_parity(w) == 1) by {
        lemma_add_mod_noop(popcount(h as int), popcount(e as int), 2);
    }
    assert forall|k: int| 1 <= k <= order implies spec_parity(
        w & #[trigger] spec_tile_mask(1u64 << ((k - 1) as u64)))
            == (j >> ((k - 1) as u64)) & 1 by {
        let f = (k - 1) as u64;
        let tm = spec_tile_mask(1u64 << f);
        assert(w & tm == (h & tm) ^ (e & tm)
            && (e & tm) == (if (j >> f) & 1 == 1 { e } else { 0u64 })) by (bit_vector)
            requires
                w == h ^ e,
                e == 1u64 << j,
                j < 64u64,
                f <= 5u64,
                tm == spec_tile_mask(1u64 << f);
        lemma_popcount_xor(h & tm, e & tm);
        assert(spec_parity(h & tm) == 0);
        assert(popcount((h & tm) as int) % 2 == 0);
        if (j >> f) & 1 == 1 {
            assert(popcount((e & tm) as int) == 1);
            lemma_add_mod_noop(popcount((h & tm) as int), popcount(e as int), 2);
            assert(popcount((w & tm) as int) % 2 == 1);
            assert(spec_parity(w & tm) == 1);
        } else {
            assert(popcount((e & tm) as int) == 0);
            lemma_add_mod_noop(popcount((h & tm) as int), 0, 2);
            assert(popcount((w & tm) as int) % 2 == 0);
            assert(spec_parity(w & tm) == 0);
            assert((j >> f) & 1 == 0) by (bit_vector)
                requires (j >> f) & 1 != 1;
        }
        assert(spec_parity(w & tm) == (j >> f) & 1);
    }
    // the gathered check bits reconstruct the flipped position
    assert forall|k: int| 0 <= k <= order implies #[trigger] spec_syndrome_upto(w, k)
        == j & (((1u64 << (k as u64)) - 1) as u64) by {
        // induction up the checks, one bit of the position at a time
        lemma_syndrome_rebuild(w, order, j, k);
    }
    assert(j & (((1u64 << ou) - 1) as u64) == j) by (bit_vector)
        requires ou <= 6u64 && j < (1u64 << ou);
}

/// Gathering the per-check bits of a flipped position rebuilds its low bits.
proof fn lemma_syndrome_rebuild(w: u64, order: u8, j: u64, k: int)
    requires
        2 <= order <= 6,
        0 <= k <= order,
        j < 64,
        forall|i: int| 1 <= i <= order ==> spec_parity(
            w & #[trigger] spec_tile_mask(1u64 << ((i - 1) as u64)))
                == (j >> ((i - 1) as u64)) & 1,
    ensures
        spec_syndrome_upto(w, k) == j & (((1u64 << (k as u64)) - 1) as u64),
    decreases k,
{
    if k == 0 {
        assert(j & (((1u64 << 0u64) - 1) as u64) == 0) by (bit_vector);
    } else {
        lemma_syndrome_rebuild(w, order, j, k - 1);
        let f = (k - 1) as u64;
        let prev = spec_syndrome_upto(w, k - 1);
        let b = (j >> f) & 1;
        assert(prev | (b << f) == j & (((1u64 << ((f + 1) as u64)) - 1) as u64))
            by (bit_vector)
            requires
                prev == j & (((1u64 << f) - 1) as u64),
                b == (j >> f) & 1,
                f <= 5u64;
    }
}

/// Flipping one bit of a codeword is detected and located: the overall
/// parity trips, and the syndrome names the flipped position. Flipping two
/// distinct bits is detected but not located: the overall parity stays
/// even while the syndrome is non-zero, naming neither position's pair.
pub proof fn lemma_single_error_located(x: u64, order: u8, j: u64)
    requires
        2 <= order <= 6,
        j < pow2(order as nat),
    ensures
        spec_parity(spec_hamming(x, order) ^ (1u64 << j)) == 1,
        spec_syndrome(spec_hamming(x, order) ^ (1u64 << j), order) == j,
{
    lemma_hamming_checks(x, order);
    lemma_flip_checks(spec_hamming(x, order), order, j);
}

/// Two distinct flipped bits keep the overall parity even, yet leave a
/// non-zero syndrome: the pattern of a detectable, uncorrectable error.
pub proof fn lemma_double_error_detected(x: u64, order: u8, j: u64, l: u64)
    requires
        2 <= order <= 6,
        j < pow2(order as nat),
        l < pow2(order as nat),
        j != l,
    ensures
        spec_parity(spec_hamming(x, order) ^ (1u64 << j) ^ (1u64 << l)) == 0,
        spec_syndrome(spec_hamming(x, order) ^ (1u64 << j) ^ (1u64 << l), order) == j ^ l,
{
    lemma2_to64();
    if (order as nat) < 6 {
        lemma_pow2_strictly_increases(order as nat, 6);
    }
    assert(j < 64 && l < 64);
    let ou: u64 = order as u64;
    assert((1u64 << ou) as nat == pow2(order as nat)) by {
        vstd::bits::lemma_u64_pow2_no_overflow(order as nat);
        vstd::bits::lemma_u64_shl_is_mul(1u64, ou);
    }
    let h = spec_hamming(x, order);
    lemma_hamming_checks(x, order);
    lemma_flip_checks(h, order, j);
    let w1 = h ^ (1u64 << j);
    let w = w1 ^ (1u64 << l);
    let el = 1u64 << l;
    lemma_popcount_single(l);
    lemma_popcount_xor(w1, el);
    assert(spec_parity(w) == 0) by {
        lemma_add_mod_noop(popcount(w1 as int), popcount(el as int), 2);
    }
    assert forall|k: int| 1 <= k <= order implies spec_parity(
        w & #[trigger] spec_tile_mask(1u64 << ((k - 1) as u64)))
            == ((j ^ l) >> ((k - 1) as u64)) & 1 by {
        let f = (k - 1) as u64;
        let tm = spec_tile_mask(1u64 << f);
        assert(w & tm == (w1 & tm) ^ (el & tm)
            && (el & tm) == (if (l >> f) & 1 == 1 { el } else { 0u64 })
            && (((j ^ l) >> f) & 1)
                == (((j >> f) & 1) + ((l >> f) & 1)) % 2) by (bit_vector)
            requires
                w == w1 ^ el,
                el == 1u64 << l,
                l < 64u64,
                f <= 5u64,
                tm == spec_tile_mask(1u64 << f);
        lemma_popcount_xor(w1 & tm, el & tm);
        assert(spec_parity(w1 & tm) == (j >> f) & 1);
        assert((j >> f) & 1 == 0 || (j >> f) & 1 == 1) by (bit_vector);
        if (l >> f) & 1 == 1 {
            assert(popcount((el & tm) as int) == 1);
            lemma_add_mod_noop(popcount((w1 & tm) as int), popcount(el as int), 2);
            assert(popcount((w & tm) as int) % 2
                == (popcount((w1 & tm) as int) % 2 + 1) % 2);
        } else {
            assert((l >> f) & 1 == 0) by (bit_vector)
                requires (l >> f) & 1 != 1;
            assert(popcount((el & tm) as int) == 0);
            lemma_add_mod_noop(popcount((w1 & tm) as int), 0, 2);
            assert(popcount((w & tm) as int) % 2 == popcount((w1 & tm) as int) % 2);
        }
        assert(spec_parity(w & tm) == ((j ^ l) >> f) & 1);
    }
    assert(j ^ l < 64) by (bit_vector)
        requires j < 64u64 && l < 64u64;
    lemma_syndrome_rebuild(w, order, j ^ l, order as int);
    assert((j ^ l) & (((1u64 << ou) - 1) as u64) == (j ^ l)) by (bit_vector)
        requires ou <= 6u64 && j < (1u64 << ou) && l < (1u64 << ou);
}

} // verus!
