//! The kernel built on interleaves of register halves.

use crate::engine::{
    blocked_rows, combined16, combined32, filled, lane_digits, lane_values, lane_written,
    lemma_block_holds, lemma_block_stored, lemma_blocked_rows, lemma_lane_step, lemma_lane_written,
    lemma_masks, lemma_more_digits, lemma_stop_at_block, lemma_tail_completes, lemma_wrap16,
    lemma_wrap32, load_tile, pair_low, parse_tail, parses_rows, reach, separator_mask, store_block,
    stored_lanes, transposed, Block, Columns,
};
use crate::format::FormatSpec;
use crate::lanes::{
    accumulate16, accumulate32, both, equal_mask, half_offset, in_odd_element, is_width,
    lemma_bits_decide, lemma_flip_bit, lemma_top_bits, mask, odd_element, smaller, splat, subtract,
    top_bits, unpack, Register,
};
use crate::record::decimal;
use vstd::arithmetic::power2::lemma2_to64;
use vstd::prelude::*;

verus! {

/// The four bits of a number in reverse.
pub open spec fn bit_reverse(k: int) -> int {
    8 * (k % 2) + 4 * ((k / 2) % 2) + 2 * ((k / 4) % 2) + (k / 8) % 2
}

/// Output-lane permutation of `transpose16`: `BITREV[k]` is the bit-reversal of `k` in four bits.
/// A ladder of interleaves lands column `BITREV[k]` in register `k`.
pub const BITREV: [usize; 16] = [0, 8, 4, 12, 2, 10, 6, 14, 1, 9, 5, 13, 3, 11, 7, 15];

/// The table holds the bit-reversals.
proof fn lemma_bitrev_table(k: int)
    requires
        0 <= k < 16,
    ensures
        BITREV@[k] == bit_reverse(k),
{
    assert(BITREV@[0] == 0 && BITREV@[1] == 8 && BITREV@[2] == 4 && BITREV@[3] == 12);
    assert(BITREV@[4] == 2 && BITREV@[5] == 10 && BITREV@[6] == 6 && BITREV@[7] == 14);
    assert(BITREV@[8] == 1 && BITREV@[9] == 9 && BITREV@[10] == 5 && BITREV@[11] == 13);
    assert(BITREV@[12] == 3 && BITREV@[13] == 11 && BITREV@[14] == 7 && BITREV@[15] == 15);
    assert(k == 0 || k == 1 || k == 2 || k == 3 || k == 4 || k == 5 || k == 6 || k == 7 || k == 8
        || k == 9 || k == 10 || k == 11 || k == 12 || k == 13 || k == 14 || k == 15);
}

/// Reversing the bits twice gives the number back.
pub proof fn law_bit_reverse_involutive(k: int)
    requires
        0 <= k < 16,
    ensures
        0 <= bit_reverse(k) < 16,
        bit_reverse(bit_reverse(k)) == k,
{
    assert(k == 0 || k == 1 || k == 2 || k == 3 || k == 4 || k == 5 || k == 6 || k == 7 || k == 8
        || k == 9 || k == 10 || k == 11 || k == 12 || k == 13 || k == 14 || k == 15);
}

/// Bit reversal exchanges the first bit with the fourth and the second with the third.
pub proof fn law_bits_exchanged(a: int, b: int, c: int, d: int)
    requires
        0 <= a <= 1,
        0 <= b <= 1,
        0 <= c <= 1,
        0 <= d <= 1,
    ensures
        bit_reverse(8 * a + 4 * b + 2 * c + d) == 8 * d + 4 * c + 2 * b + a,
{
}

/// Where byte `c` of register `r` comes from in one stage of the ladder: the bit of weight `w` of
/// the byte picks the register of the pair, and that of the register picks the half.
pub open spec fn ladder_source(r: int, c: int, w: int) -> (int, int) {
    let from: int = if odd_element(r, w) == odd_element(c, w) {
        r
    } else if odd_element(c, w) {
        r + w
    } else {
        r - w
    };
    let half: int = if odd_element(r, w) {
        8
    } else {
        0
    };
    (from, half + half_offset(c, w))
}

/// One stage of the ladder: registers at distance `w` interleave their elements of width `w`,
/// the low halves into the first register of the pair, the high halves into the second.
fn interleave_halves(v: &mut [Register; 16], w: usize)
    requires
        is_width(w as int),
    ensures
        forall|r: int, c: int|
            #![trigger final(v)@[r]@[c]]
            0 <= r < 16 && 0 <= c < 16 ==> final(v)@[r]@[c] == old(v)@[ladder_source(
                r,
                c,
                w as int,
            ).0]@[ladder_source(r, c, w as int).1],
{
    let mut x: usize = 0;
    while x < 16
        invariant
            x <= 16,
            is_width(w as int),
            forall|r: int, c: int|
                #![trigger v@[r]@[c]]
                0 <= r < 16 && 0 <= c < 16 && pair_low(r, w as int) < x ==> v@[r]@[c] == old(v)@[
                ladder_source(r, c, w as int).0]@[ladder_source(r, c, w as int).1],
            forall|r: int|
                #![trigger v@[r]]
                0 <= r < 16 && pair_low(r, w as int) >= x ==> v@[r] == old(v)@[r],
        decreases 16 - x,
    {
        if !in_odd_element(x, w) {
            let y: usize = x + w;
            let a: Register = unpack(&v[x], &v[y], w, 0);
            let b: Register = unpack(&v[x], &v[y], w, 8);
            v[x] = a;
            v[y] = b;
        }
        x = x + 1;
    }
}

/// The bits of an offset into a half, from either half's beginning.
proof fn lemma_half_bits(c: int, w: int)
    requires
        0 <= c < 16,
        is_width(w),
    ensures
        ({
            let h: int = half_offset(c, w);
            &&& 0 <= h < 8
            &&& !odd_element(h, 8) && odd_element(8 + h, 8)
            &&& odd_element(h, 4) == odd_element(8 + h, 4)
            &&& odd_element(h, 4) == odd_element(c, if w == 8 {
                4
            } else {
                8
            })
            &&& odd_element(h, 2) == odd_element(8 + h, 2)
            &&& odd_element(h, 2) == odd_element(c, if w == 8 || w == 4 {
                2
            } else {
                4
            })
            &&& odd_element(h, 1) == odd_element(8 + h, 1)
            &&& odd_element(h, 1) == odd_element(c, if w == 1 {
                2
            } else {
                1
            })
        }),
{
    assert(c == 0 || c == 1 || c == 2 || c == 3 || c == 4 || c == 5 || c == 6 || c == 7 || c == 8
        || c == 9 || c == 10 || c == 11 || c == 12 || c == 13 || c == 14 || c == 15);
}

/// The bits of the source of a byte in the stage of weight eight.
proof fn lemma_ladder8(r: int, c: int)
    requires
        0 <= r < 16,
        0 <= c < 16,
    ensures
        ({
            let (r2, c2) = ladder_source(r, c, 8);
            &&& 0 <= r2 < 16 && 0 <= c2 < 16
            &&& odd_element(r2, 8) == odd_element(c, 8)
            &&& odd_element(r2, 4) == odd_element(r, 4)
            &&& odd_element(r2, 2) == odd_element(r, 2)
            &&& odd_element(r2, 1) == odd_element(r, 1)
            &&& odd_element(c2, 8) == odd_element(r, 8)
            &&& odd_element(c2, 4) == odd_element(c, 4)
            &&& odd_element(c2, 2) == odd_element(c, 2)
            &&& odd_element(c2, 1) == odd_element(c, 1)
        }),
{
    lemma_half_bits(c, 8);
    lemma_flip_bit(r, 8, 8);
    lemma_flip_bit(r, 8, 4);
    lemma_flip_bit(r, 8, 2);
    lemma_flip_bit(r, 8, 1);
}

/// The bits of the source of a byte in the stage of weight four.
proof fn lemma_ladder4(r: int, c: int)
    requires
        0 <= r < 16,
        0 <= c < 16,
    ensures
        ({
            let (r2, c2) = ladder_source(r, c, 4);
            &&& 0 <= r2 < 16 && 0 <= c2 < 16
            &&& odd_element(r2, 8) == odd_element(r, 8)
            &&& odd_element(r2, 4) == odd_element(c, 4)
            &&& odd_element(r2, 2) == odd_element(r, 2)
            &&& odd_element(r2, 1) == odd_element(r, 1)
            &&& odd_element(c2, 8) == odd_element(r, 4)
            &&& odd_element(c2, 4) == odd_element(c, 8)
            &&& odd_element(c2, 2) == odd_element(c, 2)
            &&& odd_element(c2, 1) == odd_element(c, 1)
        }),
{
    lemma_half_bits(c, 4);
    lemma_flip_bit(r, 4, 8);
    lemma_flip_bit(r, 4, 4);
    lemma_flip_bit(r, 4, 2);
    lemma_flip_bit(r, 4, 1);
}

/// The bits of the source of a byte in the stage of weight two.
proof fn lemma_ladder2(r: int, c: int)
    requires
        0 <= r < 16,
        0 <= c < 16,
    ensures
        ({
            let (r2, c2) = ladder_source(r, c, 2);
            &&& 0 <= r2 < 16 && 0 <= c2 < 16
            &&& odd_element(r2, 8) == odd_element(r, 8)
            &&& odd_element(r2, 4) == odd_element(r, 4)
            &&& odd_element(r2, 2) == odd_element(c, 2)
            &&& odd_element(r2, 1) == odd_element(r, 1)
            &&& odd_element(c2, 8) == odd_element(r, 2)
            &&& odd_element(c2, 4) == odd_element(c, 8)
            &&& odd_element(c2, 2) == odd_element(c, 4)
            &&& odd_element(c2, 1) == odd_element(c, 1)
        }),
{
    lemma_half_bits(c, 2);
    lemma_flip_bit(r, 2, 8);
    lemma_flip_bit(r, 2, 4);
    lemma_flip_bit(r, 2, 2);
    lemma_flip_bit(r, 2, 1);
}

/// The bits of the source of a byte in the stage of weight one.
proof fn lemma_ladder1(r: int, c: int)
    requires
        0 <= r < 16,
        0 <= c < 16,
    ensures
        ({
            let (r2, c2) = ladder_source(r, c, 1);
            &&& 0 <= r2 < 16 && 0 <= c2 < 16
            &&& odd_element(r2, 8) == odd_element(r, 8)
            &&& odd_element(r2, 4) == odd_element(r, 4)
            &&& odd_element(r2, 2) == odd_element(r, 2)
            &&& odd_element(r2, 1) == odd_element(c, 1)
            &&& odd_element(c2, 8) == odd_element(r, 1)
            &&& odd_element(c2, 4) == odd_element(c, 8)
            &&& odd_element(c2, 2) == odd_element(c, 4)
            &&& odd_element(c2, 1) == odd_element(c, 2)
        }),
{
    lemma_half_bits(c, 1);
    lemma_flip_bit(r, 1, 8);
    lemma_flip_bit(r, 1, 4);
    lemma_flip_bit(r, 1, 2);
    lemma_flip_bit(r, 1, 1);
}

/// The bits of a reversed number.
proof fn lemma_reversed_bits(k: int)
    requires
        0 <= k < 16,
    ensures
        0 <= bit_reverse(k) < 16,
        odd_element(bit_reverse(k), 8) == odd_element(k, 1),
        odd_element(bit_reverse(k), 4) == odd_element(k, 2),
        odd_element(bit_reverse(k), 2) == odd_element(k, 4),
        odd_element(bit_reverse(k), 1) == odd_element(k, 8),
{
}

/// The whole ladder takes byte `c` of register `r` from byte `bit_reverse(r)` of register `c`.
proof fn lemma_ladder_all(r: int, c: int)
    requires
        0 <= r < 16,
        0 <= c < 16,
    ensures
        ({
            let (r3, c3) = ladder_source(r, c, 8);
            let (r2, c2) = ladder_source(r3, c3, 4);
            let (r1, c1) = ladder_source(r2, c2, 2);
            let (r0, c0) = ladder_source(r1, c1, 1);
            &&& 0 <= r3 < 16 && 0 <= c3 < 16
            &&& 0 <= r2 < 16 && 0 <= c2 < 16
            &&& 0 <= r1 < 16 && 0 <= c1 < 16
            &&& r0 == c && c0 == bit_reverse(r)
        }),
{
    let (r3, c3) = ladder_source(r, c, 8);
    let (r2, c2) = ladder_source(r3, c3, 4);
    let (r1, c1) = ladder_source(r2, c2, 2);
    let (r0, c0) = ladder_source(r1, c1, 1);
    lemma_ladder8(r, c);
    lemma_ladder4(r3, c3);
    lemma_ladder2(r2, c2);
    lemma_ladder1(r1, c1);
    lemma_reversed_bits(r);
    lemma_bits_decide(r0, c);
    lemma_bits_decide(c0, bit_reverse(r));
}

/// 16x16 byte transpose: row `i` in, column `BITREV[k]` out in register `k`. Four stages of
/// interleaves at 8, 16, 32 and 64 bits, pairing registers at distance 1, 2, 4 and 8.
pub fn transpose16(v: &mut [Register; 16])
    ensures
        forall|k: int, i: int|
            #![trigger final(v)@[k]@[i]]
            0 <= k < 16 && 0 <= i < 16 ==> final(v)@[k]@[i] == old(v)@[i]@[bit_reverse(k)],
{
    interleave_halves(v, 1);
    let ghost v1 = *v;
    interleave_halves(v, 2);
    let ghost v2 = *v;
    interleave_halves(v, 4);
    let ghost v3 = *v;
    interleave_halves(v, 8);
    proof {
        assert forall|k: int, i: int|
            #![trigger v@[k]@[i]]
            0 <= k < 16 && 0 <= i < 16 implies v@[k]@[i] == old(v)@[i]@[bit_reverse(k)] by {
            lemma_ladder_all(k, i);
            let (k3, i3) = ladder_source(k, i, 8);
            let (k2, i2) = ladder_source(k3, i3, 4);
            let (k1, i1) = ladder_source(k2, i2, 2);
            assert(v@[k]@[i] == v3@[k3]@[i3]);
            assert(v3@[k3]@[i3] == v2@[k2]@[i2]);
            assert(v2@[k2]@[i2] == v1@[k1]@[i1]);
        }
    }
}

/// Stores the sixteen transposed registers of the tile that starts at byte `off`, undoing the
/// bit-reversal: column `off + p` gets the register that holds byte `p` of the tile.
pub fn store_tile(tile: &[Register; 16], columns: &mut Columns, off: usize)
    requires
        off + 16 <= 32,
    ensures
        forall|p: int|
            0 <= p < 32 ==> #[trigger] final(columns)@[p] == (if off <= p < off + 16 {
                tile@[bit_reverse(p - off)]
            } else {
                old(columns)@[p]
            }),
{
    let mut k: usize = 0;
    while k < 16
        invariant
            k <= 16,
            off + 16 <= 32,
            forall|p: int|
                0 <= p < 32 ==> #[trigger] columns@[p] == (if off <= p < off + 16 && bit_reverse(
                    p - off,
                ) < k {
                    tile@[bit_reverse(p - off)]
                } else {
                    old(columns)@[p]
                }),
        decreases 16 - k,
    {
        proof {
            lemma_bitrev_table(k as int);
            law_bit_reverse_involutive(k as int);
            assert forall|p: int| off <= p < off + 16 && #[trigger] bit_reverse(p - off) == k implies p
                - off == bit_reverse(k as int) by {
                law_bit_reverse_involutive(p - off);
            }
        }
        columns[off + BITREV[k]] = tile[k];
        k = k + 1;
    }
    assert forall|p: int| off <= p < off + 16 implies 0 <= #[trigger] bit_reverse(p - off) < 16 by {
        law_bit_reverse_involutive(p - off);
    }
}

/// Transposes the sixteen rows from `j` on, tile by tile, into columns.
fn load_columns(fmt: &FormatSpec, data: &[u8], j: usize, columns: &mut Columns)
    requires
        fmt.wf(),
        (j + 15) * fmt.width + 32 <= data.len(),
    ensures
        transposed(final(columns)@, data@, fmt.width as int, j as int, reach(fmt)),
{
    let w: usize = fmt.width;
    let mut t: [Register; 16] = load_tile(data, w, j, 0);
    transpose16(&mut t);
    store_tile(&t, columns, 0);
    let mut t: [Register; 16] = load_tile(data, w, j, 8);
    transpose16(&mut t);
    store_tile(&t, columns, 8);
    if fmt.needs_tile2 {
        let mut t: [Register; 16] = load_tile(data, w, j, 16);
        transpose16(&mut t);
        store_tile(&t, columns, 16);
    }
    proof {
        assert forall|p: int| 0 <= p < 16 implies 0 <= #[trigger] bit_reverse(p) < 16
            && bit_reverse(bit_reverse(p)) == p by {
            law_bit_reverse_involutive(p);
        }
    }
}

/// Combines the digits at the positions into one number per lane, modulo 2^16. All sixteen lanes
/// run in one register.
pub fn comb16(columns: &Columns, positions: &[usize], zero: &Register) -> (values: [u16; 16])
    requires
        forall|i: int| 0 <= i < positions@.len() ==> #[trigger] positions@[i] < 32,
    ensures
        combined16(columns@, positions@, zero@, values@),
{
    let mut acc: [u16; 16] = [0u16; 16];
    let mut k: usize = 0;
    while k < positions.len()
        invariant
            k <= positions@.len(),
            forall|i: int| 0 <= i < positions@.len() ==> #[trigger] positions@[i] < 32,
            combined16(columns@, positions@.subrange(0, k as int), zero@, acc@),
        decreases positions@.len() - k,
    {
        let d: Register = subtract(&columns[positions[k]], zero);
        let ghost prefix: Seq<usize> = positions@.subrange(0, k as int);
        let ghost acc0 = acc@;
        accumulate16(&mut acc, &d, 0);
        proof {
            assert forall|r: int| 0 <= r < 16 implies #[trigger] acc@[r] == decimal(
                lane_values(columns@, positions@.subrange(0, k + 1), zero@, r),
            ) % 0x1_0000 by {
                lemma_lane_step(columns@, positions@, zero@, r, k as int);
                lemma_wrap16(decimal(lane_values(columns@, prefix, zero@, r)), d@[r] as int);
                assert(acc@[r] == (acc0[r] * 10 + d@[0 + r]) % 0x1_0000);
            }
        }
        k = k + 1;
    }
    assert(positions@.subrange(0, k as int) =~= positions@);
    acc
}

/// Combines the digits at the positions into one number per lane, modulo 2^32. The lanes run in
/// two halves of eight.
pub fn comb32(columns: &Columns, positions: &[usize], zero: &Register) -> (values: [u32; 16])
    requires
        forall|i: int| 0 <= i < positions@.len() ==> #[trigger] positions@[i] < 32,
    ensures
        combined32(columns@, positions@, zero@, values@),
{
    let mut lo: [u32; 8] = [0u32; 8];
    let mut hi: [u32; 8] = [0u32; 8];
    let mut k: usize = 0;
    while k < positions.len()
        invariant
            k <= positions@.len(),
            forall|i: int| 0 <= i < positions@.len() ==> #[trigger] positions@[i] < 32,
            forall|r: int|
                0 <= r < 8 ==> #[trigger] lo@[r] == decimal(
                    lane_values(columns@, positions@.subrange(0, k as int), zero@, r),
                ) % 0x1_0000_0000,
            forall|r: int|
                0 <= r < 8 ==> #[trigger] hi@[r] == decimal(
                    lane_values(columns@, positions@.subrange(0, k as int), zero@, 8 + r),
                ) % 0x1_0000_0000,
        decreases positions@.len() - k,
    {
        let d: Register = subtract(&columns[positions[k]], zero);
        let ghost prefix: Seq<usize> = positions@.subrange(0, k as int);
        let ghost (lo0, hi0) = (lo@, hi@);
        accumulate32(&mut lo, &d, 0);
        accumulate32(&mut hi, &d, 8);
        proof {
            assert forall|r: int| 0 <= r < 8 implies #[trigger] lo@[r] == decimal(
                lane_values(columns@, positions@.subrange(0, k + 1), zero@, r),
            ) % 0x1_0000_0000 by {
                lemma_lane_step(columns@, positions@, zero@, r, k as int);
                lemma_wrap32(decimal(lane_values(columns@, prefix, zero@, r)), d@[r] as int);
                assert(lo@[r] == (lo0[r] * 10 + d@[0 + r]) % 0x1_0000_0000);
            }
            assert forall|r: int| 0 <= r < 8 implies #[trigger] hi@[r] == decimal(
                lane_values(columns@, positions@.subrange(0, k + 1), zero@, 8 + r),
            ) % 0x1_0000_0000 by {
                lemma_lane_step(columns@, positions@, zero@, 8 + r, k as int);
                lemma_wrap32(
                    decimal(lane_values(columns@, prefix, zero@, 8 + r)),
                    d@[8 + r] as int,
                );
                assert(hi@[r] == (hi0[r] * 10 + d@[8 + r]) % 0x1_0000_0000);
            }
        }
        k = k + 1;
    }
    assert(positions@.subrange(0, k as int) =~= positions@);
    let mut values: [u32; 16] = [0u32; 16];
    let mut r: usize = 0;
    while r < 8
        invariant
            r <= 8,
            forall|i: int| 0 <= i < r ==> #[trigger] values@[i] == lo@[i],
            forall|i: int| 8 <= i < 8 + r ==> #[trigger] values@[i] == hi@[i - 8],
        decreases 8 - r,
    {
        values[r] = lo[r];
        values[8 + r] = hi[r];
        r = r + 1;
    }
    values
}

/// Clears the lanes of a mask that lack a digit at one of the positions.
fn mask_digits(columns: &Columns, positions: &[usize], ok: Register) -> (out: Register)
    requires
        forall|i: int| 0 <= i < positions@.len() ==> #[trigger] positions@[i] < 32,
        forall|r: int| 0 <= r < 16 ==> #[trigger] ok@[r] == 0 || ok@[r] == 0xff,
    ensures
        forall|r: int|
            0 <= r < 16 ==> #[trigger] out@[r] == mask(
                ok@[r] == 0xff && lane_digits(columns@, positions@, r),
            ),
{
    let zero: Register = splat(0x30);
    let nine: Register = splat(9);
    let mut out: Register = ok;
    let mut k: usize = 0;
    while k < positions.len()
        invariant
            k <= positions@.len(),
            forall|i: int| 0 <= i < positions@.len() ==> #[trigger] positions@[i] < 32,
            forall|r: int| 0 <= r < 16 ==> #[trigger] zero@[r] == 0x30,
            forall|r: int| 0 <= r < 16 ==> #[trigger] nine@[r] == 9,
            forall|r: int|
                0 <= r < 16 ==> #[trigger] out@[r] == mask(
                    ok@[r] == 0xff && lane_digits(columns@, positions@.subrange(0, k as int), r),
                ),
        decreases positions@.len() - k,
    {
        let d: Register = subtract(&columns[positions[k]], &zero);
        let least: Register = smaller(&d, &nine);
        let le: Register = equal_mask(&least, &d);
        out = both(&out, &le);
        proof {
            assert forall|r: int| 0 <= r < 16 implies #[trigger] out@[r] == mask(
                ok@[r] == 0xff && lane_digits(columns@, positions@.subrange(0, k + 1), r),
            ) by {
                lemma_more_digits(columns@, positions@, k as int, r);
                lemma_masks(
                    ok@[r] == 0xff && lane_digits(columns@, positions@.subrange(0, k as int), r),
                    d@[r] <= 9,
                );
            }
        }
        k = k + 1;
    }
    assert(positions@.subrange(0, k as int) =~= positions@);
    out
}

/// All ones in the lanes whose separators and digits are where the format wants them.
fn written_mask(fmt: &FormatSpec, columns: &Columns) -> (ok: Register)
    requires
        fmt.wf(),
    ensures
        forall|r: int| 0 <= r < 16 ==> #[trigger] ok@[r] == mask(lane_written(columns@, fmt, r)),
{
    let ok: Register = separator_mask(fmt, columns);
    let ok: Register = mask_digits(columns, fmt.year.as_slice(), ok);
    let ok: Register = mask_digits(columns, fmt.mon.as_slice(), ok);
    let ok: Register = mask_digits(columns, fmt.day.as_slice(), ok);
    let ok: Register = mask_digits(columns, fmt.hour.as_slice(), ok);
    let ok: Register = mask_digits(columns, fmt.min.as_slice(), ok);
    let ok: Register = mask_digits(columns, fmt.sec.as_slice(), ok);
    mask_digits(columns, &fmt.frac[0..fmt.frac_len], ok)
}

/// Parses `n` rows of a fixed-stride buffer, sixteen at a time as long as whole tiles stay inside
/// the buffer. Stops at the first block or row that does not parse.
pub fn parse_all(fmt: &FormatSpec, data: &[u8], n: usize, out: &mut [i64]) -> (ok: bool)
    requires
        fmt.wf(),
        n * fmt.width <= data.len(),
        n <= old(out)@.len(),
    ensures
        parses_rows(fmt, data@, n as int, old(out)@, ok, final(out)@),
{
    let w: usize = fmt.width;
    let zero: Register = splat(0x30);
    let safe: usize = if data.len() >= 32 {
        (data.len() - 32) / w + 1
    } else {
        0
    };
    let least: usize = if safe <= n {
        safe
    } else {
        n
    };
    let full: usize = (least / 16) * 16;
    let mut columns: Columns = [[0u8; 16]; 32];
    let mut j: usize = 0;
    while j < full
        invariant
            fmt.wf(),
            w == fmt.width,
            forall|r: int| 0 <= r < 16 ==> #[trigger] zero@[r] == 0x30,
            n <= old(out)@.len(),
            full == blocked_rows(data@.len() as int, w as int, n as int),
            full <= n,
            full % 16 == 0,
            j <= full,
            j % 16 == 0,
            filled(fmt, data@, j as int, old(out)@, out@),
        decreases full - j,
    {
        proof {
            lemma_blocked_rows(data@.len() as int, w as int, n as int, j as int);
        }
        load_columns(fmt, data, j, &mut columns);
        let ok: Register = written_mask(fmt, &columns);
        let bits: u32 = top_bits(&ok);
        proof {
            lemma2_to64();
            lemma_top_bits(ok@, 16);
        }
        if bits != 0xffff {
            proof {
                let r: int = choose|r: int| 0 <= r < 16 && #[trigger] ok@[r] < 0x80;
                lemma_lane_written(columns@, fmt, data@, j as int, r);
                lemma_stop_at_block(fmt, data@, n as int, j as int, r, old(out)@, out@);
            }
            return false;
        }
        let block: Block = Block {
            year: comb16(&columns, fmt.year.as_slice(), &zero),
            mon: comb16(&columns, fmt.mon.as_slice(), &zero),
            day: comb16(&columns, fmt.day.as_slice(), &zero),
            hour: comb16(&columns, fmt.hour.as_slice(), &zero),
            min: comb16(&columns, fmt.min.as_slice(), &zero),
            sec: comb16(&columns, fmt.sec.as_slice(), &zero),
            frac: comb32(&columns, &fmt.frac[0..fmt.frac_len], &zero),
        };
        let ghost middle = out@;
        proof {
            assert forall|r: int| 0 <= r < 16 implies #[trigger] lane_written(columns@, fmt, r) by {
                assert(ok@[r] >= 0x80);
            }
            lemma_block_holds(fmt, data@, j as int, columns@, zero@, &block);
        }
        let stored: bool = store_block(&block, fmt.frac_scale, j, out);
        proof {
            let stop: int = choose|stop: int|
                (stored <==> stop == 16) && #[trigger] stored_lanes(
                    &block,
                    fmt.frac_scale,
                    j as int,
                    stop,
                    middle,
                    out@,
                );
            lemma_block_stored(
                fmt,
                data@,
                n as int,
                j as int,
                &block,
                stop,
                old(out)@,
                middle,
                out@,
            );
        }
        if !stored {
            return false;
        }
        j = j + 16;
    }
    let ghost middle = out@;
    let ok: bool = parse_tail(fmt, data, j, n, out);
    proof {
        lemma_tail_completes(fmt, data@, j as int, n as int, old(out)@, middle, ok, out@);
    }
    ok
}

} // verus!
