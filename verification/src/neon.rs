//! The kernel built on even/odd element interleaves.

use crate::engine::{
    blocked_rows, combined16, combined32, filled, lane_digits, lane_values, lane_written,
    lemma_block_holds, lemma_block_stored, lemma_blocked_rows, lemma_lane_step, lemma_lane_written,
    lemma_masks, lemma_more_digits, lemma_stop_at_block, lemma_tail_completes, lemma_wrap16,
    lemma_wrap32, load_tile, pair_low, parse_tail, parses_rows, reach, separator_mask, store_block,
    stored_lanes, transposed, Block, Columns,
};
use crate::format::FormatSpec;
use crate::lanes::{
    accumulate16, accumulate32, at_most_mask, both, in_odd_element, is_width, least_lane,
    lemma_bits_decide, lemma_flip_bit, mask, odd_element, splat, subtract, transpose_even,
    transpose_odd, Register,
};
use crate::record::decimal;
use vstd::prelude::*;

verus! {

/// Where byte `c` of row `r` comes from when the bits of weight `w` of row and column trade
/// places.
pub open spec fn swap_bit(r: int, c: int, w: int) -> (int, int) {
    if odd_element(r, w) == odd_element(c, w) {
        (r, c)
    } else if odd_element(c, w) {
        (r + w, c - w)
    } else {
        (r - w, c + w)
    }
}

/// One stage of the butterfly: rows at distance `w` trade their elements of width `w`.
fn interleave_rows(v: &mut [Register; 16], w: usize)
    requires
        is_width(w as int),
    ensures
        forall|r: int, c: int|
            #![trigger final(v)@[r]@[c]]
            0 <= r < 16 && 0 <= c < 16 ==> final(v)@[r]@[c] == old(v)@[swap_bit(
                r,
                c,
                w as int,
            ).0]@[swap_bit(r, c, w as int).1],
{
    let mut x: usize = 0;
    while x < 16
        invariant
            x <= 16,
            is_width(w as int),
            forall|r: int, c: int|
                #![trigger v@[r]@[c]]
                0 <= r < 16 && 0 <= c < 16 && pair_low(r, w as int) < x ==> v@[r]@[c] == old(v)@[
                swap_bit(r, c, w as int).0]@[swap_bit(r, c, w as int).1],
            forall|r: int|
                #![trigger v@[r]]
                0 <= r < 16 && pair_low(r, w as int) >= x ==> v@[r] == old(v)@[r],
        decreases 16 - x,
    {
        if !in_odd_element(x, w) {
            let y: usize = x + w;
            let a: Register = transpose_even(&v[x], &v[y], w);
            let b: Register = transpose_odd(&v[x], &v[y], w);
            v[x] = a;
            v[y] = b;
        }
        x = x + 1;
    }
}

/// Trading the bits of one weight leaves the bits of the others alone.
proof fn lemma_swap_bit(r: int, c: int, w: int)
    requires
        0 <= r < 16,
        0 <= c < 16,
        is_width(w),
    ensures
        0 <= swap_bit(r, c, w).0 < 16,
        0 <= swap_bit(r, c, w).1 < 16,
        forall|u: int|
            #![trigger odd_element(swap_bit(r, c, w).0, u)]
            is_width(u) ==> odd_element(swap_bit(r, c, w).0, u) == (if u == w {
                odd_element(c, u)
            } else {
                odd_element(r, u)
            }),
        forall|u: int|
            #![trigger odd_element(swap_bit(r, c, w).1, u)]
            is_width(u) ==> odd_element(swap_bit(r, c, w).1, u) == (if u == w {
                odd_element(r, u)
            } else {
                odd_element(c, u)
            }),
{
    assert forall|u: int| is_width(u) implies #[trigger] odd_element(swap_bit(r, c, w).0, u) == (
    if u == w {
        odd_element(c, u)
    } else {
        odd_element(r, u)
    }) by {
        lemma_flip_bit(r, w, u);
    }
    assert forall|u: int| is_width(u) implies #[trigger] odd_element(swap_bit(r, c, w).1, u) == (
    if u == w {
        odd_element(r, u)
    } else {
        odd_element(c, u)
    }) by {
        lemma_flip_bit(c, w, u);
    }
    lemma_flip_bit(r, w, w);
    lemma_flip_bit(c, w, w);
}

/// Trading the bits of every weight exchanges row and column.
proof fn lemma_swap_all(i: int, j: int)
    requires
        0 <= i < 16,
        0 <= j < 16,
    ensures
        ({
            let (i3, j3) = swap_bit(i, j, 8);
            let (i2, j2) = swap_bit(i3, j3, 4);
            let (i1, j1) = swap_bit(i2, j2, 2);
            let (i0, j0) = swap_bit(i1, j1, 1);
            &&& 0 <= i3 < 16 && 0 <= j3 < 16
            &&& 0 <= i2 < 16 && 0 <= j2 < 16
            &&& 0 <= i1 < 16 && 0 <= j1 < 16
            &&& i0 == j && j0 == i
        }),
{
    let (i3, j3) = swap_bit(i, j, 8);
    let (i2, j2) = swap_bit(i3, j3, 4);
    let (i1, j1) = swap_bit(i2, j2, 2);
    let (i0, j0) = swap_bit(i1, j1, 1);
    lemma_swap_bit(i, j, 8);
    lemma_swap_bit(i3, j3, 4);
    lemma_swap_bit(i2, j2, 2);
    lemma_swap_bit(i1, j1, 1);
    lemma_bits_decide(i0, j);
    lemma_bits_decide(j0, i);
}

/// 16x16 byte transpose: row `i` in, column `i` out.
pub fn transpose16(v: &mut [Register; 16])
    ensures
        forall|i: int, j: int|
            #![trigger final(v)@[i]@[j]]
            0 <= i < 16 && 0 <= j < 16 ==> final(v)@[i]@[j] == old(v)@[j]@[i],
{
    interleave_rows(v, 1);
    let ghost v1 = *v;
    interleave_rows(v, 2);
    let ghost v2 = *v;
    interleave_rows(v, 4);
    let ghost v3 = *v;
    interleave_rows(v, 8);
    proof {
        assert forall|i: int, j: int| #![trigger v@[i]@[j]] 0 <= i < 16 && 0 <= j < 16 implies v@[i]@[j]
            == old(v)@[j]@[i] by {
            lemma_swap_all(i, j);
            let (i3, j3) = swap_bit(i, j, 8);
            let (i2, j2) = swap_bit(i3, j3, 4);
            let (i1, j1) = swap_bit(i2, j2, 2);
            assert(v@[i]@[j] == v3@[i3]@[j3]);
            assert(v3@[i3]@[j3] == v2@[i2]@[j2]);
            assert(v2@[i2]@[j2] == v1@[i1]@[j1]);
        }
    }
}

/// Writes the columns of a transposed tile from column `off` on.
fn store_columns(tile: &[Register; 16], columns: &mut Columns, off: usize)
    requires
        off + 16 <= 32,
    ensures
        forall|p: int|
            0 <= p < 32 ==> #[trigger] final(columns)@[p] == (if off <= p < off + 16 {
                tile@[p - off]
            } else {
                old(columns)@[p]
            }),
{
    let mut k: usize = 0;
    while k < 16
        invariant
            k <= 16,
            off + 16 <= 32,
            forall|p: int|
                0 <= p < 32 ==> #[trigger] columns@[p] == (if off <= p < off + k {
                    tile@[p - off]
                } else {
                    old(columns)@[p]
                }),
        decreases 16 - k,
    {
        columns[off + k] = tile[k];
        k = k + 1;
    }
}

/// Transposes the sixteen rows from `j` on, tile by tile, into columns.
fn load_columns(fmt: &FormatSpec, data: &[u8], j: usize, columns: &mut Columns)
    requires
        fmt.wf(),
        (j + 15) * fmt.width + 32 <= data.len(),
    ensures
        transposed(final(columns)@, data@, fmt.width as int, j as int, reach(fmt)),
{
    let w: usize = fmt.width;
    let mut t: [Register; 16] = load_tile(data, w, j, 0);
    transpose16(&mut t);
    store_columns(&t, columns, 0);
    let mut t: [Register; 16] = load_tile(data, w, j, 8);
    transpose16(&mut t);
    store_columns(&t, columns, 8);
    if fmt.needs_tile2 {
        let mut t: [Register; 16] = load_tile(data, w, j, 16);
        transpose16(&mut t);
        store_columns(&t, columns, 16);
    }
}

/// Combines the digits at the positions into one number per lane, modulo 2^16. The lanes run in
/// two halves of eight.
pub fn comb16(columns: &Columns, positions: &[usize], zero: &Register) -> (values: [u16; 16])
    requires
        forall|i: int| 0 <= i < positions@.len() ==> #[trigger] positions@[i] < 32,
    ensures
        combined16(columns@, positions@, zero@, values@),
{
    let mut lo: [u16; 8] = [0u16; 8];
    let mut hi: [u16; 8] = [0u16; 8];
    let mut k: usize = 0;
    while k < positions.len()
        invariant
            k <= positions@.len(),
            forall|i: int| 0 <= i < positions@.len() ==> #[trigger] positions@[i] < 32,
            forall|r: int|
                0 <= r < 8 ==> #[trigger] lo@[r] == decimal(
                    lane_values(columns@, positions@.subrange(0, k as int), zero@, r),
                ) % 0x1_0000,
            forall|r: int|
                0 <= r < 8 ==> #[trigger] hi@[r] == decimal(
                    lane_values(columns@, positions@.subrange(0, k as int), zero@, 8 + r),
                ) % 0x1_0000,
        decreases positions@.len() - k,
    {
        let d: Register = subtract(&columns[positions[k]], zero);
        let ghost prefix: Seq<usize> = positions@.subrange(0, k as int);
        let ghost (lo0, hi0) = (lo@, hi@);
        accumulate16(&mut lo, &d, 0);
        accumulate16(&mut hi, &d, 8);
        proof {
            assert forall|r: int| 0 <= r < 8 implies #[trigger] lo@[r] == decimal(
                lane_values(columns@, positions@.subrange(0, k + 1), zero@, r),
            ) % 0x1_0000 by {
                lemma_lane_step(columns@, positions@, zero@, r, k as int);
                lemma_wrap16(decimal(lane_values(columns@, prefix, zero@, r)), d@[r] as int);
                assert(lo@[r] == (lo0[r] * 10 + d@[0 + r]) % 0x1_0000);
            }
            assert forall|r: int| 0 <= r < 8 implies #[trigger] hi@[r] == decimal(
                lane_values(columns@, positions@.subrange(0, k + 1), zero@, 8 + r),
            ) % 0x1_0000 by {
                lemma_lane_step(columns@, positions@, zero@, 8 + r, k as int);
                lemma_wrap16(
                    decimal(lane_values(columns@, prefix, zero@, 8 + r)),
                    d@[8 + r] as int,
                );
                assert(hi@[r] == (hi0[r] * 10 + d@[8 + r]) % 0x1_0000);
            }
        }
        k = k + 1;
    }
    assert(positions@.subrange(0, k as int) =~= positions@);
    let mut values: [u16; 16] = [0u16; 16];
    let mut r: usize = 0;
    while r < 8
        invariant
            r <= 8,
            forall|i: int| 0 <= i < r ==> #[trigger] values@[i] == lo@[i],
            forall|i: int| 8 <= i < 8 + r ==> #[trigger] values@[i] == hi@[i - 8],
        decreases 8 - r,
    {
        values[r] = lo[r];
        values[8 + r] = hi[r];
        r = r + 1;
    }
    values
}

/// Combines the digits at the positions into one number per lane, modulo 2^32. The lanes run in
/// four quarters of four.
pub fn comb32(columns: &Columns, positions: &[usize], zero: &Register) -> (values: [u32; 16])
    requires
        forall|i: int| 0 <= i < positions@.len() ==> #[trigger] positions@[i] < 32,
    ensures
        combined32(columns@, positions@, zero@, values@),
{
    let mut values: [u32; 16] = [0u32; 16];
    let mut q: usize = 0;
    while q < 4
        invariant
            q <= 4,
            forall|i: int| 0 <= i < positions@.len() ==> #[trigger] positions@[i] < 32,
            forall|r: int|
                0 <= r < 4 * q ==> #[trigger] values@[r] == decimal(
                    lane_values(columns@, positions@, zero@, r),
                ) % 0x1_0000_0000,
        decreases 4 - q,
    {
        let quarter: [u32; 4] = comb32_quarter(columns, positions, zero, q * 4);
        let mut r: usize = 0;
        while r < 4
            invariant
                r <= 4,
                q < 4,
                forall|i: int|
                    0 <= i < 4 ==> #[trigger] quarter@[i] == decimal(
                        lane_values(columns@, positions@, zero@, q * 4 + i),
                    ) % 0x1_0000_0000,
                forall|i: int|
                    0 <= i < 4 * q + r ==> #[trigger] values@[i] == decimal(
                        lane_values(columns@, positions@, zero@, i),
                    ) % 0x1_0000_0000,
            decreases 4 - r,
        {
            values[q * 4 + r] = quarter[r];
            r = r + 1;
        }
        q = q + 1;
    }
    values
}

/// The numbers of the four lanes from `at` on.
fn comb32_quarter(columns: &Columns, positions: &[usize], zero: &Register, at: usize) -> (values:
    [u32; 4])
    requires
        at + 4 <= 16,
        forall|i: int| 0 <= i < positions@.len() ==> #[trigger] positions@[i] < 32,
    ensures
        forall|r: int|
            0 <= r < 4 ==> #[trigger] values@[r] == decimal(
                lane_values(columns@, positions@, zero@, at + r),
            ) % 0x1_0000_0000,
{
    let mut acc: [u32; 4] = [0u32; 4];
    let mut k: usize = 0;
    while k < positions.len()
        invariant
            k <= positions@.len(),
            at + 4 <= 16,
            forall|i: int| 0 <= i < positions@.len() ==> #[trigger] positions@[i] < 32,
            forall|r: int|
                0 <= r < 4 ==> #[trigger] acc@[r] == decimal(
                    lane_values(columns@, positions@.subrange(0, k as int), zero@, at + r),
                ) % 0x1_0000_0000,
        decreases positions@.len() - k,
    {
        let d: Register = subtract(&columns[positions[k]], zero);
        let ghost prefix: Seq<usize> = positions@.subrange(0, k as int);
        let ghost acc0 = acc@;
        accumulate32(&mut acc, &d, at);
        proof {
            assert forall|r: int| 0 <= r < 4 implies #[trigger] acc@[r] == decimal(
                lane_values(columns@, positions@.subrange(0, k + 1), zero@, at + r),
            ) % 0x1_0000_0000 by {
                lemma_lane_step(columns@, positions@, zero@, at + r, k as int);
                lemma_wrap32(
                    decimal(lane_values(columns@, prefix, zero@, at + r)),
                    d@[at + r] as int,
                );
                assert(acc@[r] == (acc0[r] * 10 + d@[at + r]) % 0x1_0000_0000);
            }
        }
        k = k + 1;
    }
    assert(positions@.subrange(0, k as int) =~= positions@);
    acc
}

/// Clears the lanes of a mask that lack a digit at one of the positions.
fn mask_digits(columns: &Columns, positions: &[usize], ok: Register) -> (out: Register)
    requires
        forall|i: int| 0 <= i < positions@.len() ==> #[trigger] positions@[i] < 32,
        forall|r: int| 0 <= r < 16 ==> #[trigger] ok@[r] == 0 || ok@[r] == 0xff,
    ensures
        forall|r: int|
            0 <= r < 16 ==> #[trigger] out@[r] == mask(
                ok@[r] == 0xff && lane_digits(columns@, positions@, r),
            ),
{
    let zero: Register = splat(0x30);
    let nine: Register = splat(9);
    let mut out: Register = ok;
    let mut k: usize = 0;
    while k < positions.len()
        invariant
            k <= positions@.len(),
            forall|i: int| 0 <= i < positions@.len() ==> #[trigger] positions@[i] < 32,
            forall|r: int| 0 <= r < 16 ==> #[trigger] zero@[r] == 0x30,
            forall|r: int| 0 <= r < 16 ==> #[trigger] nine@[r] == 9,
            forall|r: int|
                0 <= r < 16 ==> #[trigger] out@[r] == mask(
                    ok@[r] == 0xff && lane_digits(columns@, positions@.subrange(0, k as int), r),
                ),
        decreases positions@.len() - k,
    {
        let d: Register = subtract(&columns[positions[k]], &zero);
        let le: Register = at_most_mask(&d, &nine);
        out = both(&out, &le);
        proof {
            assert forall|r: int| 0 <= r < 16 implies #[trigger] out@[r] == mask(
                ok@[r] == 0xff && lane_digits(columns@, positions@.subrange(0, k + 1), r),
            ) by {
                lemma_more_digits(columns@, positions@, k as int, r);
                lemma_masks(
                    ok@[r] == 0xff && lane_digits(columns@, positions@.subrange(0, k as int), r),
                    d@[r] <= 9,
                );
            }
        }
        k = k + 1;
    }
    assert(positions@.subrange(0, k as int) =~= positions@);
    out
}

/// All ones in the lanes whose separators and digits are where the format wants them.
fn written_mask(fmt: &FormatSpec, columns: &Columns) -> (ok: Register)
    requires
        fmt.wf(),
    ensures
        forall|r: int| 0 <= r < 16 ==> #[trigger] ok@[r] == mask(lane_written(columns@, fmt, r)),
{
    let ok: Register = separator_mask(fmt, columns);
    let ok: Register = mask_digits(columns, fmt.year.as_slice(), ok);
    let ok: Register = mask_digits(columns, fmt.mon.as_slice(), ok);
    let ok: Register = mask_digits(columns, fmt.day.as_slice(), ok);
    let ok: Register = mask_digits(columns, fmt.hour.as_slice(), ok);
    let ok: Register = mask_digits(columns, fmt.min.as_slice(), ok);
    let ok: Register = mask_digits(columns, fmt.sec.as_slice(), ok);
    mask_digits(columns, &fmt.frac[0..fmt.frac_len], ok)
}

/// Parses `n` rows of a fixed-stride buffer, sixteen at a time as long as whole tiles stay inside
/// the buffer. Stops at the first block or row that does not parse.
pub fn parse_all(fmt: &FormatSpec, data: &[u8], n: usize, out: &mut [i64]) -> (ok: bool)
    requires
        fmt.wf(),
        n * fmt.width <= data.len(),
        n <= old(out)@.len(),
    ensures
        parses_rows(fmt, data@, n as int, old(out)@, ok, final(out)@),
{
    let w: usize = fmt.width;
    let zero: Register = splat(0x30);
    let safe: usize = if data.len() >= 32 {
        (data.len() - 32) / w + 1
    } else {
        0
    };
    let least: usize = if safe <= n {
        safe
    } else {
        n
    };
    let full: usize = (least / 16) * 16;
    let mut columns: Columns = [[0u8; 16]; 32];
    let mut j: usize = 0;
    while j < full
        invariant
            fmt.wf(),
            w == fmt.width,
            forall|r: int| 0 <= r < 16 ==> #[trigger] zero@[r] == 0x30,
            n <= old(out)@.len(),
            full == blocked_rows(data@.len() as int, w as int, n as int),
            full <= n,
            full % 16 == 0,
            j <= full,
            j % 16 == 0,
            filled(fmt, data@, j as int, old(out)@, out@),
        decreases full - j,
    {
        proof {
            lemma_blocked_rows(data@.len() as int, w as int, n as int, j as int);
        }
        load_columns(fmt, data, j, &mut columns);
        let ok: Register = written_mask(fmt, &columns);
        if least_lane(&ok) != 0xff {
            proof {
                let r: int = choose|r: int| 0 <= r < 16 && #[trigger] ok@[r] != 0xff;
                lemma_lane_written(columns@, fmt, data@, j as int, r);
                lemma_stop_at_block(fmt, data@, n as int, j as int, r, old(out)@, out@);
            }
            return false;
        }
        let block: Block = Block {
            year: comb16(&columns, fmt.year.as_slice(), &zero),
            mon: comb16(&columns, fmt.mon.as_slice(), &zero),
            day: comb16(&columns, fmt.day.as_slice(), &zero),
            hour: comb16(&columns, fmt.hour.as_slice(), &zero),
            min: comb16(&columns, fmt.min.as_slice(), &zero),
            sec: comb16(&columns, fmt.sec.as_slice(), &zero),
            frac: comb32(&columns, &fmt.frac[0..fmt.frac_len], &zero),
        };
        let ghost middle = out@;
        proof {
            assert forall|r: int| 0 <= r < 16 implies #[trigger] lane_written(columns@, fmt, r) by {
                assert(ok@[r] == mask(lane_written(columns@, fmt, r)));
            }
            lemma_block_holds(fmt, data@, j as int, columns@, zero@, &block);
        }
        let stored: bool = store_block(&block, fmt.frac_scale, j, out);
        proof {
            let stop: int = choose|stop: int|
                (stored <==> stop == 16) && #[trigger] stored_lanes(
                    &block,
                    fmt.frac_scale,
                    j as int,
                    stop,
                    middle,
                    out@,
                );
            lemma_block_stored(
                fmt,
                data@,
                n as int,
                j as int,
                &block,
                stop,
                old(out)@,
                middle,
                out@,
            );
        }
        if !stored {
            return false;
        }
        j = j + 16;
    }
    let ghost middle = out@;
    let ok: bool = parse_tail(fmt, data, j, n, out);
    proof {
        lemma_tail_completes(fmt, data@, j as int, n as int, old(out)@, middle, ok, out@);
    }
    ok
}

} // verus!
