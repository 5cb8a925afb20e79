//! What every kernel has in common: how a buffer of fixed-stride records is cut into rows and
//! blocks, what the lanes of a block hold, and the scalar work on them.

use crate::calendar::{civil_nanos, nanos_from_fields, valid, valid_fields, NANOS_PER_SEC};
use crate::format::{lemma_powers_of_ten, separators_match, FormatSpec};
use crate::lanes::{
    both, byte_minus, equal_mask, load, mask, odd_element, splat, Register,
};
use crate::record::{
    all_digits, decimal, digit_values, field, is_digit, lemma_field_range, lemma_fraction_range,
    parse_one, parse_record, well_written,
};
use vstd::arithmetic::div_mod::lemma_mod_multiples_vanish;
use vstd::arithmetic::power::pow;
use vstd::prelude::*;

verus! {

/// The transposed bytes of sixteen records: lane `r` of column `p` is byte `p` of record `r`.
pub type Columns = [Register; 32];

/// Row `i` of a buffer of records that are `w` bytes long.
pub open spec fn row(data: Seq<u8>, w: int, i: int) -> Seq<u8> {
    data.subrange(i * w, i * w + w)
}

/// The rows that are parsed sixteen at a time: as many whole blocks of rows as can be read in
/// 32-byte tiles without leaving the buffer.
pub open spec fn blocked_rows(len: int, w: int, n: int) -> int {
    let safe: int = if len >= 32 {
        (len - 32) / w + 1
    } else {
        0
    };
    (if safe <= n {
        safe
    } else {
        n
    }) / 16 * 16
}

/// The first `k` values are those of the rows, the others are as before.
pub open spec fn filled(
    fmt: &FormatSpec,
    data: Seq<u8>,
    k: int,
    before: Seq<i64>,
    after: Seq<i64>,
) -> bool {
    &&& after.len() == before.len()
    &&& forall|i: int|
        0 <= i < k ==> parse_record(row(data, fmt.width as int, i), fmt) == Some(
            #[trigger] after[i] as int,
        )
    &&& forall|i: int| k <= i < after.len() ==> #[trigger] after[i] == before[i]
}

/// Row `f` is the first that does not parse.
pub open spec fn first_bad_row(fmt: &FormatSpec, data: Seq<u8>, f: int) -> bool {
    &&& parse_record(row(data, fmt.width as int, f), fmt) is None
    &&& forall|i: int|
        0 <= i < f ==> #[trigger] parse_record(row(data, fmt.width as int, i), fmt) is Some
}

/// How many values stand when row `f` is the first that does not parse: a block with a badly
/// written row is left untouched, and otherwise the values of all earlier rows stand.
pub open spec fn kept_rows(fmt: &FormatSpec, data: Seq<u8>, n: int, f: int) -> int {
    let w: int = fmt.width as int;
    if f < blocked_rows(data.len() as int, w, n) && exists|r: int|
        0 <= r < 16 && !#[trigger] well_written(row(data, w, f / 16 * 16 + r), fmt) {
        f / 16 * 16
    } else {
        f
    }
}

/// What parsing `n` rows does: whether all of them parse, and what it leaves in the output.
pub open spec fn parses_rows(
    fmt: &FormatSpec,
    data: Seq<u8>,
    n: int,
    before: Seq<i64>,
    ok: bool,
    after: Seq<i64>,
) -> bool {
    &&& ok <==> forall|i: int|
        0 <= i < n ==> #[trigger] parse_record(row(data, fmt.width as int, i), fmt) is Some
    &&& ok ==> filled(fmt, data, n, before, after)
    &&& !ok ==> exists|f: int|
        0 <= f < n && #[trigger] first_bad_row(fmt, data, f) && filled(
            fmt,
            data,
            kept_rows(fmt, data, n, f),
            before,
            after,
        )
}

/// The outcome is one and the same whichever kernel parses the rows: rows and earlier output decide
/// whether all rows parse and what is left in the output.
pub proof fn law_outcome_determined(
    fmt: &FormatSpec,
    data: Seq<u8>,
    n: int,
    before: Seq<i64>,
    ok1: bool,
    after1: Seq<i64>,
    ok2: bool,
    after2: Seq<i64>,
)
    requires
        parses_rows(fmt, data, n, before, ok1, after1),
        parses_rows(fmt, data, n, before, ok2, after2),
    ensures
        ok1 == ok2,
        after1 == after2,
{
    let w: int = fmt.width as int;
    let k: int = if ok1 {
        n
    } else {
        let f1: int = choose|f: int|
            0 <= f < n && #[trigger] first_bad_row(fmt, data, f) && filled(
                fmt,
                data,
                kept_rows(fmt, data, n, f),
                before,
                after1,
            );
        let f2: int = choose|f: int|
            0 <= f < n && #[trigger] first_bad_row(fmt, data, f) && filled(
                fmt,
                data,
                kept_rows(fmt, data, n, f),
                before,
                after2,
            );
        if f1 < f2 {
            assert(parse_record(row(data, w, f1), fmt) is Some);
        }
        if f2 < f1 {
            assert(parse_record(row(data, w, f2), fmt) is Some);
        }
        kept_rows(fmt, data, n, f1)
    };
    assert forall|i: int| 0 <= i < after1.len() implies after1[i] == after2[i] by {
        if i < k {
            assert(parse_record(row(data, w, i), fmt) == Some(after1[i] as int));
            assert(parse_record(row(data, w, i), fmt) == Some(after2[i] as int));
        }
    }
    assert(after1 =~= after2);
}

/// What parsing the rows from `from` on one at a time does: whether all of them parse, and the
/// values up to the first that does not.
pub open spec fn parses_tail(
    fmt: &FormatSpec,
    data: Seq<u8>,
    from: int,
    n: int,
    before: Seq<i64>,
    ok: bool,
    after: Seq<i64>,
) -> bool {
    exists|f: int| #[trigger]
        stored_tail(fmt, data, from, f, before, after) && f <= n && (ok <==> f == n) && (!ok
            ==> parse_record(row(data, fmt.width as int, f), fmt) is None)
}

/// The rows from `from` to `f` have their values in `after`; everything else is as before.
pub open spec fn stored_tail(
    fmt: &FormatSpec,
    data: Seq<u8>,
    from: int,
    f: int,
    before: Seq<i64>,
    after: Seq<i64>,
) -> bool {
    &&& from <= f
    &&& after.len() == before.len()
    &&& forall|i: int|
        from <= i < f ==> parse_record(row(data, fmt.width as int, i), fmt) == Some(
            #[trigger] after[i] as int,
        )
    &&& forall|i: int|
        0 <= i < after.len() && !(from <= i < f) ==> #[trigger] after[i] == before[i]
}

/// Parses the rows from `from` on, one at a time.
pub fn parse_tail(fmt: &FormatSpec, data: &[u8], from: usize, n: usize, out: &mut [i64]) -> (ok:
    bool)
    requires
        fmt.wf(),
        n * fmt.width <= data.len(),
        n <= old(out)@.len(),
        from <= n,
    ensures
        parses_tail(fmt, data@, from as int, n as int, old(out)@, ok, final(out)@),
{
    let w: usize = fmt.width;
    let mut j: usize = from;
    while j < n
        invariant
            fmt.wf(),
            w == fmt.width,
            n * w <= data.len(),
            n <= out@.len(),
            from <= j <= n,
            stored_tail(fmt, data@, from as int, j as int, old(out)@, out@),
        decreases n - j,
    {
        proof {
            lemma_row_inside(j as int, w as int, n as int);
        }
        let b: &[u8] = &data[j * w..j * w + w];
        assert(b@ == row(data@, w as int, j as int));
        match parse_one(b, fmt) {
            Some(v) => {
                out[j] = v;
            },
            None => {
                return false;
            },
        }
        j = j + 1;
    }
    true
}

/// A row ends where the next begins.
pub proof fn lemma_row_inside(i: int, w: int, n: int)
    requires
        0 <= i < n,
        0 <= w,
    ensures
        0 <= i * w,
        i * w + w <= n * w,
{
    assert(0 <= i * w && i * w + w <= n * w) by (nonlinear_arith)
        requires
            0 <= i < n,
            0 <= w,
    ;
}

/// The columns that a format reads: the first two tiles, or all three.
pub open spec fn reach(fmt: &FormatSpec) -> int {
    if fmt.needs_tile2 {
        32
    } else {
        24
    }
}

/// The columns before `upto` hold the sixteen rows from `j` on.
pub open spec fn transposed(columns: Seq<Register>, data: Seq<u8>, w: int, j: int, upto: int) -> bool {
    forall|p: int, r: int|
        #![trigger columns[p]@[r]]
        0 <= p < upto && 0 <= r < 16 ==> columns[p]@[r] == data[(j + r) * w + p]
}

/// Sixteen bytes of each of the sixteen rows from `j` on, `off` bytes into the row.
pub fn load_tile(data: &[u8], w: usize, j: usize, off: usize) -> (tile: [Register; 16])
    requires
        0 < w,
        (j + 15) * w + off + 16 <= data.len(),
    ensures
        forall|r: int, p: int|
            #![trigger tile@[r]@[p]]
            0 <= r < 16 && 0 <= p < 16 ==> tile@[r]@[p] == data@[(j + r) * w + (off + p)],
{
    let mut tile: [Register; 16] = [[0u8; 16]; 16];
    let mut r: usize = 0;
    while r < 16
        invariant
            r <= 16,
            0 < w,
            (j + 15) * w + off + 16 <= data.len(),
            forall|i: int, p: int|
                #![trigger tile@[i]@[p]]
                0 <= i < r && 0 <= p < 16 ==> tile@[i]@[p] == data@[(j + i) * w + (off + p)],
        decreases 16 - r,
    {
        proof {
            lemma_block_row_inside(j as int, r as int, w as int);
        }
        let bytes: Register = load(data, (j + r) * w + off);
        tile[r] = bytes;
        r = r + 1;
    }
    tile
}

/// The rows of a block begin no later than its last row.
pub proof fn lemma_block_row_inside(j: int, r: int, w: int)
    requires
        0 <= j,
        0 <= r < 16,
        0 <= w,
    ensures
        0 <= (j + r) * w <= (j + 15) * w,
        w > 0 ==> j + r <= (j + r) * w,
{
    assert(0 <= (j + r) * w <= (j + 15) * w && (w > 0 ==> j + r <= (j + r) * w)) by (
    nonlinear_arith)
        requires
            0 <= j,
            0 <= r < 16,
            0 <= w,
    ;
}

/// The smaller of the two registers that are interleaved at distance `w`.
pub open spec fn pair_low(r: int, w: int) -> int {
    if odd_element(r, w) {
        r - w
    } else {
        r
    }
}

/// The digits that lane `r` of the columns holds at the positions, counted from `zero`.
pub open spec fn lane_values(
    columns: Seq<Register>,
    positions: Seq<usize>,
    zero: Seq<u8>,
    r: int,
) -> Seq<int> {
    Seq::new(positions.len(), |i: int| byte_minus(columns[positions[i] as int]@[r], zero[r]))
}

/// One more position multiplies a lane's number by ten and adds the digit.
pub proof fn lemma_lane_step(
    columns: Seq<Register>,
    positions: Seq<usize>,
    zero: Seq<u8>,
    r: int,
    k: int,
)
    requires
        0 <= k < positions.len(),
    ensures
        decimal(lane_values(columns, positions.subrange(0, k + 1), zero, r)) == decimal(
            lane_values(columns, positions.subrange(0, k), zero, r),
        ) * 10 + byte_minus(columns[positions[k] as int]@[r], zero[r]),
{
    let longer: Seq<int> = lane_values(columns, positions.subrange(0, k + 1), zero, r);
    assert(longer.drop_last() =~= lane_values(columns, positions.subrange(0, k), zero, r));
}

/// Lane `r` holds the first `s` separators.
pub open spec fn lane_separators_upto(
    columns: Seq<Register>,
    fmt: &FormatSpec,
    s: int,
    r: int,
) -> bool {
    forall|k: int|
        0 <= k < s ==> columns[(#[trigger] fmt.seps@[k]).0 as int]@[r] == fmt.seps@[k].1
}

/// Lane `r` holds a digit at every one of the positions.
pub open spec fn lane_digits(columns: Seq<Register>, positions: Seq<usize>, r: int) -> bool {
    forall|i: int|
        0 <= i < positions.len() ==> is_digit(columns[(#[trigger] positions[i]) as int]@[r])
}

/// Lane `r` holds separators and digits where the format wants them.
pub open spec fn lane_written(columns: Seq<Register>, fmt: &FormatSpec, r: int) -> bool {
    &&& lane_separators_upto(columns, fmt, fmt.sep_len as int, r)
    &&& lane_digits(columns, fmt.year@, r)
    &&& lane_digits(columns, fmt.mon@, r)
    &&& lane_digits(columns, fmt.day@, r)
    &&& lane_digits(columns, fmt.hour@, r)
    &&& lane_digits(columns, fmt.min@, r)
    &&& lane_digits(columns, fmt.sec@, r)
    &&& lane_digits(columns, fmt.frac_positions(), r)
}

/// One more position adds one more digit to look at.
pub proof fn lemma_more_digits(columns: Seq<Register>, positions: Seq<usize>, k: int, r: int)
    requires
        0 <= k < positions.len(),
    ensures
        lane_digits(columns, positions.subrange(0, k + 1), r) == (lane_digits(
            columns,
            positions.subrange(0, k),
            r,
        ) && byte_minus(columns[positions[k] as int]@[r], 0x30) <= 9),
{
    let longer: Seq<usize> = positions.subrange(0, k + 1);
    let shorter: Seq<usize> = positions.subrange(0, k);
    assert forall|i: int| 0 <= i < k implies longer[i] == #[trigger] shorter[i] by {}
    assert(longer[k] == positions[k]);
    if lane_digits(columns, longer, r) {
        assert forall|i: int| 0 <= i < shorter.len() implies is_digit(
            columns[(#[trigger] shorter[i]) as int]@[r],
        ) by {
            assert(is_digit(columns[longer[i] as int]@[r]));
        }
    }
}

/// Conjunction of masks is the mask of the conjunction.
pub proof fn lemma_masks(p: bool, q: bool)
    ensures
        mask(p) & mask(q) == mask(p && q),
{
    assert(0xffu8 & 0xffu8 == 0xffu8) by (bit_vector);
    assert(0xffu8 & 0u8 == 0u8) by (bit_vector);
    assert(0u8 & 0xffu8 == 0u8) by (bit_vector);
    assert(0u8 & 0u8 == 0u8) by (bit_vector);
}

/// All ones in the lanes whose separators are where the format wants them.
pub fn separator_mask(fmt: &FormatSpec, columns: &Columns) -> (ok: Register)
    requires
        fmt.wf(),
    ensures
        forall|r: int|
            0 <= r < 16 ==> #[trigger] ok@[r] == mask(
                lane_separators_upto(columns@, fmt, fmt.sep_len as int, r),
            ),
{
    let mut ok: Register = splat(0xff);
    let mut s: usize = 0;
    while s < fmt.sep_len
        invariant
            fmt.wf(),
            s <= fmt.sep_len,
            forall|r: int|
                0 <= r < 16 ==> #[trigger] ok@[r] == mask(
                    lane_separators_upto(columns@, fmt, s as int, r),
                ),
        decreases fmt.sep_len - s,
    {
        let (p, b) = fmt.seps[s];
        let wanted: Register = splat(b);
        let eq: Register = equal_mask(&columns[p], &wanted);
        ok = both(&ok, &eq);
        proof {
            assert forall|r: int| 0 <= r < 16 implies #[trigger] ok@[r] == mask(
                lane_separators_upto(columns@, fmt, s + 1, r),
            ) by {
                lemma_masks(
                    lane_separators_upto(columns@, fmt, s as int, r),
                    columns@[p as int]@[r] == b,
                );
            }
        }
        s = s + 1;
    }
    ok
}

/// A lane of the transposed block is the row it was loaded from.
pub proof fn lemma_lane_is_row(
    columns: Seq<Register>,
    fmt: &FormatSpec,
    data: Seq<u8>,
    j: int,
    r: int,
)
    requires
        fmt.wf(),
        0 <= j,
        0 <= r < 16,
        (j + 15) * fmt.width + 32 <= data.len(),
        transposed(columns, data, fmt.width as int, j, reach(fmt)),
    ensures
        row(data, fmt.width as int, j + r).len() == fmt.width,
        forall|p: int|
            #![trigger columns[p]@[r]]
            0 <= p < fmt.width ==> columns[p]@[r] == row(data, fmt.width as int, j + r)[p],
{
    lemma_block_row_inside(j, r, fmt.width as int);
}

/// A lane is well written exactly when its row is.
pub proof fn lemma_lane_written(
    columns: Seq<Register>,
    fmt: &FormatSpec,
    data: Seq<u8>,
    j: int,
    r: int,
)
    requires
        fmt.wf(),
        0 <= j,
        0 <= r < 16,
        (j + 15) * fmt.width + 32 <= data.len(),
        transposed(columns, data, fmt.width as int, j, reach(fmt)),
    ensures
        lane_written(columns, fmt, r) == well_written(row(data, fmt.width as int, j + r), fmt),
{
    lemma_lane_is_row(columns, fmt, data, j, r);
    let record: Seq<u8> = row(data, fmt.width as int, j + r);
    assert(lane_separators_upto(columns, fmt, fmt.sep_len as int, r) == separators_match(record, fmt));
    lemma_lane_digits(columns, fmt.year@, record, r);
    lemma_lane_digits(columns, fmt.mon@, record, r);
    lemma_lane_digits(columns, fmt.day@, record, r);
    lemma_lane_digits(columns, fmt.hour@, record, r);
    lemma_lane_digits(columns, fmt.min@, record, r);
    lemma_lane_digits(columns, fmt.sec@, record, r);
    lemma_lane_digits(columns, fmt.frac_positions(), record, r);
}

/// The digits and the number that a lane holds are those of its row.
pub proof fn lemma_lane_digits(
    columns: Seq<Register>,
    positions: Seq<usize>,
    record: Seq<u8>,
    r: int,
)
    requires
        forall|i: int| 0 <= i < positions.len() ==> (#[trigger] positions[i]) < record.len(),
        forall|p: int|
            #![trigger columns[p]@[r]]
            0 <= p < record.len() ==> columns[p]@[r] == record[p],
    ensures
        lane_digits(columns, positions, r) == all_digits(record, positions),
{
}

/// The number that a lane of digits holds is the field of its row.
pub proof fn lemma_lane_field(
    columns: Seq<Register>,
    positions: Seq<usize>,
    zero: Seq<u8>,
    record: Seq<u8>,
    r: int,
)
    requires
        zero[r] == 0x30,
        all_digits(record, positions),
        forall|p: int|
            #![trigger columns[p]@[r]]
            0 <= p < record.len() ==> columns[p]@[r] == record[p],
    ensures
        decimal(lane_values(columns, positions, zero, r)) == field(record, positions),
        0 <= field(record, positions) < pow(10, positions.len()),
{
    lemma_field_range(record, positions);
    assert(lane_values(columns, positions, zero, r) =~= digit_values(record, positions));
}

/// The numbers of sixteen records, one lane each.
pub struct Block {
    pub year: [u16; 16],
    pub mon: [u16; 16],
    pub day: [u16; 16],
    pub hour: [u16; 16],
    pub min: [u16; 16],
    pub sec: [u16; 16],
    pub frac: [u32; 16],
}

impl Block {
    /// Lane `r` is a valid date and time.
    pub open spec fn lane_dated(&self, r: int) -> bool {
        valid_fields(
            self.year@[r] as int,
            self.mon@[r] as int,
            self.day@[r] as int,
            self.hour@[r] as int,
            self.min@[r] as int,
            self.sec@[r] as int,
        )
    }

    /// Nanoseconds since the epoch of lane `r`, its fraction in units of `scale` nanoseconds.
    pub open spec fn lane_nanos(&self, scale: i64, r: int) -> int {
        civil_nanos(
            self.year@[r] as int,
            self.mon@[r] as int,
            self.day@[r] as int,
            self.hour@[r] as int,
            self.min@[r] as int,
            self.sec@[r] as int,
            self.frac@[r] * scale,
        )
    }

    /// Lane `r` holds the fields of the record.
    pub open spec fn lane_holds(&self, fmt: &FormatSpec, record: Seq<u8>, r: int) -> bool {
        &&& self.year@[r] == field(record, fmt.year@)
        &&& self.mon@[r] == field(record, fmt.mon@)
        &&& self.day@[r] == field(record, fmt.day@)
        &&& self.hour@[r] == field(record, fmt.hour@)
        &&& self.min@[r] == field(record, fmt.min@)
        &&& self.sec@[r] == field(record, fmt.sec@)
        &&& self.frac@[r] == field(record, fmt.frac_positions())
    }
}

/// The lanes before `stop`, and no further lane, were valid and have their timestamps in `after`
/// from `j` on; everything else is as before.
pub open spec fn stored_lanes(
    block: &Block,
    scale: i64,
    j: int,
    stop: int,
    before: Seq<i64>,
    after: Seq<i64>,
) -> bool {
    &&& 0 <= stop <= 16
    &&& stop < 16 ==> !block.lane_dated(stop)
    &&& forall|r: int| 0 <= r < stop ==> #[trigger] block.lane_dated(r)
    &&& forall|i: int|
        j <= i < j + stop ==> #[trigger] after[i] == block.lane_nanos(scale, i - j)
    &&& forall|i: int|
        0 <= i < after.len() && !(j <= i < j + stop) ==> #[trigger] after[i] == before[i]
}

/// Strict calendar validation of sixteen lanes and their timestamps, up to the first lane that is
/// no valid date and time.
pub fn store_block(block: &Block, scale: i64, j: usize, out: &mut [i64]) -> (ok: bool)
    requires
        j + 16 <= old(out)@.len(),
        forall|r: int| 0 <= r < 16 ==> 0 <= #[trigger] block.frac@[r] * scale < 1_000_000_000,
    ensures
        final(out)@.len() == old(out)@.len(),
        ok <==> forall|r: int| 0 <= r < 16 ==> #[trigger] block.lane_dated(r),
        exists|stop: int|
            (ok <==> stop == 16) && #[trigger] stored_lanes(
                block,
                scale,
                j as int,
                stop,
                old(out)@,
                final(out)@,
            ),
{
    let size: usize = out.len();
    let mut r: usize = 0;
    while r < 16
        invariant
            r <= 16,
            j + 16 <= size == out@.len(),
            out@.len() == old(out)@.len(),
            forall|i: int| 0 <= i < 16 ==> 0 <= #[trigger] block.frac@[i] * scale < NANOS_PER_SEC,
            forall|i: int| 0 <= i < r ==> #[trigger] block.lane_dated(i),
            forall|i: int|
                j <= i < j + r ==> #[trigger] out@[i] == block.lane_nanos(scale, i - j),
            forall|i: int|
                0 <= i < out@.len() && !(j <= i < j + r) ==> #[trigger] out@[i] == old(out)@[i],
        decreases 16 - r,
    {
        let (y, m, d) = (block.year[r] as u32, block.mon[r] as u32, block.day[r] as u32);
        let (hh, mi, ss) = (block.hour[r] as u32, block.min[r] as u32, block.sec[r] as u32);
        if !valid(y, m, d, hh, mi, ss) {
            assert(!block.lane_dated(r as int));
            assert(stored_lanes(block, scale, j as int, r as int, old(out)@, out@));
            return false;
        }
        let frac: u32 = block.frac[r];
        assert(0 <= block.frac@[r as int] * scale < NANOS_PER_SEC);
        out[j + r] = nanos_from_fields(y, m, d, hh, mi, ss, frac, scale);
        r = r + 1;
    }
    assert(stored_lanes(block, scale, j as int, 16, old(out)@, out@));
    true
}

/// Reducing modulo 2^16 before or after one more digit makes no difference.
pub proof fn lemma_wrap16(x: int, y: int)
    ensures
        ((x % 0x1_0000) * 10 + y) % 0x1_0000 == (x * 10 + y) % 0x1_0000,
{
    let low: int = (x % 0x1_0000) * 10 + y;
    let quotient: int = x / 0x1_0000;
    assert(x * 10 + y == 0x1_0000 * (10 * quotient) + low);
    lemma_mod_multiples_vanish(10 * quotient, low, 0x1_0000);
}

/// Reducing modulo 2^32 before or after one more digit makes no difference.
pub proof fn lemma_wrap32(x: int, y: int)
    ensures
        ((x % 0x1_0000_0000) * 10 + y) % 0x1_0000_0000 == (x * 10 + y) % 0x1_0000_0000,
{
    let low: int = (x % 0x1_0000_0000) * 10 + y;
    let quotient: int = x / 0x1_0000_0000;
    assert(x * 10 + y == 0x1_0000_0000 * (10 * quotient) + low);
    lemma_mod_multiples_vanish(10 * quotient, low, 0x1_0000_0000);
}

/// The blocked rows are whole blocks, no more than there are rows, and their tiles stay inside
/// the buffer.
pub proof fn lemma_blocked_rows(len: int, w: int, n: int, j: int)
    requires
        0 < w,
        0 <= n,
        0 <= len,
        0 <= j,
        j % 16 == 0,
        j < blocked_rows(len, w, n),
    ensures
        j + 16 <= blocked_rows(len, w, n) <= n,
        (j + 15) * w + 32 <= len,
{
    let safe: int = (len - 32) / w + 1;
    assert(len >= 32);
    assert(j + 16 <= safe);
    assert((j + 15) * w <= len - 32) by (nonlinear_arith)
        requires
            0 < w,
            len >= 32,
            j + 15 <= (len - 32) / w,
    ;
}

/// A lane whose numbers are those of a well-written record means what the record means.
pub proof fn lemma_lane_means(block: &Block, fmt: &FormatSpec, record: Seq<u8>, r: int)
    requires
        well_written(record, fmt),
        block.lane_holds(fmt, record, r),
    ensures
        parse_record(record, fmt) == (if block.lane_dated(r) {
            Some(block.lane_nanos(fmt.frac_scale, r))
        } else {
            None
        }),
{
}

/// Among rows of which one does not parse there is a first that does not.
proof fn lemma_first_bad_row(fmt: &FormatSpec, data: Seq<u8>, b: int) -> (f: int)
    requires
        0 <= b,
        parse_record(row(data, fmt.width as int, b), fmt) is None,
    ensures
        0 <= f <= b,
        first_bad_row(fmt, data, f),
    decreases b,
{
    if forall|i: int|
        0 <= i < b ==> #[trigger] parse_record(row(data, fmt.width as int, i), fmt) is Some {
        b
    } else {
        let i: int = choose|i: int|
            0 <= i < b && #[trigger] parse_record(row(data, fmt.width as int, i), fmt) is None;
        lemma_first_bad_row(fmt, data, i)
    }
}

/// A block with a badly written row ends the work with nothing of the block stored.
pub proof fn lemma_stop_at_block(
    fmt: &FormatSpec,
    data: Seq<u8>,
    n: int,
    j: int,
    r: int,
    before: Seq<i64>,
    after: Seq<i64>,
)
    requires
        0 <= j,
        j % 16 == 0,
        0 <= r < 16,
        j + 16 <= blocked_rows(data.len() as int, fmt.width as int, n) <= n,
        n <= before.len(),
        filled(fmt, data, j, before, after),
        !well_written(row(data, fmt.width as int, j + r), fmt),
    ensures
        parses_rows(fmt, data, n, before, false, after),
{
    let w: int = fmt.width as int;
    let f: int = lemma_first_bad_row(fmt, data, j + r);
    if f < j {
        assert(parse_record(row(data, w, f), fmt) == Some(after[f] as int));
    }
    assert(f / 16 * 16 == j);
    assert(!well_written(row(data, w, f / 16 * 16 + r), fmt));
    assert(parse_record(row(data, w, f), fmt) is None);
}

/// Storing the lanes of a well-written block extends the filled rows by the lanes stored; a lane
/// that was not stored is the first bad row and ends the work.
pub proof fn lemma_block_stored(
    fmt: &FormatSpec,
    data: Seq<u8>,
    n: int,
    j: int,
    block: &Block,
    stop: int,
    before: Seq<i64>,
    middle: Seq<i64>,
    after: Seq<i64>,
)
    requires
        0 <= j,
        j % 16 == 0,
        j + 16 <= blocked_rows(data.len() as int, fmt.width as int, n) <= n,
        n <= before.len(),
        filled(fmt, data, j, before, middle),
        after.len() == middle.len(),
        stored_lanes(block, fmt.frac_scale, j, stop, middle, after),
        forall|r: int|
            0 <= r < 16 ==> #[trigger] well_written(row(data, fmt.width as int, j + r), fmt),
        forall|r: int|
            0 <= r < 16 ==> #[trigger] block.lane_holds(
                fmt,
                row(data, fmt.width as int, j + r),
                r,
            ),
    ensures
        filled(fmt, data, j + stop, before, after),
        stop < 16 ==> parses_rows(fmt, data, n, before, false, after),
{
    let w: int = fmt.width as int;
    assert forall|i: int| 0 <= i < j + stop implies parse_record(row(data, w, i), fmt) == Some(
        #[trigger] after[i] as int,
    ) by {
        if i < j {
            assert(after[i] == middle[i]);
        } else {
            let r: int = i - j;
            assert(well_written(row(data, w, j + r), fmt));
            assert(block.lane_holds(fmt, row(data, w, j + r), r));
            assert(block.lane_dated(r));
            lemma_lane_means(block, fmt, row(data, w, j + r), r);
        }
    }
    if stop < 16 {
        let f: int = j + stop;
        assert(well_written(row(data, w, j + stop), fmt));
        assert(block.lane_holds(fmt, row(data, w, j + stop), stop));
        lemma_lane_means(block, fmt, row(data, w, j + stop), stop);
        assert forall|i: int| 0 <= i < f implies #[trigger] parse_record(
            row(data, w, i),
            fmt,
        ) is Some by {
            assert(parse_record(row(data, w, i), fmt) == Some(after[i] as int));
        }
        assert(first_bad_row(fmt, data, f));
        assert(f / 16 * 16 == j);
        assert(kept_rows(fmt, data, n, f) == f);
    }
}

/// Parsing the rows after the blocks one at a time completes the work.
pub proof fn lemma_tail_completes(
    fmt: &FormatSpec,
    data: Seq<u8>,
    from: int,
    n: int,
    before: Seq<i64>,
    middle: Seq<i64>,
    ok: bool,
    after: Seq<i64>,
)
    requires
        0 <= from <= n <= before.len(),
        from == blocked_rows(data.len() as int, fmt.width as int, n),
        filled(fmt, data, from, before, middle),
        parses_tail(fmt, data, from, n, middle, ok, after),
    ensures
        parses_rows(fmt, data, n, before, ok, after),
{
    let w: int = fmt.width as int;
    let f: int = choose|f: int| #[trigger]
        stored_tail(fmt, data, from, f, middle, after) && f <= n && (ok <==> f == n) && (!ok
            ==> parse_record(row(data, w, f), fmt) is None);
    assert forall|i: int| 0 <= i < f implies parse_record(row(data, w, i), fmt) == Some(
        #[trigger] after[i] as int,
    ) by {
        if i < from {
            assert(after[i] == middle[i]);
        }
    }
    assert forall|i: int| 0 <= i < f implies #[trigger] parse_record(row(data, w, i), fmt) is Some by {
        assert(parse_record(row(data, w, i), fmt) == Some(after[i] as int));
    }
    if !ok {
        assert(first_bad_row(fmt, data, f));
        assert(kept_rows(fmt, data, n, f) == f);
    }
}

/// The combined numbers of a well-written block are the fields of its rows.
pub proof fn lemma_block_holds(
    fmt: &FormatSpec,
    data: Seq<u8>,
    j: int,
    columns: Seq<Register>,
    zero: Seq<u8>,
    block: &Block,
)
    requires
        fmt.wf(),
        0 <= j,
        (j + 15) * fmt.width + 32 <= data.len(),
        transposed(columns, data, fmt.width as int, j, reach(fmt)),
        forall|r: int| 0 <= r < 16 ==> #[trigger] zero[r] == 0x30,
        forall|r: int| 0 <= r < 16 ==> #[trigger] lane_written(columns, fmt, r),
        combined(columns, fmt, zero, block),
    ensures
        forall|r: int|
            0 <= r < 16 ==> #[trigger] well_written(row(data, fmt.width as int, j + r), fmt),
        forall|r: int|
            0 <= r < 16 ==> #[trigger] block.lane_holds(
                fmt,
                row(data, fmt.width as int, j + r),
                r,
            ),
        forall|r: int|
            0 <= r < 16 ==> 0 <= #[trigger] block.frac@[r] * fmt.frac_scale < NANOS_PER_SEC,
{
    let w: int = fmt.width as int;
    assert forall|r: int| 0 <= r < 16 implies well_written(row(data, w, j + r), fmt)
        && #[trigger] block.lane_holds(fmt, row(data, w, j + r), r) && 0 <= block.frac@[r]
        * fmt.frac_scale < NANOS_PER_SEC by {
        let record: Seq<u8> = row(data, w, j + r);
        assert(lane_written(columns, fmt, r));
        lemma_lane_written(columns, fmt, data, j, r);
        lemma_lane_is_row(columns, fmt, data, j, r);
        lemma_powers_of_ten();
        lemma_lane_field(columns, fmt.year@, zero, record, r);
        lemma_lane_field(columns, fmt.mon@, zero, record, r);
        lemma_lane_field(columns, fmt.day@, zero, record, r);
        lemma_lane_field(columns, fmt.hour@, zero, record, r);
        lemma_lane_field(columns, fmt.min@, zero, record, r);
        lemma_lane_field(columns, fmt.sec@, zero, record, r);
        lemma_lane_field(columns, fmt.frac_positions(), zero, record, r);
        lemma_fraction_range(record, fmt);
    }
    assert forall|r: int| 0 <= r < 16 implies #[trigger] well_written(
        row(data, w, j + r),
        fmt,
    ) by {
        assert(block.lane_holds(fmt, row(data, w, j + r), r));
    }
    assert forall|r: int| 0 <= r < 16 implies 0 <= #[trigger] block.frac@[r] * fmt.frac_scale
        < NANOS_PER_SEC by {
        assert(block.lane_holds(fmt, row(data, w, j + r), r));
    }
}

/// Each number of the block combines the digits of its lane.
pub open spec fn combined(
    columns: Seq<Register>,
    fmt: &FormatSpec,
    zero: Seq<u8>,
    block: &Block,
) -> bool {
    &&& combined16(columns, fmt.year@, zero, block.year@)
    &&& combined16(columns, fmt.mon@, zero, block.mon@)
    &&& combined16(columns, fmt.day@, zero, block.day@)
    &&& combined16(columns, fmt.hour@, zero, block.hour@)
    &&& combined16(columns, fmt.min@, zero, block.min@)
    &&& combined16(columns, fmt.sec@, zero, block.sec@)
    &&& combined32(columns, fmt.frac_positions(), zero, block.frac@)
}

/// Each lane's number is that of its digits at the positions, modulo 2^16.
pub open spec fn combined16(
    columns: Seq<Register>,
    positions: Seq<usize>,
    zero: Seq<u8>,
    values: Seq<u16>,
) -> bool {
    forall|r: int|
        0 <= r < 16 ==> #[trigger] values[r] == decimal(lane_values(columns, positions, zero, r))
            % 0x1_0000
}

/// Each lane's number is that of its digits at the positions, modulo 2^32.
pub open spec fn combined32(
    columns: Seq<Register>,
    positions: Seq<usize>,
    zero: Seq<u8>,
    values: Seq<u32>,
) -> bool {
    forall|r: int|
        0 <= r < 16 ==> #[trigger] values[r] == decimal(lane_values(columns, positions, zero, r))
            % 0x1_0000_0000
}

/// Rows follow one another without gaps: row `i` is the `w` bytes from byte `i * w` on.
pub proof fn law_rows_follow(data: Seq<u8>, w: int, i: int)
    ensures
        row(data, w, i) == data.subrange(i * w, i * w + w),
{
}

/// Parsing rows succeeds exactly when each row parses, and then each row has its own value in its
/// own place and nothing else is touched. Otherwise the result is the first row that does not
/// parse: no place from it on is touched, and the earlier ones hold their rows' values, except
/// those in its own block of sixteen when that block was read in tiles and has a badly written row.
pub proof fn law_rows_parsed(
    fmt: &FormatSpec,
    data: Seq<u8>,
    n: int,
    before: Seq<i64>,
    ok: bool,
    after: Seq<i64>,
) -> (f: int)
    requires
        parses_rows(fmt, data, n, before, ok, after),
        0 <= n <= before.len(),
        fmt.width > 0,
    ensures
        after.len() == before.len(),
        ok <==> forall|i: int|
            0 <= i < n ==> #[trigger] parse_record(row(data, fmt.width as int, i), fmt) is Some,
        ok ==> f == n,
        !ok ==> 0 <= f < n && parse_record(row(data, fmt.width as int, f), fmt) is None,
        forall|i: int|
            0 <= i < f ==> #[trigger] parse_record(row(data, fmt.width as int, i), fmt) is Some,
        forall|i: int| f <= i < before.len() ==> #[trigger] after[i] == before[i],
        forall|i: int|
            0 <= i < f && (ok || i / 16 < f / 16) ==> parse_record(
                row(data, fmt.width as int, i),
                fmt,
            ) == Some(#[trigger] after[i] as int),
        ({
            let fits: int = if data.len() < 32 {
                0
            } else {
                (data.len() - 32) / fmt.width as int + 1
            };
            let in_tiles: bool = f / 16 < fits / 16 && f / 16 < n / 16;
            let written: bool = forall|r: int|
                0 <= r < 16 ==> #[trigger] well_written(
                    row(data, fmt.width as int, f / 16 * 16 + r),
                    fmt,
                );
            &&& !ok && (!in_tiles || written) ==> forall|i: int|
                0 <= i < f ==> parse_record(row(data, fmt.width as int, i), fmt) == Some(
                    #[trigger] after[i] as int,
                )
            &&& !ok && in_tiles && !written ==> forall|i: int|
                f / 16 * 16 <= i < f ==> #[trigger] after[i] == before[i]
        }),
{
    let w: int = fmt.width as int;
    if ok {
        n
    } else {
        let f: int = choose|f: int|
            0 <= f < n && #[trigger] first_bad_row(fmt, data, f) && filled(
                fmt,
                data,
                kept_rows(fmt, data, n, f),
                before,
                after,
            );
        let fits: int = if data.len() < 32 {
            0
        } else {
            (data.len() - 32) / w + 1
        };
        assert(f < blocked_rows(data.len() as int, w, n) <==> f / 16 < fits / 16 && f / 16 < n / 16);
        f
    }
}

/// Parsing the rows from `from` on one at a time stores each row's value in its own place up to the
/// first row that does not parse, and touches nothing else.
pub proof fn law_tail_parsed(
    fmt: &FormatSpec,
    data: Seq<u8>,
    from: int,
    n: int,
    before: Seq<i64>,
    ok: bool,
    after: Seq<i64>,
) -> (f: int)
    requires
        parses_tail(fmt, data, from, n, before, ok, after),
    ensures
        from <= f <= n,
        ok <==> f == n,
        !ok ==> parse_record(row(data, fmt.width as int, f), fmt) is None,
        after.len() == before.len(),
        forall|i: int|
            from <= i < f ==> parse_record(row(data, fmt.width as int, i), fmt) == Some(
                #[trigger] after[i] as int,
            ),
        forall|i: int|
            0 <= i < after.len() && (i < from || f <= i) ==> #[trigger] after[i] == before[i],
{
    choose|f: int| #[trigger]
        stored_tail(fmt, data, from, f, before, after) && f <= n && (ok <==> f == n) && (!ok
            ==> parse_record(row(data, fmt.width as int, f), fmt) is None)
}

/// Combined digits are decimal numbers, lane by lane: the number of each lane is that of its bytes
/// at the positions, counted from the lane's zero, as far as sixteen or thirty-two bits hold it.
pub proof fn law_lanes_combined(
    columns: Seq<Register>,
    positions: Seq<usize>,
    zero: Seq<u8>,
    narrow: Seq<u16>,
    wide: Seq<u32>,
    r: int,
)
    requires
        0 <= r < 16,
    ensures
        combined16(columns, positions, zero, narrow) ==> narrow[r] == decimal(
            Seq::new(
                positions.len(),
                |i: int| byte_minus(columns[positions[i] as int]@[r], zero[r]),
            ),
        ) % 65_536,
        combined32(columns, positions, zero, wide) ==> wide[r] == decimal(
            Seq::new(
                positions.len(),
                |i: int| byte_minus(columns[positions[i] as int]@[r], zero[r]),
            ),
        ) % 4_294_967_296,
{
    assert(lane_values(columns, positions, zero, r) =~= Seq::new(
        positions.len(),
        |i: int| byte_minus(columns[positions[i] as int]@[r], zero[r]),
    ));
}

/// Lanes are stored in order, each with the timestamp of its own fields, up to the first lane that
/// is no valid date and time.
pub proof fn law_lanes_stored(
    block: &Block,
    scale: i64,
    j: int,
    stop: int,
    before: Seq<i64>,
    after: Seq<i64>,
    r: int,
)
    requires
        stored_lanes(block, scale, j, stop, before, after),
        0 <= r < 16,
    ensures
        0 <= stop <= 16,
        block.lane_dated(r) <==> valid_fields(
            block.year@[r] as int,
            block.mon@[r] as int,
            block.day@[r] as int,
            block.hour@[r] as int,
            block.min@[r] as int,
            block.sec@[r] as int,
        ),
        r < stop ==> block.lane_dated(r),
        r == stop ==> !block.lane_dated(r),
        r < stop ==> after[j + r] == civil_nanos(
            block.year@[r] as int,
            block.mon@[r] as int,
            block.day@[r] as int,
            block.hour@[r] as int,
            block.min@[r] as int,
            block.sec@[r] as int,
            block.frac@[r] * scale,
        ),
        forall|i: int|
            0 <= i < after.len() && (i < j || j + stop <= i) ==> #[trigger] after[i] == before[i],
{
    if r < stop {
        assert(after[j + r] == block.lane_nanos(scale, r));
    }
}

/// A lane holds its separators when each column that should hold one does so in that lane.
pub proof fn law_lane_separators(columns: Seq<Register>, fmt: &FormatSpec, s: int, r: int)
    requires
        0 <= s,
    ensures
        lane_separators_upto(columns, fmt, 0, r),
        lane_separators_upto(columns, fmt, s + 1, r) <==> lane_separators_upto(columns, fmt, s, r)
            && columns[fmt.seps@[s].0 as int]@[r] == fmt.seps@[s].1,
{
    if lane_separators_upto(columns, fmt, s, r) && columns[fmt.seps@[s].0 as int]@[r]
        == fmt.seps@[s].1 {
        assert forall|k: int| 0 <= k < s + 1 implies columns[(#[trigger] fmt.seps@[k]).0 as int]@[r]
            == fmt.seps@[k].1 by {}
    }
}

} // verus!
