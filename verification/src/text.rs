//! Timestamps as text: what a record of a given layout says, how an instant is written, and that
//! the one undoes the other.

use crate::calendar::{civil_nanos, law_real_dates_valid, valid_fields, Instant, NANOS_PER_SEC};
use crate::format::{
    has_layout, layout_width, lemma_described_separators, lemma_powers_of_ten, separators,
    FormatSpec,
};
use crate::record::{
    all_digits, decimal, digit_values, field, is_digit, lemma_decimal_range, parse_record,
};
use vstd::arithmetic::div_mod::{
    lemma_div_by_multiple, lemma_div_pos_is_pos, lemma_fundamental_div_mod,
    lemma_mod_multiples_basic,
};
use vstd::arithmetic::power::pow;
use vstd::prelude::*;

verus! {

/// `n` digits stand in the record from byte `at` on.
pub open spec fn digits_at(record: Seq<u8>, at: int, n: int) -> bool {
    forall|i: int| at <= i < at + n ==> is_digit(#[trigger] record[i])
}

/// The number that the `n` bytes of the record from `at` on write.
pub open spec fn number_at(record: Seq<u8>, at: int, n: int) -> int {
    decimal(Seq::new(n as nat, |i: int| record[at + i] - 0x30))
}

/// What a record of the layout `YYYY-MM-DD?hh:mm:ss[.fff][Z]` says: nanoseconds since the epoch,
/// or nothing if it has another layout or is no valid date and time.
pub open spec fn timestamp_of(record: Seq<u8>, sep: u8, frac_len: int, tz_z: bool) -> Option<int> {
    if {
        &&& has_layout(record, sep, frac_len, tz_z)
        &&& digits_at(record, 0, 4)
        &&& digits_at(record, 5, 2)
        &&& digits_at(record, 8, 2)
        &&& digits_at(record, 11, 2)
        &&& digits_at(record, 14, 2)
        &&& digits_at(record, 17, 2)
        &&& digits_at(record, 20, frac_len)
        &&& valid_fields(
            number_at(record, 0, 4),
            number_at(record, 5, 2),
            number_at(record, 8, 2),
            number_at(record, 11, 2),
            number_at(record, 14, 2),
            number_at(record, 17, 2),
        )
    } {
        Some(
            civil_nanos(
                number_at(record, 0, 4),
                number_at(record, 5, 2),
                number_at(record, 8, 2),
                number_at(record, 11, 2),
                number_at(record, 14, 2),
                number_at(record, 17, 2),
                number_at(record, 20, frac_len) * pow(10, (9 - frac_len) as nat),
            ),
        )
    } else {
        None
    }
}

/// Positions that follow one another write the number that stands there.
proof fn lemma_run(record: Seq<u8>, positions: Seq<usize>, at: int, n: int)
    requires
        0 <= at,
        0 <= n == positions.len(),
        at + n <= record.len(),
        forall|i: int| 0 <= i < n ==> #[trigger] positions[i] == at + i,
    ensures
        all_digits(record, positions) == digits_at(record, at, n),
        field(record, positions) == number_at(record, at, n),
{
    if all_digits(record, positions) {
        assert forall|i: int| at <= i < at + n implies is_digit(#[trigger] record[i]) by {
            assert(positions[i - at] == i);
        }
    }
    assert(digit_values(record, positions) =~= Seq::new(n as nat, |i: int| record[at + i] - 0x30));
}

/// On records as long as the layout, a described format reads what the layout says.
pub proof fn lemma_described_parse(
    record: Seq<u8>,
    fmt: &FormatSpec,
    sep: u8,
    frac_len: int,
    tz_z: bool,
)
    requires
        0 <= frac_len <= 9,
        fmt.describes(sep, frac_len, tz_z),
        record.len() == fmt.width,
    ensures
        parse_record(record, fmt) == timestamp_of(record, sep, frac_len, tz_z),
{
    lemma_described_separators(record, fmt, sep, frac_len, tz_z);
    lemma_run(record, fmt.year@, 0, 4);
    lemma_run(record, fmt.mon@, 5, 2);
    lemma_run(record, fmt.day@, 8, 2);
    lemma_run(record, fmt.hour@, 11, 2);
    lemma_run(record, fmt.min@, 14, 2);
    lemma_run(record, fmt.sec@, 17, 2);
    if frac_len > 0 {
        lemma_run(record, fmt.frac_positions(), 20, frac_len);
    } else {
        assert(field(record, fmt.frac_positions()) == 0);
        assert(number_at(record, 20, frac_len) == 0);
    }
}

/// The last `n` decimal digits of a number.
pub open spec fn digits(value: int, n: nat) -> Seq<u8>
    decreases n,
{
    if n == 0 {
        seq![]
    } else {
        digits(value / 10, (n - 1) as nat).push((0x30 + value % 10) as u8)
    }
}

/// The fraction of the instant's second has no more than `frac_len` digits.
pub open spec fn fraction_fits(t: Instant, frac_len: int) -> bool {
    t.frac % pow(10, (9 - frac_len) as nat) == 0
}

/// The instant written as `YYYY-MM-DD?hh:mm:ss[.fff][Z]`.
pub open spec fn render(t: Instant, sep: u8, frac_len: int, tz_z: bool) -> Seq<u8> {
    digits(t.year, 4) + seq![0x2du8] + digits(t.month, 2) + seq![0x2du8] + digits(t.day, 2) + seq![
        sep,
    ] + digits(t.hour, 2) + seq![0x3au8] + digits(t.minute, 2) + seq![0x3au8] + digits(t.second, 2)
        + (if frac_len > 0 {
        seq![0x2eu8] + digits(t.frac / pow(10, (9 - frac_len) as nat), frac_len as nat)
    } else {
        seq![]
    }) + (if tz_z {
        seq![0x5au8]
    } else {
        seq![]
    })
}

/// Written digits are digits, and write the number they were made from.
proof fn lemma_digits(value: int, n: nat)
    requires
        0 <= value,
    ensures
        digits(value, n).len() == n,
        forall|i: int| 0 <= i < n ==> is_digit(#[trigger] digits(value, n)[i]),
        value < pow(10, n) ==> decimal(Seq::new(n, |i: int| digits(value, n)[i] - 0x30)) == value,
    decreases n,
{
    reveal(pow);
    if n > 0 {
        let shorter: Seq<u8> = digits(value / 10, (n - 1) as nat);
        lemma_digits(value / 10, (n - 1) as nat);
        let longer: Seq<int> = Seq::new(n, |i: int| digits(value, n)[i] - 0x30);
        assert(longer.drop_last() =~= Seq::new((n - 1) as nat, |i: int| shorter[i] - 0x30));
    }
}

/// Digits are what is written for the number that they write.
proof fn lemma_digits_of_decimal(text: Seq<u8>)
    requires
        forall|i: int| 0 <= i < text.len() ==> is_digit(#[trigger] text[i]),
    ensures
        digits(decimal(Seq::new(text.len(), |i: int| text[i] - 0x30)), text.len()) == text,
    decreases text.len(),
{
    let values: Seq<int> = Seq::new(text.len(), |i: int| text[i] - 0x30);
    if text.len() > 0 {
        let rest: Seq<u8> = text.drop_last();
        lemma_digits_of_decimal(rest);
        assert(values.drop_last() =~= Seq::new(rest.len(), |i: int| rest[i] - 0x30));
        assert(text =~= rest.push(text.last()));
    } else {
        assert(text =~= seq![]);
    }
}

/// The separators of a layout, byte by byte.
pub proof fn lemma_layout_bytes(record: Seq<u8>, sep: u8, frac_len: int, tz_z: bool)
    requires
        0 <= frac_len <= 9,
    ensures
        has_layout(record, sep, frac_len, tz_z) <==> {
            &&& record.len() == layout_width(frac_len, tz_z)
            &&& record[4] == 0x2d
            &&& record[7] == 0x2d
            &&& record[10] == sep
            &&& record[13] == 0x3a
            &&& record[16] == 0x3a
            &&& frac_len > 0 ==> record[19] == 0x2e
            &&& tz_z ==> record[layout_width(frac_len, tz_z) - 1] == 0x5a
        },
{
    let table: Seq<(int, u8)> = separators(sep, frac_len, tz_z);
    if has_layout(record, sep, frac_len, tz_z) {
        assert(record[table[0].0] == table[0].1);
        assert(record[table[1].0] == table[1].1);
        assert(record[table[2].0] == table[2].1);
        assert(record[table[3].0] == table[3].1);
        assert(record[table[4].0] == table[4].1);
        if frac_len > 0 {
            assert(record[table[5].0] == table[5].1);
        }
        if tz_z {
            assert(record[table[table.len() - 1].0] == table[table.len() - 1].1);
        }
    }
}

/// Where the parts of a written instant stand.
proof fn lemma_render_parts(t: Instant, sep: u8, frac_len: int, tz_z: bool)
    requires
        t.valid(),
        0 <= frac_len <= 9,
    ensures
        ({
            let s: Seq<u8> = render(t, sep, frac_len, tz_z);
            &&& has_layout(s, sep, frac_len, tz_z)
            &&& s.subrange(0, 4) == digits(t.year, 4)
            &&& s.subrange(5, 7) == digits(t.month, 2)
            &&& s.subrange(8, 10) == digits(t.day, 2)
            &&& s.subrange(11, 13) == digits(t.hour, 2)
            &&& s.subrange(14, 16) == digits(t.minute, 2)
            &&& s.subrange(17, 19) == digits(t.second, 2)
            &&& frac_len > 0 ==> s.subrange(20, 20 + frac_len) == digits(
                t.frac / pow(10, (9 - frac_len) as nat),
                frac_len as nat,
            )
        }),
{
    let s: Seq<u8> = render(t, sep, frac_len, tz_z);
    let scale: int = pow(10, (9 - frac_len) as nat);
    lemma_powers_of_ten();
    lemma_scale(frac_len);
    lemma_digits(t.year, 4);
    lemma_digits(t.month, 2);
    lemma_digits(t.day, 2);
    lemma_digits(t.hour, 2);
    lemma_digits(t.minute, 2);
    lemma_digits(t.second, 2);
    assert(0 <= t.frac / scale) by {
        lemma_div_pos_is_pos(t.frac, scale);
    }
    lemma_digits(t.frac / scale, frac_len as nat);
    assert(s.subrange(0, 4) =~= digits(t.year, 4));
    assert(s.subrange(5, 7) =~= digits(t.month, 2));
    assert(s.subrange(8, 10) =~= digits(t.day, 2));
    assert(s.subrange(11, 13) =~= digits(t.hour, 2));
    assert(s.subrange(14, 16) =~= digits(t.minute, 2));
    assert(s.subrange(17, 19) =~= digits(t.second, 2));
    if frac_len > 0 {
        assert(s.subrange(20, 20 + frac_len) =~= digits(t.frac / scale, frac_len as nat));
    }
    lemma_layout_bytes(s, sep, frac_len, tz_z);
}

/// The nanoseconds that one unit of a fraction of `frac_len` digits stands for.
proof fn lemma_scale(frac_len: int)
    requires
        0 <= frac_len <= 9,
    ensures
        pow(10, (9 - frac_len) as nat) > 0,
        pow(10, frac_len as nat) * pow(10, (9 - frac_len) as nat) == NANOS_PER_SEC,
{
    lemma_powers_of_ten();
    assert(frac_len == 0 || frac_len == 1 || frac_len == 2 || frac_len == 3 || frac_len == 4
        || frac_len == 5 || frac_len == 6 || frac_len == 7 || frac_len == 8 || frac_len == 9);
}

/// A part of a record that was written for a number says that number.
proof fn lemma_part_says(record: Seq<u8>, at: int, n: int, value: int)
    requires
        0 <= at,
        0 <= n,
        at + n <= record.len(),
        record.subrange(at, at + n) == digits(value, n as nat),
        0 <= value < pow(10, n as nat),
    ensures
        digits_at(record, at, n),
        number_at(record, at, n) == value,
{
    lemma_digits(value, n as nat);
    let part: Seq<u8> = record.subrange(at, at + n);
    assert forall|i: int| at <= i < at + n implies is_digit(#[trigger] record[i]) by {
        assert(part[i - at] == record[i]);
    }
    assert(Seq::new(n as nat, |i: int| record[at + i] - 0x30) =~= Seq::new(
        n as nat,
        |i: int| digits(value, n as nat)[i] - 0x30,
    ));
}

/// Reading back what was written: a valid instant, written with as many fractional digits as it
/// needs or more, says its own timestamp.
pub proof fn law_written_instant_parses(t: Instant, sep: u8, frac_len: int, tz_z: bool)
    requires
        t.valid(),
        0 <= frac_len <= 9,
        fraction_fits(t, frac_len),
    ensures
        timestamp_of(render(t, sep, frac_len, tz_z), sep, frac_len, tz_z) == Some(t.nanos()),
{
    let s: Seq<u8> = render(t, sep, frac_len, tz_z);
    let scale: int = pow(10, (9 - frac_len) as nat);
    let units: int = t.frac / scale;
    lemma_render_parts(t, sep, frac_len, tz_z);
    lemma_powers_of_ten();
    lemma_scale(frac_len);
    lemma_part_says(s, 0, 4, t.year);
    lemma_part_says(s, 5, 2, t.month);
    lemma_part_says(s, 8, 2, t.day);
    lemma_part_says(s, 11, 2, t.hour);
    lemma_part_says(s, 14, 2, t.minute);
    lemma_part_says(s, 17, 2, t.second);
    lemma_fundamental_div_mod(t.frac, scale);
    assert(units * scale == t.frac) by (nonlinear_arith)
        requires
            t.frac == scale * units + 0,
    ;
    lemma_div_pos_is_pos(t.frac, scale);
    if frac_len > 0 {
        assert(units < pow(10, frac_len as nat)) by (nonlinear_arith)
            requires
                units * scale < pow(10, frac_len as nat) * scale,
                scale > 0,
        ;
        lemma_part_says(s, 20, frac_len, units);
    } else {
        assert(units * scale < scale);
        assert(units == 0) by (nonlinear_arith)
            requires
                0 <= units,
                units * scale < scale,
                scale > 0,
        ;
        assert(number_at(s, 20, frac_len) == 0);
    }
}

/// Nothing else is accepted: a record that says a timestamp is a valid instant, written in its
/// layout, and the timestamp is the instant's.
pub proof fn law_parsed_record_is_written(record: Seq<u8>, sep: u8, frac_len: int, tz_z: bool) -> (t:
    Instant)
    requires
        0 <= frac_len <= 9,
        timestamp_of(record, sep, frac_len, tz_z) is Some,
    ensures
        t.valid(),
        fraction_fits(t, frac_len),
        record == render(t, sep, frac_len, tz_z),
        timestamp_of(record, sep, frac_len, tz_z) == Some(t.nanos()),
{
    let scale: int = pow(10, (9 - frac_len) as nat);
    let units: int = number_at(record, 20, frac_len);
    let t: Instant = Instant {
        year: number_at(record, 0, 4),
        month: number_at(record, 5, 2),
        day: number_at(record, 8, 2),
        hour: number_at(record, 11, 2),
        minute: number_at(record, 14, 2),
        second: number_at(record, 17, 2),
        frac: units * scale,
    };
    lemma_layout_bytes(record, sep, frac_len, tz_z);
    lemma_scale(frac_len);
    lemma_part_written(record, 0, 4);
    lemma_part_written(record, 5, 2);
    lemma_part_written(record, 8, 2);
    lemma_part_written(record, 11, 2);
    lemma_part_written(record, 14, 2);
    lemma_part_written(record, 17, 2);
    if frac_len > 0 {
        lemma_part_written(record, 20, frac_len);
    } else {
        assert(units == 0);
    }
    assert(0 <= units < pow(10, frac_len as nat)) by {
        lemma_powers_of_ten();
    }
    assert(0 <= units * scale < NANOS_PER_SEC) by (nonlinear_arith)
        requires
            0 <= units < pow(10, frac_len as nat),
            scale > 0,
            pow(10, frac_len as nat) * scale == NANOS_PER_SEC,
    ;
    lemma_mod_multiples_basic(units, scale);
    lemma_div_by_multiple(units, scale);
    lemma_render_parts(t, sep, frac_len, tz_z);
    let s: Seq<u8> = render(t, sep, frac_len, tz_z);
    lemma_layout_bytes(s, sep, frac_len, tz_z);
    lemma_same_part(record, s, 0, 4);
    lemma_same_part(record, s, 5, 7);
    lemma_same_part(record, s, 8, 10);
    lemma_same_part(record, s, 11, 13);
    lemma_same_part(record, s, 14, 16);
    lemma_same_part(record, s, 17, 19);
    if frac_len > 0 {
        lemma_same_part(record, s, 20, 20 + frac_len);
    }
    assert(record =~= s);
    t
}

/// A part of digits is what is written for the number it says.
proof fn lemma_part_written(record: Seq<u8>, at: int, n: int)
    requires
        0 <= at,
        0 <= n,
        at + n <= record.len(),
        digits_at(record, at, n),
    ensures
        record.subrange(at, at + n) == digits(number_at(record, at, n), n as nat),
        0 <= number_at(record, at, n) < pow(10, n as nat),
{
    let part: Seq<u8> = record.subrange(at, at + n);
    let values: Seq<int> = Seq::new(n as nat, |i: int| record[at + i] - 0x30);
    assert forall|i: int| 0 <= i < n implies 0 <= #[trigger] values[i] <= 9 && is_digit(
        part[i],
    ) by {
        assert(is_digit(record[at + i]));
    }
    assert forall|i: int| 0 <= i < part.len() implies is_digit(#[trigger] part[i]) by {
        assert(0 <= values[i] <= 9);
    }
    lemma_digits_of_decimal(part);
    lemma_decimal_range(values);
    assert(values =~= Seq::new(part.len(), |i: int| part[i] - 0x30));
}

/// Equal parts are equal byte by byte.
proof fn lemma_same_part(a: Seq<u8>, b: Seq<u8>, from: int, to: int)
    requires
        0 <= from <= to <= a.len(),
        to <= b.len(),
        a.subrange(from, to) == b.subrange(from, to),
    ensures
        forall|i: int| from <= i < to ==> #[trigger] a[i] == b[i],
{
    assert forall|i: int| from <= i < to implies #[trigger] a[i] == b[i] by {
        assert(a.subrange(from, to)[i - from] == a[i]);
        assert(b.subrange(from, to)[i - from] == b[i]);
    }
}

/// Numbers are read digit by digit.
pub proof fn law_numbers_read(record: Seq<u8>, at: int, n: int)
    requires
        0 <= n,
    ensures
        number_at(record, at, 0) == 0,
        number_at(record, at, n + 1) == 10 * number_at(record, at, n) + (record[at + n] - 0x30),
{
    assert(Seq::new((n + 1) as nat, |i: int| record[at + i] - 0x30).drop_last() =~= Seq::new(
        n as nat,
        |i: int| record[at + i] - 0x30,
    ));
}

/// What text is a timestamp: digits, dashes, colons, separator, point and `Z` in their places, and a
/// real date and time of day in the years 1678 to 2261; and which timestamp it is.
pub proof fn law_text_says(b: Seq<u8>, sep: u8, frac_len: int, tz_z: bool)
    requires
        0 <= frac_len <= 9,
    ensures
        timestamp_of(b, sep, frac_len, tz_z) is Some <==> {
            let y: int = 1000 * (b[0] - 0x30) + 100 * (b[1] - 0x30) + 10 * (b[2] - 0x30) + (b[3]
                - 0x30);
            let m: int = 10 * (b[5] - 0x30) + (b[6] - 0x30);
            let d: int = 10 * (b[8] - 0x30) + (b[9] - 0x30);
            &&& b.len() == 19 + (if frac_len > 0 {
                1 + frac_len
            } else {
                0
            }) + (if tz_z {
                1int
            } else {
                0
            })
            &&& b[4] == 0x2d && b[7] == 0x2d && b[10] == sep
            &&& b[13] == 0x3a && b[16] == 0x3a
            &&& frac_len > 0 ==> b[19] == 0x2e
            &&& tz_z ==> b[b.len() - 1] == 0x5a
            &&& forall|p: int|
                (0 <= p < 4 || 5 <= p < 7 || 8 <= p < 10 || 11 <= p < 13 || 14 <= p < 16 || 17 <= p < 19
                    || 20 <= p < 20 + frac_len) ==> 0x30 <= #[trigger] b[p] <= 0x39
            &&& 1678 <= y <= 2261 && 1 <= m <= 12 && 1 <= d <= 31
            &&& d == 31 ==> m == 1 || m == 3 || m == 5 || m == 7 || m == 8 || m == 10 || m == 12
            &&& d == 30 ==> m != 2
            &&& d == 29 && m == 2 ==> y % 4 == 0 && (y % 100 != 0 || y % 400 == 0)
            &&& 10 * (b[11] - 0x30) + (b[12] - 0x30) <= 23
            &&& 10 * (b[14] - 0x30) + (b[15] - 0x30) <= 59
            &&& 10 * (b[17] - 0x30) + (b[18] - 0x30) <= 59
        },
        timestamp_of(b, sep, frac_len, tz_z) is Some ==> timestamp_of(b, sep, frac_len, tz_z)->0
            == civil_nanos(
                1000 * (b[0] - 0x30) + 100 * (b[1] - 0x30) + 10 * (b[2] - 0x30) + (b[3] - 0x30),
                10 * (b[5] - 0x30) + (b[6] - 0x30),
                10 * (b[8] - 0x30) + (b[9] - 0x30),
                10 * (b[11] - 0x30) + (b[12] - 0x30),
                10 * (b[14] - 0x30) + (b[15] - 0x30),
                10 * (b[17] - 0x30) + (b[18] - 0x30),
                (if frac_len > 0 { 100_000_000 * (b[20] - 0x30) } else { 0 })
                    + (if frac_len > 1 { 10_000_000 * (b[21] - 0x30) } else { 0 })
                    + (if frac_len > 2 { 1_000_000 * (b[22] - 0x30) } else { 0 })
                    + (if frac_len > 3 { 100_000 * (b[23] - 0x30) } else { 0 })
                    + (if frac_len > 4 { 10_000 * (b[24] - 0x30) } else { 0 })
                    + (if frac_len > 5 { 1_000 * (b[25] - 0x30) } else { 0 })
                    + (if frac_len > 6 { 100 * (b[26] - 0x30) } else { 0 })
                    + (if frac_len > 7 { 10 * (b[27] - 0x30) } else { 0 })
                    + (if frac_len > 8 { 1 * (b[28] - 0x30) } else { 0 }),
            ),
{
    lemma_layout_bytes(b, sep, frac_len, tz_z);
    lemma_short_numbers(b, 0);
    lemma_short_numbers(b, 5);
    lemma_short_numbers(b, 8);
    lemma_short_numbers(b, 11);
    lemma_short_numbers(b, 14);
    lemma_short_numbers(b, 17);
    lemma_fraction_digits(b, frac_len);
    law_real_dates_valid(
        number_at(b, 0, 4),
        number_at(b, 5, 2),
        number_at(b, 8, 2),
        number_at(b, 11, 2),
        number_at(b, 14, 2),
        number_at(b, 17, 2),
    );
    if timestamp_of(b, sep, frac_len, tz_z) is Some {
        assert forall|p: int|
            (0 <= p < 4 || 5 <= p < 7 || 8 <= p < 10 || 11 <= p < 13 || 14 <= p < 16 || 17 <= p < 19
                || 20 <= p < 20 + frac_len) implies 0x30 <= #[trigger] b[p] <= 0x39 by {
            assert(is_digit(b[p]));
        }
    }
}

/// Numbers of two and four digits, digit by digit.
proof fn lemma_short_numbers(record: Seq<u8>, at: int)
    ensures
        number_at(record, at, 2) == 10 * (record[at] - 0x30) + (record[at + 1] - 0x30),
        number_at(record, at, 4) == 1000 * (record[at] - 0x30) + 100 * (record[at + 1] - 0x30) + 10
            * (record[at + 2] - 0x30) + (record[at + 3] - 0x30),
{
    law_numbers_read(record, at, 0);
    law_numbers_read(record, at, 1);
    law_numbers_read(record, at, 2);
    law_numbers_read(record, at, 3);
}

/// The digits of a fraction stand for tenths, hundredths and so on of a second.
proof fn lemma_fraction_digits(b: Seq<u8>, frac_len: int)
    requires
        0 <= frac_len <= 9,
    ensures
        number_at(b, 20, frac_len) * pow(10, (9 - frac_len) as nat) == (if frac_len > 0 { 100_000_000 * (b[20] - 0x30) } else { 0 })
            + (if frac_len > 1 { 10_000_000 * (b[21] - 0x30) } else { 0 })
            + (if frac_len > 2 { 1_000_000 * (b[22] - 0x30) } else { 0 })
            + (if frac_len > 3 { 100_000 * (b[23] - 0x30) } else { 0 })
            + (if frac_len > 4 { 10_000 * (b[24] - 0x30) } else { 0 })
            + (if frac_len > 5 { 1_000 * (b[25] - 0x30) } else { 0 })
            + (if frac_len > 6 { 100 * (b[26] - 0x30) } else { 0 })
            + (if frac_len > 7 { 10 * (b[27] - 0x30) } else { 0 })
            + (if frac_len > 8 { 1 * (b[28] - 0x30) } else { 0 }),
{
    lemma_powers_of_ten();
    law_numbers_read(b, 20, 0);
    law_numbers_read(b, 20, 1);
    law_numbers_read(b, 20, 2);
    law_numbers_read(b, 20, 3);
    law_numbers_read(b, 20, 4);
    law_numbers_read(b, 20, 5);
    law_numbers_read(b, 20, 6);
    law_numbers_read(b, 20, 7);
    law_numbers_read(b, 20, 8);
    assert(frac_len == 0 || frac_len == 1 || frac_len == 2 || frac_len == 3 || frac_len == 4
        || frac_len == 5 || frac_len == 6 || frac_len == 7 || frac_len == 8 || frac_len == 9);
}

/// Digits are written last digit last, as ASCII, and a fraction fits in the digits after which
/// only zeros would follow.
pub proof fn law_digits_written(value: int, n: nat, t: Instant)
    requires
        0 <= value,
    ensures
        digits(value, 0) == Seq::<u8>::empty(),
        digits(value, n + 1) == digits(value / 10, n).push((0x30 + value % 10) as u8),
        fraction_fits(t, 0) <==> t.frac % 1_000_000_000 == 0,
        fraction_fits(t, 3) <==> t.frac % 1_000_000 == 0,
        fraction_fits(t, 6) <==> t.frac % 1_000 == 0,
        fraction_fits(t, 9),
{
    lemma_powers_of_ten();
}

/// A record has a layout when it is as long and has dashes, the separator, colons, a point before
/// a fraction and a `Z` at the end in their places, whatever stands between them.
pub proof fn law_layout_stands(b: Seq<u8>, sep: u8, frac_len: int, tz_z: bool)
    requires
        0 <= frac_len <= 9,
    ensures
        has_layout(b, sep, frac_len, tz_z) <==> {
            &&& b.len() == 19 + (if frac_len > 0 {
                1 + frac_len
            } else {
                0
            }) + (if tz_z {
                1int
            } else {
                0
            })
            &&& b[4] == 0x2d && b[7] == 0x2d && b[10] == sep
            &&& b[13] == 0x3a && b[16] == 0x3a
            &&& frac_len > 0 ==> b[19] == 0x2e
            &&& tz_z ==> b[b.len() - 1] == 0x5a
        },
{
    lemma_layout_bytes(b, sep, frac_len, tz_z);
}

} // verus!
