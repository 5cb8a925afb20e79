//! One timestamp record: its meaning under a format, and the scalar parser.

use crate::calendar::{civil_nanos, nanos_from_fields, valid, valid_fields, NANOS_PER_SEC};
use crate::format::{
    check_separators, lemma_powers_of_ten, separators_match, FormatSpec,
};
use vstd::arithmetic::power::pow;
use vstd::prelude::*;

verus! {

/// An ASCII decimal digit.
pub open spec fn is_digit(c: u8) -> bool {
    0x30 <= c <= 0x39
}

/// The number that decimal digits stand for, most significant first.
pub open spec fn decimal(digits: Seq<int>) -> int
    decreases digits.len(),
{
    if digits.len() == 0 {
        0
    } else {
        decimal(digits.drop_last()) * 10 + digits.last()
    }
}

/// A digit stands at every one of the positions.
pub open spec fn all_digits(record: Seq<u8>, positions: Seq<usize>) -> bool {
    forall|i: int|
        0 <= i < positions.len() ==> (#[trigger] positions[i]) < record.len() && is_digit(
            record[positions[i] as int],
        )
}

/// The digits at the positions.
pub open spec fn digit_values(record: Seq<u8>, positions: Seq<usize>) -> Seq<int> {
    Seq::new(positions.len(), |i: int| record[positions[i] as int] - 0x30)
}

/// The number written at the positions.
pub open spec fn field(record: Seq<u8>, positions: Seq<usize>) -> int {
    decimal(digit_values(record, positions))
}

/// Separators and digits are all where the format wants them.
pub open spec fn well_written(record: Seq<u8>, fmt: &FormatSpec) -> bool {
    &&& separators_match(record, fmt)
    &&& all_digits(record, fmt.year@)
    &&& all_digits(record, fmt.mon@)
    &&& all_digits(record, fmt.day@)
    &&& all_digits(record, fmt.hour@)
    &&& all_digits(record, fmt.min@)
    &&& all_digits(record, fmt.sec@)
    &&& all_digits(record, fmt.frac_positions())
}

/// The fields that the record writes are a valid date and time.
pub open spec fn dated(record: Seq<u8>, fmt: &FormatSpec) -> bool {
    valid_fields(
        field(record, fmt.year@),
        field(record, fmt.mon@),
        field(record, fmt.day@),
        field(record, fmt.hour@),
        field(record, fmt.min@),
        field(record, fmt.sec@),
    )
}

/// Nanoseconds since the epoch of the fields that the record writes.
pub open spec fn written_nanos(record: Seq<u8>, fmt: &FormatSpec) -> int {
    civil_nanos(
        field(record, fmt.year@),
        field(record, fmt.mon@),
        field(record, fmt.day@),
        field(record, fmt.hour@),
        field(record, fmt.min@),
        field(record, fmt.sec@),
        field(record, fmt.frac_positions()) * fmt.frac_scale,
    )
}

/// What a record means under a format: its timestamp, or nothing if it is badly written or is
/// no valid date and time.
pub open spec fn parse_record(record: Seq<u8>, fmt: &FormatSpec) -> Option<int> {
    if well_written(record, fmt) && dated(record, fmt) {
        Some(written_nanos(record, fmt))
    } else {
        None
    }
}

/// Reading the positions in order, up to the first that is no digit, stays inside the record.
pub open spec fn field_readable(record: Seq<u8>, positions: Seq<usize>) -> bool {
    forall|k: int|
        0 <= k < positions.len() && all_digits(record, positions.subrange(0, k)) ==> (
        #[trigger] positions[k]) < record.len()
}

/// Reading the fields in order, up to the first byte that is out of place, stays inside the
/// record. A record as long as the format is always readable.
pub open spec fn readable(record: Seq<u8>, fmt: &FormatSpec) -> bool {
    separators_match(record, fmt) ==> {
        &&& field_readable(record, fmt.year@)
        &&& all_digits(record, fmt.year@) ==> {
            &&& field_readable(record, fmt.mon@)
            &&& all_digits(record, fmt.mon@) ==> {
                &&& field_readable(record, fmt.day@)
                &&& all_digits(record, fmt.day@) ==> {
                    &&& field_readable(record, fmt.hour@)
                    &&& all_digits(record, fmt.hour@) ==> {
                        &&& field_readable(record, fmt.min@)
                        &&& all_digits(record, fmt.min@) ==> {
                            &&& field_readable(record, fmt.sec@)
                            &&& all_digits(record, fmt.sec@) ==> field_readable(
                                record,
                                fmt.frac_positions(),
                            )
                        }
                    }
                }
            }
        }
    }
}

/// A number of `n` decimal digits is below ten to the power of `n`.
pub proof fn lemma_decimal_range(digits: Seq<int>)
    requires
        forall|i: int| 0 <= i < digits.len() ==> 0 <= #[trigger] digits[i] <= 9,
    ensures
        0 <= decimal(digits) < pow(10, digits.len()),
    decreases digits.len(),
{
    reveal(pow);
    if digits.len() > 0 {
        lemma_decimal_range(digits.drop_last());
    }
}

/// The size of a field of at most nine digits.
pub proof fn lemma_field_range(record: Seq<u8>, positions: Seq<usize>)
    requires
        all_digits(record, positions),
    ensures
        0 <= field(record, positions) < pow(10, positions.len()),
{
    lemma_decimal_range(digit_values(record, positions));
}

/// One more digit multiplies the number by ten and adds the digit.
pub proof fn lemma_field_step(record: Seq<u8>, positions: Seq<usize>, k: int)
    requires
        0 <= k < positions.len(),
    ensures
        field(record, positions.subrange(0, k + 1)) == field(record, positions.subrange(0, k)) * 10
            + (record[positions[k] as int] - 0x30),
{
    let longer: Seq<int> = digit_values(record, positions.subrange(0, k + 1));
    assert(longer.drop_last() =~= digit_values(record, positions.subrange(0, k)));
}

/// Reads the number at the positions, or `None` if one of them is no digit.
#[inline(always)]
pub fn read_field(record: &[u8], positions: &[usize]) -> (value: Option<u32>)
    requires
        positions@.len() <= 9,
        field_readable(record@, positions@),
    ensures
        value is Some <==> all_digits(record@, positions@),
        value matches Some(v) ==> v == field(record@, positions@),
{
    let mut v: u32 = 0;
    let mut k: usize = 0;
    while k < positions.len()
        invariant
            k <= positions@.len() <= 9,
            field_readable(record@, positions@),
            all_digits(record@, positions@.subrange(0, k as int)),
            v == field(record@, positions@.subrange(0, k as int)),
        decreases positions@.len() - k,
    {
        let p: usize = positions[k];
        let dgt: u8 = record[p].wrapping_sub(0x30);
        if dgt >= 10 {
            assert(!is_digit(record@[positions@[k as int] as int]));
            return None;
        }
        proof {
            let ghost prefix = positions@.subrange(0, k as int);
            lemma_field_range(record@, prefix);
            lemma_powers_of_ten();
            assert(k == 0 || k == 1 || k == 2 || k == 3 || k == 4 || k == 5 || k == 6 || k == 7 || k
                == 8);
            lemma_field_step(record@, positions@, k as int);
            let ghost longer = positions@.subrange(0, k + 1);
            assert forall|i: int| 0 <= i < longer.len() implies (#[trigger] longer[i])
                < record@.len() && is_digit(record@[longer[i] as int]) by {
                if i < k {
                    assert(longer[i] == prefix[i]);
                }
            }
        }
        v = v * 10 + dgt as u32;
        k = k + 1;
    }
    proof {
        assert(positions@.subrange(0, k as int) =~= positions@);
    }
    Some(v)
}

/// Whatever fraction the digits write, it is less than a second.
pub proof fn lemma_fraction_range(record: Seq<u8>, fmt: &FormatSpec)
    requires
        fmt.wf(),
        all_digits(record, fmt.frac_positions()),
    ensures
        0 <= field(record, fmt.frac_positions()) * fmt.frac_scale < NANOS_PER_SEC,
        0 <= field(record, fmt.frac_positions()) < 1_000_000_000,
{
    let units: int = field(record, fmt.frac_positions());
    lemma_field_range(record, fmt.frac_positions());
    lemma_powers_of_ten();
    if fmt.frac_len == 0 {
        assert(units == 0);
        assert(units * fmt.frac_scale == 0) by (nonlinear_arith)
            requires
                units == 0,
        ;
    } else {
        let n: int = fmt.frac_len as int;
        assert(n == 1 || n == 2 || n == 3 || n == 4 || n == 5 || n == 6 || n == 7 || n == 8 || n
            == 9);
    }
}

/// Strict scalar parse of one fixed-format record: nanoseconds since the epoch, or `None` if the
/// record is badly written or no valid date and time.
#[inline]
pub fn parse_one(b: &[u8], fmt: &FormatSpec) -> (nanos: Option<i64>)
    requires
        fmt.wf(),
        readable(b@, fmt),
    ensures
        match nanos {
            Some(v) => parse_record(b@, fmt) == Some(v as int),
            None => parse_record(b@, fmt) is None,
        },
{
    if !check_separators(b, fmt) {
        return None;
    }
    let year: u32 = match read_field(b, fmt.year.as_slice()) {
        Some(v) => v,
        None => return None,
    };
    let mon: u32 = match read_field(b, fmt.mon.as_slice()) {
        Some(v) => v,
        None => return None,
    };
    let day: u32 = match read_field(b, fmt.day.as_slice()) {
        Some(v) => v,
        None => return None,
    };
    let hh: u32 = match read_field(b, fmt.hour.as_slice()) {
        Some(v) => v,
        None => return None,
    };
    let mm: u32 = match read_field(b, fmt.min.as_slice()) {
        Some(v) => v,
        None => return None,
    };
    let ss: u32 = match read_field(b, fmt.sec.as_slice()) {
        Some(v) => v,
        None => return None,
    };
    let frac: u32 = match read_field(b, &fmt.frac[0..fmt.frac_len]) {
        Some(v) => v,
        None => return None,
    };
    if !valid(year, mon, day, hh, mm, ss) {
        return None;
    }
    proof {
        lemma_fraction_range(b@, fmt);
    }
    Some(nanos_from_fields(year, mon, day, hh, mm, ss, frac, fmt.frac_scale))
}

/// Decimal notation: no digits are zero, and one more digit multiplies by ten and adds itself.
pub proof fn law_decimal_notation(digits: Seq<int>, last: int)
    ensures
        decimal(Seq::empty()) == 0,
        decimal(digits.push(last)) == 10 * decimal(digits) + last,
{
    assert(digits.push(last).drop_last() =~= digits);
}

/// A field reads the ASCII digits at its positions in order: one more position is one more digit.
pub proof fn law_field_reads_digits(record: Seq<u8>, positions: Seq<usize>, p: usize)
    ensures
        all_digits(record, Seq::empty()),
        field(record, Seq::empty()) == 0,
        all_digits(record, positions.push(p)) <==> all_digits(record, positions) && p < record.len()
            && 0x30 <= record[p as int] <= 0x39,
        field(record, positions.push(p)) == 10 * field(record, positions) + (record[p as int]
            - 0x30),
{
    let more: Seq<usize> = positions.push(p);
    assert(digit_values(record, Seq::<usize>::empty()) =~= Seq::<int>::empty());
    assert(digit_values(record, more).drop_last() =~= digit_values(record, positions));
    assert(more[positions.len() as int] == p);
    if all_digits(record, more) {
        assert forall|i: int| 0 <= i < positions.len() implies (#[trigger] positions[i])
            < record.len() && is_digit(record[positions[i] as int]) by {
            assert(more[i] == positions[i]);
        }
    }
    if all_digits(record, positions) && p < record.len() && 0x30 <= record[p as int] <= 0x39 {
        assert forall|i: int| 0 <= i < more.len() implies (#[trigger] more[i]) < record.len()
            && is_digit(record[more[i] as int]) by {
            if i < positions.len() {
                assert(more[i] == positions[i]);
            }
        }
    }
}

/// A record parses exactly when its separators stand, its fields are digits and its date and time
/// are valid, and then to the timestamp of its fields.
pub proof fn law_record_parses(record: Seq<u8>, fmt: &FormatSpec)
    ensures
        well_written(record, fmt) <==> {
            &&& forall|k: int|
                0 <= k < fmt.sep_len ==> (#[trigger] fmt.seps@[k]).0 < record.len()
                    && record[fmt.seps@[k].0 as int] == fmt.seps@[k].1
            &&& all_digits(record, fmt.year@)
            &&& all_digits(record, fmt.mon@)
            &&& all_digits(record, fmt.day@)
            &&& all_digits(record, fmt.hour@)
            &&& all_digits(record, fmt.min@)
            &&& all_digits(record, fmt.sec@)
            &&& all_digits(record, fmt.frac@.subrange(0, fmt.frac_len as int))
        },
        parse_record(record, fmt) is Some <==> well_written(record, fmt) && valid_fields(
            field(record, fmt.year@),
            field(record, fmt.mon@),
            field(record, fmt.day@),
            field(record, fmt.hour@),
            field(record, fmt.min@),
            field(record, fmt.sec@),
        ),
        parse_record(record, fmt) is Some ==> parse_record(record, fmt)->0 == civil_nanos(
            field(record, fmt.year@),
            field(record, fmt.mon@),
            field(record, fmt.day@),
            field(record, fmt.hour@),
            field(record, fmt.min@),
            field(record, fmt.sec@),
            field(record, fmt.frac@.subrange(0, fmt.frac_len as int)) * fmt.frac_scale,
        ),
{
}

/// A record that is at least as long as the format is readable, and so is one of any length that
/// lacks a separator.
pub proof fn law_long_records_readable(record: Seq<u8>, fmt: &FormatSpec)
    requires
        fmt.wf(),
        record.len() >= fmt.width || exists|k: int|
            0 <= k < fmt.sep_len && ((#[trigger] fmt.seps@[k]).0 >= record.len()
                || record[fmt.seps@[k].0 as int] != fmt.seps@[k].1),
    ensures
        readable(record, fmt),
{
}

/// Positions inside the record are readable whatever stands there.
pub proof fn law_inner_fields_readable(record: Seq<u8>, positions: Seq<usize>)
    requires
        forall|i: int| 0 <= i < positions.len() ==> (#[trigger] positions[i]) < record.len(),
    ensures
        field_readable(record, positions),
{
}

/// A field stays readable as it gets longer: reading stops at the first byte that is no digit, and
/// what comes before it has to stand inside the record.
pub proof fn law_fields_read_in_order(record: Seq<u8>, positions: Seq<usize>, p: usize)
    ensures
        field_readable(record, Seq::empty()),
        field_readable(record, positions.push(p)) <==> field_readable(record, positions) && (
        all_digits(record, positions) ==> p < record.len()),
{
    let more: Seq<usize> = positions.push(p);
    assert forall|k: int| 0 <= k <= positions.len() implies #[trigger] more.subrange(0, k)
        == positions.subrange(0, k) by {
        assert(more.subrange(0, k) =~= positions.subrange(0, k));
    }
    assert(positions.subrange(0, positions.len() as int) =~= positions);
    assert(more[positions.len() as int] == p);
    if field_readable(record, more) {
        assert forall|k: int|
            0 <= k < positions.len() && all_digits(record, positions.subrange(0, k)) implies (
        #[trigger] positions[k]) < record.len() by {
            assert(more.subrange(0, k) == positions.subrange(0, k));
            assert(more[k] == positions[k]);
        }
        assert(more.subrange(0, positions.len() as int) == positions);
    }
    if field_readable(record, positions) && (all_digits(record, positions) ==> p < record.len()) {
        assert forall|k: int|
            0 <= k < more.len() && all_digits(record, more.subrange(0, k)) implies (
        #[trigger] more[k]) < record.len() by {
            assert(more.subrange(0, k) == positions.subrange(0, k));
            if k < positions.len() {
                assert(more[k] == positions[k]);
            }
        }
    }
}

} // verus!
