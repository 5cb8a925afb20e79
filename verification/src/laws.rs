//! What holds of the cast as a whole.

use crate::arrays::{array_cast, null_free, strings};
use crate::calendar::{civil_nanos, Instant};
use crate::column::{
    cast_result, fast_path, homogeneous, law_one_format, timestamps, Kernel,
};
use crate::format::{lemma_supported, supported};
use crate::text::{
    fraction_fits, law_parsed_record_is_written, law_text_says, law_written_instant_parses, render,
    timestamp_of,
};
use vstd::prelude::*;

verus! {

/// One null row is enough for the cast to decline.
pub proof fn law_null_declines(kernel: Kernel, contents: Seq<Option<Seq<u8>>>, i: int)
    requires
        0 <= i < contents.len(),
        contents[i] is None,
    ensures
        array_cast(kernel, contents) is None,
{
    assert(!null_free(contents));
}

/// Two rows of different length are enough for the cast to decline.
pub proof fn law_mixed_width_declines(kernel: Kernel, rows: Seq<Option<Seq<u8>>>, i: int, j: int)
    requires
        0 <= i < rows.len(),
        0 <= j < rows.len(),
        rows[i] is Some,
        rows[j] is Some,
        rows[i]->0.len() != rows[j]->0.len(),
    ensures
        array_cast(kernel, rows) is None,
{
    let values: Seq<Seq<u8>> = strings(rows);
    assert forall|sep: u8, frac_len: usize, tz_z: bool|
        !homogeneous(values, sep, frac_len, tz_z) by {
        if homogeneous(values, sep, frac_len, tz_z) {
            assert(timestamp_of(values[i], sep, frac_len as int, tz_z) is Some);
            assert(timestamp_of(values[j], sep, frac_len as int, tz_z) is Some);
        }
    }
}

/// One row that is a timestamp in no supported format (a wrong separator, a date that does not
/// exist) is enough for the cast to decline.
pub proof fn law_invalid_row_declines(kernel: Kernel, rows: Seq<Option<Seq<u8>>>, i: int)
    requires
        0 <= i < rows.len(),
        forall|sep: u8, frac_len: usize, tz_z: bool|
            supported(sep, frac_len, tz_z) ==> timestamp_of(
                rows[i]->0,
                sep,
                frac_len as int,
                tz_z,
            ) is None,
    ensures
        array_cast(kernel, rows) is None,
{
    let values: Seq<Seq<u8>> = strings(rows);
    assert forall|sep: u8, frac_len: usize, tz_z: bool|
        !homogeneous(values, sep, frac_len, tz_z) by {
        if homogeneous(values, sep, frac_len, tz_z) {
            assert(timestamp_of(values[i], sep, frac_len as int, tz_z) is Some);
        }
    }
}

/// An empty column is declined, and without a kernel every column is.
pub proof fn law_empty_or_no_kernel_declines(kernel: Kernel, contents: Seq<Option<Seq<u8>>>)
    requires
        contents.len() == 0 || kernel == Kernel::Absent,
    ensures
        array_cast(kernel, contents) is None,
{
}

/// Whichever kernel the machine has, the cast is the same.
pub proof fn law_kernels_agree(contents: Seq<Option<Seq<u8>>>)
    ensures
        array_cast(Kernel::Neon, contents) == array_cast(Kernel::Avx2, contents),
{
}

/// Rows are cast one by one: any part of a column that casts, casts to that part of its values.
pub proof fn law_slice_casts(
    kernel: Kernel,
    contents: Seq<Option<Seq<u8>>>,
    from: int,
    to: int,
)
    requires
        array_cast(kernel, contents) is Some,
        0 <= from < to <= contents.len(),
    ensures
        array_cast(kernel, contents.subrange(from, to)) == Some(
            array_cast(kernel, contents)->0.subrange(from, to),
        ),
{
    let rows: Seq<Seq<u8>> = strings(contents);
    let part: Seq<Option<Seq<u8>>> = contents.subrange(from, to);
    let part_rows: Seq<Seq<u8>> = strings(part);
    let (sep, frac_len, tz_z) = choose|sep: u8, frac_len: usize, tz_z: bool|
        homogeneous(rows, sep, frac_len, tz_z);
    assert forall|i: int| 0 <= i < part.len() implies #[trigger] part[i] is Some by {
        assert(contents[from + i] is Some);
    }
    assert forall|i: int| 0 <= i < part_rows.len() implies timestamp_of(
        #[trigger] part_rows[i],
        sep,
        frac_len as int,
        tz_z,
    ) is Some by {
        assert(part_rows[i] == rows[from + i]);
    }
    law_one_format(rows, sep, frac_len, tz_z);
    law_one_format(part_rows, sep, frac_len, tz_z);
    assert(timestamps(part_rows, sep, frac_len, tz_z) =~= timestamps(
        rows,
        sep,
        frac_len,
        tz_z,
    ).subrange(from, to));
}

/// Columns in the same format can be cast together: the values follow one another.
pub proof fn law_columns_append(
    a: Seq<Seq<u8>>,
    b: Seq<Seq<u8>>,
    sep: u8,
    frac_len: usize,
    tz_z: bool,
)
    requires
        homogeneous(a, sep, frac_len, tz_z),
        homogeneous(b, sep, frac_len, tz_z),
    ensures
        fast_path(a) is Some,
        fast_path(b) is Some,
        fast_path(a + b) == Some(fast_path(a)->0 + fast_path(b)->0),
{
    let rows: Seq<Seq<u8>> = a + b;
    assert forall|i: int| 0 <= i < rows.len() implies timestamp_of(
        #[trigger] rows[i],
        sep,
        frac_len as int,
        tz_z,
    ) is Some by {
        if i < a.len() {
            assert(rows[i] == a[i]);
        } else {
            assert(rows[i] == b[i - a.len()]);
        }
    }
    law_one_format(a, sep, frac_len, tz_z);
    law_one_format(b, sep, frac_len, tz_z);
    law_one_format(rows, sep, frac_len, tz_z);
    assert(timestamps(rows, sep, frac_len, tz_z) =~= timestamps(a, sep, frac_len, tz_z)
        + timestamps(b, sep, frac_len, tz_z));
}

/// The column of instants written in one format.
pub open spec fn written_column(
    instants: Seq<Instant>,
    sep: u8,
    frac_len: usize,
    tz_z: bool,
) -> Seq<Option<Seq<u8>>> {
    Seq::new(instants.len(), |i: int| Some(render(instants[i], sep, frac_len as int, tz_z)))
}

/// The fast path never declines a column it should handle, and gives back what was written:
/// valid instants in one supported format cast to their own timestamps.
pub proof fn law_written_column_casts(
    kernel: Kernel,
    instants: Seq<Instant>,
    sep: u8,
    frac_len: usize,
    tz_z: bool,
)
    requires
        kernel != Kernel::Absent,
        instants.len() > 0,
        supported(sep, frac_len, tz_z),
        forall|i: int|
            0 <= i < instants.len() ==> (#[trigger] instants[i]).valid() && fraction_fits(
                instants[i],
                frac_len as int,
            ),
    ensures
        array_cast(kernel, written_column(instants, sep, frac_len, tz_z)) == Some(
            instants.map_values(|t: Instant| t.nanos()),
        ),
{
    lemma_supported(sep, frac_len, tz_z);
    let contents: Seq<Option<Seq<u8>>> = written_column(instants, sep, frac_len, tz_z);
    let rows: Seq<Seq<u8>> = strings(contents);
    assert forall|i: int| 0 <= i < rows.len() implies timestamp_of(
        #[trigger] rows[i],
        sep,
        frac_len as int,
        tz_z,
    ) == Some(instants[i].nanos()) by {
        assert(instants[i].valid());
        law_written_instant_parses(instants[i], sep, frac_len as int, tz_z);
    }
    assert(homogeneous(rows, sep, frac_len, tz_z));
    law_one_format(rows, sep, frac_len, tz_z);
    assert(timestamps(rows, sep, frac_len, tz_z) =~= instants.map_values(|t: Instant| t.nanos()));
}

/// The fast path never makes a value up: a column that casts is a column of valid instants written
/// in one supported format, and its values are their timestamps.
pub proof fn law_cast_column_is_written(kernel: Kernel, contents: Seq<Option<Seq<u8>>>) -> (out: (
    Seq<Instant>,
    u8,
    usize,
    bool,
))
    requires
        array_cast(kernel, contents) is Some,
    ensures
        supported(out.1, out.2, out.3),
        forall|i: int|
            0 <= i < out.0.len() ==> (#[trigger] out.0[i]).valid() && fraction_fits(
                out.0[i],
                out.2 as int,
            ),
        contents == written_column(out.0, out.1, out.2, out.3),
        array_cast(kernel, contents) == Some(out.0.map_values(|t: Instant| t.nanos())),
{
    let rows: Seq<Seq<u8>> = strings(contents);
    let (sep, frac_len, tz_z) = choose|sep: u8, frac_len: usize, tz_z: bool|
        homogeneous(rows, sep, frac_len, tz_z);
    lemma_supported(sep, frac_len, tz_z);
    let instants: Seq<Instant> = Seq::new(
        rows.len(),
        |i: int| choose|t: Instant| #[trigger] written_as(rows[i], t, sep, frac_len as int, tz_z),
    );
    assert forall|i: int| 0 <= i < rows.len() implies #[trigger] written_as(
        rows[i],
        instants[i],
        sep,
        frac_len as int,
        tz_z,
    ) by {
        assert(timestamp_of(rows[i], sep, frac_len as int, tz_z) is Some);
        let t: Instant = law_parsed_record_is_written(rows[i], sep, frac_len as int, tz_z);
        assert(written_as(rows[i], t, sep, frac_len as int, tz_z));
    }
    assert forall|i: int| 0 <= i < instants.len() implies (#[trigger] instants[i]).valid()
        && fraction_fits(instants[i], frac_len as int) by {
        assert(written_as(rows[i], instants[i], sep, frac_len as int, tz_z));
    }
    assert forall|i: int| 0 <= i < contents.len() implies #[trigger] contents[i]
        == written_column(instants, sep, frac_len, tz_z)[i] by {
        assert(contents[i] is Some);
        assert(written_as(rows[i], instants[i], sep, frac_len as int, tz_z));
    }
    assert(contents =~= written_column(instants, sep, frac_len, tz_z));
    law_one_format(rows, sep, frac_len, tz_z);
    assert(timestamps(rows, sep, frac_len, tz_z) =~= instants.map_values(|t: Instant| t.nanos()))
        by {
        assert forall|i: int| 0 <= i < rows.len() implies timestamps(
            rows,
            sep,
            frac_len,
            tz_z,
        )[i] == #[trigger] instants[i].nanos() by {
            assert(written_as(rows[i], instants[i], sep, frac_len as int, tz_z));
        }
    }
    (instants, sep, frac_len, tz_z)
}

/// A way of reading text that knows the supported layouts: whatever else it reads, it reads every
/// valid instant that is written in one of them as its timestamp.
pub open spec fn reads_written_instants(reading: spec_fn(Seq<u8>) -> Option<int>) -> bool {
    forall|t: Instant, sep: u8, frac_len: usize, tz_z: bool|
        #![trigger render(t, sep, frac_len as int, tz_z)]
        supported(sep, frac_len, tz_z) && t.valid() && fraction_fits(t, frac_len as int)
            ==> reading(render(t, sep, frac_len as int, tz_z)) == Some(t.nanos())
}

/// The values are what the reading makes of the rows, one value for each row.
pub open spec fn read_alike(
    reading: spec_fn(Seq<u8>) -> Option<int>,
    contents: Seq<Option<Seq<u8>>>,
    values: Seq<int>,
) -> bool {
    &&& values.len() == contents.len()
    &&& forall|i: int|
        0 <= i < contents.len() ==> (#[trigger] contents[i] matches Some(text) && reading(text)
            == Some(values[i]))
}

/// The fast path never changes behaviour, it only accelerates: a column that casts has as many
/// values as rows, and each value is what any parser that knows the supported layouts reads in
/// its row.
pub proof fn law_cast_reads_alike(
    kernel: Kernel,
    contents: Seq<Option<Seq<u8>>>,
    reading: spec_fn(Seq<u8>) -> Option<int>,
)
    requires
        reads_written_instants(reading),
        array_cast(kernel, contents) is Some,
    ensures
        read_alike(reading, contents, array_cast(kernel, contents)->0),
{
    let (instants, sep, frac_len, tz_z) = law_cast_column_is_written(kernel, contents);
    assert forall|i: int| 0 <= i < contents.len() implies (#[trigger] contents[i] matches Some(text)
        && reading(text) == Some(array_cast(kernel, contents)->0[i])) by {
        assert(instants[i].valid());
        assert(contents[i] == Some(render(instants[i], sep, frac_len as int, tz_z)));
    }
}

/// A column of valid instants in one supported format is not declined, and its values are what any
/// parser that knows the supported layouts reads in its rows.
pub proof fn law_written_column_reads_alike(
    kernel: Kernel,
    instants: Seq<Instant>,
    sep: u8,
    frac_len: usize,
    tz_z: bool,
    reading: spec_fn(Seq<u8>) -> Option<int>,
)
    requires
        kernel != Kernel::Absent,
        instants.len() > 0,
        supported(sep, frac_len, tz_z),
        forall|i: int|
            0 <= i < instants.len() ==> (#[trigger] instants[i]).valid() && fraction_fits(
                instants[i],
                frac_len as int,
            ),
        reads_written_instants(reading),
    ensures
        array_cast(kernel, written_column(instants, sep, frac_len, tz_z)) is Some,
        read_alike(
            reading,
            written_column(instants, sep, frac_len, tz_z),
            array_cast(kernel, written_column(instants, sep, frac_len, tz_z))->0,
        ),
{
    law_written_column_casts(kernel, instants, sep, frac_len, tz_z);
    law_cast_reads_alike(kernel, written_column(instants, sep, frac_len, tz_z), reading);
}

/// What the cast of a column of one row makes of the row.
pub open spec fn row_reading(kernel: Kernel) -> spec_fn(Seq<u8>) -> Option<int> {
    |text: Seq<u8>|
        match array_cast(kernel, seq![Some(text)]) {
            Some(values) => Some(values[0]),
            None => None,
        }
}

/// Casting row by row is itself a way of reading that knows the supported layouts, so a column
/// casts to what its rows cast to one at a time.
pub proof fn law_row_by_row(kernel: Kernel)
    requires
        kernel != Kernel::Absent,
    ensures
        reads_written_instants(row_reading(kernel)),
        forall|contents: Seq<Option<Seq<u8>>>|
            (#[trigger] array_cast(kernel, contents)) is Some ==> read_alike(
                row_reading(kernel),
                contents,
                array_cast(kernel, contents)->0,
            ),
{
    assert forall|t: Instant, sep: u8, frac_len: usize, tz_z: bool|
        #![trigger render(t, sep, frac_len as int, tz_z)]
        supported(sep, frac_len, tz_z) && t.valid() && fraction_fits(
            t,
            frac_len as int,
        ) implies row_reading(kernel)(render(t, sep, frac_len as int, tz_z)) == Some(t.nanos()) by {
        let text: Seq<u8> = render(t, sep, frac_len as int, tz_z);
        law_written_column_casts(kernel, seq![t], sep, frac_len, tz_z);
        assert(written_column(seq![t], sep, frac_len, tz_z) =~= seq![Some(text)]);
    }
    assert forall|contents: Seq<Option<Seq<u8>>>|
        (#[trigger] array_cast(kernel, contents)) is Some implies read_alike(
        row_reading(kernel),
        contents,
        array_cast(kernel, contents)->0,
    ) by {
        law_cast_reads_alike(kernel, contents, row_reading(kernel));
    }
}

/// The record is the valid instant `t`, written in the layout.
pub open spec fn written_as(
    record: Seq<u8>,
    t: Instant,
    sep: u8,
    frac_len: int,
    tz_z: bool,
) -> bool {
    &&& t.valid()
    &&& fraction_fits(t, frac_len)
    &&& record == render(t, sep, frac_len, tz_z)
    &&& timestamp_of(record, sep, frac_len, tz_z) == Some(t.nanos())
}

/// Every column that should be cast is cast, byte for byte: with a kernel, a column of one or more
/// strings that all write a real date and time of the years 1678 to 2261 in the same supported
/// layout has as many values as strings, and each is the timestamp of its own digits.
pub proof fn law_text_casts(
    kernel: Kernel,
    contents: Seq<Option<Seq<u8>>>,
    sep: u8,
    frac_len: int,
    tz_z: bool,
)
    requires
        kernel == Kernel::Neon || kernel == Kernel::Avx2,
        contents.len() > 0,
        frac_len == 0 || frac_len == 3 || frac_len == 6 || frac_len == 9,
        sep == 0x54 || sep == 0x20 && !tz_z,
        forall|i: int|
            #![trigger contents[i]]
            0 <= i < contents.len() ==> {
                let b: Seq<u8> = contents[i]->0;
                let y: int = 1000 * (b[0] - 0x30) + 100 * (b[1] - 0x30) + 10 * (b[2] - 0x30) + (b[3]
                    - 0x30);
                let m: int = 10 * (b[5] - 0x30) + (b[6] - 0x30);
                let d: int = 10 * (b[8] - 0x30) + (b[9] - 0x30);
                &&& contents[i] is Some
                &&& b.len() == 19 + (if frac_len > 0 {
                    1 + frac_len
                } else {
                    0
                }) + (if tz_z {
                    1int
                } else {
                    0
                })
                &&& b[4] == 0x2d && b[7] == 0x2d && b[10] == sep
                &&& b[13] == 0x3a && b[16] == 0x3a
                &&& frac_len > 0 ==> b[19] == 0x2e
                &&& tz_z ==> b[b.len() - 1] == 0x5a
                &&& forall|p: int|
                    (0 <= p < 4 || 5 <= p < 7 || 8 <= p < 10 || 11 <= p < 13 || 14 <= p < 16 || 17 <= p < 19
                        || 20 <= p < 20 + frac_len) ==> 0x30 <= #[trigger] b[p] <= 0x39
                &&& 1678 <= y <= 2261 && 1 <= m <= 12 && 1 <= d <= 31
                &&& d == 31 ==> m == 1 || m == 3 || m == 5 || m == 7 || m == 8 || m == 10 || m == 12
                &&& d == 30 ==> m != 2
                &&& d == 29 && m == 2 ==> y % 4 == 0 && (y % 100 != 0 || y % 400 == 0)
                &&& 10 * (b[11] - 0x30) + (b[12] - 0x30) <= 23
                &&& 10 * (b[14] - 0x30) + (b[15] - 0x30) <= 59
                &&& 10 * (b[17] - 0x30) + (b[18] - 0x30) <= 59
            },
    ensures
        array_cast(kernel, contents) is Some,
        array_cast(kernel, contents)->0.len() == contents.len(),
        forall|i: int|
            #![trigger array_cast(kernel, contents)->0[i]]
            0 <= i < contents.len() ==> {
                let values: Seq<int> = array_cast(kernel, contents)->0;
                let b: Seq<u8> = contents[i]->0;
                values[i] == civil_nanos(
                    1000 * (b[0] - 0x30) + 100 * (b[1] - 0x30) + 10 * (b[2] - 0x30) + (b[3] - 0x30),
                    10 * (b[5] - 0x30) + (b[6] - 0x30),
                    10 * (b[8] - 0x30) + (b[9] - 0x30),
                    10 * (b[11] - 0x30) + (b[12] - 0x30),
                    10 * (b[14] - 0x30) + (b[15] - 0x30),
                    10 * (b[17] - 0x30) + (b[18] - 0x30),
                    (if frac_len > 0 { 100_000_000 * (b[20] - 0x30) } else { 0 })
                        + (if frac_len > 1 { 10_000_000 * (b[21] - 0x30) } else { 0 })
                        + (if frac_len > 2 { 1_000_000 * (b[22] - 0x30) } else { 0 })
                        + (if frac_len > 3 { 100_000 * (b[23] - 0x30) } else { 0 })
                        + (if frac_len > 4 { 10_000 * (b[24] - 0x30) } else { 0 })
                        + (if frac_len > 5 { 1_000 * (b[25] - 0x30) } else { 0 })
                        + (if frac_len > 6 { 100 * (b[26] - 0x30) } else { 0 })
                        + (if frac_len > 7 { 10 * (b[27] - 0x30) } else { 0 })
                        + (if frac_len > 8 { 1 * (b[28] - 0x30) } else { 0 }),
                )
            },
{
    let rows: Seq<Seq<u8>> = strings(contents);
    let len: usize = frac_len as usize;
    lemma_supported(sep, len, tz_z);
    assert forall|i: int| 0 <= i < rows.len() implies timestamp_of(
        #[trigger] rows[i],
        sep,
        len as int,
        tz_z,
    ) is Some by {
        assert(contents[i] is Some);
        law_text_says(rows[i], sep, frac_len, tz_z);
    }
    assert(null_free(contents));
    assert(homogeneous(rows, sep, len, tz_z));
    law_one_format(rows, sep, len, tz_z);
    assert forall|i: int|
        #![trigger array_cast(kernel, contents)->0[i]]
        0 <= i < contents.len() implies {
        let values: Seq<int> = array_cast(kernel, contents)->0;
        let b: Seq<u8> = contents[i]->0;
        values[i] == civil_nanos(
            1000 * (b[0] - 0x30) + 100 * (b[1] - 0x30) + 10 * (b[2] - 0x30) + (b[3] - 0x30),
            10 * (b[5] - 0x30) + (b[6] - 0x30),
            10 * (b[8] - 0x30) + (b[9] - 0x30),
            10 * (b[11] - 0x30) + (b[12] - 0x30),
            10 * (b[14] - 0x30) + (b[15] - 0x30),
            10 * (b[17] - 0x30) + (b[18] - 0x30),
            (if frac_len > 0 { 100_000_000 * (b[20] - 0x30) } else { 0 })
                + (if frac_len > 1 { 10_000_000 * (b[21] - 0x30) } else { 0 })
                + (if frac_len > 2 { 1_000_000 * (b[22] - 0x30) } else { 0 })
                + (if frac_len > 3 { 100_000 * (b[23] - 0x30) } else { 0 })
                + (if frac_len > 4 { 10_000 * (b[24] - 0x30) } else { 0 })
                + (if frac_len > 5 { 1_000 * (b[25] - 0x30) } else { 0 })
                + (if frac_len > 6 { 100 * (b[26] - 0x30) } else { 0 })
                + (if frac_len > 7 { 10 * (b[27] - 0x30) } else { 0 })
                + (if frac_len > 8 { 1 * (b[28] - 0x30) } else { 0 }),
        )
    } by {
        assert(timestamp_of(rows[i], sep, len as int, tz_z) is Some);
        law_text_says(rows[i], sep, frac_len, tz_z);
    }
}

/// Nothing else is cast, byte for byte: a column that casts has a kernel and one or more strings,
/// none of them null, that all write a real date and time of the years 1678 to 2261 in the same
/// supported layout, and its values are the timestamps of their digits.
pub proof fn law_only_text_casts(kernel: Kernel, contents: Seq<Option<Seq<u8>>>) -> (layout: (
    u8,
    int,
    bool,
))
    requires
        array_cast(kernel, contents) is Some,
    ensures
        kernel == Kernel::Neon || kernel == Kernel::Avx2,
        contents.len() > 0,
        layout.1 == 0 || layout.1 == 3 || layout.1 == 6 || layout.1 == 9,
        layout.0 == 0x54 || layout.0 == 0x20 && !layout.2,
        array_cast(kernel, contents)->0.len() == contents.len(),
        forall|i: int|
            #![trigger contents[i]]
            0 <= i < contents.len() ==> {
                let b: Seq<u8> = contents[i]->0;
                let y: int = 1000 * (b[0] - 0x30) + 100 * (b[1] - 0x30) + 10 * (b[2] - 0x30) + (b[3]
                    - 0x30);
                let m: int = 10 * (b[5] - 0x30) + (b[6] - 0x30);
                let d: int = 10 * (b[8] - 0x30) + (b[9] - 0x30);
                &&& contents[i] is Some
                &&& b.len() == 19 + (if layout.1 > 0 {
                    1 + layout.1
                } else {
                    0
                }) + (if layout.2 {
                    1int
                } else {
                    0
                })
                &&& b[4] == 0x2d && b[7] == 0x2d && b[10] == layout.0
                &&& b[13] == 0x3a && b[16] == 0x3a
                &&& layout.1 > 0 ==> b[19] == 0x2e
                &&& layout.2 ==> b[b.len() - 1] == 0x5a
                &&& forall|p: int|
                    (0 <= p < 4 || 5 <= p < 7 || 8 <= p < 10 || 11 <= p < 13 || 14 <= p < 16 || 17 <= p < 19
                        || 20 <= p < 20 + layout.1) ==> 0x30 <= #[trigger] b[p] <= 0x39
                &&& 1678 <= y <= 2261 && 1 <= m <= 12 && 1 <= d <= 31
                &&& d == 31 ==> m == 1 || m == 3 || m == 5 || m == 7 || m == 8 || m == 10 || m == 12
                &&& d == 30 ==> m != 2
                &&& d == 29 && m == 2 ==> y % 4 == 0 && (y % 100 != 0 || y % 400 == 0)
                &&& 10 * (b[11] - 0x30) + (b[12] - 0x30) <= 23
                &&& 10 * (b[14] - 0x30) + (b[15] - 0x30) <= 59
                &&& 10 * (b[17] - 0x30) + (b[18] - 0x30) <= 59
            },
        forall|i: int|
            #![trigger array_cast(kernel, contents)->0[i]]
            0 <= i < contents.len() ==> {
                let values: Seq<int> = array_cast(kernel, contents)->0;
                let b: Seq<u8> = contents[i]->0;
                values[i] == civil_nanos(
                    1000 * (b[0] - 0x30) + 100 * (b[1] - 0x30) + 10 * (b[2] - 0x30) + (b[3] - 0x30),
                    10 * (b[5] - 0x30) + (b[6] - 0x30),
                    10 * (b[8] - 0x30) + (b[9] - 0x30),
                    10 * (b[11] - 0x30) + (b[12] - 0x30),
                    10 * (b[14] - 0x30) + (b[15] - 0x30),
                    10 * (b[17] - 0x30) + (b[18] - 0x30),
                    (if layout.1 > 0 { 100_000_000 * (b[20] - 0x30) } else { 0 })
                        + (if layout.1 > 1 { 10_000_000 * (b[21] - 0x30) } else { 0 })
                        + (if layout.1 > 2 { 1_000_000 * (b[22] - 0x30) } else { 0 })
                        + (if layout.1 > 3 { 100_000 * (b[23] - 0x30) } else { 0 })
                        + (if layout.1 > 4 { 10_000 * (b[24] - 0x30) } else { 0 })
                        + (if layout.1 > 5 { 1_000 * (b[25] - 0x30) } else { 0 })
                        + (if layout.1 > 6 { 100 * (b[26] - 0x30) } else { 0 })
                        + (if layout.1 > 7 { 10 * (b[27] - 0x30) } else { 0 })
                        + (if layout.1 > 8 { 1 * (b[28] - 0x30) } else { 0 }),
                )
            },
{
    let rows: Seq<Seq<u8>> = strings(contents);
    let (sep, frac_len, tz_z) = choose|sep: u8, frac_len: usize, tz_z: bool|
        homogeneous(rows, sep, frac_len, tz_z);
    lemma_supported(sep, frac_len, tz_z);
    law_one_format(rows, sep, frac_len, tz_z);
    assert forall|i: int| 0 <= i < contents.len() implies (#[trigger] contents[i]) is Some
        && timestamp_of(contents[i]->0, sep, frac_len as int, tz_z) is Some by {
        assert(rows[i] == contents[i]->0);
    }
    let layout: (u8, int, bool) = (sep, frac_len as int, tz_z);
    assert forall|i: int|
        #![trigger contents[i]]
        0 <= i < contents.len() implies {
        let b: Seq<u8> = contents[i]->0;
        let y: int = 1000 * (b[0] - 0x30) + 100 * (b[1] - 0x30) + 10 * (b[2] - 0x30) + (b[3]
            - 0x30);
        let m: int = 10 * (b[5] - 0x30) + (b[6] - 0x30);
        let d: int = 10 * (b[8] - 0x30) + (b[9] - 0x30);
        &&& contents[i] is Some
        &&& b.len() == 19 + (if layout.1 > 0 {
            1 + layout.1
        } else {
            0
        }) + (if layout.2 {
            1int
        } else {
            0
        })
        &&& b[4] == 0x2d && b[7] == 0x2d && b[10] == layout.0
        &&& b[13] == 0x3a && b[16] == 0x3a
        &&& layout.1 > 0 ==> b[19] == 0x2e
        &&& layout.2 ==> b[b.len() - 1] == 0x5a
        &&& forall|p: int|
            (0 <= p < 4 || 5 <= p < 7 || 8 <= p < 10 || 11 <= p < 13 || 14 <= p < 16 || 17 <= p < 19
                || 20 <= p < 20 + layout.1) ==> 0x30 <= #[trigger] b[p] <= 0x39
        &&& 1678 <= y <= 2261 && 1 <= m <= 12 && 1 <= d <= 31
        &&& d == 31 ==> m == 1 || m == 3 || m == 5 || m == 7 || m == 8 || m == 10 || m == 12
        &&& d == 30 ==> m != 2
        &&& d == 29 && m == 2 ==> y % 4 == 0 && (y % 100 != 0 || y % 400 == 0)
        &&& 10 * (b[11] - 0x30) + (b[12] - 0x30) <= 23
        &&& 10 * (b[14] - 0x30) + (b[15] - 0x30) <= 59
        &&& 10 * (b[17] - 0x30) + (b[18] - 0x30) <= 59
    } by {
        law_text_says(contents[i]->0, sep, frac_len as int, tz_z);
    }
    assert forall|i: int|
        #![trigger array_cast(kernel, contents)->0[i]]
        0 <= i < contents.len() implies {
        let values: Seq<int> = array_cast(kernel, contents)->0;
        let b: Seq<u8> = contents[i]->0;
        values[i] == civil_nanos(
            1000 * (b[0] - 0x30) + 100 * (b[1] - 0x30) + 10 * (b[2] - 0x30) + (b[3] - 0x30),
            10 * (b[5] - 0x30) + (b[6] - 0x30),
            10 * (b[8] - 0x30) + (b[9] - 0x30),
            10 * (b[11] - 0x30) + (b[12] - 0x30),
            10 * (b[14] - 0x30) + (b[15] - 0x30),
            10 * (b[17] - 0x30) + (b[18] - 0x30),
            (if layout.1 > 0 { 100_000_000 * (b[20] - 0x30) } else { 0 })
                + (if layout.1 > 1 { 10_000_000 * (b[21] - 0x30) } else { 0 })
                + (if layout.1 > 2 { 1_000_000 * (b[22] - 0x30) } else { 0 })
                + (if layout.1 > 3 { 100_000 * (b[23] - 0x30) } else { 0 })
                + (if layout.1 > 4 { 10_000 * (b[24] - 0x30) } else { 0 })
                + (if layout.1 > 5 { 1_000 * (b[25] - 0x30) } else { 0 })
                + (if layout.1 > 6 { 100 * (b[26] - 0x30) } else { 0 })
                + (if layout.1 > 7 { 10 * (b[27] - 0x30) } else { 0 })
                + (if layout.1 > 8 { 1 * (b[28] - 0x30) } else { 0 }),
        )
    } by {
        assert(contents[i] is Some);
        law_text_says(contents[i]->0, sep, frac_len as int, tz_z);
    }
    layout
}

/// A column without nulls casts as the array of its strings does; with nulls it is declined.
pub proof fn law_column_casts_as_array(kernel: Kernel, null_count: nat, rows: Seq<Seq<u8>>)
    ensures
        null_count != 0 ==> cast_result(kernel, null_count, rows) is None,
        null_count == 0 ==> cast_result(kernel, null_count, rows) == array_cast(
            kernel,
            Seq::new(rows.len(), |i: int| Some(rows[i])),
        ),
{
    let contents: Seq<Option<Seq<u8>>> = Seq::new(rows.len(), |i: int| Some(rows[i]));
    assert(null_free(contents));
    assert(strings(contents) =~= rows);
}

} // verus!
