//! A column of strings, and the fast path that casts it to timestamps.

use crate::engine::{first_bad_row, parses_rows, row};
use crate::format::{
    detect, has_layout, law_formats_disjoint, lemma_supported, supported, FormatSpec,
};
use crate::record::parse_record;
use crate::text::{lemma_described_parse, timestamp_of};
use crate::{avx2, neon};
use vstd::prelude::*;

verus! {

/// The vector kernel of the machine.
#[derive(Clone, Copy, PartialEq, Eq, Debug, Structural)]
pub enum Kernel {
    /// Interleaves even and odd elements; a baseline feature of aarch64.
    Neon,
    /// Interleaves register halves; found on x86_64 at run time.
    Avx2,
    /// The machine has no vector kernel.
    Absent,
}

/// Hands the rows to the kernel of the machine. Without one, declines.
#[inline]
pub fn run_simd_kernel(kernel: Kernel, fmt: &FormatSpec, data: &[u8], n: usize, out: &mut [i64]) -> (ok:
    bool)
    requires
        fmt.wf(),
        n * fmt.width <= data.len(),
        n <= old(out)@.len(),
    ensures
        kernel != Kernel::Absent ==> parses_rows(
            fmt,
            data@,
            n as int,
            old(out)@,
            ok,
            final(out)@,
        ),
        kernel == Kernel::Absent ==> !ok && final(out)@ == old(out)@,
{
    match kernel {
        Kernel::Neon => neon::parse_all(fmt, data, n, out),
        Kernel::Avx2 => avx2::parse_all(fmt, data, n, out),
        Kernel::Absent => false,
    }
}

/// The bytes of a column of strings: row `i` is `data[offsets[i]..offsets[i + 1]]`.
///
/// The rows need not cover the data: a slice of a longer column begins and ends inside it.
pub struct StringColumn<'a> {
    pub null_count: usize,
    pub offsets: Vec<usize>,
    pub data: &'a [u8],
}

/// There is a first offset, offsets never decrease, and the last one is inside the data.
pub open spec fn offsets_valid(offsets: Seq<usize>, data: Seq<u8>) -> bool {
    &&& offsets.len() > 0
    &&& forall|i: int, j: int| 0 <= i <= j < offsets.len() ==> offsets[i] <= offsets[j]
    &&& offsets.last() <= data.len()
}

/// The strings that the offsets cut out of the data.
pub open spec fn rows_of(offsets: Seq<usize>, data: Seq<u8>) -> Seq<Seq<u8>> {
    Seq::new(
        (offsets.len() - 1) as nat,
        |i: int| data.subrange(offsets[i] as int, offsets[i + 1] as int),
    )
}

impl<'a> StringColumn<'a> {
    pub open spec fn wf(&self) -> bool {
        offsets_valid(self.offsets@, self.data@)
    }

    /// The rows of the column, bytes of null rows included.
    pub open spec fn rows(&self) -> Seq<Seq<u8>> {
        rows_of(self.offsets@, self.data@)
    }

    /// A column of the given parts, if the offsets cut strings out of the data.
    pub fn new(null_count: usize, offsets: Vec<usize>, data: &'a [u8]) -> (column: Option<
        StringColumn<'a>,
    >)
        ensures
            column is Some <==> offsets_valid(offsets@, data@),
            column matches Some(c) ==> c.null_count == null_count && c.offsets@ == offsets@
                && c.data@ == data@,
            column is Some <==> offsets@.len() > 0 && offsets@.last() <= data@.len() && forall|
                i: int,
                j: int,
            |
                0 <= i <= j < offsets@.len() ==> #[trigger] offsets@[i] <= #[trigger] offsets@[j],
    {
        if offsets.len() == 0 {
            return None;
        }
        let mut i: usize = 1;
        while i < offsets.len()
            invariant
                1 <= i <= offsets@.len(),
                forall|j: int, k: int| 0 <= j <= k < i ==> offsets@[j] <= offsets@[k],
            decreases offsets@.len() - i,
        {
            if offsets[i] < offsets[i - 1] {
                assert(offsets@[i - 1] > offsets@[i as int]);
                return None;
            }
            i = i + 1;
        }
        if offsets[offsets.len() - 1] > data.len() {
            return None;
        }
        Some(StringColumn { null_count, offsets, data })
    }
}

/// Every row is a timestamp in the same supported format, and there is at least one.
pub open spec fn homogeneous(rows: Seq<Seq<u8>>, sep: u8, frac_len: usize, tz_z: bool) -> bool {
    &&& supported(sep, frac_len, tz_z)
    &&& rows.len() > 0
    &&& forall|i: int|
        0 <= i < rows.len() ==> timestamp_of(#[trigger] rows[i], sep, frac_len as int, tz_z) is Some
}

/// The timestamps of rows that are all in one format.
pub open spec fn timestamps(rows: Seq<Seq<u8>>, sep: u8, frac_len: usize, tz_z: bool) -> Seq<int> {
    Seq::new(rows.len(), |i: int| timestamp_of(rows[i], sep, frac_len as int, tz_z)->0)
}

/// The timestamps of a homogeneous column; nothing for any other column.
pub open spec fn fast_path(rows: Seq<Seq<u8>>) -> Option<Seq<int>> {
    if exists|sep: u8, frac_len: usize, tz_z: bool| homogeneous(rows, sep, frac_len, tz_z) {
        let (sep, frac_len, tz_z) = choose|sep: u8, frac_len: usize, tz_z: bool|
            homogeneous(rows, sep, frac_len, tz_z);
        Some(timestamps(rows, sep, frac_len, tz_z))
    } else {
        None
    }
}

/// What the cast of a column is: its timestamps if the machine has a kernel, no row is null and
/// the column is homogeneous, and otherwise nothing.
pub open spec fn cast_result(kernel: Kernel, null_count: nat, rows: Seq<Seq<u8>>) -> Option<
    Seq<int>,
> {
    if kernel == Kernel::Absent || null_count != 0 {
        None
    } else {
        fast_path(rows)
    }
}

/// The values of a cast as mathematical integers.
pub open spec fn cast_view(cast: Option<Vec<i64>>) -> Option<Seq<int>> {
    match cast {
        Some(values) => Some(values@.map_values(|v: i64| v as int)),
        None => None,
    }
}

/// A column is homogeneous in at most one format, so that the timestamps are those of any.
pub proof fn law_one_format(rows: Seq<Seq<u8>>, sep: u8, frac_len: usize, tz_z: bool)
    requires
        homogeneous(rows, sep, frac_len, tz_z),
    ensures
        forall|sep2: u8, frac_len2: usize, tz_z2: bool|
            homogeneous(rows, sep2, frac_len2, tz_z2) ==> sep2 == sep && frac_len2 == frac_len
                && tz_z2 == tz_z,
        fast_path(rows) == Some(timestamps(rows, sep, frac_len, tz_z)),
{
    assert(timestamp_of(rows[0], sep, frac_len as int, tz_z) is Some);
    assert forall|sep2: u8, frac_len2: usize, tz_z2: bool|
        homogeneous(rows, sep2, frac_len2, tz_z2) implies sep2 == sep && frac_len2 == frac_len
        && tz_z2 == tz_z by {
        assert(timestamp_of(rows[0], sep2, frac_len2 as int, tz_z2) is Some);
        law_formats_disjoint(rows[0], sep, frac_len, tz_z, sep2, frac_len2, tz_z2);
    }
}

/// Casts a column of strings to nanoseconds since the epoch. Returns the values only if the whole
/// column was handled (null-free, fixed stride, supported format, all rows valid).
pub fn cast_column(column: &StringColumn<'_>, kernel: Kernel) -> (cast: Option<Vec<i64>>)
    requires
        column.wf(),
    ensures
        cast_view(cast) == cast_result(kernel, column.null_count as nat, column.rows()),
        column.null_count != 0 || kernel == Kernel::Absent ==> cast is None,
        cast is Some <==> cast_result(kernel, column.null_count as nat, column.rows()) is Some,
        cast matches Some(values) ==> values@.len() == column.offsets@.len() - 1,
        cast matches Some(values) ==> forall|i: int|
            0 <= i < values@.len() ==> #[trigger] values@[i] == cast_result(
                kernel,
                column.null_count as nat,
                column.rows(),
            )->0[i],
{
    if column.null_count != 0 {
        return None;
    }
    let n: usize = column.offsets.len() - 1;
    if n == 0 {
        return None;
    }
    let ghost rows = column.rows();
    let base: usize = column.offsets[0];
    let w: usize = column.offsets[1] - base;
    assert(rows[0].len() == w);
    if w < 19 || w > 31 {
        proof {
            assert forall|sep: u8, frac_len: usize, tz_z: bool|
                !homogeneous(rows, sep, frac_len, tz_z) by {
                if homogeneous(rows, sep, frac_len, tz_z) {
                    lemma_supported(sep, frac_len, tz_z);
                    assert(timestamp_of(rows[0], sep, frac_len as int, tz_z) is Some);
                }
            }
        }
        return None;
    }
    // A fixed stride means that all strings are as long as the first.
    let mut i: usize = 0;
    while i < n
        invariant
            column.wf(),
            n == column.offsets@.len() - 1,
            n > 0,
            i <= n,
            rows == column.rows(),
            rows[0].len() == w,
            base == column.offsets@[0],
            forall|k: int| 0 <= k <= i ==> #[trigger] column.offsets@[k] == base + k * w,
        decreases n - i,
    {
        assert(column.offsets@[i as int] <= column.offsets@[i + 1]);
        if column.offsets[i + 1] - column.offsets[i] != w {
            proof {
                assert(rows[i as int].len() != w);
                assert forall|sep: u8, frac_len: usize, tz_z: bool|
                    !homogeneous(rows, sep, frac_len, tz_z) by {
                    if homogeneous(rows, sep, frac_len, tz_z) {
                        assert(timestamp_of(rows[0], sep, frac_len as int, tz_z) is Some);
                        assert(timestamp_of(rows[i as int], sep, frac_len as int, tz_z) is Some);
                    }
                }
            }
            return None;
        }
        proof {
            assert(i * w + w == (i + 1) * w) by (nonlinear_arith);
        }
        i = i + 1;
    }
    let data: &[u8] = &column.data[base..column.offsets[n]];
    proof {
        assert(column.offsets@[n as int] == base + n * w);
        assert forall|k: int| 0 <= k < n implies #[trigger] rows[k] == row(data@, w as int, k) by {
            assert(column.offsets@[k] == base + k * w);
            assert(column.offsets@[k + 1] == base + (k + 1) * w);
            assert(k * w + w == (k + 1) * w) by (nonlinear_arith);
            assert(0 <= k * w && (k + 1) * w <= n * w) by (nonlinear_arith)
                requires
                    0 <= k < n,
                    0 <= w,
            ;
            assert(rows[k] =~= row(data@, w as int, k));
        }
        assert(rows[0] == row(data@, w as int, 0));
        assert(w <= n * w) by (nonlinear_arith)
            requires
                n > 0,
                w >= 0,
        ;
    }
    let sample: &[u8] = &data[0..w];
    assert(sample@ == rows[0]);
    let fmt: FormatSpec = match detect(sample) {
        Some(fmt) => fmt,
        None => {
            proof {
                assert forall|sep: u8, frac_len: usize, tz_z: bool|
                    !homogeneous(rows, sep, frac_len, tz_z) by {
                    if homogeneous(rows, sep, frac_len, tz_z) {
                        assert(timestamp_of(rows[0], sep, frac_len as int, tz_z) is Some);
                    }
                }
            }
            return None;
        },
    };
    let ghost (sep, frac_len, tz_z) = choose|sep: u8, frac_len: usize, tz_z: bool|
        #![trigger supported(sep, frac_len, tz_z)]
        supported(sep, frac_len, tz_z) && has_layout(rows[0], sep, frac_len as int, tz_z)
            && fmt.describes(sep, frac_len as int, tz_z);
    proof {
        lemma_supported(sep, frac_len, tz_z);
        assert forall|k: int| 0 <= k < n implies #[trigger] timestamp_of(
            rows[k],
            sep,
            frac_len as int,
            tz_z,
        ) == parse_record(row(data@, w as int, k), &fmt) by {
            assert(rows[k] == row(data@, w as int, k));
            assert(column.offsets@[k] == base + k * w);
            assert(column.offsets@[k + 1] == base + (k + 1) * w);
            assert(k * w + w == (k + 1) * w) by (nonlinear_arith);
            lemma_described_parse(rows[k], &fmt, sep, frac_len as int, tz_z);
        }
    }
    let mut out: Vec<i64> = vec![0i64; n];
    let ghost before = out@;
    if run_simd_kernel(kernel, &fmt, data, n, out.as_mut_slice()) {
        proof {
            assert forall|k: int| 0 <= k < n implies timestamp_of(
                #[trigger] rows[k],
                sep,
                frac_len as int,
                tz_z,
            ) is Some by {
                assert(parse_record(row(data@, w as int, k), &fmt) is Some);
            }
            law_one_format(rows, sep, frac_len, tz_z);
            assert(out@.map_values(|v: i64| v as int) =~= timestamps(rows, sep, frac_len, tz_z)) by {
                assert forall|k: int| 0 <= k < n implies out@[k] == timestamps(
                    rows,
                    sep,
                    frac_len,
                    tz_z,
                )[k] by {
                    assert(parse_record(row(data@, w as int, k), &fmt) == Some(out@[k] as int));
                }
            }
        }
        Some(out)
    } else {
        proof {
            if kernel != Kernel::Absent {
                let f: int = choose|f: int|
                    0 <= f < n && #[trigger] first_bad_row(&fmt, data@, f);
                assert forall|sep2: u8, frac_len2: usize, tz_z2: bool|
                    !homogeneous(rows, sep2, frac_len2, tz_z2) by {
                    if homogeneous(rows, sep2, frac_len2, tz_z2) {
                        assert(timestamp_of(rows[0], sep2, frac_len2 as int, tz_z2) is Some);
                        law_formats_disjoint(
                            rows[0],
                            sep,
                            frac_len,
                            tz_z,
                            sep2,
                            frac_len2,
                            tz_z2,
                        );
                        assert(timestamp_of(rows[f], sep, frac_len as int, tz_z) is Some);
                    }
                }
            }
        }
        None
    }
}

/// A column has one row between each two offsets: the bytes from the one to the other.
pub proof fn law_rows_cut(column: &StringColumn<'_>)
    requires
        column.offsets@.len() > 0,
        column.offsets@.last() <= column.data@.len(),
        forall|i: int, j: int|
            0 <= i <= j < column.offsets@.len() ==> column.offsets@[i] <= column.offsets@[j],
    ensures
        column.wf(),
        column.rows().len() == column.offsets@.len() - 1,
        forall|i: int|
            0 <= i < column.rows().len() ==> #[trigger] column.rows()[i] == column.data@.subrange(
                column.offsets@[i] as int,
                column.offsets@[i + 1] as int,
            ),
{
}

/// The view of a cast has the values in their order.
pub proof fn law_cast_viewed(cast: Option<Vec<i64>>, i: int)
    ensures
        cast is Some <==> cast_view(cast) is Some,
        cast matches Some(values) ==> cast_view(cast)->0.len() == values@.len(),
        cast matches Some(values) ==> (0 <= i < values@.len() ==> cast_view(cast)->0[i]
            == values@[i]),
{
}

} // verus!
