//! Arrow string arrays, and the cast of a whole array.

use crate::column::{
    cast_column, cast_view, fast_path, homogeneous, law_one_format, timestamps, Kernel, StringColumn,
};
use crate::text::timestamp_of;
use arrow_array::Array;
use vstd::prelude::*;
use vstd::utf8::encode_utf8;

verus! {

/// An Arrow string array with 32-bit offsets.
#[verifier::external_body]
pub struct Utf8Array {
    pub array: arrow_array::StringArray,
}

/// An Arrow string array with 64-bit offsets.
#[verifier::external_body]
pub struct LargeUtf8Array {
    pub array: arrow_array::LargeStringArray,
}

/// The rows of an array, `None` where a row is null.
pub uninterp spec fn utf8_contents(array: Utf8Array) -> Seq<Option<Seq<u8>>>;

/// What `value_data` returns for an array.
pub uninterp spec fn utf8_data(array: Utf8Array) -> Seq<u8>;

/// The rows of an array, `None` where a row is null.
pub uninterp spec fn large_utf8_contents(array: LargeUtf8Array) -> Seq<Option<Seq<u8>>>;

/// What `value_data` returns for an array.
pub uninterp spec fn large_utf8_data(array: LargeUtf8Array) -> Seq<u8>;

/// The number of null rows.
pub open spec fn count_nulls(rows: Seq<Option<Seq<u8>>>) -> nat
    decreases rows.len(),
{
    if rows.len() == 0 {
        0
    } else {
        count_nulls(rows.drop_last()) + (if rows.last() is None {
            1nat
        } else {
            0nat
        })
    }
}

/// The rows that strings make in UTF-8.
pub open spec fn encoded(values: Seq<Option<String>>) -> Seq<Option<Seq<u8>>> {
    values.map_values(
        |value: Option<String>|
            match value {
                Some(text) => Some(encode_utf8(text@)),
                None => None,
            },
    )
}

/// The number of bytes in all rows that are not null.
pub open spec fn total_bytes(rows: Seq<Option<Seq<u8>>>) -> nat
    decreases rows.len(),
{
    if rows.len() == 0 {
        0
    } else {
        total_bytes(rows.drop_last()) + (match rows.last() {
            Some(bytes) => bytes.len(),
            None => 0,
        })
    }
}

/// `StringArray::from(Vec<Option<String>>)`: an array of the strings in order, null where there is
/// none. It panics when the bytes of all strings are more than the largest offset.
#[verifier::external_body]
fn utf8_from_values(values: Vec<Option<String>>) -> (array: Utf8Array)
    requires
        total_bytes(encoded(values@)) <= i32::MAX,
    ensures
        utf8_contents(array) == encoded(values@),
{
    Utf8Array { array: arrow_array::StringArray::from(values) }
}

/// `Array::null_count` of a `StringArray`: the number of null rows.
#[verifier::external_body]
fn utf8_null_count(array: &Utf8Array) -> (count: usize)
    ensures
        count == count_nulls(utf8_contents(*array)),
{
    array.array.null_count()
}

/// `StringArray::value_offsets`: one more offset than there are rows, none negative, none smaller
/// than the one before, none past the end of the value data; a row that is not null is the value
/// data from its offset to the next.
#[verifier::external_body]
fn utf8_value_offsets(array: &Utf8Array) -> (offsets: &[i32])
    ensures
        offsets@.len() == utf8_contents(*array).len() + 1,
        0 <= offsets@[0],
        forall|i: int, j: int| 0 <= i <= j < offsets@.len() ==> offsets@[i] <= offsets@[j],
        offsets@.last() <= utf8_data(*array).len(),
        forall|i: int|
            0 <= i < utf8_contents(*array).len() ==> (
            #[trigger] utf8_contents(*array)[i] matches Some(bytes) ==> bytes
                == utf8_data(*array).subrange(offsets@[i] as int, offsets@[i + 1] as int)),
{
    array.array.value_offsets()
}

/// `StringArray::value_data`: the bytes that the offsets count in.
#[verifier::external_body]
fn utf8_value_data(array: &Utf8Array) -> (data: &[u8])
    ensures
        data@ == utf8_data(*array),
{
    array.array.value_data()
}

/// `LargeStringArray::from(Vec<Option<String>>)`: an array of the strings in order, null where
/// there is none. It panics when the bytes of all strings are more than the largest offset.
#[verifier::external_body]
fn large_utf8_from_values(values: Vec<Option<String>>) -> (array: LargeUtf8Array)
    requires
        total_bytes(encoded(values@)) <= i64::MAX,
    ensures
        large_utf8_contents(array) == encoded(values@),
{
    LargeUtf8Array { array: arrow_array::LargeStringArray::from(values) }
}

/// `Array::null_count` of a `LargeStringArray`: the number of null rows.
#[verifier::external_body]
fn large_utf8_null_count(array: &LargeUtf8Array) -> (count: usize)
    ensures
        count == count_nulls(large_utf8_contents(*array)),
{
    array.array.null_count()
}

/// `LargeStringArray::value_offsets`: one more offset than there are rows, none negative, none
/// smaller than the one before, none past the end of the value data; a row that is not null is
/// the value data from its offset to the next.
#[verifier::external_body]
fn large_utf8_value_offsets(array: &LargeUtf8Array) -> (offsets: &[i64])
    ensures
        offsets@.len() == large_utf8_contents(*array).len() + 1,
        0 <= offsets@[0],
        forall|i: int, j: int| 0 <= i <= j < offsets@.len() ==> offsets@[i] <= offsets@[j],
        offsets@.last() <= large_utf8_data(*array).len(),
        forall|i: int|
            0 <= i < large_utf8_contents(*array).len() ==> (
            #[trigger] large_utf8_contents(*array)[i] matches Some(bytes) ==> bytes
                == large_utf8_data(*array).subrange(offsets@[i] as int, offsets@[i + 1] as int)),
{
    array.array.value_offsets()
}

/// `LargeStringArray::value_data`: the bytes that the offsets count in.
#[verifier::external_body]
fn large_utf8_value_data(array: &LargeUtf8Array) -> (data: &[u8])
    ensures
        data@ == large_utf8_data(*array),
{
    array.array.value_data()
}

impl Utf8Array {
    /// An array of strings and nulls.
    pub fn from_values(values: Vec<Option<String>>) -> (array: Utf8Array)
        requires
            total_bytes(encoded(values@)) <= i32::MAX,
        ensures
            array.contents() == encoded(values@),
            utf8_contents(array).len() == values@.len(),
            forall|i: int|
                0 <= i < values@.len() ==> #[trigger] utf8_contents(array)[i] == (match values@[i] {
                    Some(text) => Some(encode_utf8(text@)),
                    None => None,
                }),
    {
        utf8_from_values(values)
    }
}

impl LargeUtf8Array {
    /// An array of strings and nulls.
    pub fn from_values(values: Vec<Option<String>>) -> (array: LargeUtf8Array)
        requires
            total_bytes(encoded(values@)) <= i64::MAX,
        ensures
            array.contents() == encoded(values@),
            large_utf8_contents(array).len() == values@.len(),
            forall|i: int|
                0 <= i < values@.len() ==> #[trigger] large_utf8_contents(array)[i] == (match values@[i] {
                    Some(text) => Some(encode_utf8(text@)),
                    None => None,
                }),
    {
        large_utf8_from_values(values)
    }
}

/// The column has as many null rows as the contents, and the same strings in the others.
pub open spec fn holds(column: &StringColumn<'_>, contents: Seq<Option<Seq<u8>>>) -> bool {
    &&& column.wf()
    &&& column.null_count == count_nulls(contents)
    &&& column.rows().len() == contents.len()
    &&& forall|i: int|
        0 <= i < contents.len() ==> (#[trigger] contents[i] matches Some(bytes)
            ==> column.rows()[i] == bytes)
}

/// An array of strings that may be null.
pub trait StringSource {
    /// The rows, `None` where a row is null.
    spec fn contents(&self) -> Seq<Option<Seq<u8>>>;

    /// The array's null count, offsets and bytes.
    fn column(&self) -> (column: StringColumn<'_>)
        ensures
            holds(&column, self.contents()),
    ;
}

impl StringSource for Utf8Array {
    open spec fn contents(&self) -> Seq<Option<Seq<u8>>> {
        utf8_contents(*self)
    }

    fn column(&self) -> (column: StringColumn<'_>)
        ensures
            column.null_count == count_nulls(utf8_contents(*self)),
            column.data@ == utf8_data(*self),
            column.offsets@.len() == utf8_contents(*self).len() + 1,
            column.offsets@.last() <= column.data@.len(),
            forall|i: int, j: int|
                0 <= i <= j < column.offsets@.len() ==> column.offsets@[i] <= column.offsets@[j],
            forall|i: int|
                0 <= i < utf8_contents(*self).len() ==> (
                #[trigger] utf8_contents(*self)[i] matches Some(bytes) ==> bytes
                    == column.data@.subrange(
                    column.offsets@[i] as int,
                    column.offsets@[i + 1] as int,
                )),
    {
        let null_count: usize = utf8_null_count(self);
        let raw: &[i32] = utf8_value_offsets(self);
        let data: &[u8] = utf8_value_data(self);
        let mut offsets: Vec<usize> = Vec::new();
        let mut i: usize = 0;
        while i < raw.len()
            invariant
                i <= raw@.len(),
                raw@.len() > 0,
                0 <= raw@[0],
                forall|j: int, k: int| 0 <= j <= k < raw@.len() ==> raw@[j] <= raw@[k],
                offsets@.len() == i,
                forall|j: int| 0 <= j < i ==> #[trigger] offsets@[j] == raw@[j],
            decreases raw@.len() - i,
        {
            assert(raw@[0] <= raw@[i as int]);
            offsets.push(raw[i] as usize);
            i = i + 1;
        }
        StringColumn { null_count, offsets, data }
    }
}

impl StringSource for LargeUtf8Array {
    open spec fn contents(&self) -> Seq<Option<Seq<u8>>> {
        large_utf8_contents(*self)
    }

    fn column(&self) -> (column: StringColumn<'_>)
        ensures
            column.null_count == count_nulls(large_utf8_contents(*self)),
            column.data@ == large_utf8_data(*self),
            column.offsets@.len() == large_utf8_contents(*self).len() + 1,
            column.offsets@.last() <= column.data@.len(),
            forall|i: int, j: int|
                0 <= i <= j < column.offsets@.len() ==> column.offsets@[i] <= column.offsets@[j],
            forall|i: int|
                0 <= i < large_utf8_contents(*self).len() ==> (
                #[trigger] large_utf8_contents(*self)[i] matches Some(bytes) ==> bytes
                    == column.data@.subrange(
                    column.offsets@[i] as int,
                    column.offsets@[i + 1] as int,
                )),
    {
        let null_count: usize = large_utf8_null_count(self);
        let raw: &[i64] = large_utf8_value_offsets(self);
        let data: &[u8] = large_utf8_value_data(self);
        let size: usize = data.len();
        let mut offsets: Vec<usize> = Vec::new();
        let mut i: usize = 0;
        while i < raw.len()
            invariant
                i <= raw@.len(),
                raw@.len() > 0,
                0 <= raw@[0],
                forall|j: int, k: int| 0 <= j <= k < raw@.len() ==> raw@[j] <= raw@[k],
                raw@.last() <= size,
                offsets@.len() == i,
                forall|j: int| 0 <= j < i ==> #[trigger] offsets@[j] == raw@[j],
            decreases raw@.len() - i,
        {
            assert(raw@[0] <= raw@[i as int] <= raw@.last());
            offsets.push(raw[i] as usize);
            i = i + 1;
        }
        StringColumn { null_count, offsets, data }
    }
}

/// No row is null.
pub open spec fn null_free(contents: Seq<Option<Seq<u8>>>) -> bool {
    forall|i: int| 0 <= i < contents.len() ==> #[trigger] contents[i] is Some
}

/// The rows of an array without nulls.
pub open spec fn strings(contents: Seq<Option<Seq<u8>>>) -> Seq<Seq<u8>> {
    Seq::new(contents.len(), |i: int| contents[i]->0)
}

/// What the cast of an array is: the timestamps of its rows if the machine has a kernel, no row is
/// null and all rows are timestamps in the same supported format, and otherwise nothing.
pub open spec fn array_cast(kernel: Kernel, contents: Seq<Option<Seq<u8>>>) -> Option<Seq<int>> {
    if kernel == Kernel::Absent || !null_free(contents) {
        None
    } else {
        fast_path(strings(contents))
    }
}

/// There is no null row exactly when their number is zero.
pub proof fn lemma_count_nulls(contents: Seq<Option<Seq<u8>>>)
    ensures
        count_nulls(contents) == 0 <==> null_free(contents),
    decreases contents.len(),
{
    if contents.len() > 0 {
        let rest: Seq<Option<Seq<u8>>> = contents.drop_last();
        lemma_count_nulls(rest);
        if null_free(contents) {
            assert forall|i: int| 0 <= i < rest.len() implies #[trigger] rest[i] is Some by {
                assert(contents[i] is Some);
            }
        }
        if count_nulls(contents) == 0 {
            assert forall|i: int| 0 <= i < contents.len() implies #[trigger] contents[i] is Some by {
                if i < rest.len() {
                    assert(rest[i] is Some);
                }
            }
        }
    }
}

/// Tries the fast path on a string array. Returns the values only if the whole column was handled
/// (null-free, fixed stride, supported format, all rows valid); otherwise `None`.
///
/// Which kernel the machine has is for the caller to say.
pub fn try_cast_to_timestamp_nanos<A: StringSource>(array: &A, kernel: Kernel) -> (cast: Option<
    Vec<i64>,
>)
    ensures
        cast_view(cast) == array_cast(kernel, array.contents()),
        cast is Some <==> array_cast(kernel, array.contents()) is Some,
        cast matches Some(values) ==> values@.len() == array.contents().len(),
        cast matches Some(values) ==> forall|i: int|
            0 <= i < values@.len() ==> #[trigger] values@[i] == array_cast(
                kernel,
                array.contents(),
            )->0[i],
{
    let column: StringColumn<'_> = array.column();
    proof {
        let contents: Seq<Option<Seq<u8>>> = array.contents();
        lemma_count_nulls(contents);
        if null_free(contents) {
            assert forall|i: int| 0 <= i < contents.len() implies #[trigger] column.rows()[i]
                == strings(contents)[i] by {
                assert(contents[i] is Some);
            }
            assert(column.rows() =~= strings(contents));
        }
    }
    cast_column(&column, kernel)
}

/// The contents of an array are the rows of the Arrow array it wraps, all of them and no others,
/// whichever width its offsets have.
pub proof fn law_contents_are_arrow_rows(small: &Utf8Array, large: &LargeUtf8Array)
    ensures
        small.contents() == utf8_contents(*small),
        large.contents() == large_utf8_contents(*large),
{
}

/// The cast of an array has one value for each row of the Arrow array it wraps, and each value is
/// what its row casts to alone.
pub proof fn law_one_value_per_arrow_row(
    kernel: Kernel,
    small: &Utf8Array,
    large: &LargeUtf8Array,
    i: int,
)
    ensures
        array_cast(kernel, small.contents()) matches Some(values) ==> {
            &&& values.len() == utf8_contents(*small).len()
            &&& 0 <= i < values.len() ==> array_cast(kernel, seq![utf8_contents(*small)[i]])
                == Some(seq![values[i]])
        },
        array_cast(kernel, large.contents()) matches Some(values) ==> {
            &&& values.len() == large_utf8_contents(*large).len()
            &&& 0 <= i < values.len() ==> array_cast(kernel, seq![large_utf8_contents(*large)[i]])
                == Some(seq![values[i]])
        },
{
    lemma_row_alone(kernel, utf8_contents(*small), i);
    lemma_row_alone(kernel, large_utf8_contents(*large), i);
}

/// A row of a column that casts, casts to its own value alone.
proof fn lemma_row_alone(kernel: Kernel, contents: Seq<Option<Seq<u8>>>, i: int)
    ensures
        array_cast(kernel, contents) matches Some(values) ==> {
            &&& values.len() == contents.len()
            &&& 0 <= i < values.len() ==> array_cast(kernel, seq![contents[i]]) == Some(
                seq![values[i]],
            )
        },
{
    if array_cast(kernel, contents) is Some && 0 <= i < contents.len() {
        let rows: Seq<Seq<u8>> = strings(contents);
        let alone: Seq<Option<Seq<u8>>> = seq![contents[i]];
        let row: Seq<Seq<u8>> = strings(alone);
        let (sep, frac_len, tz_z) = choose|sep: u8, frac_len: usize, tz_z: bool|
            homogeneous(rows, sep, frac_len, tz_z);
        assert(contents[i] is Some);
        assert(row[0] == rows[i]);
        assert(timestamp_of(rows[i], sep, frac_len as int, tz_z) is Some);
        assert(homogeneous(row, sep, frac_len, tz_z));
        law_one_format(rows, sep, frac_len, tz_z);
        law_one_format(row, sep, frac_len, tz_z);
        assert(timestamps(row, sep, frac_len, tz_z) =~= seq![array_cast(kernel, contents)->0[i]]);
    }
}

/// Arrays of either offset width with the same Arrow rows cast alike.
pub proof fn law_offset_widths_cast_alike(
    kernel: Kernel,
    small: &Utf8Array,
    large: &LargeUtf8Array,
)
    requires
        utf8_contents(*small).len() == large_utf8_contents(*large).len(),
        forall|i: int|
            0 <= i < utf8_contents(*small).len() ==> #[trigger] utf8_contents(*small)[i]
                == large_utf8_contents(*large)[i],
    ensures
        array_cast(kernel, small.contents()) == array_cast(kernel, large.contents()),
{
    assert(utf8_contents(*small) =~= large_utf8_contents(*large));
}

/// Nulls are counted one by one, bytes string by string.
pub proof fn law_rows_counted(rows: Seq<Option<Seq<u8>>>, bytes: Seq<u8>)
    ensures
        count_nulls(Seq::empty()) == 0,
        count_nulls(rows.push(None)) == count_nulls(rows) + 1,
        count_nulls(rows.push(Some(bytes))) == count_nulls(rows),
        total_bytes(Seq::empty()) == 0,
        total_bytes(rows.push(None)) == total_bytes(rows),
        total_bytes(rows.push(Some(bytes))) == total_bytes(rows) + bytes.len(),
{
    assert(rows.push(None).drop_last() =~= rows);
    assert(rows.push(Some(bytes)).drop_last() =~= rows);
}

/// Strings become rows one for one: their UTF-8 bytes, or null.
pub proof fn law_strings_encoded(values: Seq<Option<String>>, i: int)
    requires
        0 <= i < values.len(),
    ensures
        encoded(values).len() == values.len(),
        values[i] is None <==> encoded(values)[i] is None,
        values[i] matches Some(text) ==> encoded(values)[i] == Some(encode_utf8(text@)),
{
}

/// A column that holds the contents has a row for each of them, in order and with its bytes, and as
/// many nulls.
pub proof fn law_column_holds_rows(
    column: &StringColumn<'_>,
    contents: Seq<Option<Seq<u8>>>,
    i: int,
)
    requires
        holds(column, contents),
        0 <= i < contents.len(),
    ensures
        column.offsets@.len() == contents.len() + 1,
        column.null_count == 0 <==> forall|k: int|
            0 <= k < contents.len() ==> #[trigger] contents[k] is Some,
        contents[i] matches Some(bytes) ==> bytes == column.data@.subrange(
            column.offsets@[i] as int,
            column.offsets@[i + 1] as int,
        ),
{
    lemma_count_nulls(contents);
}

} // verus!
