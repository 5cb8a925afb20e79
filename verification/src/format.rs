//! Fixed-layout timestamp formats as data: where the digits and the separators of a record are.

use vstd::arithmetic::power::pow;
use vstd::prelude::*;

verus! {

/// Declarative description of a fixed-layout timestamp format. Pure data, no per-format logic.
///
/// Each field lists the byte positions of its digits, most significant first; `seps` lists the
/// bytes that have to stand between them. Only the first `frac_len` entries of `frac` and the
/// first `sep_len` entries of `seps` count.
#[derive(Clone, Copy)]
pub struct FormatSpec {
    pub width: usize,
    pub year: [usize; 4],
    pub mon: [usize; 2],
    pub day: [usize; 2],
    pub hour: [usize; 2],
    pub min: [usize; 2],
    pub sec: [usize; 2],
    pub frac: [usize; 9],
    pub frac_len: usize,
    /// Nanoseconds in one unit of the fraction's last digit; zero without a fraction.
    pub frac_scale: i64,
    pub seps: [(usize, u8); 8],
    pub sep_len: usize,
    /// Some digit or separator stands past the first twenty-four bytes.
    pub needs_tile2: bool,
}

/// Bytes in a record with `frac_len` fractional digits and, if `tz_z`, a trailing `Z`.
pub open spec fn layout_width(frac_len: int, tz_z: bool) -> int {
    19 + (if frac_len > 0 {
        1 + frac_len
    } else {
        0
    }) + (if tz_z {
        1int
    } else {
        0int
    })
}

/// The separators of `YYYY-MM-DD?hh:mm:ss[.fff][Z]`, `?` being `sep`, each with its position.
pub open spec fn separators(sep: u8, frac_len: int, tz_z: bool) -> Seq<(int, u8)> {
    seq![(4int, 0x2du8), (7int, 0x2du8), (10int, sep), (13int, 0x3au8), (16int, 0x3au8)] + (
    if frac_len > 0 {
        seq![(19int, 0x2eu8)]
    } else {
        seq![]
    }) + (if tz_z {
        seq![(layout_width(frac_len, tz_z) - 1, 0x5au8)]
    } else {
        seq![]
    })
}

impl FormatSpec {
    /// Holds exactly the layout of `YYYY-MM-DD?hh:mm:ss[.fff][Z]` with the given date/time
    /// separator, number of fractional digits and trailing `Z`.
    pub open spec fn describes(&self, sep: u8, frac_len: int, tz_z: bool) -> bool {
        let table: Seq<(int, u8)> = separators(sep, frac_len, tz_z);
        &&& self.width == layout_width(frac_len, tz_z)
        &&& self.year@ == seq![0usize, 1, 2, 3]
        &&& self.mon@ == seq![5usize, 6]
        &&& self.day@ == seq![8usize, 9]
        &&& self.hour@ == seq![11usize, 12]
        &&& self.min@ == seq![14usize, 15]
        &&& self.sec@ == seq![17usize, 18]
        &&& self.frac_len == frac_len
        &&& forall|i: int|
            0 <= i < 9 ==> #[trigger] self.frac@[i] == (if i < frac_len {
                20 + i
            } else {
                0
            })
        &&& self.frac_scale == (if frac_len > 0 {
            pow(10, (9 - frac_len) as nat)
        } else {
            0
        })
        &&& self.sep_len == table.len()
        &&& forall|k: int|
            0 <= k < 8 ==> #[trigger] self.seps@[k] == (if k < table.len() {
                (table[k].0 as usize, table[k].1)
            } else {
                (0usize, 0u8)
            })
        &&& self.needs_tile2 == (self.width >= 25)
    }

    /// The positions of the fraction's digits.
    pub open spec fn frac_positions(&self) -> Seq<usize> {
        self.frac@.subrange(0, self.frac_len as int)
    }

    /// Every position falls inside the record, and a record inside two or three tiles.
    pub open spec fn wf(&self) -> bool {
        &&& 0 < self.width <= 32
        &&& self.needs_tile2 || self.width <= 24
        &&& self.frac_len <= 9
        &&& self.sep_len <= 8
        &&& forall|i: int| 0 <= i < 4 ==> #[trigger] self.year@[i] < self.width
        &&& forall|i: int| 0 <= i < 2 ==> #[trigger] self.mon@[i] < self.width
        &&& forall|i: int| 0 <= i < 2 ==> #[trigger] self.day@[i] < self.width
        &&& forall|i: int| 0 <= i < 2 ==> #[trigger] self.hour@[i] < self.width
        &&& forall|i: int| 0 <= i < 2 ==> #[trigger] self.min@[i] < self.width
        &&& forall|i: int| 0 <= i < 2 ==> #[trigger] self.sec@[i] < self.width
        &&& forall|i: int| 0 <= i < self.frac_len ==> #[trigger] self.frac@[i] < self.width
        &&& forall|k: int| 0 <= k < self.sep_len ==> (#[trigger] self.seps@[k]).0 < self.width
        &&& self.frac_len > 0 ==> self.frac_scale == pow(10, (9 - self.frac_len) as nat)
    }
}

/// The powers of ten that fractions are scaled by.
pub proof fn lemma_powers_of_ten()
    ensures
        pow(10, 0) == 1,
        pow(10, 1) == 10,
        pow(10, 2) == 100,
        pow(10, 3) == 1_000,
        pow(10, 4) == 10_000,
        pow(10, 5) == 100_000,
        pow(10, 6) == 1_000_000,
        pow(10, 7) == 10_000_000,
        pow(10, 8) == 100_000_000,
        pow(10, 9) == 1_000_000_000,
{
    reveal(pow);
    reveal_with_fuel(pow, 10);
}

/// Ten to the power of `n`.
fn ten_to_the(n: usize) -> (power: i64)
    requires
        n <= 9,
    ensures
        power == pow(10, n as nat),
{
    let mut power: i64 = 1;
    let mut i: usize = 0;
    proof {
        lemma_powers_of_ten();
    }
    while i < n
        invariant
            i <= n <= 9,
            power == pow(10, i as nat),
        decreases n - i,
    {
        proof {
            lemma_powers_of_ten();
            assert(i == 0 || i == 1 || i == 2 || i == 3 || i == 4 || i == 5 || i == 6 || i == 7 || i
                == 8);
        }
        power = power * 10;
        i = i + 1;
    }
    power
}

/// Builds a `FormatSpec` from the only format-specific input: date/time separator (`T` or a
/// space), number of fractional-second digits, and whether a trailing `Z` is present. The
/// RFC 3339 byte positions (date 0 to 9, time 11 to 18) follow.
pub fn spec(sep: u8, frac_len: usize, tz_z: bool) -> (fmt: FormatSpec)
    requires
        frac_len <= 9,
    ensures
        fmt.describes(sep, frac_len as int, tz_z),
        fmt.wf(),
        fmt.width == 19 + (if frac_len > 0 {
            1 + frac_len
        } else {
            0
        }) + (if tz_z {
            1int
        } else {
            0
        }),
        fmt.frac_len == frac_len,
        frac_len == 0 ==> fmt.frac_scale == 0,
        frac_len > 0 ==> fmt.frac_scale * pow(10, frac_len as nat) == 1_000_000_000,
{
    let mut frac: [usize; 9] = [0usize; 9];
    let mut i: usize = 0;
    while i < frac_len
        invariant
            i <= frac_len <= 9,
            forall|j: int|
                0 <= j < 9 ==> #[trigger] frac@[j] == (if j < i {
                    20 + j
                } else {
                    0
                }),
        decreases frac_len - i,
    {
        frac[i] = 20 + i;
        i = i + 1;
    }
    let mut seps: [(usize, u8); 8] = [(0usize, 0u8); 8];
    seps[0] = (4, 0x2d);
    seps[1] = (7, 0x2d);
    seps[2] = (10, sep);
    seps[3] = (13, 0x3a);
    seps[4] = (16, 0x3a);
    let mut sl: usize = 5;
    let mut end: usize = 19;
    if frac_len > 0 {
        seps[sl] = (19, 0x2e);
        sl += 1;
        end = 20 + frac_len;
    }
    if tz_z {
        seps[sl] = (end, 0x5a);
        sl += 1;
        end += 1;
    }
    proof {
        lemma_powers_of_ten();
        assert(frac_len == 0 || frac_len == 1 || frac_len == 2 || frac_len == 3 || frac_len == 4
            || frac_len == 5 || frac_len == 6 || frac_len == 7 || frac_len == 8 || frac_len == 9);
    }
    FormatSpec {
        width: end,
        year: [0, 1, 2, 3],
        mon: [5, 6],
        day: [8, 9],
        hour: [11, 12],
        min: [14, 15],
        sec: [17, 18],
        frac,
        frac_len,
        frac_scale: if frac_len > 0 {
            ten_to_the(9 - frac_len)
        } else {
            0
        },
        seps,
        sep_len: sl,
        needs_tile2: end >= 25,
    }
}

/// Supported formats, one line each (separator, fractional digits, trailing `Z`). All UTC.
pub const FORMATS: [(u8, usize, bool); 12] = [
    (0x54, 3, true),
    (0x54, 6, true),
    (0x54, 9, true),
    (0x54, 0, true),
    (0x54, 3, false),
    (0x54, 6, false),
    (0x54, 9, false),
    (0x54, 0, false),
    (0x20, 3, false),
    (0x20, 6, false),
    (0x20, 9, false),
    (0x20, 0, false),
];

/// One of the lines of `FORMATS`.
pub open spec fn supported(sep: u8, frac_len: usize, tz_z: bool) -> bool {
    FORMATS@.contains((sep, frac_len, tz_z))
}

/// The record is as long as the layout and has its separators.
pub open spec fn has_layout(record: Seq<u8>, sep: u8, frac_len: int, tz_z: bool) -> bool {
    let table: Seq<(int, u8)> = separators(sep, frac_len, tz_z);
    &&& record.len() == layout_width(frac_len, tz_z)
    &&& forall|k: int| 0 <= k < table.len() ==> record[(#[trigger] table[k]).0] == table[k].1
}

/// Each separator of the format stands at its position of the record.
pub open spec fn separators_match(record: Seq<u8>, fmt: &FormatSpec) -> bool {
    forall|k: int|
        0 <= k < fmt.sep_len ==> (#[trigger] fmt.seps@[k]).0 < record.len()
            && record[fmt.seps@[k].0 as int] == fmt.seps@[k].1
}

/// Checks every separator of the format.
#[inline(always)]
pub fn check_separators(record: &[u8], fmt: &FormatSpec) -> (ok: bool)
    requires
        fmt.sep_len <= 8,
    ensures
        ok == separators_match(record@, fmt),
{
    let mut k: usize = 0;
    while k < fmt.sep_len
        invariant
            k <= fmt.sep_len <= 8,
            forall|j: int|
                0 <= j < k ==> (#[trigger] fmt.seps@[j]).0 < record@.len()
                    && record@[fmt.seps@[j].0 as int] == fmt.seps@[j].1,
        decreases fmt.sep_len - k,
    {
        let (p, c) = fmt.seps[k];
        if p >= record.len() || record[p] != c {
            assert(fmt.seps@[k as int].0 == p);
            return false;
        }
        k = k + 1;
    }
    true
}

/// On a record as long as the layout, the described separators are those of the layout.
pub proof fn lemma_described_separators(
    record: Seq<u8>,
    fmt: &FormatSpec,
    sep: u8,
    frac_len: int,
    tz_z: bool,
)
    requires
        0 <= frac_len <= 9,
        fmt.describes(sep, frac_len, tz_z),
    ensures
        has_layout(record, sep, frac_len, tz_z) <==> record.len() == fmt.width && separators_match(
            record,
            fmt,
        ),
{
    let table: Seq<(int, u8)> = separators(sep, frac_len, tz_z);
    assert forall|k: int| 0 <= k < table.len() implies 0 <= (#[trigger] table[k]).0
        < layout_width(frac_len, tz_z) && fmt.seps@[k] == (table[k].0 as usize, table[k].1) by {}
    if record.len() == fmt.width && separators_match(record, fmt) {
        assert forall|k: int| 0 <= k < table.len() implies record[(#[trigger] table[k]).0]
            == table[k].1 by {
            assert(fmt.seps@[k].0 < record.len());
        }
    }
    if has_layout(record, sep, frac_len, tz_z) {
        assert forall|k: int| 0 <= k < fmt.sep_len implies (#[trigger] fmt.seps@[k]).0
            < record.len() && record[fmt.seps@[k].0 as int] == fmt.seps@[k].1 by {
            assert(record[table[k].0] == table[k].1);
        }
    }
}

/// Detects the column format from one sample record.
pub fn detect(sample: &[u8]) -> (found: Option<FormatSpec>)
    ensures
        forall|sep: u8, frac_len: usize, tz_z: bool|
            #![trigger supported(sep, frac_len, tz_z)]
            supported(sep, frac_len, tz_z) && has_layout(sample@, sep, frac_len as int, tz_z) ==> (
            found matches Some(fmt) && fmt.describes(sep, frac_len as int, tz_z)),
        found matches Some(fmt) ==> fmt.wf() && exists|sep: u8, frac_len: usize, tz_z: bool|
            #![trigger supported(sep, frac_len, tz_z)]
            supported(sep, frac_len, tz_z) && has_layout(sample@, sep, frac_len as int, tz_z)
                && fmt.describes(sep, frac_len as int, tz_z),
{
    let w: usize = sample.len();
    let mut k: usize = 0;
    while k < 12
        invariant
            k <= 12,
            w == sample@.len(),
            forall|j: int|
                0 <= j < k ==> !has_layout(
                    sample@,
                    (#[trigger] FORMATS@[j]).0,
                    FORMATS@[j].1 as int,
                    FORMATS@[j].2,
                ),
        decreases 12 - k,
    {
        let (sep, fl, tz) = FORMATS[k];
        assert(FORMATS@[k as int] == (sep, fl, tz));
        let s: FormatSpec = spec(sep, fl, tz);
        proof {
            lemma_described_separators(sample@, &s, sep, fl as int, tz);
        }
        if s.width == w && check_separators(sample, &s) {
            proof {
                assert(supported(sep, fl, tz));
                assert forall|sep2: u8, fl2: usize, tz2: bool| #[trigger]
                    supported(sep2, fl2, tz2) && has_layout(
                        sample@,
                        sep2,
                        fl2 as int,
                        tz2,
                    ) implies s.describes(sep2, fl2 as int, tz2) by {
                    law_formats_disjoint(sample@, sep, fl, tz, sep2, fl2, tz2);
                }
            }
            return Some(s);
        }
        k = k + 1;
    }
    None
}

/// The fractional digits and the trailing `Z` of a supported format.
pub proof fn lemma_supported(sep: u8, frac_len: usize, tz_z: bool)
    ensures
        supported(sep, frac_len, tz_z) <==> {
            &&& frac_len == 0 || frac_len == 3 || frac_len == 6 || frac_len == 9
            &&& sep == 0x54 || sep == 0x20 && !tz_z
        },
{
    let line: (u8, usize, bool) = (sep, frac_len, tz_z);
    assert(FORMATS@[0] == (0x54u8, 3usize, true));
    assert(FORMATS@[1] == (0x54u8, 6usize, true));
    assert(FORMATS@[2] == (0x54u8, 9usize, true));
    assert(FORMATS@[3] == (0x54u8, 0usize, true));
    assert(FORMATS@[4] == (0x54u8, 3usize, false));
    assert(FORMATS@[5] == (0x54u8, 6usize, false));
    assert(FORMATS@[6] == (0x54u8, 9usize, false));
    assert(FORMATS@[7] == (0x54u8, 0usize, false));
    assert(FORMATS@[8] == (0x20u8, 3usize, false));
    assert(FORMATS@[9] == (0x20u8, 6usize, false));
    assert(FORMATS@[10] == (0x20u8, 9usize, false));
    assert(FORMATS@[11] == (0x20u8, 0usize, false));
}

/// A record has the layout of at most one supported format.
pub proof fn law_formats_disjoint(
    record: Seq<u8>,
    sep1: u8,
    frac_len1: usize,
    tz_z1: bool,
    sep2: u8,
    frac_len2: usize,
    tz_z2: bool,
)
    requires
        supported(sep1, frac_len1, tz_z1),
        supported(sep2, frac_len2, tz_z2),
        has_layout(record, sep1, frac_len1 as int, tz_z1),
        has_layout(record, sep2, frac_len2 as int, tz_z2),
    ensures
        sep1 == sep2,
        frac_len1 == frac_len2,
        tz_z1 == tz_z2,
{
    lemma_supported(sep1, frac_len1, tz_z1);
    lemma_supported(sep2, frac_len2, tz_z2);
    assert(separators(sep1, frac_len1 as int, tz_z1)[2] == (10int, sep1));
    assert(separators(sep2, frac_len2 as int, tz_z2)[2] == (10int, sep2));
}

/// A described format reads the date at bytes 0 to 9, the time at bytes 11 to 18, the fraction from
/// byte 20 on, and wants dashes, the separator, colons, a point and a `Z` around them.
pub proof fn law_described_positions(fmt: &FormatSpec, sep: u8, frac_len: int, tz_z: bool)
    requires
        0 <= frac_len <= 9,
        fmt.describes(sep, frac_len, tz_z),
    ensures
        fmt.width == 19 + (if frac_len > 0 {
            1 + frac_len
        } else {
            0
        }) + (if tz_z {
            1int
        } else {
            0
        }),
        fmt.year@ == seq![0usize, 1, 2, 3],
        fmt.mon@ == seq![5usize, 6],
        fmt.day@ == seq![8usize, 9],
        fmt.hour@ == seq![11usize, 12],
        fmt.min@ == seq![14usize, 15],
        fmt.sec@ == seq![17usize, 18],
        fmt.frac_len == frac_len,
        forall|i: int| 0 <= i < frac_len ==> #[trigger] fmt.frac@[i] == 20 + i,
        forall|i: int| frac_len <= i < 9 ==> #[trigger] fmt.frac@[i] == 0,
        frac_len == 0 ==> fmt.frac_scale == 0,
        frac_len == 1 ==> fmt.frac_scale == 100_000_000,
        frac_len == 2 ==> fmt.frac_scale == 10_000_000,
        frac_len == 3 ==> fmt.frac_scale == 1_000_000,
        frac_len == 4 ==> fmt.frac_scale == 100_000,
        frac_len == 5 ==> fmt.frac_scale == 10_000,
        frac_len == 6 ==> fmt.frac_scale == 1_000,
        frac_len == 7 ==> fmt.frac_scale == 100,
        frac_len == 8 ==> fmt.frac_scale == 10,
        frac_len == 9 ==> fmt.frac_scale == 1,
        fmt.seps@[0] == (4usize, 0x2du8),
        fmt.seps@[1] == (7usize, 0x2du8),
        fmt.seps@[2] == (10usize, sep),
        fmt.seps@[3] == (13usize, 0x3au8),
        fmt.seps@[4] == (16usize, 0x3au8),
        frac_len == 0 && !tz_z ==> fmt.sep_len == 5,
        frac_len == 0 && tz_z ==> fmt.sep_len == 6 && fmt.seps@[5] == (19usize, 0x5au8),
        frac_len > 0 ==> fmt.seps@[5] == (19usize, 0x2eu8),
        frac_len > 0 && !tz_z ==> fmt.sep_len == 6,
        frac_len > 0 && tz_z ==> fmt.sep_len == 7 && fmt.seps@[6].0 == 20 + frac_len
            && fmt.seps@[6].1 == 0x5a,
        forall|k: int| fmt.sep_len <= k < 8 ==> #[trigger] fmt.seps@[k] == (0usize, 0u8),
        fmt.needs_tile2 <==> fmt.width >= 25,
{
    lemma_powers_of_ten();
    let table: Seq<(int, u8)> = separators(sep, frac_len, tz_z);
    assert(table[0] == (4int, 0x2du8) && table[1] == (7int, 0x2du8) && table[2] == (10int, sep)
        && table[3] == (13int, 0x3au8) && table[4] == (16int, 0x3au8));
}

/// A format is usable when its positions and separators stand inside its width, a wide one says
/// that it needs the third tile, and its fraction is scaled to nanoseconds.
pub proof fn law_usable_formats(fmt: &FormatSpec)
    requires
        0 < fmt.width <= 32,
        fmt.width > 24 ==> fmt.needs_tile2,
        fmt.frac_len <= 9,
        fmt.sep_len <= 8,
        forall|i: int| 0 <= i < 4 ==> #[trigger] fmt.year@[i] < fmt.width,
        forall|i: int| 0 <= i < 2 ==> #[trigger] fmt.mon@[i] < fmt.width,
        forall|i: int| 0 <= i < 2 ==> #[trigger] fmt.day@[i] < fmt.width,
        forall|i: int| 0 <= i < 2 ==> #[trigger] fmt.hour@[i] < fmt.width,
        forall|i: int| 0 <= i < 2 ==> #[trigger] fmt.min@[i] < fmt.width,
        forall|i: int| 0 <= i < 2 ==> #[trigger] fmt.sec@[i] < fmt.width,
        forall|i: int| 0 <= i < fmt.frac_len ==> #[trigger] fmt.frac@[i] < fmt.width,
        forall|k: int| 0 <= k < fmt.sep_len ==> (#[trigger] fmt.seps@[k]).0 < fmt.width,
        fmt.frac_len > 0 ==> fmt.frac_scale == pow(10, (9 - fmt.frac_len) as nat),
    ensures
        fmt.wf(),
        fmt.frac_positions() == fmt.frac@.subrange(0, fmt.frac_len as int),
{
}

/// The separators match when each of those that count stands in the record at its position.
pub proof fn law_separators_stand(record: Seq<u8>, fmt: &FormatSpec)
    ensures
        separators_match(record, fmt) <==> forall|k: int|
            0 <= k < fmt.sep_len ==> (#[trigger] fmt.seps@[k]).0 < record.len()
                && record[fmt.seps@[k].0 as int] == fmt.seps@[k].1,
{
}

} // verus!
