use arrow_array::{LargeStringArray, StringArray};
use chrono::NaiveDateTime;
use timestamp_lanes::arrays::{try_cast_to_timestamp_nanos, LargeUtf8Array, StringSource, Utf8Array};
use timestamp_lanes::column::{cast_column, Kernel, StringColumn};

const KERNELS: [Kernel; 2] = [Kernel::Neon, Kernel::Avx2];

/// The general parser: any date/time separator, any number of fractional digits, optional `Z`.
fn string_to_timestamp_nanos(s: &str) -> Result<i64, String> {
    let text = s.strip_suffix('Z').unwrap_or(s).replace(' ', "T");
    let parsed = NaiveDateTime::parse_from_str(&text, "%Y-%m-%dT%H:%M:%S%.f")
        .map_err(|e| e.to_string())?;
    parsed
        .and_utc()
        .timestamp_nanos_opt()
        .ok_or_else(|| "out of range".to_string())
}

fn utf8(values: Vec<String>) -> Utf8Array {
    Utf8Array {
        array: StringArray::from(values),
    }
}

fn texts(values: &[&str]) -> Vec<String> {
    values.iter().map(|s| s.to_string()).collect()
}

fn mk(fmt: &str, n: usize) -> Vec<String> {
    let mut v = Vec::with_capacity(n);
    let mut x: u64 = 0x1234567;
    for _ in 0..n {
        x = x.wrapping_mul(6364136223846793005).wrapping_add(1);
        let yr = 1970 + (x >> 32) % 280;
        let mo = 1 + (x >> 20) % 12;
        let da = 1 + (x >> 8) % 28;
        let hh = (x >> 40) % 24;
        let mi = (x >> 16) % 60;
        let se = (x >> 4) % 60;
        let us = (x >> 24) % 1_000_000;
        let ms = us / 1000;
        v.push(match fmt {
            "z_ms" => format!("{yr:04}-{mo:02}-{da:02}T{hh:02}:{mi:02}:{se:02}.{ms:03}Z"),
            "z_us" => format!("{yr:04}-{mo:02}-{da:02}T{hh:02}:{mi:02}:{se:02}.{us:06}Z"),
            "no_tz" => format!("{yr:04}-{mo:02}-{da:02}T{hh:02}:{mi:02}:{se:02}"),
            "space" => format!("{yr:04}-{mo:02}-{da:02} {hh:02}:{mi:02}:{se:02}.{ms:03}"),
            _ => unreachable!(),
        });
    }
    v
}

#[test]
fn fast_path_matches_general() {
    for fmt in ["z_ms", "z_us", "no_tz", "space"] {
        let corpus = mk(fmt, 5000);
        let array = utf8(corpus.clone());
        for kernel in KERNELS {
            let fast = try_cast_to_timestamp_nanos(&array, kernel)
                .unwrap_or_else(|| panic!("{fmt}: fast path declined a valid column"));
            assert_eq!(fast.len(), corpus.len());
            for (i, s) in corpus.iter().enumerate() {
                assert_eq!(
                    fast[i],
                    string_to_timestamp_nanos(s).unwrap(),
                    "{fmt} row {i}: {s}"
                );
            }
        }
        assert!(try_cast_to_timestamp_nanos(&array, Kernel::Absent).is_none());
    }
}

#[test]
fn invalid_dates_decline_fast_path() {
    // Feb 30 is well-formed but not a real date: the general parser errors, so the fast path
    // must decline rather than silently produce a value.
    let array = utf8(vec![
        "2020-01-15T00:00:00.000Z".to_string(),
        "2020-02-30T00:00:00.000Z".to_string(),
    ]);
    for kernel in KERNELS {
        assert!(try_cast_to_timestamp_nanos(&array, kernel).is_none());
    }
    assert!(string_to_timestamp_nanos("2020-02-30T00:00:00.000Z").is_err());
}

#[test]
fn nulls_and_mixed_width_decline() {
    let with_null =
        Utf8Array::from_values(vec![Some("2020-01-15T00:00:00.000Z".to_string()), None]);
    let mixed = utf8(vec![
        "2020-01-15T00:00:00.000Z".to_string(),
        "2020-01-15T00:00:00Z".to_string(),
    ]);
    for kernel in KERNELS {
        assert!(try_cast_to_timestamp_nanos(&with_null, kernel).is_none());
        assert!(try_cast_to_timestamp_nanos(&mixed, kernel).is_none());
    }
}

#[test]
fn wrong_separator_declines() {
    // same width, valid digits, but '/' instead of '-' is not a supported format
    let array = utf8(vec![
        "2020/01/15T00:00:00.000Z".to_string(),
        "2020/01/16T00:00:00.000Z".to_string(),
    ]);
    for kernel in KERNELS {
        assert!(try_cast_to_timestamp_nanos(&array, kernel).is_none());
    }
}

#[test]
fn every_supported_format_has_its_exact_value() {
    let seconds = 1_599_572_549_000_000_000i64;
    let cases = [
        ("2020-09-08T13:42:29.190Z", seconds + 190_000_000),
        ("2020-09-08T13:42:29.190855Z", seconds + 190_855_000),
        ("2020-09-08T13:42:29.190855999Z", seconds + 190_855_999),
        ("2020-09-08T13:42:29Z", seconds),
        ("2020-09-08T13:42:29.190", seconds + 190_000_000),
        ("2020-09-08T13:42:29.190855", seconds + 190_855_000),
        ("2020-09-08T13:42:29.190855999", seconds + 190_855_999),
        ("2020-09-08T13:42:29", seconds),
        ("2020-09-08 13:42:29.190", seconds + 190_000_000),
        ("2020-09-08 13:42:29.190855", seconds + 190_855_000),
        ("2020-09-08 13:42:29.190855999", seconds + 190_855_999),
        ("2020-09-08 13:42:29", seconds),
    ];
    for (text, nanos) in cases {
        for n in [1usize, 15, 16, 17, 18, 31, 32, 33, 34, 50] {
            let array = utf8(vec![text.to_string(); n]);
            for kernel in KERNELS {
                assert_eq!(
                    try_cast_to_timestamp_nanos(&array, kernel),
                    Some(vec![nanos; n]),
                    "{text} x {n}"
                );
            }
        }
        assert_eq!(string_to_timestamp_nanos(text), Ok(nanos));
    }
}

#[test]
fn unsupported_formats_decline() {
    for text in [
        "",
        "2020-09-08",
        "2020-09-08t13:42:29",
        "2020-09-08 13:42:29Z",
        "2020-09-08 13:42:29.190Z",
        "2020-09-08T13:42:29+00:00",
        "2020-09-08T13:42:29.19",
        "2020-09-08T13:42:29.1908559990Z",
        "2020-09-08T13:42:29.190855999-05:00",
        "2020-09-08T13:42:2x",
        "2020-09-08T13:42:29,190",
    ] {
        let array = utf8(vec![text.to_string(); 3]);
        for kernel in KERNELS {
            assert!(try_cast_to_timestamp_nanos(&array, kernel).is_none(), "{text}");
        }
    }
}

#[test]
fn boundary_years_and_times_decline_or_fit() {
    let last = "2261-12-31T23:59:59.999999999Z";
    let first = "1678-01-01T00:00:00.000000000Z";
    let array = utf8(texts(&[last, first]));
    for kernel in KERNELS {
        assert_eq!(
            try_cast_to_timestamp_nanos(&array, kernel),
            Some(vec![
                string_to_timestamp_nanos(last).unwrap(),
                string_to_timestamp_nanos(first).unwrap(),
            ])
        );
    }
    for text in [
        "2262-01-01T00:00:00Z",
        "1677-12-31T23:59:59Z",
        "2020-13-01T00:00:00Z",
        "2020-00-01T00:00:00Z",
        "2020-01-00T00:00:00Z",
        "2020-04-31T00:00:00Z",
        "2019-02-29T00:00:00Z",
        "1900-02-29T00:00:00Z",
        "2020-01-01T24:00:00Z",
        "2020-01-01T00:60:00Z",
        "2020-01-01T00:00:60Z",
    ] {
        for kernel in KERNELS {
            assert!(
                try_cast_to_timestamp_nanos(&utf8(vec![text.to_string()]), kernel).is_none(),
                "{text}"
            );
        }
    }
    assert!(try_cast_to_timestamp_nanos(
        &utf8(vec!["2000-02-29T00:00:00Z".to_string()]),
        Kernel::Neon
    )
    .is_some());
}

#[test]
fn a_bad_row_anywhere_declines() {
    for bad in 0..50 {
        let mut values = mk("z_ms", 50);
        values[bad] = "2020-01-15T00:00:0x.000Z".to_string();
        for kernel in KERNELS {
            assert!(try_cast_to_timestamp_nanos(&utf8(values.clone()), kernel).is_none());
        }
        values[bad] = "2021-02-29T00:00:00.000Z".to_string();
        for kernel in KERNELS {
            assert!(try_cast_to_timestamp_nanos(&utf8(values.clone()), kernel).is_none());
        }
    }
}

#[test]
fn a_null_anywhere_declines() {
    for hole in [0usize, 1, 20, 39] {
        let mut values: Vec<Option<String>> = mk("no_tz", 40).into_iter().map(Some).collect();
        values[hole] = None;
        for kernel in KERNELS {
            let array = Utf8Array::from_values(values.clone());
            assert!(try_cast_to_timestamp_nanos(&array, kernel).is_none());
            let large = LargeUtf8Array::from_values(values.clone());
            assert!(try_cast_to_timestamp_nanos(&large, kernel).is_none());
        }
    }
}

#[test]
fn empty_column_declines() {
    for kernel in KERNELS {
        assert!(try_cast_to_timestamp_nanos(&utf8(vec![]), kernel).is_none());
        let large = LargeUtf8Array::from_values(vec![]);
        assert!(try_cast_to_timestamp_nanos(&large, kernel).is_none());
    }
}

#[test]
fn large_offsets_cast_like_small_ones() {
    let corpus = mk("z_us", 100);
    let small = utf8(corpus.clone());
    let large = LargeUtf8Array::from_values(corpus.into_iter().map(Some).collect());
    for kernel in KERNELS {
        let cast = try_cast_to_timestamp_nanos(&small, kernel);
        assert!(cast.is_some());
        assert_eq!(cast, try_cast_to_timestamp_nanos(&large, kernel));
    }
}

#[test]
fn array_hands_out_its_parts() {
    let values = vec![Some("ab".to_string()), None, Some("cde".to_string())];
    let array = Utf8Array::from_values(values.clone());
    let column = array.column();
    assert_eq!(column.null_count, 1);
    assert_eq!(column.offsets, vec![0, 2, 2, 5]);
    assert_eq!(column.data, b"abcde");
    let large = LargeUtf8Array::from_values(values);
    let column = large.column();
    assert_eq!(column.null_count, 1);
    assert_eq!(column.offsets, vec![0, 2, 2, 5]);
    assert_eq!(column.data, b"abcde");
}

#[test]
fn sliced_column_casts_to_the_slice() {
    let corpus = mk("z_ms", 60);
    let data: Vec<u8> = corpus.concat().into_bytes();
    for (from, to) in [(0usize, 60usize), (1, 60), (7, 40), (59, 60)] {
        let offsets: Vec<usize> = (from..=to).map(|i| i * 24).collect();
        let column = StringColumn::new(0, offsets, &data).unwrap();
        for kernel in KERNELS {
            let expected: Vec<i64> = corpus[from..to]
                .iter()
                .map(|s| string_to_timestamp_nanos(s).unwrap())
                .collect();
            assert_eq!(cast_column(&column, kernel), Some(expected));
        }
        assert_eq!(cast_column(&column, Kernel::Absent), None);
    }
}

#[test]
fn column_wants_offsets_that_cut_the_data() {
    let data = b"2020-01-15T00:00:00Z";
    assert!(StringColumn::new(0, vec![], data).is_none());
    assert!(StringColumn::new(0, vec![0, 21], data).is_none());
    assert!(StringColumn::new(0, vec![5, 4], data).is_none());
    let column = StringColumn::new(0, vec![0, 20], data).unwrap();
    assert_eq!(
        cast_column(&column, Kernel::Avx2),
        Some(vec![1_579_046_400_000_000_000])
    );
    let column = StringColumn::new(1, vec![0, 20], data).unwrap();
    assert_eq!(cast_column(&column, Kernel::Avx2), None);
}

#[test]
fn appended_columns_cast_to_appended_values() {
    let (a, b) = (mk("space", 20), mk("space", 45));
    let both: Vec<String> = a.iter().chain(b.iter()).cloned().collect();
    for kernel in KERNELS {
        let mut values = try_cast_to_timestamp_nanos(&utf8(a.clone()), kernel).unwrap();
        values.extend(try_cast_to_timestamp_nanos(&utf8(b.clone()), kernel).unwrap());
        assert_eq!(
            try_cast_to_timestamp_nanos(&utf8(both.clone()), kernel),
            Some(values)
        );
    }
}

#[test]
fn values_keep_the_order_of_instants() {
    let ordered = texts(&[
        "1969-12-31T23:59:59.999",
        "1970-01-01T00:00:00.000",
        "1970-01-01T00:00:00.001",
        "1970-02-28T23:59:59.999",
        "1970-03-01T00:00:00.000",
        "2000-02-29T12:00:00.000",
        "2261-12-31T23:59:59.999",
    ]);
    let cast = try_cast_to_timestamp_nanos(&utf8(ordered), Kernel::Neon).unwrap();
    assert_eq!(cast[0], -1_000_000);
    assert_eq!(cast[1], 0);
    for pair in cast.windows(2) {
        assert!(pair[0] < pair[1]);
    }
}

#[test]
fn sliced_arrays_cast_to_the_slice() {
    let mut values: Vec<Option<String>> = mk("z_us", 60).into_iter().map(Some).collect();
    values[0] = None;
    let expected: Vec<i64> = values[1..]
        .iter()
        .map(|s| string_to_timestamp_nanos(s.as_ref().unwrap()).unwrap())
        .collect();
    let small = StringArray::from(values.clone());
    let large = LargeStringArray::from(values);
    for kernel in KERNELS {
        for (from, len) in [(1usize, 59usize), (5, 40), (59, 1)] {
            let values = Some(expected[from - 1..from - 1 + len].to_vec());
            let array = small.slice(from, len);
            assert_eq!(try_cast_to_timestamp_nanos(&Utf8Array { array }, kernel), values);
            let array = large.slice(from, len);
            assert_eq!(try_cast_to_timestamp_nanos(&LargeUtf8Array { array }, kernel), values);
        }
        let array = small.slice(0, 60);
        assert!(try_cast_to_timestamp_nanos(&Utf8Array { array }, kernel).is_none());
        let array = small.slice(7, 0);
        assert!(try_cast_to_timestamp_nanos(&Utf8Array { array }, kernel).is_none());
    }
}

#[test]
fn rows_cast_one_at_a_time_to_the_same_values() {
    for fmt in ["z_ms", "z_us", "no_tz", "space"] {
        let corpus = mk(fmt, 70);
        for kernel in KERNELS {
            let together = try_cast_to_timestamp_nanos(&utf8(corpus.clone()), kernel).unwrap();
            assert_eq!(together.len(), corpus.len());
            for (value, text) in together.iter().zip(&corpus) {
                let alone = try_cast_to_timestamp_nanos(&utf8(vec![text.clone()]), kernel);
                assert_eq!(alone, Some(vec![*value]));
            }
        }
    }
}
