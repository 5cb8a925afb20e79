use timestamp_lanes::calendar::{days_from_civil, nanos_from_fields, valid};
use timestamp_lanes::engine::{load_tile, parse_tail};
use timestamp_lanes::format::{check_separators, detect, spec, FORMATS};
use timestamp_lanes::lanes;
use timestamp_lanes::record::{parse_one, read_field};
use timestamp_lanes::{avx2, neon};

#[test]
fn civil_days() {
    assert_eq!(days_from_civil(1970, 1, 1), 0);
    assert_eq!(days_from_civil(1970, 1, 2), 1);
    assert_eq!(days_from_civil(1969, 12, 31), -1);
    assert_eq!(days_from_civil(2000, 2, 29), 11_016);
    assert_eq!(days_from_civil(2000, 3, 1), 11_017);
    assert_eq!(days_from_civil(2020, 9, 8), 18_513);
    assert_eq!(days_from_civil(1678, 1, 1), -106_650);
    assert_eq!(days_from_civil(0, 3, 1), -719_468);
    assert_eq!(days_from_civil(0, 2, 29), -719_469);
    assert_eq!(days_from_civil(0, 1, 1), -719_528);
}

#[test]
fn days_follow_one_another() {
    let mut day = days_from_civil(1599, 1, 1);
    for y in 1599..2402 {
        for m in 1..13 {
            let leap = y % 4 == 0 && (y % 100 != 0 || y % 400 == 0);
            let dim = match m {
                2 => 28 + leap as i32,
                4 | 6 | 9 | 11 => 30,
                _ => 31,
            };
            for d in 1..=dim {
                assert_eq!(days_from_civil(y, m, d), day);
                day += 1;
            }
        }
    }
}

#[test]
fn calendar_validity() {
    assert!(valid(2020, 2, 29, 23, 59, 59));
    assert!(valid(1678, 1, 1, 0, 0, 0));
    assert!(valid(2261, 12, 31, 23, 59, 59));
    assert!(!valid(1677, 12, 31, 0, 0, 0));
    assert!(!valid(2262, 1, 1, 0, 0, 0));
    assert!(!valid(2019, 2, 29, 0, 0, 0));
    assert!(!valid(2100, 2, 29, 0, 0, 0));
    assert!(valid(2000, 2, 29, 0, 0, 0));
    assert!(!valid(2020, 0, 1, 0, 0, 0));
    assert!(!valid(2020, 13, 1, 0, 0, 0));
    assert!(!valid(2020, 1, 0, 0, 0, 0));
    assert!(!valid(2020, 1, 32, 0, 0, 0));
    assert!(!valid(2020, 11, 31, 0, 0, 0));
    assert!(!valid(2020, 1, 1, 24, 0, 0));
    assert!(!valid(2020, 1, 1, 0, 60, 0));
    assert!(!valid(2020, 1, 1, 0, 0, 60));
}

#[test]
fn nanos_of_fields() {
    assert_eq!(nanos_from_fields(1970, 1, 1, 0, 0, 0, 0, 0), 0);
    assert_eq!(
        nanos_from_fields(2020, 9, 8, 13, 42, 29, 190, 1_000_000),
        1_599_572_549_190_000_000
    );
    assert_eq!(
        nanos_from_fields(1678, 1, 1, 0, 0, 0, 0, 0),
        -9_214_560_000_000_000_000
    );
}

#[test]
fn format_layouts() {
    let f = spec(b'T', 3, true);
    assert_eq!(f.width, 24);
    assert_eq!(f.year, [0, 1, 2, 3]);
    assert_eq!(f.mon, [5, 6]);
    assert_eq!(f.day, [8, 9]);
    assert_eq!(f.hour, [11, 12]);
    assert_eq!(f.min, [14, 15]);
    assert_eq!(f.sec, [17, 18]);
    assert_eq!(f.frac, [20, 21, 22, 0, 0, 0, 0, 0, 0]);
    assert_eq!(f.frac_len, 3);
    assert_eq!(f.frac_scale, 1_000_000);
    assert_eq!(
        f.seps,
        [
            (4, b'-'),
            (7, b'-'),
            (10, b'T'),
            (13, b':'),
            (16, b':'),
            (19, b'.'),
            (23, b'Z'),
            (0, 0)
        ]
    );
    assert_eq!(f.sep_len, 7);
    assert!(!f.needs_tile2);

    let f = spec(b' ', 9, false);
    assert_eq!(f.width, 29);
    assert_eq!(f.frac, [20, 21, 22, 23, 24, 25, 26, 27, 28]);
    assert_eq!(f.frac_scale, 1);
    assert_eq!(f.sep_len, 6);
    assert!(f.needs_tile2);

    let f = spec(b'T', 0, true);
    assert_eq!(f.width, 20);
    assert_eq!(f.frac_scale, 0);
    assert_eq!(f.seps[5], (19, b'Z'));
    assert_eq!(f.sep_len, 6);
    assert!(!f.needs_tile2);
}

#[test]
fn every_format_is_detected() {
    for (sep, frac_len, tz_z) in FORMATS {
        let mut text = format!("2020-09-08{}13:42:29", sep as char);
        if frac_len > 0 {
            text.push('.');
            text.push_str(&"190855999"[..frac_len]);
        }
        if tz_z {
            text.push('Z');
        }
        let found = detect(text.as_bytes()).unwrap();
        assert_eq!(found.width, text.len());
        assert_eq!(found.seps[2].1, sep);
        assert_eq!(found.frac_len, frac_len);
        assert_eq!(found.sep_len, 5 + (frac_len > 0) as usize + tz_z as usize);
        assert!(check_separators(text.as_bytes(), &found));
    }
    assert!(detect(b"").is_none());
    assert!(detect(b"2020-09-08 13:42:29Z").is_none());
    assert!(detect(b"2020/09/08T13:42:29Z").is_none());
    assert!(detect(b"2020-09-08T13:42:29.1Z").is_none());
    // digits are not looked at
    assert!(detect(b"yyyy-mm-ddThh:mm:ssZ").is_some());
}

#[test]
fn one_record() {
    let f = spec(b'T', 6, true);
    assert_eq!(
        parse_one(b"2020-09-08T13:42:29.190855Z", &f),
        Some(1_599_572_549_190_855_000)
    );
    assert_eq!(parse_one(b"2020-09-08T13:42:29.19085xZ", &f), None);
    assert_eq!(parse_one(b"2020-09-08T13:42:29.190855z", &f), None);
    assert_eq!(parse_one(b"2020-09-31T13:42:29.190855Z", &f), None);
    assert_eq!(parse_one(b"2020-09-08T13:42:29.190855", &f), None);
    assert_eq!(parse_one(b"", &f), None);
    let f = spec(b' ', 0, false);
    assert_eq!(parse_one(b"1970-01-01 00:00:01", &f), Some(1_000_000_000));
    // the record is refused at its first byte out of place, before its end is reached
    assert_eq!(parse_one(b"19x0-01-01 00:00:0", &f), None);
}

#[test]
fn one_field() {
    assert_eq!(read_field(b"0123456789", &[1, 2, 3]), Some(123));
    assert_eq!(read_field(b"0123456789", &[9, 0, 9]), Some(909));
    assert_eq!(read_field(b"999999999", &[0, 1, 2, 3, 4, 5, 6, 7, 8]), Some(999_999_999));
    assert_eq!(read_field(b"01/", &[0, 1, 2]), None);
    assert_eq!(read_field(b"01:", &[0, 1, 2]), None);
    assert_eq!(read_field(b"x", &[0, 5]), None);
    assert_eq!(read_field(b"", &[]), Some(0));
}

fn square() -> [lanes::Register; 16] {
    let mut v = [[0u8; 16]; 16];
    for i in 0..16 {
        for j in 0..16 {
            v[i][j] = (16 * i + j) as u8;
        }
    }
    v
}

#[test]
fn both_transposes_transpose() {
    let rows = square();
    let mut v = rows;
    neon::transpose16(&mut v);
    for i in 0..16 {
        for j in 0..16 {
            assert_eq!(v[i][j], rows[j][i]);
        }
    }
    let mut w = rows;
    avx2::transpose16(&mut w);
    for k in 0..16 {
        for i in 0..16 {
            assert_eq!(w[k][i], rows[i][avx2::BITREV[k]]);
        }
    }
    let mut columns = [[7u8; 16]; 32];
    avx2::store_tile(&w, &mut columns, 8);
    for p in 0..32 {
        if (8..24).contains(&p) {
            assert_eq!(columns[p], v[p - 8]);
        } else {
            assert_eq!(columns[p], [7u8; 16]);
        }
    }
}

#[test]
fn bit_reversal_undoes_itself() {
    for k in 0..16 {
        assert_eq!(avx2::BITREV[avx2::BITREV[k]], k);
    }
}

#[test]
fn digits_combine_lane_by_lane() {
    let mut columns = [[b'0'; 16]; 32];
    for p in 0..9 {
        for r in 0..16 {
            columns[p][r] = b'0' + ((p + r) % 10) as u8;
        }
    }
    let zero = lanes::splat(b'0');
    let short = [0usize, 1, 2, 3];
    let long = [0usize, 1, 2, 3, 4, 5, 6, 7, 8];
    let a = neon::comb16(&columns, &short, &zero);
    let b = neon::comb32(&columns, &long, &zero);
    assert_eq!(a, avx2::comb16(&columns, &short, &zero));
    assert_eq!(b, avx2::comb32(&columns, &long, &zero));
    assert_eq!(a[0], 123);
    assert_eq!(a[15], 5678);
    assert_eq!(b[0], 12_345_678);
    assert_eq!(b[3], 345_678_901);
    assert_eq!(neon::comb32(&columns, &[], &zero), [0u32; 16]);
    // wider numbers wrap around
    let wrapped = neon::comb16(&columns, &long, &zero);
    assert_eq!(wrapped, avx2::comb16(&columns, &long, &zero));
    assert_eq!(wrapped[0], (12_345_678u32 % 65_536) as u16);
}

#[test]
fn lane_operations() {
    let a: lanes::Register = [0, 1, 2, 3, 4, 5, 6, 7, 8, 9, 10, 11, 12, 13, 14, 255];
    let nine = lanes::splat(9);
    assert_eq!(lanes::subtract(&a, &nine)[0], 247);
    assert_eq!(lanes::subtract(&a, &nine)[15], 246);
    assert_eq!(lanes::both(&a, &nine)[13], 9);
    assert_eq!(lanes::equal_mask(&a, &nine)[9], 0xff);
    assert_eq!(lanes::equal_mask(&a, &nine)[8], 0);
    assert_eq!(lanes::at_most_mask(&a, &nine)[9], 0xff);
    assert_eq!(lanes::at_most_mask(&a, &nine)[10], 0);
    assert_eq!(lanes::smaller(&a, &nine)[15], 9);
    assert_eq!(lanes::least_lane(&a), 0);
    assert_eq!(lanes::top_bits(&a), 0x8000);
    assert_eq!(lanes::top_bits(&lanes::splat(0xff)), 0xffff);
    assert_eq!(lanes::load(b"0123456789abcdefgh", 2)[0], b'2');
    assert_eq!(
        lanes::transpose_even(&a, &nine, 1),
        [0, 9, 2, 9, 4, 9, 6, 9, 8, 9, 10, 9, 12, 9, 14, 9]
    );
    assert_eq!(
        lanes::transpose_odd(&a, &nine, 8),
        [8, 9, 10, 11, 12, 13, 14, 255, 9, 9, 9, 9, 9, 9, 9, 9]
    );
    assert_eq!(
        lanes::unpack(&a, &nine, 2, 8),
        [8, 9, 9, 9, 10, 11, 9, 9, 12, 13, 9, 9, 14, 255, 9, 9]
    );
}

#[test]
fn tiles_follow_the_stride() {
    let data: Vec<u8> = (0..=255u8).chain(0..=255u8).collect();
    let tile = load_tile(&data, 20, 1, 8);
    assert_eq!(tile[0][0], 28);
    assert_eq!(tile[3][5], 93);
    assert_eq!(tile[15][15], (16 * 20 + 8 + 15 - 256) as u8);
}

type ParseAll =
    fn(&timestamp_lanes::format::FormatSpec, &[u8], usize, &mut [i64]) -> bool;

const ENGINES: [ParseAll; 2] = [neon::parse_all, avx2::parse_all];

#[test]
fn a_badly_written_row_leaves_its_block_untouched() {
    let f = spec(b'T', 0, true);
    let mut rows: Vec<String> = vec!["1970-01-01T00:00:01Z".to_string(); 50];
    rows[20] = "1970-01-01T00:00:0xZ".to_string();
    rows[18] = "1970-02-30T00:00:01Z".to_string();
    let data = rows.concat().into_bytes();
    for parse_all in ENGINES {
        let mut out = vec![7i64; 52];
        assert!(!parse_all(&f, &data, 50, &mut out));
        assert_eq!(out[..16], [1_000_000_000i64; 16]);
        assert_eq!(out[16..], [7i64; 36]);
    }
}

#[test]
fn an_invalid_date_keeps_the_rows_before_it() {
    let f = spec(b'T', 0, true);
    let mut rows: Vec<String> = vec!["1970-01-01T00:00:01Z".to_string(); 50];
    rows[18] = "1970-02-30T00:00:01Z".to_string();
    let data = rows.concat().into_bytes();
    for parse_all in ENGINES {
        let mut out = vec![7i64; 52];
        assert!(!parse_all(&f, &data, 50, &mut out));
        assert_eq!(out[..18], [1_000_000_000i64; 18]);
        assert_eq!(out[18..], [7i64; 34]);
    }
}

#[test]
fn whole_buffers_parse() {
    for (frac_len, text, nanos) in [
        (0usize, "1970-01-02T00:00:01Z", 86_401_000_000_000i64),
        (9, "1970-01-02T00:00:01.000000002Z", 86_401_000_000_002),
    ] {
        let f = spec(b'T', frac_len, true);
        for n in 0..70usize {
            let data = text.repeat(n).into_bytes();
            for parse_all in ENGINES {
                let mut out = vec![7i64; n + 1];
                assert!(parse_all(&f, &data, n, &mut out));
                assert_eq!(out[..n], vec![nanos; n]);
                assert_eq!(out[n], 7);
            }
        }
    }
}

#[test]
fn tail_rows_parse_one_at_a_time() {
    let f = spec(b'T', 0, false);
    let data = b"1970-01-01T00:00:001970-01-01T00:00:021970-01-01T00:00:0x";
    let mut out = [7i64; 3];
    assert!(parse_tail(&f, data, 1, 2, &mut out));
    assert_eq!(out, [7, 2_000_000_000, 7]);
    let mut out = [7i64; 3];
    assert!(!parse_tail(&f, data, 0, 3, &mut out));
    assert_eq!(out, [0, 2_000_000_000, 7]);
}
