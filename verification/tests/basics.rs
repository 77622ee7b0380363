use a5px::cell_raw::{raw8_to_u64s, u64s_to_raw8, RawCells, NA_BYTE_B8};
use a5px::classes::{cat_merge, cat_push, finalise_majority, ClassWeights, MAX_CLASSES_PER_CELL};
use a5px::error::{invalid, unsupported, A5CogError};
use a5px::partition::{group_by_key, partition_of};
use a5px::stats::{layout_for, parse_stats, AccCfg, Layout, Stat};
use a5px::text::{
    decimal_i64, decimal_u64, join5, parse_usize, to_lower, to_upper, trim, trim_end, trim_start,
};

fn strings(v: &[&str]) -> Vec<String> {
    v.iter().map(|s| s.to_string()).collect()
}

#[test]
fn text_helpers() {
    assert_eq!(to_lower("NaN Ünï"), "nan Ünï");
    assert_eq!(to_upper("aws_Region"), "AWS_REGION");
    assert_eq!(trim(" \t\u{a0}x y \n"), "x y");
    assert_eq!(trim_start("  a "), "a ");
    assert_eq!(trim_end("  a "), "  a");
    assert_eq!(decimal_u64(0), "0");
    assert_eq!(decimal_u64(u64::MAX), "18446744073709551615");
    assert_eq!(decimal_i64(i64::MIN), "-9223372036854775808");
    assert_eq!(decimal_i64(-7), "-7");
    assert_eq!(join5("a", "b", "c", "d", "é"), "abcdé");
    assert_eq!(parse_usize("0042"), Some(42));
    assert_eq!(parse_usize("4x"), None);
    assert_eq!(parse_usize(""), None);
    assert_eq!(parse_usize("99999999999999999999"), None);
}

#[test]
fn error_messages() {
    assert_eq!(invalid("no IFDs").message(), "invalid input: no IFDs");
    assert_eq!(unsupported("x").message(), "unsupported configuration: x");
    assert_eq!(A5CogError::Io("m".to_string()).message(), "io error: m");
    assert_eq!(A5CogError::ObjectStore("m".to_string()).message(), "object_store error: m");
    assert_eq!(A5CogError::Tiff("m".to_string()).message(), "async-tiff error: m");
    assert_eq!(A5CogError::Proj("m".to_string()).message(), "proj error: m");
    assert_eq!(A5CogError::A5("m".to_string()).message(), "a5 error: m");
    assert_eq!(
        A5CogError::MissingGeoKey("GeoKeyDirectory".to_string()).message(),
        "missing geokey: GeoKeyDirectory"
    );
    assert_eq!(A5CogError::Url("m".to_string()).message(), "url parse error: m");
    assert_eq!(A5CogError::Internal("m".to_string()).message(), "internal error: m");
    assert_eq!(A5CogError::WorkerJoin("m".to_string()).message(), "worker join error: m");
    assert_eq!(A5CogError::Parquet("m".to_string()).message(), "parquet error: m");
}

/// Every statistic is found again under its name.
#[test]
fn stat_names() {
    let all = [
        Stat::Mean,
        Stat::Sum,
        Stat::Count,
        Stat::Min,
        Stat::Max,
        Stat::Var,
        Stat::Sd,
        Stat::Majority,
    ];
    for s in all {
        assert!(Stat::parse(s.as_str()).unwrap() == s);
    }
    let e = Stat::parse("median").unwrap_err();
    assert_eq!(e.message(), "invalid input: unknown stat: median");
    assert!(!Stat::Majority.needs_cont());
    assert!(Stat::Count.needs_cont());
}

#[test]
fn stat_requests() {
    let (v, fractions, npix) = parse_stats(&strings(&["mean", "npix", "majority"])).unwrap();
    assert!(v == vec![Stat::Mean, Stat::Majority]);
    assert!(!fractions);
    assert!(npix);
    let (v, fractions, npix) = parse_stats(&strings(&["fractions"])).unwrap();
    assert!(v.is_empty());
    assert!(fractions);
    assert!(!npix);
    assert_eq!(
        parse_stats(&strings(&["fractions", "mean"])).unwrap_err().message(),
        "invalid input: \"fractions\" must be the only requested stat"
    );
    assert_eq!(
        parse_stats(&strings(&[])).unwrap_err().message(),
        "invalid input: at least one stat is required"
    );
    assert_eq!(
        parse_stats(&strings(&["mean", "what"])).unwrap_err().message(),
        "invalid input: unknown stat: what"
    );
}

#[test]
fn layouts() {
    assert!(layout_for(&vec![Stat::Mean, Stat::Sum, Stat::Count]) == Layout::Sum);
    assert!(layout_for(&vec![Stat::Mean, Stat::Min]) == Layout::Range);
    assert!(layout_for(&vec![Stat::Max, Stat::Sd]) == Layout::Full);
    assert!(layout_for(&vec![Stat::Majority]) == Layout::Sum);
    let c = AccCfg::from_stats(&vec![Stat::Majority], false, true);
    assert!(!c.has_cont && c.has_cat && c.has_npix);
    let c = AccCfg::from_stats(&vec![Stat::Mean], false, false);
    assert!(c.has_cont && !c.has_cat && !c.has_npix);
    let c = AccCfg::from_stats(&vec![], true, false);
    assert!(!c.has_cont && c.has_cat && !c.has_npix);
}

#[test]
fn classes_add_up() {
    let mut m: ClassWeights = Vec::new();
    cat_push(&mut m, 7, 2).unwrap();
    cat_push(&mut m, 3, 1).unwrap();
    cat_push(&mut m, 7, 4).unwrap();
    cat_push(&mut m, 9, 0).unwrap();
    assert_eq!(m, vec![(7, 6), (3, 1)]);
    let other = vec![(3, 5), (-1, 6)];
    cat_merge(&mut m, &other).unwrap();
    assert_eq!(m, vec![(7, 6), (3, 6), (-1, 6)]);
    // ties go to the smallest code, in whatever order the classes came
    assert_eq!(finalise_majority(&m), Some(-1));
    assert_eq!(finalise_majority(&vec![(5, 2), (4, 2), (8, 1)]), Some(4));
    assert_eq!(finalise_majority(&vec![(4, 2), (5, 2)]), Some(4));
    assert_eq!(finalise_majority(&vec![(4, 2), (5, 3)]), Some(5));
    assert_eq!(finalise_majority(&Vec::new()), None);
}

#[test]
fn class_weights_saturate() {
    let mut m: ClassWeights = vec![(1, u64::MAX - 1)];
    cat_push(&mut m, 1, 5).unwrap();
    assert_eq!(m, vec![(1, u64::MAX)]);
}

#[test]
fn class_lists_are_capped() {
    let mut m: ClassWeights = Vec::new();
    for k in 0..MAX_CLASSES_PER_CELL {
        cat_push(&mut m, k as i32, 1).unwrap();
    }
    cat_push(&mut m, 0, 1).unwrap();
    assert!(cat_push(&mut m, -1, 1).is_err());
    assert_eq!(m.len(), MAX_CLASSES_PER_CELL);
    let mut n: ClassWeights = vec![(-5, 1)];
    let e = cat_merge(&mut n, &m).unwrap_err();
    assert!(matches!(e, A5CogError::Invalid(_)));
}

#[test]
fn partitions() {
    assert_eq!(partition_of(12345, 0), 0);
    for log2p in 1..7u32 {
        for cell in [0u64, 1, 2, 0x8000_0000_0000_0000, u64::MAX, 0x1234_5678_9abc_def0] {
            let want = (cell.wrapping_mul(0x9E37_79B9_7F4A_7C15) >> (64 - log2p)) as usize;
            assert_eq!(partition_of(cell, log2p), want);
            assert!(want < 1 << log2p);
        }
    }
    let (order, start) = group_by_key(&vec![2, 0, 2, 1, 0], 4);
    assert_eq!(order, vec![1, 4, 3, 0, 2]);
    assert_eq!(start, vec![0, 2, 3, 5, 5]);
}

/// Cell ids survive the way through raw bytes.
#[test]
fn raw_cells_round_trip() {
    let cells = vec![0u64, 1, 0x0102_0304_0506_0708, 0xF800_0000_0000_0001];
    let raw = u64s_to_raw8(&cells);
    assert_eq!(raw.b1, vec![0, 1, 8, 1]);
    assert_eq!(raw.b8, vec![0, 0, 1, 0xF8]);
    assert_eq!(raw8_to_u64s(&raw), cells);
}

#[test]
fn missing_raw_cells_are_dropped() {
    let raw = RawCells {
        b1: vec![1, 2, 3],
        b2: vec![0, 0, 0],
        b3: vec![0, 0, 0],
        b4: vec![0, 0, 0],
        b5: vec![0, 0, 0],
        b6: vec![0, 0, 0],
        b7: vec![0, 0, 0],
        b8: vec![0, NA_BYTE_B8, 1],
    };
    assert_eq!(raw8_to_u64s(&raw), vec![1, 0x0100_0000_0000_0003]);
}
