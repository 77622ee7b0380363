use a5px::band_fetch::{expected_band_bytes, join_bands, planar_ranges, TileIndex};
use a5px::meta_cache::{beyond_end, full_enough, ChunkCache, FetchError, CHUNK};
use a5px::parquet_write::{
    check_flat_values, check_leaf_count, fields_for, file_metadata, row_groups, wide_columns,
    ColumnType, CompressionChoice, ValueType, ROW_GROUP_ROWS,
};

fn strings(v: &[&str]) -> Vec<String> {
    v.iter().map(|s| s.to_string()).collect()
}

#[test]
fn value_types() {
    assert!(ValueType::parse("float64").unwrap() == ValueType::Float64);
    assert!(ValueType::parse("float32").unwrap() == ValueType::Float32);
    assert_eq!(
        ValueType::parse("f\"32").err().unwrap().message(),
        "invalid input: unknown value_type \"f\\\"32\"; expected float32 or float64"
    );
}

#[test]
fn compressions() {
    for s in ["zstd", "ZSTD"] {
        assert!(CompressionChoice::parse(s).unwrap() == CompressionChoice::Zstd);
    }
    for s in ["snappy", "SNAPPY"] {
        assert!(CompressionChoice::parse(s).unwrap() == CompressionChoice::Snappy);
    }
    for s in ["none", "uncompressed"] {
        assert!(CompressionChoice::parse(s).unwrap() == CompressionChoice::Uncompressed);
    }
    assert_eq!(
        CompressionChoice::parse("Zstd").err().unwrap().message(),
        "invalid input: unknown compression \"Zstd\"; expected zstd | snappy | none"
    );
}

/// One column for the cells, then one per list or per statistic and band.
#[test]
fn result_fields() {
    let bands = strings(&["red", "nir"]);
    let one = strings(&["mean"]);
    let two = strings(&["mean", "sd"]);
    let names = |stats: &Vec<String>, v: bool| -> Vec<String> {
        fields_for(&bands, stats, ValueType::Float32, 2, v).into_iter().map(|f| f.name).collect()
    };
    assert_eq!(names(&one, false), strings(&["cell", "red", "nir"]));
    assert_eq!(
        names(&two, false),
        strings(&["cell", "red_mean", "nir_mean", "red_sd", "nir_sd"])
    );
    assert_eq!(names(&one, true), strings(&["cell", "value"]));
    assert_eq!(names(&two, true), strings(&["cell", "value_mean", "value_sd"]));
    let f = fields_for(&bands, &one, ValueType::Float32, 2, true);
    assert!(f[0].ty == ColumnType::Cell);
    assert!(f[1].ty == ColumnType::Vector(ValueType::Float32, 2));
    let f = fields_for(&bands, &one, ValueType::Float64, 2, false);
    assert!(f[2].ty == ColumnType::Value(ValueType::Float64));
}

#[test]
fn metadata() {
    let m = file_metadata(&strings(&["red", "nir"]), -1, &strings(&["mean"]), true);
    let want = [
        ("a5px_band_names", "red\nnir"),
        ("a5px_resolution", "-1"),
        ("a5px_stats", "mean"),
        ("a5px_layout", "fsl"),
        ("a5px_stat", "mean"),
    ];
    assert_eq!(m.len(), 5);
    for (k, v) in want {
        assert!(m.iter().any(|p| p.0 == k && p.1 == v), "{k}");
    }
    let m = file_metadata(&strings(&["red"]), 12, &strings(&["mean", "sd"]), false);
    assert_eq!(m.len(), 4);
    assert_eq!(m[1].1, "12");
    assert_eq!(m[2].1, "mean\nsd");
    assert_eq!(m[3].1, "wide");
}

#[test]
fn flat_values() {
    let v = vec![vec![1, 2, 3, 4, 5, 6], vec![7, 8, 9, 10, 11, 12]];
    assert!(check_flat_values(&v, 2, 3, 2).is_ok());
    assert_eq!(
        check_flat_values(&v, 1, 3, 2).err().unwrap().message(),
        "invalid input: flat_values outer len 2 != stats 1"
    );
    assert_eq!(
        check_flat_values(&v, 2, 3, 3).err().unwrap().message(),
        "invalid input: flat_values inner len 6 != cells 3 * bands 3"
    );
    let w = wide_columns(&v, 3, 2);
    assert_eq!(w, vec![vec![1, 3, 5], vec![2, 4, 6], vec![7, 9, 11], vec![8, 10, 12]]);
    assert!(check_leaf_count(3, 3).is_ok());
    assert_eq!(
        check_leaf_count(3, 4).err().unwrap().message(),
        "parquet error: leaf count 3 != column writers 4"
    );
}

/// Every row lies in one row group.
#[test]
fn groups_of_rows() {
    assert_eq!(ROW_GROUP_ROWS, 1024 * 1024);
    assert_eq!(row_groups(0), vec![(0, 0)]);
    assert_eq!(row_groups(5), vec![(0, 5)]);
    assert_eq!(row_groups(ROW_GROUP_ROWS), vec![(0, ROW_GROUP_ROWS)]);
    assert_eq!(
        row_groups(2 * ROW_GROUP_ROWS + 7),
        vec![
            (0, ROW_GROUP_ROWS),
            (ROW_GROUP_ROWS, ROW_GROUP_ROWS),
            (2 * ROW_GROUP_ROWS, 7)
        ]
    );
}

fn index() -> TileIndex {
    TileIndex {
        no_predictor: true,
        native_order: true,
        bits: 16,
        n_bands: 2,
        tile_w: Some(4),
        tile_h: Some(4),
        offsets: Some((0..12).map(|i| 1000 + 10 * i).collect()),
        byte_counts: Some((0..12).map(|i| i + 1).collect()),
        tile_count: Some((3, 2)),
    }
}

#[test]
fn band_ranges() {
    // entry of band b, tile (tx, ty): b * 6 + ty * 3 + tx
    let r = planar_ranges(&index(), 2, 1, &vec![1, 0]).unwrap();
    assert_eq!(r, vec![(1110, 1122), (1050, 1056)]);
    assert_eq!(
        planar_ranges(&index(), 0, 0, &vec![0, 5]).err().unwrap().message(),
        "invalid input: selected band 5 >= total 2"
    );
    let e = |ix: &TileIndex| planar_ranges(ix, 0, 0, &vec![0]).err().unwrap().message();
    let mut ix = index();
    ix.no_predictor = false;
    assert_eq!(
        e(&ix),
        "unsupported configuration: band-aware fetch requires Predictor::None; falling back"
    );
    let mut ix = index();
    ix.native_order = false;
    assert_eq!(
        e(&ix),
        "unsupported configuration: band-aware fetch requires native byte order for multi-byte \
         samples; falling back"
    );
    ix.bits = 8;
    assert_eq!(planar_ranges(&ix, 0, 0, &vec![0]).unwrap(), vec![(1000, 1001)]);
    let mut ix = index();
    ix.offsets = None;
    assert_eq!(e(&ix), "unsupported configuration: missing TileOffsets");
    let mut ix = index();
    ix.byte_counts = None;
    assert_eq!(e(&ix), "unsupported configuration: missing TileByteCounts");
    let mut ix = index();
    ix.tile_w = None;
    assert_eq!(e(&ix), "unsupported configuration: not a tiled TIFF");
}

#[test]
fn joined_bands() {
    assert_eq!(expected_band_bytes(4, 3, 16), 24);
    assert_eq!(expected_band_bytes(4, 3, 1), 12);
    assert_eq!(join_bands(&vec![vec![1, 2], vec![3, 4]], 2).unwrap(), vec![1, 2, 3, 4]);
    assert!(join_bands(&vec![vec![1, 2], vec![3]], 2).is_err());
    assert_eq!(join_bands(&vec![], 2).unwrap(), Vec::<u8>::new());
}

/// What was cached of a file is given back.
#[test]
fn cached_chunks() {
    let n = CHUNK as usize;
    let file: Vec<u8> = (0..2 * n + 100).map(|i| (i % 251) as u8).collect();
    let mut cache = ChunkCache::new();
    let (start, end) = (CHUNK - 5, CHUNK + 5);
    assert_eq!(cache.next_missing(start, end, 0), Some((0, CHUNK)));
    cache.insert(0, file[0..n].to_vec());
    assert_eq!(cache.next_missing(start, end, 0), Some((1, 5)));
    assert_eq!(cache.assemble(start, end), None);
    cache.insert(1, file[n..2 * n].to_vec());
    assert_eq!(cache.next_missing(start, end, 0), None);
    assert_eq!(cache.assemble(start, end).unwrap(), file[n - 5..n + 5].to_vec());
    // the last chunk is short
    cache.insert(2, file[2 * n..].to_vec());
    let end = 2 * CHUNK + 100;
    assert_eq!(cache.next_missing(10, end, 0), None);
    assert_eq!(cache.assemble(10, end).unwrap(), file[10..].to_vec());
    assert_eq!(cache.next_missing(10, end + 1, 0), Some((2, 101)));
    assert_eq!(cache.assemble(10, end + 1), None);
    assert_eq!(beyond_end(3, 14), "metadata range 3..14 beyond end of file");
}

/// A fetch gives the bytes of the file, refuses a range past its end, and reads no
/// chunk that it has.
#[test]
fn fetched_metadata() {
    let n = CHUNK as usize;
    let file: Vec<u8> = (0..2 * n + 100).map(|i| (i % 251) as u8).collect();
    let log = std::cell::RefCell::new(Vec::new());
    let read = |a: u64, b: u64| -> Result<Vec<u8>, String> {
        log.borrow_mut().push((a, b));
        if b as usize > file.len() {
            return Err("past the end".to_string());
        }
        Ok(file[a as usize..b as usize].to_vec())
    };
    let mut cache = ChunkCache::new();
    let got = cache.fetch(CHUNK - 5, 2 * CHUNK + 40, &read).ok().unwrap();
    assert_eq!(got, file[n - 5..2 * n + 40].to_vec());
    // the last chunk is refused as a whole and read up to the end of the request
    assert_eq!(
        log.take(),
        vec![
            (0, CHUNK),
            (CHUNK, 2 * CHUNK),
            (2 * CHUNK, 3 * CHUNK),
            (2 * CHUNK, 2 * CHUNK + 40)
        ]
    );
    // nothing is read twice
    assert_eq!(cache.fetch(7, CHUNK + 9, &read).ok().unwrap(), file[7..n + 9].to_vec());
    assert_eq!(cache.fetch(2 * CHUNK, 2 * CHUNK + 40, &read).ok().unwrap().len(), 40);
    assert!(log.take().is_empty());
    // more of a chunk that was cut short
    let got = cache.fetch(2 * CHUNK + 30, 2 * CHUNK + 100, &read).ok().unwrap();
    assert_eq!(got, file[2 * n + 30..].to_vec());
    log.take();
    match cache.fetch(2 * CHUNK, 2 * CHUNK + 101, &read) {
        Err(FetchError::Read(e)) => assert_eq!(e, "past the end"),
        _ => panic!("a range past the end was served"),
    }
    assert!(cache.fetch(5, 5, &read).ok().unwrap().is_empty());
    // a reader that cuts off instead of failing
    let short = |a: u64, b: u64| -> Result<Vec<u8>, String> {
        Ok(file[a as usize..(b as usize).min(file.len())].to_vec())
    };
    let mut cache = ChunkCache::new();
    assert!(matches!(
        cache.fetch(2 * CHUNK, 2 * CHUNK + 101, &short),
        Err(FetchError::BeyondEnd)
    ));
    assert_eq!(cache.fetch(2 * CHUNK, 2 * CHUNK + 100, &short).ok().unwrap().len(), 100);
}

/// A few bytes in front cost one whole chunk, and what follows them in it nothing;
/// an empty range costs nothing at all, and no range is out of bounds.
#[test]
fn header_in_front_costs_one_chunk() {
    let n = CHUNK as usize;
    let file: Vec<u8> = (0..n + 10).map(|i| (i % 251) as u8).collect();
    let log = std::cell::RefCell::new(Vec::new());
    let read = |a: u64, b: u64| -> Result<Vec<u8>, String> {
        log.borrow_mut().push((a, b));
        if b as usize > file.len() {
            return Err("past the end".to_string());
        }
        Ok(file[a as usize..b as usize].to_vec())
    };
    let mut cache = ChunkCache::new();
    assert!(cache.fetch(9, 9, &read).ok().unwrap().is_empty());
    assert!(log.borrow().is_empty());
    assert_eq!(cache.fetch(0, 8, &read).ok().unwrap(), file[0..8].to_vec());
    assert_eq!(log.take(), vec![(0, CHUNK)]);
    assert_eq!(cache.chunks[&0], file[0..n].to_vec());
    assert_eq!(cache.fetch(100, CHUNK, &read).ok().unwrap(), file[100..n].to_vec());
    assert!(log.take().is_empty());
    assert!(cache.fetch(u64::MAX - 3, u64::MAX, &read).is_err());
    assert_eq!(log.take(), vec![(u64::MAX - (CHUNK - 1), u64::MAX)]);
}

#[test]
fn whole_chunks_are_kept_where_they_suffice() {
    assert_eq!(full_enough(Some(vec![1, 2, 3]), 3), Some(vec![1, 2, 3]));
    assert_eq!(full_enough(Some(vec![1, 2]), 3), None);
    assert_eq!(full_enough(None, 0), None);
}
