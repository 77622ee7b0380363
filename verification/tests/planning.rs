use a5px::dtype::{
    derive_data_type, dtype_label, integer_code_range, parse_dequant_arg, validate_categorical_dtype,
    validate_dequant_dtype, validate_dtype, DataType, DequantLut, SampleFormat,
};
use a5px::geo::GeoKeys;
use a5px::plan::{
    all_tiles, band_names_or_default, filter_tiles_by_origin, list_overviews, partition_exponent,
    plan_strips, projected_tile_range, resolve_bands, select_overview_level, tile_candidates,
    tile_selection_box, pixel_filter_box, BoxPixels, KeyBox, Level,
};
use a5px::read::{
    buffer_bands, describe_raster, georeference, open_raster, plan_bands, plan_fetch, plan_read,
    plan_sampling, Header, Overview,
};
use a5px::request::{
    band_column, check_read, column_names, opt_arg, parse_overlay_args, resolve_overlay_k,
    worker_count,
};
use a5px::tile::Planar;

fn strings(v: &[&str]) -> Vec<String> {
    v.iter().map(|s| s.to_string()).collect()
}

fn level(width: usize, height: usize) -> Level {
    Level { width, height, n_bands: 3, tile: Some((256, 256)), subfile_type: Some(1) }
}

fn no_keys() -> GeoKeys {
    GeoKeys {
        epsg: None,
        proj_citation: None,
        geog_citation: None,
        citation: None,
        proj_coord_trans: None,
        proj_nat_origin_long: None,
        proj_center_long: None,
        proj_false_origin_long: None,
        proj_straight_vert_pole_long: None,
        proj_nat_origin_lat: None,
        proj_center_lat: None,
        proj_false_origin_lat: None,
        proj_false_easting: None,
        proj_false_origin_easting: None,
        proj_false_northing: None,
        proj_false_origin_northing: None,
        proj_scale_at_nat_origin: None,
        proj_std_parallel1: None,
        proj_std_parallel2: None,
        geog_prime_meridian: None,
        geog_prime_meridian_long: None,
        geog_ellipsoid: None,
        geog_semi_major_axis: None,
        geog_semi_minor_axis: None,
        geog_inv_flattening: None,
    }
}

fn header(levels: Vec<Level>, dtype: Option<DataType>, epsg: Option<u16>) -> Header<f64> {
    let mut keys = no_keys();
    keys.epsg = epsg;
    Header {
        levels,
        dtype,
        geo: epsg.map(|_| keys),
        transformation: None,
        scale: Some(vec![10.0, 10.0, 0.0]),
        tie: Some(vec![0.0, 0.0, 0.0, 500.0, 600.0, 0.0]),
    }
}

// -- request arguments

#[test]
fn read_arguments() {
    let none: Vec<i32> = Vec::new();
    let ok = check_read(7, &none, &strings(&["b"]), &strings(&["mean", "npix"]), false).unwrap();
    assert!(ok.npix && !ok.fractions && ok.stats.len() == 1);
    let f = |res, idx: &Vec<i32>, names: &[&str], stats: &[&str], list| {
        check_read(res, idx, &strings(names), &strings(stats), list).err().unwrap().message()
    };
    assert_eq!(
        f(31, &none, &[], &["mean"], true),
        "invalid input: resolution must be 0..=30, got 31"
    );
    assert_eq!(
        f(-1, &none, &[], &["mean"], true),
        "invalid input: resolution must be 0..=30, got -1"
    );
    assert_eq!(
        f(3, &vec![1], &["b"], &[], true),
        "invalid input: specify bands by index OR by name, not both"
    );
    assert_eq!(f(3, &none, &[], &["x"], true), "invalid input: unknown stat: x");
    assert_eq!(
        f(3, &none, &[], &["fractions"], false),
        "unsupported configuration: \"fractions\" is only available via a5_read_raster()"
    );
    assert!(check_read(3, &none, &Vec::new(), &strings(&["fractions"]), true).is_ok());
}

#[test]
fn small_arguments() {
    assert_eq!(worker_count(-3), 1);
    assert_eq!(worker_count(0), 1);
    assert_eq!(worker_count(12), 12);
    assert_eq!(parse_overlay_args(false, 99).unwrap(), None);
    assert_eq!(parse_overlay_args(true, 0).unwrap(), Some(0));
    assert_eq!(parse_overlay_args(true, 64).unwrap(), Some(64));
    assert_eq!(
        parse_overlay_args(true, 65).err().unwrap().message(),
        "invalid input: subsamples must be in 0..=64 (0 = auto); got 65"
    );
    assert!(parse_overlay_args(true, -1).is_err());
    assert_eq!(resolve_overlay_k(true, 5, 9).unwrap(), 5);
    assert_eq!(resolve_overlay_k(true, 0, 9).unwrap(), 9);
    assert_eq!(resolve_overlay_k(true, 0, 1).unwrap(), 2);
    assert_eq!(resolve_overlay_k(true, 0, 99).unwrap(), 16);
    assert_eq!(
        resolve_overlay_k(false, 5, 9).err().unwrap().message(),
        "invalid input: overlay requires a positive cell_edge_m"
    );
}

#[test]
fn optional_number_arguments() {
    assert_eq!(opt_arg(Vec::<f64>::new(), &vec![], 4, "bbox").unwrap(), None);
    assert_eq!(opt_arg(vec![1, 2], &vec![true, true], 2, "x").unwrap(), Some(vec![1, 2]));
    assert_eq!(
        opt_arg(vec![1], &vec![true], 4, "bbox").err().unwrap().message(),
        "invalid input: bbox must be length 4 (or NULL); got len 1"
    );
    assert_eq!(
        opt_arg(vec![1, 2], &vec![true, false], 2, "tile_bbox").err().unwrap().message(),
        "invalid input: tile_bbox must contain finite numeric values"
    );
}

#[test]
fn result_columns() {
    let bands = strings(&["red", "nir"]);
    assert_eq!(column_names(&bands, &strings(&["mean"])), bands);
    assert_eq!(
        column_names(&bands, &strings(&["mean", "sd"])),
        strings(&["red__mean", "nir__mean", "red__sd", "nir__sd"])
    );
    assert_eq!(band_column(&vec![1, 2, 3, 4, 5, 6], 3, 2, 1), vec![2, 4, 6]);
}

// -- sample types

#[test]
fn sample_types() {
    let t = derive_data_type(&vec![SampleFormat::Int, SampleFormat::Int], &vec![8, 8]);
    assert!(t == Some(DataType::Int8));
    assert_eq!(dtype_label(t), "int8");
    assert_eq!(integer_code_range(t), Some((-128, 127)));
    let t = derive_data_type(&vec![SampleFormat::Uint, SampleFormat::Int], &vec![8, 8]);
    assert!(t.is_none());
    assert_eq!(dtype_label(t), "mixed");
    let t = derive_data_type(&vec![SampleFormat::Float], &vec![32]);
    assert!(t == Some(DataType::Float32));
    assert_eq!(integer_code_range(t), None);
    assert_eq!(integer_code_range(Some(DataType::UInt16)), Some((0, 65535)));
    assert_eq!(integer_code_range(Some(DataType::Int32)), None);
}

/// An accepted table has a value for every code of the sample type.
#[test]
fn decoding_tables() {
    assert!(parse_dequant_arg(Vec::<f64>::new(), 0).is_none());
    let dq = parse_dequant_arg(vec![0.5; 256], -128).unwrap();
    assert!(validate_dequant_dtype(Some(DataType::Int8), &dq).is_ok());
    for code in -128..128i64 {
        assert_eq!(dq.apply(code), Some(0.5));
    }
    assert_eq!(dq.apply(-129), None);
    assert_eq!(dq.apply(128), None);
    assert_eq!(
        validate_dequant_dtype(Some(DataType::UInt8), &dq).err().unwrap().message(),
        "invalid input: dequant LUT domain [-128, 127] does not cover the source dtype range [0, 255]"
    );
    assert_eq!(
        validate_dequant_dtype(Some(DataType::Float64), &dq).err().unwrap().message(),
        "unsupported configuration: dequant requires an integer source of 16 bits or fewer; \
         source data type is Some(Float64)"
    );
    assert_eq!(
        validate_categorical_dtype(None).err().unwrap().message(),
        "unsupported configuration: majority/fractions require an integer source of 16 bits or \
         fewer; source data type is None"
    );
    assert_eq!(
        validate_dtype(Some(DataType::Int8), Some(&dq), true).err().unwrap().message(),
        "invalid input: dequant cannot be combined with majority/fractions: categorical stats \
         operate on the raw integer codes"
    );
}

// -- levels, bands, tiles

#[test]
fn overviews() {
    let mut levels = vec![level(1000, 800), level(500, 400), level(250, 200), level(125, 100)];
    levels[0].subfile_type = Some(0);
    assert_eq!(list_overviews(&levels, 1000, 800, 3), vec![1, 2, 3]);
    let sizes = vec![None, Some(20), Some(40), None];
    assert_eq!(select_overview_level(&levels, &sizes, 1000, 800, 3, true), 2);
    assert_eq!(select_overview_level(&levels, &sizes, 1000, 800, 3, false), 0);
    // a mask, an image with other bands and one in strips cannot stand in
    levels[1].subfile_type = Some(5);
    levels[2].n_bands = 1;
    levels[3].tile = None;
    assert_eq!(list_overviews(&levels, 1000, 800, 3), Vec::<usize>::new());
    assert_eq!(select_overview_level(&levels, &sizes, 1000, 800, 3, true), 0);
    levels[1].subfile_type = None;
    assert_eq!(select_overview_level(&levels, &sizes, 1000, 800, 3, true), 1);
    // the first of equals wins
    let same = vec![level(1000, 800), level(500, 400), level(500, 400)];
    let sizes = vec![None, Some(20), Some(20)];
    assert_eq!(select_overview_level(&same, &sizes, 1000, 800, 3, true), 1);
}

#[test]
fn band_selection() {
    let names = band_names_or_default(Vec::new(), 11);
    assert_eq!(names[0], "band_01");
    assert_eq!(names[8], "band_09");
    assert_eq!(names[10], "band_11");
    let described = strings(&["A", "B", "A"]);
    assert_eq!(band_names_or_default(described.clone(), 3), described);
    let none = Vec::new();
    assert_eq!(resolve_bands(&vec![], &none, 3, &described).unwrap(), vec![0, 1, 2]);
    assert_eq!(resolve_bands(&vec![3, 1, 3], &none, 3, &described).unwrap(), vec![2, 0, 2]);
    assert_eq!(resolve_bands(&vec![], &strings(&["B", "A"]), 3, &described).unwrap(), vec![1, 0]);
    assert_eq!(
        resolve_bands(&vec![1, 4], &none, 3, &described).err().unwrap().message(),
        "invalid input: band index 4 out of range 1..=3"
    );
    assert_eq!(
        resolve_bands(&vec![0], &none, 3, &described).err().unwrap().message(),
        "invalid input: band index 0 out of range 1..=3"
    );
    assert_eq!(
        resolve_bands(&vec![], &strings(&["x\"y"]), 3, &described).err().unwrap().message(),
        "invalid input: band name \"x\\\"y\" not found; available: [\"A\", \"B\", \"A\"]"
    );
}

fn pixels(col_lo: i64, col_hi: i64, row_lo: i64, row_hi: i64) -> BoxPixels {
    BoxPixels::Pixels { col_lo, col_hi, row_lo, row_hi }
}

#[test]
fn box_tiles() {
    let t = projected_tile_range(&pixels(-5, 99, 30, 31), 100, 50, 16, 10).unwrap().unwrap();
    assert_eq!((t.tx_lo, t.tx_hi, t.ty_lo, t.ty_hi), (0, 6, 3, 3));
    let t = projected_tile_range(&pixels(16, 1000, -1, i64::MAX), 100, 50, 16, 10).unwrap().unwrap();
    assert_eq!((t.tx_lo, t.tx_hi, t.ty_lo, t.ty_hi), (1, 6, 0, 4));
    assert!(projected_tile_range(&pixels(100, 120, 0, 9), 100, 50, 16, 10).unwrap().is_none());
    assert!(projected_tile_range(&pixels(-9, -1, 0, 9), 100, 50, 16, 10).unwrap().is_none());
    let e = |b: BoxPixels| projected_tile_range(&b, 100, 50, 16, 10).err().unwrap().message();
    assert_eq!(
        e(BoxPixels::Unordered("[1, 2, 0, 3]".to_string())),
        "invalid input: bbox must satisfy xmin<xmax & ymin<ymax; got [1, 2, 0, 3]"
    );
    assert_eq!(
        e(BoxPixels::Unprojectable),
        "invalid input: could not reproject bbox into raster CRS (all points NaN)"
    );
    assert_eq!(
        e(BoxPixels::Rotated),
        "unsupported configuration: rotated geotransform with bbox is not yet supported"
    );
    assert_eq!(all_tiles(2, 2), vec![(0, 0), (1, 0), (0, 1), (1, 1)]);
}

/// Boxes that share edges own each tile once.
#[test]
fn tiles_belong_to_one_box() {
    assert_eq!(tile_candidates(2, 1, 4, 6), [(17, 13), (20, 18), (23, 23)]);
    let tiles = vec![(0, 0), (1, 0), (2, 0), (3, 0)];
    let points = vec![
        [Some((5, 1)), Some((12, 1)), Some((13, 1))],
        [Some((10, 1)), Some((3, 1)), None],
        [None, Some((-7, 4)), Some((15, 1))],
        [None, None, None],
    ];
    let whole = KeyBox { west: -10, south: 0, east: 20, north: 5 };
    let left = KeyBox { east: 10, ..whole };
    let right = KeyBox { west: 10, ..whole };
    // the point on the shared edge belongs to the right box
    assert_eq!(filter_tiles_by_origin(&tiles, &points, &left), vec![(0, 0), (2, 0)]);
    assert_eq!(filter_tiles_by_origin(&tiles, &points, &right), vec![(1, 0)]);
    assert_eq!(filter_tiles_by_origin(&tiles, &points, &whole), vec![(0, 0), (1, 0), (2, 0)]);
    let upper = KeyBox { south: 4, ..whole };
    let lower = KeyBox { north: 4, ..whole };
    assert_eq!(filter_tiles_by_origin(&tiles, &points, &upper), vec![(2, 0)]);
    assert_eq!(filter_tiles_by_origin(&tiles, &points, &lower), vec![(0, 0), (1, 0)]);
}

#[test]
fn fetch_units() {
    let tiles = vec![(0, 0), (1, 0), (2, 0), (3, 0), (4, 0), (6, 0), (0, 1)];
    let strips = plan_strips(&tiles, 4);
    assert_eq!(
        strips,
        vec![
            vec![(0, 0), (1, 0), (2, 0), (3, 0)],
            vec![(4, 0)],
            vec![(6, 0)],
            vec![(0, 1)],
        ]
    );
    assert_eq!(strips.concat(), tiles);
    let p = plan_fetch(&tiles, &Planar::Chunky, true, true, 16, 3);
    assert!(p.use_strips);
    assert_eq!(p.units, strips);
    assert_eq!((p.tasks, p.depth, p.log2p), (4, 6, 4));
    let p = plan_fetch(&tiles, &Planar::Separate, false, true, 0, 1);
    assert!(!p.use_strips);
    assert_eq!(p.units.len(), 7);
    assert_eq!(p.units[5], vec![(6, 0)]);
    assert_eq!((p.tasks, p.depth, p.log2p), (1, 4, 0));
    let p = plan_fetch(&tiles, &Planar::Other("x".to_string()), true, true, 2, 1000);
    assert!(!p.use_strips);
    assert_eq!(p.log2p, 6);
    assert_eq!(plan_fetch(&tiles, &Planar::Chunky, true, true, 1, 2).tasks, 2);
    assert_eq!(partition_exponent(2), 3);
    assert_eq!(partition_exponent(5), 5);
}

#[test]
fn boxes_for_tiles_and_pixels() {
    assert_eq!(tile_selection_box(Some(1), Some(2)), Some(1));
    assert_eq!(tile_selection_box(None, Some(2)), Some(2));
    assert_eq!(pixel_filter_box(Some(1), false), Some(1));
    assert_eq!(pixel_filter_box(Some(1), true), None);
    assert_eq!(buffer_bands(&vec![4, 2], 9, false), (9, vec![4, 2]));
    assert_eq!(buffer_bands(&vec![4, 2], 9, true), (2, vec![0, 1]));
}

// -- the whole of planning

#[test]
fn planned_read() {
    let mut l = level(600, 300);
    let none = Vec::new();
    let bands = plan_bands(&l, Vec::new(), &vec![2], &none).unwrap();
    assert_eq!(bands.bands, vec![1]);
    assert_eq!(bands.names, strings(&["band_02"]));
    let p = plan_read(bands, &l, (3, 2), None).unwrap();
    assert_eq!(p.bands, vec![1]);
    assert_eq!(p.names, strings(&["band_02"]));
    assert_eq!((p.tile_w, p.tile_h), (256, 256));
    assert_eq!(p.tiles.unwrap().len(), 6);
    let bands =
        plan_bands(&l, strings(&["a", "b", "c"]), &vec![], &strings(&["c"])).unwrap();
    let p = plan_read(bands, &l, (3, 2), Some(&pixels(250, 260, 0, 5))).unwrap();
    assert_eq!(p.names, strings(&["c"]));
    assert_eq!(p.tiles, Some(vec![(0, 0), (1, 0)]));
    let all = || plan_bands(&l, Vec::new(), &vec![], &none).unwrap();
    let p = plan_read(all(), &l, (3, 2), Some(&pixels(700, 800, 0, 5))).unwrap();
    assert_eq!(p.tiles, None);
    let e = plan_read(all(), &l, (3, 2), Some(&BoxPixels::Rotated));
    assert_eq!(
        e.err().unwrap().message(),
        "unsupported configuration: rotated geotransform with bbox is not yet supported"
    );
    let e = plan_bands(&l, Vec::new(), &vec![9], &none);
    assert_eq!(e.err().unwrap().message(), "invalid input: band index 9 out of range 1..=3");
    l.tile = None;
    let e = plan_bands(&l, Vec::new(), &vec![9], &none);
    assert_eq!(
        e.err().unwrap().message(),
        "unsupported configuration: MVP requires tiled TIFF; strip-based not yet supported"
    );
}

#[test]
fn planned_sampling() {
    let mut l = level(600, 300);
    let p = plan_sampling(&l, false, Vec::new(), &vec![3, 1], &Vec::new()).unwrap();
    assert_eq!(p.bands, vec![2, 0]);
    assert_eq!(p.names, strings(&["band_03", "band_01"]));
    assert_eq!(
        plan_sampling(&l, true, Vec::new(), &vec![], &Vec::new()).err().unwrap().message(),
        "unsupported configuration: rotated geotransform is not supported in centroid mode"
    );
    l.tile = None;
    assert_eq!(
        plan_sampling(&l, false, Vec::new(), &vec![], &Vec::new()).err().unwrap().message(),
        "unsupported configuration: centroid mode requires a tiled TIFF"
    );
}

#[test]
fn opened_raster() {
    let h = header(vec![level(10, 10)], Some(DataType::Int8), Some(32650));
    let none: Option<&DequantLut<f64>> = None;
    let g = open_raster(&h, none, true).unwrap();
    assert_eq!(g.proj.projname(), "utm");
    assert!(georeference(&h).is_ok());
    let e = |h: &Header<f64>, cat| open_raster(h, none, cat).err().unwrap().message();
    assert_eq!(e(&header(vec![], None, None), true), "invalid input: no IFDs");
    assert_eq!(
        e(&header(vec![level(1, 1)], None, None), true),
        "unsupported configuration: majority/fractions require an integer source of 16 bits or \
         fewer; source data type is None"
    );
    assert_eq!(
        e(&header(vec![level(1, 1)], None, None), false),
        "missing geokey: GeoKeyDirectory"
    );
    let mut h = header(vec![level(1, 1)], None, Some(32650));
    h.tie = None;
    assert_eq!(e(&h, false), "missing geokey: ModelTiepoint");
}

#[test]
fn raster_description() {
    let mut h = header(vec![level(100, 80), level(50, 40)], Some(DataType::UInt16), None);
    let i = describe_raster(&h, Some((1, 2)), Vec::new(), &Planar::Separate, "Deflate");
    assert_eq!((i.width, i.height, i.n_bands), (100, 80, 3));
    assert_eq!(i.dtype, "uint16");
    assert_eq!(i.interleave, "band");
    assert_eq!(i.compression, "deflate");
    assert_eq!(i.block, (256, 256));
    assert_eq!(i.n_blocks, (1, 2));
    assert_eq!(
        i.overviews,
        vec![Overview { level: 1, width: 50, height: 40, block: (256, 256) }]
    );
    assert_eq!(i.band_names[2], "band_03");
    h.levels[0].tile = None;
    let i = describe_raster(&h, None, strings(&["x", "y", "z"]), &Planar::Chunky, "ZSTD");
    assert_eq!(i.block, (0, 0));
    assert_eq!(i.n_blocks, (0, 0));
    assert_eq!(i.interleave, "pixel");
    assert_eq!(i.band_names, strings(&["x", "y", "z"]));
}
