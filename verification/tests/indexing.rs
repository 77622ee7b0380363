use a5::coordinate_systems::Spherical;
use a5px::accumulate::{cell_runs, Sample};
use a5px::aggregate::{Aggregate, CellValue};
use a5px::error::A5CogError;
use a5px::locator::NO_CELL;
use a5px::mask::{sought_at, CellMask, MaskCache};
use a5px::overlay::{index_stripe_overlay, process_tile_overlay, touched_cells};
use a5px::stats::{AccCfg, Stat};
use a5px::store::{plan_absorb, AccLayout, CellStore, PartitionedStore};
use a5px::tile::{
    actual_dims, index_stripe, process_tile, row_hints, sample_at, strides, stripe_capacity,
    stripes, Planar, Stripe, STRIPE_ROWS,
};

/// Weighted sums with exact arithmetic on small numbers.
#[derive(Clone, Copy, Debug, PartialEq)]
struct Sums {
    total: f64,
    weight: f64,
    low: f64,
    high: f64,
}

impl AccLayout for Sums {
    type Value = f64;

    fn new() -> Self {
        Sums { total: 0.0, weight: 0.0, low: f64::INFINITY, high: f64::NEG_INFINITY }
    }

    fn push(self, v: f64, w: u64, unit: u64) -> Self {
        let w = w as f64 / unit as f64;
        Sums {
            total: self.total + v * w,
            weight: self.weight + w,
            low: self.low.min(v),
            high: self.high.max(v),
        }
    }

    fn push_run(self, vals: &Vec<f64>) -> Self {
        vals.iter().fold(self, |a, &v| a.push(v, 1, 1))
    }

    fn merge(self, o: Self) -> Self {
        Sums {
            total: self.total + o.total,
            weight: self.weight + o.weight,
            low: self.low.min(o.low),
            high: self.high.max(o.high),
        }
    }

    fn finalise(self, stat: Stat) -> f64 {
        match stat {
            Stat::Sum => self.total,
            Stat::Count => self.weight,
            Stat::Min => self.low,
            Stat::Max => self.high,
            _ => self.total / self.weight,
        }
    }
}

fn cfg(has_cont: bool, has_cat: bool, has_npix: bool) -> AccCfg {
    AccCfg { has_cont, has_cat, has_npix }
}

fn all() -> AccCfg {
    cfg(true, true, true)
}

fn some(v: f64) -> Option<Sample<f64>> {
    Some(Sample { value: v, class: v as i32 })
}

fn number(v: CellValue<f64>) -> f64 {
    match v {
        CellValue::Number(x) => x,
        CellValue::Class(_) => panic!("a class"),
    }
}

fn class(v: CellValue<f64>) -> Option<i32> {
    match v {
        CellValue::Class(c) => c,
        CellValue::Number(_) => panic!("a number"),
    }
}

/// Cell `k` of a row of distant cells.
fn cell_no(k: usize) -> u64 {
    cell(-170.0 + 4.0 * (k % 80) as f64, -60.0 + 7.0 * (k / 80) as f64, 5)
}

/// The centre of a cell.
fn centre(cell: u64) -> Spherical {
    a5::core::coordinate_transforms::from_lon_lat(a5::cell_to_lonlat(cell).unwrap())
}

/// The centre of cell `k` of a row of distant cells.
fn at(k: usize) -> Result<Option<Spherical>, A5CogError> {
    Ok(Some(centre(cell_no(k))))
}

fn stripe(width: usize, from: usize, to: usize, n_out: usize, has_nodata: bool) -> Stripe {
    Stripe { width, from, to, n_out, cfg: all(), resolution: 5, has_nodata }
}

#[test]
fn tile_layouts() {
    let s = strides(&Planar::Chunky, 4, 3, 2).unwrap();
    assert_eq!((s.row, s.col, s.band), (8, 2, 1));
    let data: Vec<u32> = (0..24).collect();
    assert_eq!(sample_at(&data, &s, 2, 3, 1), 23);
    assert_eq!(sample_at(&data, &s, 1, 0, 1), 9);
    let s = strides(&Planar::Separate, 4, 3, 2).unwrap();
    assert_eq!((s.row, s.col, s.band), (4, 1, 12));
    assert_eq!(sample_at(&data, &s, 2, 3, 1), 23);
    assert_eq!(sample_at(&data, &s, 1, 0, 1), 16);
    let e = strides(&Planar::Other("Odd".to_string()), 4, 3, 2).err().unwrap();
    assert_eq!(e.message(), "unsupported configuration: unhandled planar configuration: Odd");
}

/// No two samples share a place in the buffer.
#[test]
fn samples_stand_apart() {
    for planar in [Planar::Chunky, Planar::Separate] {
        let s = strides(&planar, 3, 2, 4).unwrap();
        let mut seen = vec![false; 24];
        for r in 0..2 {
            for c in 0..3 {
                for b in 0..4 {
                    let at = r * s.row + c * s.col + b * s.band;
                    assert!(!seen[at]);
                    seen[at] = true;
                }
            }
        }
        assert!(seen.iter().all(|&x| x));
    }
}

#[test]
fn partial_tiles() {
    assert_eq!(actual_dims(10, 7, 4, 4, 0, 0), (4, 4));
    assert_eq!(actual_dims(10, 7, 4, 4, 2, 1), (2, 3));
    assert_eq!(actual_dims(10, 7, 4, 4, 3, 0), (0, 4));
}

#[test]
fn row_stripes() {
    assert_eq!(STRIPE_ROWS, 64);
    assert_eq!(stripes(0), vec![]);
    assert_eq!(stripes(64), vec![(0, 64)]);
    assert_eq!(stripes(130), vec![(0, 64), (64, 128), (128, 130)]);
    assert_eq!(stripe_capacity(0), 16);
    assert_eq!(stripe_capacity(64 * 100), 100);
    assert_eq!(stripe_capacity(usize::MAX), 65_536);
}

#[test]
fn hints_come_from_the_row_above() {
    let row = vec![10, 11, 12, 13, 14];
    assert_eq!(row_hints(&row, 0), [10, 11, 12, 13, NO_CELL]);
    assert_eq!(row_hints(&row, 3), [13, 14, NO_CELL, NO_CELL, 12]);
}

/// Runs cover the pixels that have a cell, and each cell gets its pixels.
#[test]
fn runs_of_equal_cells() {
    let runs = cell_runs(&vec![NO_CELL, 5, 5, NO_CELL, 5, 6, 6, 6]);
    let got: Vec<(u64, usize, usize)> = runs.iter().map(|r| (r.cell, r.from, r.to)).collect();
    assert_eq!(got, vec![(5, 1, 3), (5, 4, 5), (6, 5, 8)]);
    assert_eq!(cell_runs(&vec![]).len(), 0);
}

#[test]
fn slots_are_stable() {
    let mut s: CellStore<Sums> = CellStore::new(2, all(), 4);
    assert_eq!(s.slot(100), 0);
    assert_eq!(s.slot(7), 1);
    assert_eq!(s.slot(100), 0);
    s.add_npix(1, 3);
    s.add_npix(1, 2);
    assert_eq!(s.len(), 2);
    assert_eq!(s.cells, vec![100, 7]);
    assert_eq!(s.npix, vec![0, 5]);
    assert_eq!(s.cont.len(), 4);
    assert!(s.can_take(1));
}

/// Forward indexing: two bands over a 3 by 2 stripe with one invalid pixel.
#[test]
fn forward_stripe() {
    let st = stripe(3, 4, 6, 2, true);
    let sample = |r: usize, b: usize, c: usize| {
        if r == 4 && c == 1 {
            None
        } else if r == 5 && c == 2 && b == 0 {
            None
        } else {
            some((10 * r + c + 100 * b) as f64)
        }
    };
    let point = |r: usize, c: usize| {
        assert!(!(r == 4 && c == 1));
        at(if c == 2 { 9 } else { 8 })
    };
    let s: CellStore<Sums> = index_stripe(&st, None, &sample, &point).unwrap();
    assert_eq!(s.cells, vec![cell_no(8), cell_no(9)]);
    // cell 8: (4,0) (5,0) (5,1); cell 9: (4,2) and, in band 1 only, (5,2)
    assert_eq!(s.npix, vec![3, 2]);
    assert_eq!(number(s.value(Stat::Sum, 0, 0)), 40.0 + 50.0 + 51.0);
    assert_eq!(number(s.value(Stat::Count, 0, 0)), 3.0);
    assert_eq!(number(s.value(Stat::Sum, 1, 0)), 42.0);
    assert_eq!(number(s.value(Stat::Sum, 1, 1)), 142.0 + 152.0);
    assert_eq!(number(s.value(Stat::Max, 0, 1)), 151.0);
    assert_eq!(class(s.value(Stat::Majority, 0, 0)), Some(40));
    assert_eq!(s.cat[0], vec![(40, 1), (50, 1), (51, 1)]);
}

/// A cell is stored only where a valid pixel was located in it.
#[test]
fn invalid_pixels_leave_no_trace() {
    let st = stripe(2, 0, 2, 1, true);
    let sample = |_r: usize, _b: usize, c: usize| if c == 0 { None } else { some(1.0) };
    let point = |_r: usize, c: usize| at(c + 50);
    let s: CellStore<Sums> = index_stripe(&st, None, &sample, &point).unwrap();
    assert_eq!(s.cells, vec![cell_no(51)]);
    assert_eq!(s.npix, vec![2]);
}

/// Pixels without a point are left out, neighbouring pixels share a cell, and a
/// second row meets the cells of the first again.
#[test]
fn points_are_looked_up() {
    let st = stripe(4, 0, 2, 1, false);
    let sample = |_r: usize, _b: usize, _c: usize| some(1.0);
    let point = |r: usize, c: usize| {
        if r == 1 && c == 3 {
            Ok(None)
        } else {
            at(c / 2 + 1)
        }
    };
    let s: CellStore<Sums> = index_stripe(&st, None, &sample, &point).unwrap();
    assert_eq!(s.cells, vec![cell_no(1), cell_no(2)]);
    assert_eq!(s.npix, vec![4, 3]);
}

#[test]
fn point_errors_come_through() {
    let st = stripe(2, 0, 1, 1, false);
    let sample = |_r: usize, _b: usize, _c: usize| some(1.0);
    let point = |_r: usize, _c: usize| -> Result<Option<Spherical>, A5CogError> {
        Err(A5CogError::Proj("no inverse".to_string()))
    };
    let r: Result<CellStore<Sums>, A5CogError> = index_stripe(&st, None, &sample, &point);
    assert_eq!(r.err().unwrap().message(), "proj error: no inverse");
}

#[test]
fn too_many_classes_fail() {
    let st = stripe(5000, 0, 1, 1, false);
    let sample = |_r: usize, _b: usize, c: usize| some(c as f64);
    let point = |_r: usize, _c: usize| at(1);
    let r: Result<CellStore<Sums>, A5CogError> = index_stripe(&st, None, &sample, &point);
    assert!(matches!(r, Err(A5CogError::Invalid(_))));
}

/// Stripes of a tile merge into the partitions, whatever their order.
#[test]
fn merge_order_does_not_matter() {
    let sample = |r: usize, b: usize, c: usize| some((r * 7 + c + b) as f64);
    let point = |r: usize, c: usize| at((r / 3) * 5 + c / 2);
    let mut totals: Vec<Vec<(u64, u64, f64, f64, f64, Vec<(i32, u64)>)>> = Vec::new();
    for order in [[0usize, 1, 2], [2, 0, 1]] {
        let mut parts: PartitionedStore<Sums> = PartitionedStore::new(3, 2, all(), 100);
        for k in order {
            let st = stripe(8, k * 4, k * 4 + 4, 2, false);
            process_tile(&st, None, &sample, &point, &mut parts).unwrap();
        }
        let stores = parts.into_parts();
        assert_eq!(stores.len(), 8);
        let mut rows = Vec::new();
        for s in &stores {
            for i in 0..s.cells.len() {
                let mut classes = s.cat[i * 2].clone();
                classes.sort();
                rows.push((
                    s.cells[i],
                    s.npix[i],
                    number(s.value(Stat::Sum, i, 0)),
                    number(s.value(Stat::Min, i, 1)),
                    number(s.value(Stat::Max, i, 1)),
                    classes,
                ));
            }
        }
        rows.sort_by_key(|r| r.0);
        totals.push(rows);
    }
    assert_eq!(totals[0], totals[1]);
    assert_eq!(totals[0].iter().map(|r| r.1).sum::<u64>(), 96);
    // every cell stands in one partition
    for w in totals[0].windows(2) {
        assert_ne!(w[0].0, w[1].0);
    }
}

#[test]
fn groups_are_absorbed_once() {
    let mut delta: CellStore<Sums> = CellStore::new(1, all(), 4);
    for c in 0..20u64 {
        let slot = delta.slot(c * 31);
        delta.add_npix(slot, c);
    }
    let (order, start) = plan_absorb(&delta, 2);
    assert_eq!(start.len(), 5);
    assert_eq!(start[4], 20);
    let mut sorted = order.clone();
    sorted.sort();
    assert_eq!(sorted, (0..20).collect::<Vec<usize>>());
    let mut into: CellStore<Sums> = CellStore::new(1, all(), 4);
    into.absorb_cells(&delta, &order, start[1], start[2]).unwrap();
    assert_eq!(into.len(), start[2] - start[1]);
    let slot = into.slot(delta.cells[order[start[1]]]);
    assert_eq!(into.npix[slot as usize], delta.npix[order[start[1]]]);
    let parts: PartitionedStore<Sums> = PartitionedStore::new(2, 1, all(), 10);
    assert!(parts.can_absorb(&delta));
}

/// Sub-points are shared out among the cells that they fall into, none lost.
#[test]
fn sub_points_are_shared_out() {
    let got = touched_cells(&vec![5, 7, 5, NO_CELL, 9, 7, 5]);
    assert_eq!(got, vec![(5, 3), (7, 2), (9, 1)]);
    assert_eq!(got.iter().map(|t| t.1).sum::<u64>(), 6);
    assert_eq!(touched_cells(&vec![NO_CELL, NO_CELL]), vec![]);
}

#[test]
fn weighted_pixel() {
    let mut s: CellStore<Sums> = CellStore::new(2, all(), 4);
    s.push_pixel(3, &vec![some(8.0), None], 3, 4).unwrap();
    s.push_pixel(3, &vec![some(4.0), some(2.0)], 4, 4).unwrap();
    assert_eq!(s.cells, vec![3]);
    assert_eq!(s.npix, vec![7]);
    assert_eq!(number(s.value(Stat::Sum, 0, 0)), 6.0 + 4.0);
    assert_eq!(number(s.value(Stat::Count, 0, 0)), 1.75);
    assert_eq!(number(s.value(Stat::Sum, 0, 1)), 2.0);
    assert_eq!(s.cat[0], vec![(8, 3), (4, 4)]);
}

/// A pixel whose corners agree goes to one cell with its whole weight, another
/// is split by its sub-points; what lies in no cell is dropped.
#[test]
fn overlay_stripe() {
    let st = stripe(3, 0, 1, 1, false);
    let sample = |_r: usize, _b: usize, c: usize| some((c + 1) as f64);
    let (a, b) = (centre(cell_no(10)), centre(cell_no(20)));
    let corner = |_j: usize, i: usize| -> Result<(Option<Spherical>, bool), A5CogError> {
        Ok((Some(if i < 2 { a } else { b }), true))
    };
    let subpoints = |_r: usize, c: usize| -> Result<Vec<Option<Spherical>>, A5CogError> {
        assert_eq!(c, 1);
        Ok(vec![Some(a), Some(b), Some(b), Some(b)])
    };
    let s: CellStore<Sums> =
        index_stripe_overlay(&st, 2, None, &sample, &corner, &subpoints).unwrap();
    let mut rows: Vec<(u64, u64, f64, f64)> = (0..s.cells.len())
        .map(|i| {
            (
                s.cells[i],
                s.npix[i],
                number(s.value(Stat::Sum, i, 0)),
                number(s.value(Stat::Count, i, 0)),
            )
        })
        .collect();
    rows.sort_by_key(|r| r.1);
    assert_eq!(
        rows,
        vec![(cell_no(10), 5, 1.0 + 0.5, 1.25), (cell_no(20), 7, 3.0 + 1.5, 1.75)]
    );
    // the sum of all pixels is conserved
    assert_eq!(rows.iter().map(|r| r.2).sum::<f64>(), 6.0);
}

/// A pixel whose corners agree is still split where one lies outside the box,
/// and sub-points without a place are dropped.
#[test]
fn overlay_at_the_box_edge() {
    let st = stripe(1, 0, 1, 1, false);
    let a = centre(cell_no(10));
    let sample = |_r: usize, _b: usize, _c: usize| some(8.0);
    let corner = |j: usize, i: usize| -> Result<(Option<Spherical>, bool), A5CogError> {
        Ok((Some(a), !(j == 1 && i == 1)))
    };
    let subpoints = |_r: usize, _c: usize| -> Result<Vec<Option<Spherical>>, A5CogError> {
        Ok(vec![Some(a), None, None, Some(a)])
    };
    let s: CellStore<Sums> =
        index_stripe_overlay(&st, 2, None, &sample, &corner, &subpoints).unwrap();
    assert_eq!(s.cells, vec![cell_no(10)]);
    assert_eq!(s.npix, vec![2]);
    assert_eq!(number(s.value(Stat::Sum, 0, 0)), 4.0);
}

/// An overlay stores no cell that the mask does not allow.
#[test]
fn masked_overlay() {
    let (a, b) = (centre(cell_no(10)), centre(cell_no(20)));
    let mask = CellMask::from_cells(&vec![cell_no(20)]).unwrap();
    let st = stripe(2, 0, 1, 1, false);
    let sample = |_r: usize, _b: usize, _c: usize| some(4.0);
    let corner = |_j: usize, i: usize| -> Result<(Option<Spherical>, bool), A5CogError> {
        Ok((Some(if i < 2 { a } else { b }), true))
    };
    let subpoints = |_r: usize, _c: usize| -> Result<Vec<Option<Spherical>>, A5CogError> {
        Ok(vec![Some(a), Some(a), Some(a), Some(b)])
    };
    let s: CellStore<Sums> =
        index_stripe_overlay(&st, 2, Some(&mask), &sample, &corner, &subpoints).unwrap();
    assert_eq!(s.cells, vec![cell_no(20)]);
    assert_eq!(number(s.value(Stat::Sum, 0, 0)), 1.0);
}

#[test]
fn overlay_into_partitions() {
    let st = stripe(4, 0, 4, 1, false);
    let sample = |r: usize, _b: usize, c: usize| some((r * 4 + c) as f64);
    let corner = |j: usize, i: usize| -> Result<(Option<Spherical>, bool), A5CogError> {
        Ok((Some(centre(cell_no(j / 3 * 10 + i / 3))), true))
    };
    let subpoints = |_r: usize, _c: usize| -> Result<Vec<Option<Spherical>>, A5CogError> {
        Ok([0, 1, 10, 11].iter().map(|&k| Some(centre(cell_no(k)))).collect())
    };
    let mut parts: PartitionedStore<Sums> = PartitionedStore::new(2, 1, all(), 10);
    process_tile_overlay(&st, 2, None, &sample, &corner, &subpoints, &mut parts).unwrap();
    let agg = Aggregate::from_parts(
        parts.into_parts(),
        1,
        vec!["b".to_string()],
        vec![Stat::Sum, Stat::Count],
        false,
    );
    assert_eq!(agg.npix().unwrap().iter().sum::<u64>(), 16 * 4);
    let total: f64 = agg.column(Stat::Sum, 0).into_iter().map(number).sum();
    assert_eq!(total, 120.0);
    assert_eq!(agg.len(), 4);
}

#[test]
fn finished_read() {
    let mut a: CellStore<Sums> = CellStore::new(2, all(), 4);
    a.push_pixel(5, &vec![some(1.0), some(2.0)], 1, 1).unwrap();
    a.push_pixel(5, &vec![some(1.0), some(4.0)], 1, 1).unwrap();
    a.push_pixel(6, &vec![some(3.0), None], 1, 1).unwrap();
    let mut b: CellStore<Sums> = CellStore::new(2, all(), 4);
    b.push_pixel(9, &vec![None, some(7.0)], 1, 1).unwrap();
    let names = vec!["red".to_string(), "nir".to_string()];
    let agg = Aggregate::from_parts(vec![a, b], 2, names, vec![Stat::Mean, Stat::Majority], true);
    assert_eq!(agg.cells, vec![5, 6, 9]);
    assert_eq!(agg.npix(), Some(vec![2, 1, 1]));
    let col: Vec<f64> = agg.column(Stat::Mean, 1).into_iter().map(number).collect();
    assert_eq!(col[0], 3.0);
    assert!(col[1].is_nan());
    assert_eq!(col[2], 7.0);
    let flat: Vec<Option<i32>> = agg.flat(Stat::Majority).into_iter().map(class).collect();
    assert_eq!(flat, vec![Some(1), Some(2), Some(3), None, None, Some(7)]);
    let f = agg.band_fractions(1);
    assert_eq!(f.classes, vec![2, 4, 7]);
    assert_eq!(f.shares, vec![(1, 2), (1, 2), (1, 1)]);
    assert_eq!(f.offsets, vec![0, 2, 2, 3]);
    let out = agg.into_output();
    assert_eq!(out.cells, vec![5, 6, 9]);
    assert_eq!(out.stats, vec!["mean".to_string(), "majority".to_string()]);
    assert_eq!(out.n_bands, 2);
    assert_eq!(out.flat_values.len(), 2);
    assert_eq!(number(out.flat_values[0][1]), 3.0);
    assert_eq!(out.fractions.unwrap().len(), 2);
    assert_eq!(out.npix, Some(vec![2, 1, 1]));
}

#[test]
fn empty_read() {
    let agg: Aggregate<Sums> =
        Aggregate::empty(vec!["b".to_string()], 1, vec![Stat::Mean], false);
    assert_eq!(agg.len(), 0);
    let out = agg.into_output();
    assert!(out.cells.is_empty());
    assert_eq!(out.flat_values.len(), 1);
    assert!(out.flat_values[0].is_empty());
}

fn cell(lon: f64, lat: f64, resolution: i32) -> u64 {
    a5::lonlat_to_cell(a5::LonLat::new(lon, lat), resolution).unwrap()
}

fn ancestor(cell: u64, resolution: i32) -> u64 {
    a5::cell_to_parent(cell, Some(resolution)).unwrap()
}

/// A compacted set covers its members and everything below them.
#[test]
fn masks_cover_descendants() {
    let below = cell(10.0, 50.0, 12);
    let coarse = ancestor(below, 6);
    let fine = cell(-60.0, 10.0, 12);
    let mask = CellMask::from_cells(&vec![coarse, fine]).unwrap();
    assert!(mask.contains(coarse, 6));
    assert!(mask.contains(below, 12));
    assert!(mask.contains(fine, 12));
    assert!(!mask.contains(cell(-60.0, 10.0, 6), 6));
    assert!(!mask.contains(cell(100.0, -50.0, 12), 12));
    assert!(CellMask::from_cells(&vec![]).is_none());
    let mut cache = MaskCache::new();
    for _ in 0..2 {
        assert!(cache.allows(Some(&mask), below, 12));
        assert!(!cache.allows(Some(&mask), cell(100.0, -50.0, 12), 12));
    }
    assert!(cache.allows(None, 3, 12));
}

#[test]
fn mask_levels() {
    assert_eq!(sought_at(5, 77, 5, None), Some(77));
    assert_eq!(sought_at(4, 77, 5, Some(3)), Some(3));
    assert_eq!(sought_at(4, 77, 5, None), None);
    assert_eq!(sought_at(6, 77, 5, Some(3)), None);
}

#[test]
fn whole_world_mask_covers_all() {
    let mask = CellMask::from_cells(&vec![0]).unwrap();
    assert!(mask.contains(cell(10.0, 50.0, 9), 9));
    assert!(mask.contains(0, -1));
}

#[test]
fn masked_cells_are_not_stored() {
    let inside = cell(10.0, 50.0, 8);
    let outside = cell(-10.0, -50.0, 8);
    let mask = CellMask::from_cells(&vec![ancestor(inside, 5)]).unwrap();
    let mut st = stripe(2, 0, 1, 1, false);
    st.resolution = 8;
    let sample = |_r: usize, _b: usize, _c: usize| some(1.0);
    let point = |_r: usize, c: usize| -> Result<Option<Spherical>, A5CogError> {
        Ok(Some(centre(if c == 0 { outside } else { inside })))
    };
    let s: CellStore<Sums> = index_stripe(&st, Some(&mask), &sample, &point).unwrap();
    assert_eq!(s.cells, vec![inside]);
}

/// What a read has counted of each cell: pixel weight, sum, count, extremes and
/// class weights of band 0.
type Counted = Vec<(u64, u64, f64, f64, f64, f64, Vec<(i32, u64)>)>;

fn counted(parts: PartitionedStore<Sums>) -> Counted {
    let mut rows = Counted::new();
    for s in &parts.into_parts() {
        for i in 0..s.cells.len() {
            let mut classes = s.cat[i * s.n_out].clone();
            classes.sort();
            rows.push((
                s.cells[i],
                s.npix[i],
                number(s.value(Stat::Sum, i, 0)),
                number(s.value(Stat::Count, i, 0)),
                number(s.value(Stat::Min, i, 0)),
                number(s.value(Stat::Max, i, 0)),
                classes,
            ));
        }
    }
    rows.sort_by_key(|r| r.0);
    rows
}

/// Rows of eight pixels, indexed in stripes with these bounds.
fn read_rows(bounds: &[(usize, usize)], log2p: u32, mask: Option<&CellMask>) -> Counted {
    let sample = |r: usize, _b: usize, c: usize| {
        if (r + c) % 5 == 0 {
            None
        } else {
            some((r * 7 + c) as f64)
        }
    };
    let point = |r: usize, c: usize| at((r / 3) * 5 + c / 2);
    let mut parts: PartitionedStore<Sums> = PartitionedStore::new(log2p, 1, all(), 100);
    for &(from, to) in bounds {
        let st = stripe(8, from, to, 1, true);
        process_tile(&st, mask, &sample, &point, &mut parts).unwrap();
    }
    counted(parts)
}

/// Rows may be cut into stripes anywhere.
#[test]
fn rows_are_cut_anywhere() {
    let whole = read_rows(&[(0, 12)], 2, None);
    for mid in 0..=12 {
        assert_eq!(read_rows(&[(0, mid), (mid, 12)], 2, None), whole);
    }
    let pixels = (0..12).flat_map(|r| (0..8).map(move |c| r + c)).filter(|n| n % 5 != 0).count();
    assert_eq!(whole.iter().map(|r| r.1).sum::<u64>(), pixels as u64);
}

/// Neither the number of partitions nor the order of the stripes changes a read.
#[test]
fn partitions_and_order_change_nothing() {
    let want = read_rows(&[(0, 4), (4, 8), (8, 12)], 0, None);
    assert_eq!(read_rows(&[(8, 12), (0, 4), (4, 8)], 3, None), want);
    assert_eq!(read_rows(&[(4, 8), (8, 12), (0, 4)], 6, None), want);
}

/// The counts of chunks add up to those of the whole.
#[test]
fn chunks_add_up_to_the_whole() {
    let whole = read_rows(&[(0, 5), (5, 7), (7, 12)], 2, None);
    let mut sums: std::collections::BTreeMap<u64, (u64, f64, f64)> = Default::default();
    for chunk in [&[(7usize, 12usize)][..], &[(0, 5), (5, 7)][..]] {
        for (cell, npix, sum, count, _, _, _) in read_rows(chunk, 1, None) {
            let e = sums.entry(cell).or_insert((0, 0.0, 0.0));
            *e = (e.0 + npix, e.1 + sum, e.2 + count);
        }
    }
    let want: Vec<(u64, (u64, f64, f64))> =
        whole.iter().map(|r| (r.0, (r.1, r.2, r.3))).collect();
    assert_eq!(sums.into_iter().collect::<Vec<_>>(), want);
}

/// A masked read is the unmasked one restricted to the cells of the mask.
#[test]
fn masked_read_is_a_restriction() {
    let whole = read_rows(&[(0, 6), (6, 12)], 2, None);
    assert!(whole.len() > 4);
    let kept: Vec<u64> = whole.iter().step_by(3).map(|r| r.0).collect();
    let mask = CellMask::from_cells(&kept).unwrap();
    let want: Counted = whole.iter().filter(|r| kept.contains(&r.0)).cloned().collect();
    assert_eq!(read_rows(&[(0, 12)], 3, Some(&mask)), want);
}

/// Band by band, an overlay conserves the weight of the valid pixels.
#[test]
fn overlay_conserves_bands() {
    let (a, b) = (centre(cell_no(10)), centre(cell_no(20)));
    let st = stripe(3, 0, 2, 2, true);
    let sample = |r: usize, band: usize, c: usize| {
        if (r + c + band) % 2 == 0 {
            some(2.0)
        } else {
            None
        }
    };
    let corner = |_j: usize, i: usize| -> Result<(Option<Spherical>, bool), A5CogError> {
        Ok((Some(if i < 2 { a } else { b }), true))
    };
    let subpoints = |_r: usize, _c: usize| -> Result<Vec<Option<Spherical>>, A5CogError> {
        Ok(vec![Some(a), Some(b), Some(b), Some(b)])
    };
    let s: CellStore<Sums> =
        index_stripe_overlay(&st, 2, None, &sample, &corner, &subpoints).unwrap();
    for band in 0..2 {
        let weight: f64 =
            (0..s.cells.len()).map(|i| number(s.value(Stat::Count, i, band))).sum();
        assert_eq!(weight, 3.0);
    }
}

/// A cell is inside where it or an ancestor is listed; finer cells, the order and
/// repeats do not count.
#[test]
fn mask_membership() {
    let c = cell(12.0, 47.0, 9);
    let child = a5::cell_to_children(c, None).unwrap()[0];
    for q in -1..9 {
        let mask = CellMask::from_cells(&vec![ancestor(c, q)]).unwrap();
        assert!(mask.contains(c, 9));
    }
    assert!(!CellMask::from_cells(&vec![child]).unwrap().contains(c, 9));
    let far = cell(-100.0, -30.0, 4);
    let x = CellMask::from_cells(&vec![far, child, ancestor(c, 3)]).unwrap();
    let y = CellMask::from_cells(&vec![ancestor(c, 3), far, far, child, child]).unwrap();
    for k in 0..60 {
        let d = cell_no(k);
        assert_eq!(x.contains(d, 5), y.contains(d, 5));
    }
    assert!(x.contains(c, 9) && y.contains(c, 9));
}

/// Without a mask nothing is remembered.
#[test]
fn decisions_are_remembered_for_masks_only() {
    let mut cache = MaskCache::new();
    assert!(cache.allows(None, 5, 5));
    assert_eq!(cache.last_cell, NO_CELL);
    let c = cell_no(3);
    let mask = CellMask::from_cells(&vec![c]).unwrap();
    assert!(cache.allows(Some(&mask), c, 5));
    assert_eq!(cache.last_cell, c);
    assert!(!cache.allows(Some(&mask), cell_no(4), 5));
}

/// A merged cell holds both, a cell of one side what that side holds.
#[test]
fn absorbed_cell_by_cell() {
    let mut parts: PartitionedStore<Sums> = PartitionedStore::new(2, 1, all(), 10);
    let mut a: CellStore<Sums> = CellStore::new(1, all(), 4);
    a.push_pixel(5, &vec![some(1.0)], 1, 1).unwrap();
    a.push_pixel(6, &vec![some(2.0)], 1, 1).unwrap();
    let mut b: CellStore<Sums> = CellStore::new(1, all(), 4);
    b.push_pixel(6, &vec![some(2.0)], 1, 1).unwrap();
    b.push_pixel(6, &vec![some(8.0)], 1, 1).unwrap();
    b.push_pixel(7, &vec![some(3.0)], 1, 1).unwrap();
    parts.absorb(&a).unwrap();
    parts.absorb(&b).unwrap();
    assert_eq!(
        counted(parts),
        vec![
            (5, 1, 1.0, 1.0, 1.0, 1.0, vec![(1, 1)]),
            (6, 3, 12.0, 3.0, 2.0, 8.0, vec![(2, 2), (8, 1)]),
            (7, 1, 3.0, 1.0, 3.0, 3.0, vec![(3, 1)]),
        ]
    );
}

/// The point of a pixel without a valid band is not asked for, nor are the
/// sub-points of a pixel whose corners share a cell.
#[test]
fn skipped_pixels_cannot_fail() {
    let fail = || A5CogError::Proj("asked".to_string());
    let st = stripe(2, 0, 1, 1, true);
    let sample = |_r: usize, _b: usize, c: usize| if c == 0 { None } else { some(1.0) };
    let point = |_r: usize, c: usize| if c == 0 { Err(fail()) } else { at(3) };
    let s: CellStore<Sums> = index_stripe(&st, None, &sample, &point).unwrap();
    assert_eq!(s.cells, vec![cell_no(3)]);
    let inside = |_j: usize, _i: usize| -> Result<(Option<Spherical>, bool), A5CogError> {
        Ok((Some(centre(cell_no(3))), true))
    };
    let subpoints =
        |_r: usize, _c: usize| -> Result<Vec<Option<Spherical>>, A5CogError> { Err(fail()) };
    let s: CellStore<Sums> =
        index_stripe_overlay(&st, 2, None, &sample, &inside, &subpoints).unwrap();
    assert_eq!(s.npix, vec![4]);
    let outside = |_j: usize, i: usize| -> Result<(Option<Spherical>, bool), A5CogError> {
        Ok((Some(centre(cell_no(3))), i < 2))
    };
    let r: Result<CellStore<Sums>, A5CogError> =
        index_stripe_overlay(&st, 2, None, &sample, &outside, &subpoints);
    assert_eq!(r.err().unwrap().message(), "proj error: asked");
}
