use a5::coordinate_systems::Spherical;
use a5px::locator::{CellLocator, NO_CELL};

/// Degrees to the grid's spherical frame.
fn a5_spherical(lon: f64, lat: f64) -> Spherical {
    a5::core::coordinate_transforms::from_lon_lat(a5::LonLat::new(lon, lat))
}

fn search(p: Spherical, resolution: i32) -> u64 {
    a5::core::cell::spherical_to_cell(p, resolution).unwrap()
}

/// A row scan of a 10 m grid agrees with the search at every pixel.
#[test]
fn locator_matches_spherical_to_cell() {
    for &res in &[1, 2, 8, 14, 16, 18, 20] {
        let w = 256usize;
        let h = 128usize;
        let lat0: f64 = 5.5;
        let dlat = 10.0 / 111_320.0;
        let dlon = 10.0 / (111_320.0 * lat0.to_radians().cos());
        let mut loc = CellLocator::new(res);
        let mut prev = vec![NO_CELL; w];
        for r in 0..h {
            for c in 0..w {
                let p = a5_spherical(117.0 + c as f64 * dlon, lat0 - r as f64 * dlat);
                let got = loc.locate(p, prev[c]);
                prev[c] = got;
                let want = search(p, res);
                assert_eq!(got, want, "res {res} r {r} c {c}");
            }
        }
    }
}

/// Jumps (nodata gaps, box edges) fall back to the search.
#[test]
fn locator_handles_jumps() {
    let mut loc = CellLocator::new(18);
    let pts = [(117.0, 5.5), (117.0001, 5.5), (-0.1, 51.5), (117.0002, 5.5), (0.0, 0.0)];
    for &(lon, lat) in &pts {
        let p = a5_spherical(lon, lat);
        assert_eq!(loc.locate(p, NO_CELL), search(p, 18));
    }
}

/// The whole world is the only cell at resolution -1, whatever the point.
#[test]
fn world_is_found_everywhere() {
    let mut loc = CellLocator::new(-1);
    assert_eq!(loc.locate(a5_spherical(12.0, 34.0), NO_CELL), 0);
    assert_eq!(loc.locate(a5_spherical(-170.0, -80.0), 7), 0);
    assert_eq!(loc.last, NO_CELL);
}

/// The cell of the lookup before is kept while it contains the point, and a
/// useless hint does no harm.
#[test]
fn last_cell_is_remembered() {
    let mut loc = CellLocator::new(10);
    let p = a5_spherical(20.0, 40.0);
    let first = loc.locate(p, NO_CELL);
    assert_eq!(loc.last, first);
    assert_eq!(loc.locate(p, 0xFFFF_0000), first);
    let far = a5_spherical(-60.0, -20.0);
    let second = loc.locate(far, first);
    assert_ne!(second, first);
    assert_eq!(second, search(far, 10));
    assert_eq!(loc.last, second);
}

/// A hint that contains the point is taken.
#[test]
fn hint_is_taken() {
    let here = a5_spherical(20.0, 40.0);
    let there = a5_spherical(-60.0, -20.0);
    let cell = search(there, 12);
    let mut loc = CellLocator::new(12);
    loc.locate(here, NO_CELL);
    assert_eq!(loc.locate(there, cell), cell);
}

/// Several hints are tried in turn.
#[test]
fn any_hint_is_taken() {
    let there = a5_spherical(-60.0, -20.0);
    let cell = search(there, 12);
    let mut loc = CellLocator::new(12);
    loc.locate(a5_spherical(20.0, 40.0), NO_CELL);
    let hints = [NO_CELL, search(a5_spherical(1.0, 2.0), 12), NO_CELL, cell, 12345];
    assert_eq!(loc.locate_near(there, &hints), cell);
    assert_eq!(loc.last, cell);
}

/// A hint of another resolution is no candidate, though its outline contains the
/// point.
#[test]
fn hint_of_another_resolution_is_not_taken() {
    let there = a5_spherical(-60.0, -20.0);
    let cell = search(there, 12);
    for res in [10, 11, 13] {
        let mut loc = CellLocator::new(12);
        loc.locate(a5_spherical(20.0, 40.0), NO_CELL);
        let got = loc.locate(there, search(there, res));
        assert_eq!(got, cell);
        assert_eq!(a5::get_resolution(got), 12);
    }
}

/// Two scans with other hints and other lookups before them give the same cells.
#[test]
fn hints_change_no_cell() {
    let at = |k: usize| a5_spherical(10.0 + 0.003 * k as f64, 45.0 + 0.001 * k as f64);
    let mut plain = CellLocator::new(14);
    let mut hinted = CellLocator::new(14);
    hinted.locate(a5_spherical(-60.0, -20.0), NO_CELL);
    let mut before = [NO_CELL; 5];
    for k in 0..200 {
        let p = at(k);
        let a = plain.locate(p, NO_CELL);
        let b = hinted.locate_near(p, &before);
        assert_eq!(a, b);
        assert_eq!(a5::get_resolution(a), 14);
        before[k % 5] = a;
    }
}
