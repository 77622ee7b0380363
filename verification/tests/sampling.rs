use a5px::grid::{count_windows, lattice, lattice_fits, GridWindows, WindowFaces, WIN};
use a5px::locator::{CellLocator, NO_CELL};
use a5px::sample::{
    bilinear_part, bucket_cells, centroid_output, check_samplable, choose_samples, stencil_pixels,
    stencil_start, use_band_fetch, Grid, Interp, Stencil,
};
use a5px::tile::Planar;
use proj4rs::Proj;

#[test]
fn kernels() {
    assert!(Interp::parse("nearest").unwrap() == Interp::Nearest);
    assert!(Interp::parse("lanczos").unwrap() == Interp::Lanczos);
    assert_eq!(Interp::parse("bilinear").unwrap().footprint(), (0, 2));
    assert_eq!(Interp::parse("bicubic").unwrap().footprint(), (-1, 4));
    assert_eq!(
        Interp::parse("cubic").err().unwrap().message(),
        "invalid input: unknown interp: \"cubic\" (expected nearest/bilinear/bicubic/lanczos)"
    );
    assert_eq!(stencil_start(Interp::Nearest, 7, 6), (7, 1));
    assert_eq!(stencil_start(Interp::Bilinear, 7, 6), (6, 2));
    assert_eq!(stencil_start(Interp::Bicubic, 7, 6), (5, 4));
    assert_eq!(stencil_start(Interp::Lanczos, 0, -1), (-3, 6));
}

/// The larger stencils hold the bilinear one in their middle.
#[test]
fn inner_stencil() {
    let parts = |k: Interp, n: usize| -> Vec<Option<usize>> {
        (0..n).map(|j| bilinear_part(k, j)).collect()
    };
    assert_eq!(parts(Interp::Nearest, 1), vec![None]);
    assert_eq!(parts(Interp::Bilinear, 2), vec![Some(0), Some(1)]);
    assert_eq!(parts(Interp::Bicubic, 4), vec![None, Some(0), Some(1), None]);
    assert_eq!(parts(Interp::Lanczos, 6), vec![None, None, Some(0), Some(1), None, None]);
}

/// An incomplete stencil of a kernel with negative lobes falls back to the
/// bilinear sample; a complete one keeps its own.
#[test]
fn incomplete_stencils() {
    let whole = vec![Some(1), Some(2), None];
    let part = vec![Some(10), None, Some(30)];
    assert_eq!(
        choose_samples(Interp::Bicubic, &vec![16, 15, 3], &whole, &part),
        vec![Some(1), None, Some(30)]
    );
    assert_eq!(
        choose_samples(Interp::Lanczos, &vec![36, 35, 0], &whole, &part),
        vec![Some(1), None, Some(30)]
    );
    assert_eq!(choose_samples(Interp::Bilinear, &vec![4, 1, 0], &whole, &part), whole);
    assert_eq!(choose_samples(Interp::Nearest, &vec![1, 1, 0], &whole, &part), whole);
}

#[test]
fn sampled_cells() {
    let samples = vec![Some(1), None, None, None, None, Some(6)];
    let (cells, flat) = centroid_output(&vec![70, 80, 90], &samples, 2);
    assert_eq!(cells, vec![70, 90]);
    assert_eq!(flat, vec![Some(1), None, None, Some(6)]);
}

/// A stencil across tile edges is split, and every pixel of the raster in it is
/// held by one tile.
#[test]
fn split_stencils() {
    let g = Grid { width: 10, height: 6, tile_w: 4, tile_h: 4 };
    let s = Stencil { sx: 6, nx: 6, sy: 2, ny: 6 };
    let tasks = bucket_cells(&g, &vec![None, Some(s), None]).unwrap();
    let mut tiles: Vec<(usize, usize)> = tasks.iter().map(|t| (t.tx, t.ty)).collect();
    tiles.sort();
    assert_eq!(tiles, vec![(1, 0), (1, 1), (2, 0), (2, 1)]);
    let mut seen: Vec<(usize, usize)> = Vec::new();
    for t in &tasks {
        assert_eq!(t.entries, vec![1]);
        for p in stencil_pixels(&g, &s, t.tx, t.ty) {
            let (x, y) = (t.tx * 4 + p.c, t.ty * 4 + p.r);
            assert_eq!(x as i64, s.sx + p.jx as i64);
            assert_eq!(y as i64, s.sy + p.jy as i64);
            assert!(x < 10 && y < 6);
            assert!(!seen.contains(&(p.jx, p.jy)));
            seen.push((p.jx, p.jy));
        }
    }
    assert_eq!(seen.len(), 4 * 4);
    let beside = Stencil { sx: -9, nx: 6, sy: 2, ny: 6 };
    assert!(bucket_cells(&g, &vec![Some(beside)]).unwrap().is_empty());
}

#[test]
fn band_fetching() {
    assert!(use_band_fetch(&Planar::Separate, 2, 3, true, true));
    assert!(!use_band_fetch(&Planar::Separate, 3, 3, true, true));
    assert!(!use_band_fetch(&Planar::Separate, 2, 3, false, true));
    assert!(!use_band_fetch(&Planar::Separate, 2, 3, true, false));
    assert!(!use_band_fetch(&Planar::Chunky, 2, 3, true, true));
    assert_eq!(check_samplable(false, Some((4, 5))).unwrap(), (4, 5));
    assert!(check_samplable(true, Some((4, 5))).is_err());
    assert!(check_samplable(false, None).is_err());
}

#[test]
fn lattices() {
    assert_eq!(count_windows(0), 1);
    assert_eq!(count_windows(16), 1);
    assert_eq!(count_windows(17), 2);
    assert!(lattice_fits(100, 0));
    assert!(!lattice_fits(usize::MAX, 1));
    assert!(!lattice_fits(1 << 40, 1 << 40));
    let l = lattice(2, 1);
    assert_eq!(l.len(), 3 * 2 + 5 * 2);
    assert_eq!(l[..6].to_vec(), vec![(0, 0), (16, 0), (32, 0), (0, 16), (16, 16), (32, 16)]);
    assert_eq!(l[11..].to_vec(), vec![(24, 8), (24, 0), (24, 16), (16, 8), (32, 8)]);
}

fn a5_spherical(lon: f64, lat: f64) -> a5::coordinate_systems::Spherical {
    a5::core::coordinate_transforms::from_lon_lat(a5::LonLat::new(lon, lat))
}

#[test]
fn exact_only_windows() {
    let g = GridWindows::exact_only(20, 3);
    assert_eq!(g.n_windows(), 2);
    assert_eq!(g.n_exact_only(), 2);
    assert!(g.point(19, 2).is_none());
    // a point that did not project spoils its window, and only that
    let mut samples: Vec<_> = lattice(2, 1)
        .iter()
        .map(|&(x, y)| Some(a5_spherical(10.0 + x as f64 * 1e-4, 50.0 + y as f64 * 1e-4)))
        .collect();
    samples[11] = None;
    let g = GridWindows::new(&samples, &vec![false, false], 20, 3);
    assert_eq!(g.n_exact_only(), 1);
    assert_eq!(g.point(5, 2), Some((0, 5, 2)));
    assert_eq!(g.point(17, 0), None);
    // longitude breaks inside the first window
    let g = GridWindows::new(&samples, &vec![true, false], 20, 3);
    assert_eq!(g.n_exact_only(), 2);
    assert_eq!(g.point(5, 2), None);
}

/// Longitude breaks inside a window whose corners straddle the antimeridian or
/// that reaches within a degree of a pole; its points are projected one by one.
#[test]
fn windows_with_a_break_are_exact_only() {
    for (lon0, lat0) in [(179.9995, 10.0), (40.0, 88.999)] {
        let wrap = |x: usize| (lon0 + x as f64 * 1e-4 + 180.0) % 360.0 - 180.0;
        let degrees: Vec<Option<(f64, f64)>> = lattice(count_windows(20), count_windows(3))
            .iter()
            .map(|&(x, y)| Some((wrap(x), lat0 + y as f64 * 1e-4)))
            .collect();
        let samples = degrees.iter().map(|d| d.map(|(x, y)| a5_spherical(x, y))).collect();
        let breaks = vec![breaks(&degrees, 20, 3, 0), breaks(&degrees, 20, 3, 1)];
        let g = GridWindows::new(&samples, &breaks, 20, 3);
        assert!(breaks[0]);
        assert_eq!(g.point(5, 2), None);
        assert_eq!(g.point(17, 0).is_none(), breaks[1]);
    }
}

/// The degrees at the corners and probes of window `w`.
fn window_degrees(
    degrees: &[Option<(f64, f64)>],
    nx: usize,
    ny: usize,
    w: usize,
) -> Option<([(f64, f64); 4], [(f64, f64); 5])> {
    let (wx, wy) = (count_windows(nx), count_windows(ny));
    let (i, j) = (w % wx, w / wx);
    let (up, down) = (j * (wx + 1) + i, (j + 1) * (wx + 1) + i);
    let p = (wx + 1) * (wy + 1) + 5 * w;
    let c = [degrees[up]?, degrees[up + 1]?, degrees[down]?, degrees[down + 1]?];
    let d = &degrees[p..p + 5];
    Some((c, [d[0]?, d[1]?, d[2]?, d[3]?, d[4]?]))
}

/// Whether longitude breaks inside window `w`.
fn breaks(degrees: &[Option<(f64, f64)>], nx: usize, ny: usize, w: usize) -> bool {
    let Some((c, p)) = window_degrees(degrees, nx, ny, w) else { return false };
    let east = c.iter().map(|p| p.0).fold(f64::MIN, f64::max);
    let west = c.iter().map(|p| p.0).fold(f64::MAX, f64::min);
    east - west >= 180.0 || c.iter().chain(&p).any(|p| p.1.abs() > 89.0)
}

fn blend(c: &[(f64, f64); 4], u: f64, v: f64) -> (f64, f64) {
    let k = [(1.0 - u) * (1.0 - v), u * (1.0 - v), (1.0 - u) * v, u * v];
    let mut p = (0.0, 0.0);
    for i in 0..4 {
        p.0 += k[i] * c[i].0;
        p.1 += k[i] * c[i].1;
    }
    p
}

/// The face position that a window interpolates at `(u, v)`.
fn bilinear(w: &WindowFaces, u: f64, v: f64) -> (f64, f64) {
    let k = [(1.0 - u) * (1.0 - v), u * (1.0 - v), (1.0 - u) * v, u * v];
    let mut p = (0.0, 0.0);
    for i in 0..4 {
        p.0 += k[i] * w.corners[i].x();
        p.1 += k[i] * w.corners[i].y();
    }
    p
}

/// Four times the largest error at the probes of a window.
fn margin(w: &WindowFaces) -> f64 {
    let at = [(0.5, 0.5), (0.5, 0.0), (0.5, 1.0), (0.0, 0.5), (1.0, 0.5)];
    let mut worst: f64 = 0.0;
    for (f, &(u, v)) in w.probes.iter().zip(&at) {
        let (x, y) = bilinear(w, u, v);
        worst = worst.max(((x - f.x()).powi(2) + (y - f.y()).powi(2)).sqrt());
    }
    4.0 * worst + 1e-12
}

/// Interpolated positions are within the margin of the exact ones, and locating
/// agrees with the search, for a projected (UTM) and a lat/long source at fine
/// and coarse pixels.
#[test]
fn grid_projector_is_within_margin_and_exact() {
    let dst = Proj::from_epsg_code(4326).unwrap();
    let cases: Vec<(Proj, [f64; 6], bool)> = vec![
        (Proj::from_epsg_code(32650).unwrap(), [720000.0, 10.0, 0.0, 608000.0, 0.0, -10.0], false),
        (
            Proj::from_epsg_code(32650).unwrap(),
            [500000.0, 1000.0, 0.0, 6000000.0, 0.0, -1000.0],
            false,
        ),
        (Proj::from_epsg_code(4326).unwrap(), [-3.0, 0.0001, 0.0, 51.5, 0.0, -0.0001], true),
        (
            Proj::from_proj_string(
                "+proj=laea +lat_0=52 +lon_0=10 +x_0=0 +y_0=0 +ellps=GRS80 +units=m +no_defs",
            )
            .unwrap(),
            [-2000000.0, 20000.0, 0.0, 2000000.0, 0.0, -20000.0],
            false,
        ),
    ];
    for (src, gt, src_ll) in &cases {
        let exact = |i: f64, j: f64| -> Option<(f64, f64)> {
            let (c, r) = (i + 0.5, j + 0.5);
            let mut p = (gt[0] + c * gt[1] + r * gt[2], gt[3] + c * gt[4] + r * gt[5], 0.0);
            if *src_ll {
                p = (p.0.to_radians(), p.1.to_radians(), 0.0);
            }
            if proj4rs::transform::transform(src, &dst, &mut p).is_err() {
                return None;
            }
            let (lon, lat) = (p.0.to_degrees(), p.1.to_degrees());
            if lon.is_finite() && lat.is_finite() {
                Some((lon, lat))
            } else {
                None
            }
        };
        let (nx, ny) = (70usize, 40usize);
        let degrees: Vec<Option<(f64, f64)>> = lattice(count_windows(nx), count_windows(ny))
            .iter()
            .map(|&(i, j)| exact(i as f64, j as f64))
            .collect();
        let samples = degrees.iter().map(|d| d.map(|(x, y)| a5_spherical(x, y))).collect();
        let n = count_windows(nx) * count_windows(ny);
        let gp = GridWindows::new(
            &samples,
            &(0..n).map(|w| breaks(&degrees, nx, ny, w)).collect(),
            nx,
            ny,
        );
        let res = 18;
        let mut loc = CellLocator::new(res);
        let mut n_approx = 0usize;
        let mut prev = NO_CELL;
        for j in 0..ny {
            for i in 0..nx {
                let Some((lon, lat)) = exact(i as f64, j as f64) else { continue };
                let sph = a5_spherical(lon, lat);
                if let Some((w, u, v)) = gp.point(i, j) {
                    n_approx += 1;
                    let win = gp.wins[w].as_ref().unwrap();
                    let (x, y) = bilinear(win, u as f64 / WIN as f64, v as f64 / WIN as f64);
                    let f = a5::projections::dodecahedron::DodecahedronProjection::get_thread_local()
                        .forward(sph, win.origin)
                        .unwrap();
                    let err = ((f.x() - x).powi(2) + (f.y() - y).powi(2)).sqrt();
                    assert!(err <= margin(win), "face err {err} > margin {}", margin(win));
                    let (corners, probes) = window_degrees(&degrees, nx, ny, w).unwrap();
                    let at = [(0.5, 0.5), (0.5, 0.0), (0.5, 1.0), (0.0, 0.5), (1.0, 0.5)];
                    let mut worst: f64 = 0.0;
                    for (p, &(u, v)) in probes.iter().zip(&at) {
                        let (x, y) = blend(&corners, u, v);
                        worst = worst.max((x - p.0).abs().max((y - p.1).abs()));
                    }
                    let m = 4.0 * worst + 1e-12;
                    let (alon, alat) =
                        blend(&corners, u as f64 / WIN as f64, v as f64 / WIN as f64);
                    assert!(
                        (alon - lon).abs() <= m && (alat - lat).abs() <= m,
                        "lonlat err > margin"
                    );
                }
                let got = loc.locate(sph, prev);
                prev = got;
                assert_eq!(got, a5::core::cell::spherical_to_cell(sph, res).unwrap());
            }
        }
        assert!(n_approx > 0, "no window was interpolated");
    }
}
