//! The lattice on which a stripe's pixel positions are projected exactly.
//!
//! Between its points positions are interpolated: a stripe is cut into square
//! windows, each with four corners and five probes (the centre and the middles
//! of the edges). A window in which interpolation would be unsafe is marked, and
//! its pixels are projected one by one.

use vstd::arithmetic::div_mod::lemma_fundamental_div_mod_converse;
use vstd::prelude::*;

use a5::coordinate_systems::{Face, Spherical};

use crate::a5grid::{nearest_face, nearest_origin, project_point, projected};

verus! {

/// The edge of a window, in grid points.
pub const WIN: usize = 16;

/// Half the edge of a window.
pub const HALF_WIN: usize = 8;

/// The number of windows that cover `n` grid points; at least one.
pub open spec fn windows_over(n: int) -> int {
    if n <= 0 {
        1
    } else {
        (n + WIN - 1) / (WIN as int)
    }
}

/// The number of corners of `wx` by `wy` windows.
pub open spec fn n_corners(wx: int, wy: int) -> int {
    (wx + 1) * (wy + 1)
}

/// The number of points of the lattice of `wx` by `wy` windows.
pub open spec fn lattice_len(wx: int, wy: int) -> int {
    n_corners(wx, wy) + 5 * (wx * wy)
}

/// Where a probe lies within its window: the centre, then the middles of the
/// top, bottom, left and right edges.
pub open spec fn probe_offset(k: int) -> (int, int) {
    if k == 0 {
        (HALF_WIN as int, HALF_WIN as int)
    } else if k == 1 {
        (HALF_WIN as int, 0)
    } else if k == 2 {
        (HALF_WIN as int, WIN as int)
    } else if k == 3 {
        (0, HALF_WIN as int)
    } else {
        (WIN as int, HALF_WIN as int)
    }
}

/// The position of a corner of the lattice.
pub open spec fn corner_position(i: int, j: int) -> (int, int) {
    (i * WIN, j * WIN)
}

/// The position of a probe of a window.
pub open spec fn probe_position(i: int, j: int, k: int) -> (int, int) {
    (i * WIN + probe_offset(k).0, j * WIN + probe_offset(k).1)
}

/// The position of the lattice's point `n`: the corners come first, row by row,
/// then the probes, window by window.
pub open spec fn lattice_position(wx: int, wy: int, n: int) -> (int, int) {
    if n < n_corners(wx, wy) {
        corner_position(n % (wx + 1), n / (wx + 1))
    } else {
        let m = n - n_corners(wx, wy);
        probe_position((m / 5) % wx, (m / 5) / wx, m % 5)
    }
}

/// The place in the lattice of corner `(i, j)`.
pub open spec fn corner_index(wx: int, i: int, j: int) -> int {
    j * (wx + 1) + i
}

/// The place in the lattice of probe `k` of window `(i, j)`.
pub open spec fn probe_index(wx: int, wy: int, i: int, j: int, k: int) -> int {
    n_corners(wx, wy) + 5 * (j * wx + i) + k
}

/// The number of windows that cover `n` grid points.
pub fn count_windows(n: usize) -> (r: usize)
    ensures
        r == windows_over(n as int),
{
    if n == 0 {
        1
    } else {
        (n - 1) / WIN + 1
    }
}

/// A position as a pair of integers.
pub open spec fn as_position(p: (usize, usize)) -> (int, int) {
    (p.0 as int, p.1 as int)
}

proof fn lemma_corner_index(wx: int, wy: int, i: int, j: int)
    requires
        0 <= i <= wx,
        0 <= j <= wy,
    ensures
        0 <= corner_index(wx, i, j) < n_corners(wx, wy),
        corner_index(wx, i, j) / (wx + 1) == j,
        corner_index(wx, i, j) % (wx + 1) == i,
{
    lemma_fundamental_div_mod_converse(corner_index(wx, i, j), wx + 1, j, i);
    assert(j * (wx + 1) <= wy * (wx + 1)) by (nonlinear_arith)
        requires
            j <= wy,
            0 <= wx,
    ;
    assert(0 <= j * (wx + 1)) by (nonlinear_arith)
        requires
            0 <= j,
            0 <= wx,
    ;
    assert((wx + 1) * (wy + 1) == wy * (wx + 1) + (wx + 1)) by (nonlinear_arith);
}

proof fn lemma_probe_index(wx: int, wy: int, i: int, j: int, k: int)
    requires
        0 <= i < wx,
        0 <= j < wy,
        0 <= k < 5,
    ensures
        n_corners(wx, wy) <= probe_index(wx, wy, i, j, k) < lattice_len(wx, wy),
        (probe_index(wx, wy, i, j, k) - n_corners(wx, wy)) % 5 == k,
        ((probe_index(wx, wy, i, j, k) - n_corners(wx, wy)) / 5) % wx == i,
        ((probe_index(wx, wy, i, j, k) - n_corners(wx, wy)) / 5) / wx == j,
{
    lemma_fundamental_div_mod_converse(j * wx + i, wx, j, i);
    assert(j * wx <= (wy - 1) * wx) by (nonlinear_arith)
        requires
            j <= wy - 1,
            0 <= wx,
    ;
    assert(0 <= j * wx) by (nonlinear_arith)
        requires
            0 <= j,
            0 <= wx,
    ;
    assert((wy - 1) * wx == wx * wy - wx) by (nonlinear_arith);
}

/// The lattice of `wx` by `wy` windows can be listed.
pub open spec fn listable(wx: int, wy: int) -> bool {
    &&& wx * WIN <= usize::MAX
    &&& wy * WIN <= usize::MAX
    &&& lattice_len(wx, wy) <= usize::MAX
}

/// Whether the lattice over `nx` by `ny` grid points can be listed.
pub fn lattice_fits(nx: usize, ny: usize) -> (r: bool)
    ensures
        r == listable(windows_over(nx as int), windows_over(ny as int)),
{
    let wx: u128 = count_windows(nx) as u128;
    let wy: u128 = count_windows(ny) as u128;
    let most: u128 = usize::MAX as u128;
    if wx * 16 > most || wy * 16 > most {
        return false;
    }
    assert(0 <= wx * wy <= 0x1000_0000_0000_0000 * 0x1000_0000_0000_0000) by (nonlinear_arith)
        requires
            0 <= wx <= 0x1000_0000_0000_0000,
            0 <= wy <= 0x1000_0000_0000_0000,
    ;
    assert((wx + 1) * (wy + 1) == wx * wy + wx + wy + 1) by (nonlinear_arith);
    (wx + 1) * (wy + 1) + 5 * (wx * wy) <= most
}

/// The positions of a lattice, in its order.
pub fn lattice(wx: usize, wy: usize) -> (r: Vec<(usize, usize)>)
    requires
        0 < wx,
        0 < wy,
        listable(wx as int, wy as int),
    ensures
        r@.len() == lattice_len(wx as int, wy as int),
        forall|n: int|
            0 <= n < r@.len() ==> as_position(#[trigger] r@[n]) == lattice_position(
                wx as int,
                wy as int,
                n,
            ),
{
    let mut out: Vec<(usize, usize)> = Vec::new();
    let ghost (x, y) = (wx as int, wy as int);
    assert(0 * (x + 1) == 0) by (nonlinear_arith);
    let mut j: usize = 0;
    while j <= wy
        invariant
            x == wx,
            y == wy,
            0 < wx,
            0 < wy,
            wx * WIN <= usize::MAX,
            wy * WIN <= usize::MAX,
            wy < usize::MAX,
            wx < usize::MAX,
            j <= wy + 1,
            out@.len() == j * (x + 1),
            forall|n: int|
                0 <= n < out@.len() ==> as_position(#[trigger] out@[n]) == lattice_position(
                    x,
                    y,
                    n,
                ),
        decreases wy + 1 - j,
    {
        let mut i: usize = 0;
        while i <= wx
            invariant
                x == wx,
                y == wy,
                0 < wx,
                0 < wy,
                wx * WIN <= usize::MAX,
                wy * WIN <= usize::MAX,
                wx < usize::MAX,
                j <= wy,
                i <= wx + 1,
                out@.len() == j * (x + 1) + i,
                forall|n: int|
                    0 <= n < out@.len() ==> as_position(#[trigger] out@[n]) == lattice_position(
                        x,
                        y,
                        n,
                    ),
            decreases wx + 1 - i,
        {
            proof {
                lemma_corner_index(x, y, i as int, j as int);
            }
            out.push((i * WIN, j * WIN));
            i = i + 1;
        }
        assert((j + 1) * (x + 1) == j * (x + 1) + (x + 1)) by (nonlinear_arith);
        j = j + 1;
    }
    assert(out@.len() == n_corners(x, y)) by {
        assert((y + 1) * (x + 1) == (x + 1) * (y + 1)) by (nonlinear_arith);
    }
    assert(0 * x == 0) by (nonlinear_arith);
    for j in 0..wy
        invariant
            x == wx,
            y == wy,
            0 < wx,
            0 < wy,
            wx * WIN <= usize::MAX,
            wy * WIN <= usize::MAX,
            out@.len() == n_corners(x, y) + 5 * (j * x),
            forall|n: int|
                0 <= n < out@.len() ==> as_position(#[trigger] out@[n]) == lattice_position(
                    x,
                    y,
                    n,
                ),
    {
        for i in 0..wx
            invariant
                x == wx,
                y == wy,
                0 < wx,
                0 < wy,
                wx * WIN <= usize::MAX,
                wy * WIN <= usize::MAX,
                j < wy,
                out@.len() == n_corners(x, y) + 5 * (j * x + i),
                forall|n: int|
                    0 <= n < out@.len() ==> as_position(#[trigger] out@[n]) == lattice_position(
                        x,
                        y,
                        n,
                    ),
        {
            let x0: usize = i * WIN;
            let y0: usize = j * WIN;
            proof {
                lemma_probe_index(x, y, i as int, j as int, 0);
                lemma_probe_index(x, y, i as int, j as int, 1);
                lemma_probe_index(x, y, i as int, j as int, 2);
                lemma_probe_index(x, y, i as int, j as int, 3);
                lemma_probe_index(x, y, i as int, j as int, 4);
            }
            let ghost base = out@.len();
            out.push((x0 + HALF_WIN, y0 + HALF_WIN));
            out.push((x0 + HALF_WIN, y0));
            out.push((x0 + HALF_WIN, y0 + WIN));
            out.push((x0, y0 + HALF_WIN));
            out.push((x0 + WIN, y0 + HALF_WIN));
            proof {
                assert forall|n: int| 0 <= n < out@.len() implies as_position(#[trigger] out@[n])
                    == lattice_position(x, y, n) by {
                    if n >= base {
                        let k = n - base;
                        assert(n == probe_index(x, y, i as int, j as int, k));
                    }
                }
            }
        }
        assert((j + 1) * x == j * x + x) by (nonlinear_arith);
    }
    assert(y * x == x * y) by (nonlinear_arith);
    out
}

/// Every corner and every probe of a window stands in the lattice at its place.
pub proof fn windows_find_their_points(wx: int, wy: int, i: int, j: int, k: int)
    requires
        0 <= i < wx,
        0 <= j < wy,
        0 <= k < 5,
    ensures
        lattice_position(wx, wy, corner_index(wx, i, j)) == corner_position(i, j),
        lattice_position(wx, wy, corner_index(wx, i + 1, j)) == corner_position(i + 1, j),
        lattice_position(wx, wy, corner_index(wx, i, j + 1)) == corner_position(i, j + 1),
        lattice_position(wx, wy, corner_index(wx, i + 1, j + 1)) == corner_position(i + 1, j + 1),
        lattice_position(wx, wy, probe_index(wx, wy, i, j, k)) == probe_position(i, j, k),
{
    lemma_corner_index(wx, wy, i, j);
    lemma_corner_index(wx, wy, i + 1, j);
    lemma_corner_index(wx, wy, i, j + 1);
    lemma_corner_index(wx, wy, i + 1, j + 1);
    lemma_probe_index(wx, wy, i, j, k);
}

// ---------------------------------------------------------------------------
// windows

/// The points of the face's plane between which a window interpolates.
pub struct WindowFaces {
    pub origin: u8,
    pub corners: Vec<Face>,
    pub probes: Vec<Face>,
}

/// A window as a value of specifications.
#[verifier::ext_equal]
pub struct WindowModel {
    pub origin: u8,
    pub corners: Seq<Face>,
    pub probes: Seq<Face>,
}

impl View for WindowFaces {
    type V = WindowModel;

    open spec fn view(&self) -> WindowModel {
        WindowModel { origin: self.origin, corners: self.corners@, probes: self.probes@ }
    }
}

/// All of these points were projected.
pub open spec fn all_there(points: Seq<Option<Spherical>>) -> bool {
    forall|k: int| 0 <= k < points.len() ==> (#[trigger] points[k]) is Some
}

/// The point has a place in the plane of this face.
pub open spec fn on_face(point: Option<Spherical>, origin: u8) -> bool {
    point matches Some(p) && projected(p, origin) is Some
}

/// The point is nearest to this face.
pub open spec fn is_nearest(point: Option<Spherical>, origin: u8) -> bool {
    point matches Some(p) && nearest_face(p) == origin
}

/// All of these points have a place in the plane of this face.
pub open spec fn all_on_face(points: Seq<Option<Spherical>>, origin: u8) -> bool {
    forall|k: int|
        0 <= k < points.len() ==> on_face(#[trigger] points[k], origin)
}

/// All of these points are nearest to this face.
pub open spec fn all_nearest(points: Seq<Option<Spherical>>, origin: u8) -> bool {
    forall|k: int|
        0 <= k < points.len() ==> is_nearest(#[trigger] points[k], origin)
}

/// The places of these points in the plane of this face.
pub open spec fn places(points: Seq<Option<Spherical>>, origin: u8) -> Seq<Face> {
    Seq::new(points.len(), |k: int| projected(points[k]->0, origin)->0)
}

/// What a window interpolates between, from the points at its corners and
/// probes. It is exact-only where longitude breaks inside it (its corners straddle
/// the antimeridian, or it reaches within a degree of a pole), where a point did
/// not project, where a corner is nearest to another face than the centre, or
/// where a point has no place in the plane of that face.
pub open spec fn window_of(
    corners: Seq<Option<Spherical>>,
    probes: Seq<Option<Spherical>>,
    breaks: bool,
) -> Option<WindowModel> {
    let origin = nearest_face(probes[0]->0);
    if !breaks && all_there(corners) && all_there(probes) && all_nearest(corners, origin) && all_on_face(
        corners,
        origin,
    ) && all_on_face(probes, origin) {
        Some(
            WindowModel {
                origin,
                corners: places(corners, origin),
                probes: places(probes, origin),
            },
        )
    } else {
        None
    }
}

/// The model of a window or of its absence.
pub open spec fn window_model(w: Option<WindowFaces>) -> Option<WindowModel> {
    match w {
        None => None,
        Some(v) => Some(v@),
    }
}

fn are_all_there(points: &Vec<Option<Spherical>>) -> (r: bool)
    ensures
        r == all_there(points@),
{
    let mut k: usize = 0;
    while k < points.len()
        invariant
            k <= points@.len(),
            forall|j: int| 0 <= j < k ==> (#[trigger] points@[j]) is Some,
        decreases points@.len() - k,
    {
        if points[k].is_none() {
            assert(points@[k as int] is None);
            return false;
        }
        k = k + 1;
    }
    true
}

fn are_all_nearest(points: &Vec<Option<Spherical>>, origin: u8) -> (r: bool)
    ensures
        r == all_nearest(points@, origin),
{
    let mut k: usize = 0;
    while k < points.len()
        invariant
            k <= points@.len(),
            forall|j: int|
                0 <= j < k ==> is_nearest(#[trigger] points@[j], origin),
        decreases points@.len() - k,
    {
        let nearest: bool = match points[k] {
            None => false,
            Some(p) => nearest_origin(p) == origin,
        };
        if !nearest {
            assert(!is_nearest(points@[k as int], origin));
            return false;
        }
        k = k + 1;
    }
    true
}

fn project_all(points: &Vec<Option<Spherical>>, origin: u8) -> (r: Option<Vec<Face>>)
    ensures
        match r {
            Some(v) => all_on_face(points@, origin) && v@ == places(points@, origin),
            None => !all_on_face(points@, origin),
        },
{
    let mut out: Vec<Face> = Vec::new();
    let mut k: usize = 0;
    while k < points.len()
        invariant
            k <= points@.len(),
            out@.len() == k,
            forall|j: int|
                0 <= j < k ==> on_face(#[trigger] points@[j], origin),
            forall|j: int| 0 <= j < k ==> #[trigger] out@[j] == projected(points@[j]->0, origin)->0,
        decreases points@.len() - k,
    {
        let f: Option<Face> = match points[k] {
            None => None,
            Some(p) => project_point(p, origin),
        };
        match f {
            None => {
                assert(!on_face(points@[k as int], origin));
                return None;
            },
            Some(f) => {
                out.push(f);
            },
        }
        k = k + 1;
    }
    assert(out@ =~= places(points@, origin));
    Some(out)
}

/// What a window interpolates between; none where it is exact-only. `breaks` says
/// that longitude breaks inside it.
pub fn build_window(
    corners: &Vec<Option<Spherical>>,
    probes: &Vec<Option<Spherical>>,
    breaks: bool,
) -> (r: Option<WindowFaces>)
    requires
        corners@.len() == 4,
        probes@.len() == 5,
    ensures
        window_model(r) == window_of(corners@, probes@, breaks),
        breaks ==> r is None,
{
    if breaks || !are_all_there(corners) || !are_all_there(probes) {
        return None;
    }
    assert(probes@[0] is Some);
    let origin: u8 = match probes[0] {
        None => 0,
        Some(p) => nearest_origin(p),
    };
    if !are_all_nearest(corners, origin) {
        return None;
    }
    let c = project_all(corners, origin)?;
    let p = project_all(probes, origin)?;
    Some(WindowFaces { origin, corners: c, probes: p })
}

/// The points at the corners of window `(i, j)`.
pub open spec fn corner_points(samples: Seq<Option<Spherical>>, wx: int, i: int, j: int) -> Seq<
    Option<Spherical>,
> {
    seq![
        samples[corner_index(wx, i, j)],
        samples[corner_index(wx, i + 1, j)],
        samples[corner_index(wx, i, j + 1)],
        samples[corner_index(wx, i + 1, j + 1)],
    ]
}

/// The points at the probes of window `(i, j)`.
pub open spec fn probe_points(
    samples: Seq<Option<Spherical>>,
    wx: int,
    wy: int,
    i: int,
    j: int,
) -> Seq<Option<Spherical>> {
    Seq::new(5, |k: int| samples[probe_index(wx, wy, i, j, k)])
}

/// What window `(i, j)` of `wx` by `wy` interpolates between.
pub open spec fn window_at(
    samples: Seq<Option<Spherical>>,
    breaks: Seq<bool>,
    wx: int,
    wy: int,
    i: int,
    j: int,
) -> Option<WindowModel> {
    window_of(
        corner_points(samples, wx, i, j),
        probe_points(samples, wx, wy, i, j),
        breaks[j * wx + i],
    )
}

/// The windows of a stripe, row by row.
pub struct GridWindows {
    pub nx: usize,
    pub ny: usize,
    /// Windows across and down.
    pub wx: usize,
    pub wy: usize,
    pub wins: Vec<Option<WindowFaces>>,
}

impl GridWindows {
    /// The windows cover the grid points.
    pub open spec fn wf(&self) -> bool {
        &&& self.wx == windows_over(self.nx as int)
        &&& self.wy == windows_over(self.ny as int)
        &&& self.wins@.len() == self.wx * self.wy
    }

    /// Window `(i, j)`.
    pub open spec fn window(&self, i: int, j: int) -> Option<WindowModel> {
        window_model(self.wins@[j * self.wx + i])
    }

    /// The windows of `nx` by `ny` grid points, from the exact positions of the
    /// lattice's points; a point that did not project has none. `breaks` says
    /// window by window, row by row, whether longitude breaks inside it: its
    /// corners straddle the antimeridian, or it reaches within a degree of a pole.
    pub fn new(
        samples: &Vec<Option<Spherical>>,
        breaks: &Vec<bool>,
        nx: usize,
        ny: usize,
    ) -> (r: GridWindows)
        requires
            samples@.len() == lattice_len(windows_over(nx as int), windows_over(ny as int)),
            breaks@.len() == windows_over(nx as int) * windows_over(ny as int),
        ensures
            r.wf(),
            r.nx == nx,
            r.ny == ny,
            forall|i: int, j: int|
                0 <= i < r.wx && 0 <= j < r.wy ==> #[trigger] r.window(i, j) == window_at(
                    samples@,
                    breaks@,
                    r.wx as int,
                    r.wy as int,
                    i,
                    j,
                ),
    {
        let wx: usize = count_windows(nx);
        let wy: usize = count_windows(ny);
        let ghost (x, y) = (wx as int, wy as int);
        assert(samples.len() <= usize::MAX);
        proof {
            lemma_corner_index(x, y, x, y);
        }
        assert(x * y >= 0 && (x + 1) * (y + 1) == x * y + x + y + 1) by (nonlinear_arith)
            requires
                x >= 0,
                y >= 0,
        ;
        let nc: usize = (wx + 1) * (wy + 1);
        let mut wins: Vec<Option<WindowFaces>> = Vec::new();
        assert(0 * x == 0) by (nonlinear_arith);
        for j in 0..wy
            invariant
                x == wx,
                y == wy,
                0 < wx,
                0 < wy,
                nc == n_corners(x, y),
                samples@.len() == lattice_len(x, y),
                breaks@.len() == x * y,
                wins@.len() == j * x,
                forall|a: int, b: int|
                    0 <= a < x && 0 <= b < j ==> window_model(#[trigger] wins@[b * x + a])
                        == window_at(samples@, breaks@, x, y, a, b),
        {
            for i in 0..wx
                invariant
                    x == wx,
                    y == wy,
                    0 < wx,
                    0 < wy,
                    j < wy,
                    nc == n_corners(x, y),
                    samples@.len() == lattice_len(x, y),
                    breaks@.len() == x * y,
                    wins@.len() == j * x + i,
                    forall|a: int, b: int|
                        0 <= a < x && 0 <= b && (b < j || (b == j && a < i)) ==> window_model(
                            #[trigger] wins@[b * x + a],
                        ) == window_at(samples@, breaks@, x, y, a, b),
            {
                assert(samples.len() <= usize::MAX);
                proof {
                    lemma_corner_index(x, y, i as int, j as int);
                    lemma_corner_index(x, y, i + 1, j as int);
                    lemma_corner_index(x, y, i as int, j + 1);
                    lemma_corner_index(x, y, i + 1, j + 1);
                    lemma_probe_index(x, y, i as int, j as int, 0);
                    lemma_probe_index(x, y, i as int, j as int, 4);
                    assert(j * x >= 0) by (nonlinear_arith)
                        requires
                            j >= 0,
                            x >= 0,
                    ;
                    assert((j + 1) * (x + 1) == j * (x + 1) + x + 1) by (nonlinear_arith);
                    assert(j * (x + 1) == j * x + j) by (nonlinear_arith);
                    assert(x * y >= 0) by (nonlinear_arith)
                        requires
                            y >= 0,
                            x >= 0,
                    ;
                }
                let upper: usize = j * (wx + 1) + i;
                let lower: usize = (j + 1) * (wx + 1) + i;
                let base: usize = nc + 5 * (j * wx + i);
                let corners: Vec<Option<Spherical>> = vec![
                    samples[upper],
                    samples[upper + 1],
                    samples[lower],
                    samples[lower + 1],
                ];
                let probes: Vec<Option<Spherical>> = vec![
                    samples[base],
                    samples[base + 1],
                    samples[base + 2],
                    samples[base + 3],
                    samples[base + 4],
                ];
                assert(corners@ =~= corner_points(samples@, x, i as int, j as int));
                assert(probes@ =~= probe_points(samples@, x, y, i as int, j as int));
                let ghost before = wins@;
                proof {
                    lemma_earlier(x, i as int, j as int, 0, y);
                    assert(y * x == x * y) by (nonlinear_arith);
                }
                let w = build_window(&corners, &probes, breaks[j * wx + i]);
                wins.push(w);
                proof {
                    assert forall|a: int, b: int|
                        0 <= a < x && 0 <= b && (b < j || (b == j && a < i + 1)) implies window_model(
                        #[trigger] wins@[b * x + a],
                    ) == window_at(samples@, breaks@, x, y, a, b) by {
                        if b < j || a < i {
                            lemma_earlier(x, a, b, i as int, j as int);
                            assert(wins@[b * x + a] == before[b * x + a]);
                        }
                    }
                }
            }
            assert((j + 1) * x == j * x + x) by (nonlinear_arith);
        }
        assert(y * x == x * y) by (nonlinear_arith);
        GridWindows { nx, ny, wx, wy, wins }
    }

    /// Windows that are all exact-only.
    pub fn exact_only(nx: usize, ny: usize) -> (r: GridWindows)
        requires
            windows_over(nx as int) * windows_over(ny as int) <= usize::MAX,
        ensures
            r.wf(),
            r.nx == nx,
            r.ny == ny,
            forall|i: int, j: int|
                0 <= i < r.wx && 0 <= j < r.wy ==> (#[trigger] r.window(i, j)) is None,
    {
        let wx: usize = count_windows(nx);
        let wy: usize = count_windows(ny);
        let n: usize = wx * wy;
        let mut wins: Vec<Option<WindowFaces>> = Vec::new();
        for k in 0..n
            invariant
                wins@.len() == k,
                forall|m: int| 0 <= m < k ==> (#[trigger] wins@[m]) is None,
        {
            wins.push(None);
        }
        let r = GridWindows { nx, ny, wx, wy, wins };
        proof {
            assert forall|i: int, j: int| 0 <= i < r.wx && 0 <= j < r.wy implies (#[trigger] r.window(
                i,
                j,
            )) is None by {
                lemma_earlier(wx as int, i, j, 0, wy as int);
                assert(wy * wx == wx * wy) by (nonlinear_arith);
            }
        }
        r
    }

    /// The window of grid point `(i, j)` and its place in it; none where the
    /// point is to be projected by itself.
    pub fn point(&self, i: usize, j: usize) -> (r: Option<(usize, usize, usize)>)
        requires
            self.wf(),
            i < self.nx,
            j < self.ny,
        ensures
            match r {
                Some((w, u, v)) => {
                    &&& w == (j as int / WIN as int) * self.wx + i as int / WIN as int
                    &&& w < self.wins@.len()
                    &&& self.window(i as int / WIN as int, j as int / WIN as int) is Some
                    &&& u == i as int % WIN as int
                    &&& v == j as int % WIN as int
                },
                None => self.window(i as int / WIN as int, j as int / WIN as int) is None,
            },
    {
        let wi: usize = i / WIN;
        let wj: usize = j / WIN;
        proof {
            lemma_earlier(self.wx as int, wi as int, wj as int, 0, self.wy as int);
            assert(self.wy * self.wx == self.wx * self.wy) by (nonlinear_arith);
            assert(wj * self.wx >= 0) by (nonlinear_arith)
                requires
                    wj >= 0,
                    self.wx >= 0,
            ;
        }
        assert(self.wins.len() <= usize::MAX);
        let w: usize = wj * self.wx + wi;
        if self.wins[w].is_none() {
            return None;
        }
        Some((w, i % WIN, j % WIN))
    }

    /// The number of exact-only windows among the first `n`.
    pub open spec fn exact_among(&self, n: int) -> int
        decreases n,
    {
        if n <= 0 {
            0
        } else {
            self.exact_among(n - 1) + if self.wins@[n - 1] is None {
                1int
            } else {
                0
            }
        }
    }

    /// The number of exact-only windows.
    pub fn n_exact_only(&self) -> (r: usize)
        ensures
            r == self.exact_among(self.wins@.len() as int),
    {
        let mut n: usize = 0;
        for k in 0..self.wins.len()
            invariant
                n == self.exact_among(k as int),
                n <= k,
        {
            if self.wins[k].is_none() {
                n = n + 1;
            }
        }
        n
    }

    /// The number of windows.
    pub fn n_windows(&self) -> (r: usize)
        requires
            self.wf(),
        ensures
            r == windows_over(self.nx as int) * windows_over(self.ny as int),
    {
        self.wins.len()
    }
}

proof fn lemma_earlier(x: int, a: int, b: int, i: int, j: int)
    requires
        0 <= a < x,
        0 <= b,
        0 <= i,
        b < j || (b == j && a < i),
    ensures
        0 <= b * x + a < j * x + i,
{
    assert(0 <= b * x) by (nonlinear_arith)
        requires
            0 <= b,
            0 <= x,
    ;
    if b < j {
        assert((b + 1) * x <= j * x) by (nonlinear_arith)
            requires
                b + 1 <= j,
                0 <= x,
        ;
        assert((b + 1) * x == b * x + x) by (nonlinear_arith);
    }
}

/// A grid point lies in its window, and the window exists.
pub proof fn point_lies_in_its_window(n: int, i: int)
    requires
        0 <= i < n,
    ensures
        0 <= i / (WIN as int) < windows_over(n),
        corner_position(i / (WIN as int), 0).0 <= i < corner_position(i / (WIN as int) + 1, 0).0,
        i == corner_position(i / (WIN as int), 0).0 + i % (WIN as int),
{
}

/// A window is interpolated exactly where longitude does not break inside it, all nine
/// of its points project, the four corners are nearest to the face that its centre is
/// nearest to, and all nine have a place in the plane of that face; those places are
/// what it interpolates between.
pub proof fn windows_interpolate_on_one_face(
    corners: Seq<Option<Spherical>>,
    probes: Seq<Option<Spherical>>,
    breaks: bool,
)
    requires
        corners.len() == 4,
        probes.len() == 5,
    ensures
        ({
            let face = nearest_face(probes[0]->Some_0);
            let w = window_of(corners, probes, breaks);
            &&& breaks ==> w is None
            &&& (exists|k: int| 0 <= k < 4 && #[trigger] corners[k] is None) ==> w is None
            &&& (exists|k: int| 0 <= k < 5 && #[trigger] probes[k] is None) ==> w is None
            &&& (exists|k: int|
                0 <= k < 4 && #[trigger] corners[k] is Some && nearest_face(corners[k]->Some_0)
                    != face) ==> w is None
            &&& (exists|k: int|
                0 <= k < 4 && #[trigger] corners[k] is Some && projected(corners[k]->Some_0, face)
                    is None) ==> w is None
            &&& (exists|k: int|
                0 <= k < 5 && #[trigger] probes[k] is Some && projected(probes[k]->Some_0, face)
                    is None) ==> w is None
            &&& !breaks && (forall|k: int|
                0 <= k < 4 ==> (#[trigger] corners[k] is Some && nearest_face(corners[k]->Some_0)
                    == face && projected(corners[k]->Some_0, face) is Some)) && (forall|k: int|
                0 <= k < 5 ==> (#[trigger] probes[k] is Some && projected(probes[k]->Some_0, face)
                    is Some)) ==> w is Some
            &&& w matches Some(m) ==> {
                &&& m.origin == face
                &&& m.corners.len() == 4 && m.probes.len() == 5
                &&& forall|k: int|
                    0 <= k < 4 ==> Some(#[trigger] m.corners[k]) == projected(
                        corners[k]->Some_0,
                        face,
                    )
                &&& forall|k: int|
                    0 <= k < 5 ==> Some(#[trigger] m.probes[k]) == projected(
                        probes[k]->Some_0,
                        face,
                    )
            }
        }),
{
    let face = nearest_face(probes[0]->Some_0);
    if exists|k: int|
        0 <= k < 4 && #[trigger] corners[k] is Some && nearest_face(corners[k]->Some_0) != face {
        let k = choose|k: int|
            0 <= k < 4 && #[trigger] corners[k] is Some && nearest_face(corners[k]->Some_0) != face;
        assert(!is_nearest(corners[k], face));
    }
    if exists|k: int|
        0 <= k < 4 && #[trigger] corners[k] is Some && projected(corners[k]->Some_0, face)
            is None {
        let k = choose|k: int|
            0 <= k < 4 && #[trigger] corners[k] is Some && projected(corners[k]->Some_0, face)
                is None;
        assert(!on_face(corners[k], face));
    }
    if exists|k: int|
        0 <= k < 5 && #[trigger] probes[k] is Some && projected(probes[k]->Some_0, face) is None {
        let k = choose|k: int|
            0 <= k < 5 && #[trigger] probes[k] is Some && projected(probes[k]->Some_0, face)
                is None;
        assert(!on_face(probes[k], face));
    }
    if window_of(corners, probes, breaks) is Some {
        let m = window_of(corners, probes, breaks)->Some_0;
        assert forall|k: int| 0 <= k < 4 implies Some(#[trigger] m.corners[k]) == projected(
            corners[k]->Some_0,
            face,
        ) by {
            assert(on_face(corners[k], face));
        }
        assert forall|k: int| 0 <= k < 5 implies Some(#[trigger] m.probes[k]) == projected(
            probes[k]->Some_0,
            face,
        ) by {
            assert(on_face(probes[k], face));
        }
    }
}

/// The lattice samples a window of 16 grid points at its corners, in its middle and in
/// the middle of its top, bottom, left and right edge, and as few windows are laid as
/// cover the points.
pub proof fn windows_are_sampled_at_nine_points(i: int, j: int, n: int)
    ensures
        corner_position(i, j) == (16 * i, 16 * j),
        probe_position(i, j, 0) == (16 * i + 8, 16 * j + 8),
        probe_position(i, j, 1) == (16 * i + 8, 16 * j),
        probe_position(i, j, 2) == (16 * i + 8, 16 * j + 16),
        probe_position(i, j, 3) == (16 * i, 16 * j + 8),
        probe_position(i, j, 4) == (16 * i + 16, 16 * j + 8),
        n > 0 ==> 16 * (windows_over(n) - 1) < n <= 16 * windows_over(n),
        n <= 0 ==> windows_over(n) == 1,
{
}

/// The corners of a window are those left and right of it in the lattice's row above and
/// the row below, and its probes are its own five.
pub proof fn windows_take_their_own_samples(
    samples: Seq<Option<Spherical>>,
    wx: int,
    wy: int,
    i: int,
    j: int,
    k: int,
)
    requires
        0 <= i < wx,
        0 <= j < wy,
        0 <= k < 5,
    ensures
        corner_points(samples, wx, i, j)[0] == samples[j * (wx + 1) + i],
        corner_points(samples, wx, i, j)[1] == samples[j * (wx + 1) + i + 1],
        corner_points(samples, wx, i, j)[2] == samples[(j + 1) * (wx + 1) + i],
        corner_points(samples, wx, i, j)[3] == samples[(j + 1) * (wx + 1) + i + 1],
        probe_points(samples, wx, wy, i, j)[k] == samples[(wx + 1) * (wy + 1) + 5 * (j * wx + i)
            + k],
{
}

/// A window with a break in it is not interpolated, whichever its neighbours are; one
/// without takes the corners and probes of its own place.
pub proof fn windows_break_by_themselves(
    samples: Seq<Option<Spherical>>,
    breaks: Seq<bool>,
    wx: int,
    wy: int,
    i: int,
    j: int,
)
    requires
        0 <= i < wx,
        0 <= j < wy,
    ensures
        breaks[j * wx + i] ==> window_at(samples, breaks, wx, wy, i, j) is None,
        !breaks[j * wx + i] ==> window_at(samples, breaks, wx, wy, i, j) == window_of(
            corner_points(samples, wx, i, j),
            probe_points(samples, wx, wy, i, j),
            false,
        ),
{
}

/// Windows that are not interpolated are counted, each once.
pub proof fn windows_that_are_not_interpolated_are_counted(g: GridWindows, n: int)
    requires
        0 <= n < g.wins@.len(),
    ensures
        g.exact_among(0) == 0,
        g.wins@[n] is None ==> g.exact_among(n + 1) == g.exact_among(n) + 1,
        g.wins@[n] is Some ==> g.exact_among(n + 1) == g.exact_among(n),
{
}

} // verus!
