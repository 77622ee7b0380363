//! What the library takes from the `a5` crate.

use vstd::prelude::*;

use a5::coordinate_systems::{Face, Spherical};
use a5::geometry::PentagonShape;

verus! {

/// `a5::coordinate_systems::Spherical`: a point in A5's spherical frame.
#[verifier::external_type_specification]
#[verifier::external_body]
pub struct ExSpherical(a5::coordinate_systems::Spherical);

/// `a5::coordinate_systems::Face`: a point in the plane of one origin's face.
#[verifier::external_type_specification]
#[verifier::external_body]
pub struct ExFace(a5::coordinate_systems::Face);

/// `a5::geometry::PentagonShape`: the outline of a cell in its origin's plane.
#[verifier::external_type_specification]
#[verifier::external_body]
pub struct ExPentagonShape(a5::geometry::PentagonShape);

/// The finest resolution of the grid.
pub const MAX_RESOLUTION: i32 = 30;

/// The number of faces that cells hang from.
pub const N_ORIGINS: u8 = 12;

/// The resolution that a cell id encodes.
pub uninterp spec fn resolution_of(cell: u64) -> i32;

/// `a5::get_resolution`: reads the resolution out of the id's bits, from -1
/// (the whole world, id 0) to 30.
#[verifier::external_body]
pub(crate) fn cell_resolution(cell: u64) -> (r: i32)
    ensures
        r == resolution_of(cell),
        -1 <= r <= MAX_RESOLUTION,
        cell == 0 ==> r == -1,
{
    a5::get_resolution(cell)
}

/// The cell stands for an area of `resolution`: it has that resolution, or is of
/// the next coarser one where the finest cannot be written. The ids of the finest
/// resolution have room for only part of the globe; elsewhere its cells are
/// written as their parents.
pub open spec fn at_level(cell: u64, resolution: i32) -> bool {
    ||| resolution_of(cell) == resolution
    ||| resolution == MAX_RESOLUTION && resolution_of(cell) == MAX_RESOLUTION - 1
}

/// Whether the cell stands for an area of `resolution`.
pub(crate) fn is_at_level(cell: u64, resolution: i32) -> (r: bool)
    ensures
        r == at_level(cell, resolution),
{
    let own: i32 = cell_resolution(cell);
    own == resolution || (resolution == MAX_RESOLUTION && own == MAX_RESOLUTION - 1)
}

/// The ancestor of a cell at a coarser resolution, if it has one.
pub uninterp spec fn ancestor(cell: u64, resolution: i32) -> Option<u64>;

/// `a5::cell_to_parent` with a resolution, which rewrites bits of the id. The
/// whole world is the ancestor of every cell at resolution -1, and there is
/// none at a resolution below that. At a resolution from -1 to the cell's own
/// there is one, and it has that resolution. The shift for resolution 30 is out of
/// range on some ids, so that resolution is left out.
#[verifier::external_body]
pub(crate) fn cell_ancestor(cell: u64, resolution: i32) -> (r: Option<u64>)
    requires
        resolution < MAX_RESOLUTION,
    ensures
        r == ancestor(cell, resolution),
        resolution == -1 ==> r == Some(0u64),
        resolution < -1 ==> r is None,
        resolution >= -1 && resolution_of(cell) >= resolution ==> r is Some,
        r matches Some(a) ==> resolution_of(cell) >= resolution ==> resolution_of(a) == resolution,
{
    a5::cell_to_parent(cell, Some(resolution)).ok()
}

/// A cell id taken apart.
#[derive(Clone, Copy)]
pub struct CellCode {
    pub origin: u8,
    pub segment: usize,
    pub s: u64,
    pub resolution: i32,
}

/// The parts of a cell id, if it encodes a cell.
pub uninterp spec fn decoded(cell: u64) -> Option<CellCode>;

/// `a5::core::serialization::deserialize`, which takes the id's bits apart;
/// ids that name no face are refused. The resolution is the one that
/// `get_resolution` reads.
#[verifier::external_body]
pub(crate) fn decode_cell(cell: u64) -> (r: Option<CellCode>)
    ensures
        r == decoded(cell),
        r matches Some(c) ==> c.origin < N_ORIGINS && c.resolution == resolution_of(cell),
        r matches Some(c) ==> -1 <= c.resolution <= MAX_RESOLUTION,
{
    let c = a5::core::serialization::deserialize(cell).ok()?;
    Some(CellCode { origin: c.origin_id, segment: c.segment, s: c.s, resolution: c.resolution })
}

/// The outline of a cell in the plane of its origin's face.
pub uninterp spec fn outline(code: CellCode) -> Option<PentagonShape>;

/// The outline runs counter-clockwise.
pub uninterp spec fn counter_clockwise(shape: PentagonShape) -> bool;

/// `a5::core::cell::get_pentagon`, which computes the outline from the decoded
/// cell. Every constructor and transform of the shape keeps it
/// counter-clockwise. The whole world has no outline and is left out.
#[verifier::external_body]
pub(crate) fn cell_outline(code: CellCode) -> (r: Option<PentagonShape>)
    requires
        code.origin < N_ORIGINS,
        0 <= code.resolution <= MAX_RESOLUTION,
        exists|cell: u64| decoded(cell) == Some(code),
    ensures
        r == outline(code),
        r matches Some(shape) ==> counter_clockwise(shape),
{
    a5::core::cell::get_pentagon(
        &a5::A5Cell {
            origin_id: code.origin,
            segment: code.segment,
            s: code.s,
            resolution: code.resolution,
        },
    ).ok()
}

/// A point projected into the plane of a face.
pub uninterp spec fn projected(p: Spherical, origin: u8) -> Option<Face>;

/// `DodecahedronProjection::forward`: projects a point into the plane of a
/// face. The thread-local state behind it only caches what it recomputes.
#[verifier::external_body]
pub(crate) fn project_point(p: Spherical, origin: u8) -> (r: Option<Face>)
    ensures
        r == projected(p, origin),
{
    a5::projections::dodecahedron::DodecahedronProjection::get_thread_local().forward(
        p,
        origin,
    ).ok()
}

/// The face whose axis is nearest to a point.
pub uninterp spec fn nearest_face(p: Spherical) -> u8;

/// `a5::core::origin::find_nearest_origin`: the first of the twelve faces whose
/// axis is at the least distance from a point.
#[verifier::external_body]
pub(crate) fn nearest_origin(p: Spherical) -> (r: u8)
    ensures
        r == nearest_face(p),
        r < N_ORIGINS,
{
    a5::core::origin::find_nearest_origin(p).id
}

/// A point of the plane lies inside an outline, its edges counted in.
pub uninterp spec fn inside(shape: PentagonShape, f: Face) -> bool;

/// `PentagonShape::contains_point`, which gives 1 inside and a negative number
/// outside, and panics on an outline that runs clockwise.
#[verifier::external_body]
pub(crate) fn shape_contains(shape: &PentagonShape, f: Face) -> (r: bool)
    requires
        counter_clockwise(*shape),
    ensures
        r == inside(*shape, f),
{
    shape.contains_point(f).is_sign_positive()
}

/// The cells that share an edge or a vertex with a cell, ascending.
pub uninterp spec fn neighbours_of(cell: u64) -> Seq<u64>;

/// `get_global_cell_neighbors` with vertex neighbours: a sorted list without
/// repeats, from lattice arithmetic on the decoded cell. The neighbours stand
/// for areas of the cell's own resolution. The whole world has no lattice
/// position and is left out.
#[verifier::external_body]
pub(crate) fn cell_neighbours(cell: u64) -> (r: Vec<u64>)
    requires
        resolution_of(cell) >= 0,
    ensures
        r@ == neighbours_of(cell),
        forall|n: u64| r@.contains(n) ==> at_level(n, resolution_of(cell)),
{
    a5::traversal::global_neighbors::get_global_cell_neighbors(cell, false)
}

/// A search for a point at a resolution can find this cell, or none.
pub uninterp spec fn search_gives(p: Spherical, resolution: i32, found: Option<u64>) -> bool;

/// `a5::core::cell::spherical_to_cell`: the cell that contains a point, by an
/// estimate and a search around it. On an edge the answer depends on the cell
/// of the call before, so it is one of those that the point and the resolution
/// can give, and nothing is said of which. A cell that it finds stands for an
/// area of the resolution; at resolution -1 it is the whole world.
#[verifier::external_body]
pub(crate) fn search_cell(p: Spherical, resolution: i32) -> (r: Option<u64>)
    requires
        -1 <= resolution <= MAX_RESOLUTION,
    ensures
        search_gives(p, resolution, r),
        resolution == -1 ==> r == Some(0u64),
        r matches Some(c) ==> at_level(c, resolution),
{
    a5::core::cell::spherical_to_cell(p, resolution).ok()
}

/// A cell stands for an area of its own resolution and, where it is of resolution 29,
/// of resolution 30; of no other.
pub proof fn cells_stand_for_their_own_resolution(cell: u64, resolution: i32)
    ensures
        at_level(cell, resolution_of(cell)),
        resolution_of(cell) == 29 ==> at_level(cell, 30),
        at_level(cell, resolution) && resolution != 30 ==> resolution_of(cell) == resolution,
        at_level(cell, 30) ==> resolution_of(cell) == 29 || resolution_of(cell) == 30,
{
}

} // verus!
