//! Hierarchical spherical cells: every location, bucket and file is keyed by a
//! 64-bit cell id of the s2 cell hierarchy.

use vstd::prelude::*;
use s2::cellid::CellID;
use s2::latlng::LatLng;
use s2::point::Point;
use s2::s1::angle::{Angle, E7};

verus! {

/// The deepest level of the cell hierarchy.
pub const MAX_LEVEL: u8 = 30;

/// Ids below this bound lie on one of the six cube faces.
pub const FACE_LIMIT: u64 = 0xC000_0000_0000_0000;

/// The id lies on one of the six cube faces.
pub open spec fn on_face(id: u64) -> bool {
    id < FACE_LIMIT
}

/// The id names a cell of the deepest level.
pub open spec fn is_leaf_cell(id: u64) -> bool {
    on_face(id) && id % 2 == 1
}

/// The lowest set bit of every cell id at `level`.
pub open spec fn level_bit(level: u8) -> u64 {
    1u64 << ((60 - 2 * level) as u64)
}

/// The ancestor at `level`: the bits above the level's lowest bit are kept, that
/// bit is set and the bits below it are cleared.
pub open spec fn parent_of(id: u64, level: u8) -> u64 {
    (id & !((level_bit(level) - 1) as u64)) | level_bit(level)
}

/// The leaf cell that holds a point given in 1e-7 degrees.
pub uninterp spec fn leaf_at(lat_e7: i32, lng_e7: i32) -> u64;

/// The great-circle angle between two points given in 1e-7 degrees, rounded to
/// 1e-7 degrees.
pub uninterp spec fn arc_e7(lat1_e7: i32, lng1_e7: i32, lat2_e7: i32, lng2_e7: i32) -> i32;

/// The angle between the centers of two cells, as the bit pattern of its value
/// in radians.
pub uninterp spec fn center_gap(a: u64, b: u64) -> u64;

/// Relies on s2's `CellID::parent`: with `lsb` the level's lowest bit it returns
/// `(id & -lsb) | lsb`, which keeps the bits above `lsb` and sets `lsb`.
#[verifier::external_body]
pub(crate) fn cell_parent(id: u64, level: u8) -> (r: u64)
    requires
        level <= MAX_LEVEL,
    ensures
        r == parent_of(id, level),
{
    CellID(id).parent(level as u64).0
}

/// Relies on s2's `CellID::from(LatLng)`: the leaf cell holding the point; the id
/// it builds (`n * 2 + 1` over a face below six) is a leaf on one of the faces.
#[verifier::external_body]
pub(crate) fn leaf_cell(lat_e7: i32, lng_e7: i32) -> (r: u64)
    ensures
        r == leaf_at(lat_e7, lng_e7),
        is_leaf_cell(r),
{
    CellID::from(LatLng::new(Angle::from(E7(lat_e7)), Angle::from(E7(lng_e7)))).0
}

/// Relies on s2's `LatLng::distance`, rounded by `E7::from`: the distance is
/// `2 * atan2(..)` of two non-negative square roots, so it is never negative.
#[verifier::external_body]
pub(crate) fn arc_between(lat1_e7: i32, lng1_e7: i32, lat2_e7: i32, lng2_e7: i32) -> (r: i32)
    ensures
        r == arc_e7(lat1_e7, lng1_e7, lat2_e7, lng2_e7),
        r >= 0,
{
    let a = LatLng::new(Angle::from(E7(lat1_e7)), Angle::from(E7(lng1_e7)));
    let b = LatLng::new(Angle::from(E7(lat2_e7)), Angle::from(E7(lng2_e7)));
    E7::from(a.distance(&b)).0
}

/// Relies on s2's `Point::from(CellID)` (a cell's center) and `Point::distance`
/// (`atan2(|a x b|, a . b)`): a non-negative angle, whose f64 bit pattern orders
/// as the angles do. A center is at angle +0 from itself. Only leaf cells are
/// given: for them the center's coordinates stay within `i32`.
#[verifier::external_body]
pub(crate) fn center_gap_bits(a: u64, b: u64) -> (r: u64)
    requires
        is_leaf_cell(a),
        is_leaf_cell(b),
    ensures
        r == center_gap(a, b),
        a == b ==> r == 0,
{
    Point::from(CellID(a)).distance(&Point::from(CellID(b))).rad().to_bits()
}

/// Taking the ancestor at a coarser level of an ancestor is taking that coarser
/// ancestor directly.
pub proof fn lemma_parent_of_parent(id: u64, fine: u8, coarse: u8)
    requires
        coarse <= fine <= MAX_LEVEL,
    ensures
        parent_of(parent_of(id, fine), coarse) == parent_of(id, coarse),
{
    let sf: u64 = (60 - 2 * fine) as u64;
    let sc: u64 = (60 - 2 * coarse) as u64;
    assert(sf <= sc && sc <= 60);
    assert((((id & !(((1u64 << sf) - 1) as u64)) | (1u64 << sf)) & !(((1u64 << sc) - 1) as u64))
        | (1u64 << sc) == (id & !(((1u64 << sc) - 1) as u64)) | (1u64 << sc)) by (bit_vector)
        requires
            sf <= sc && sc <= 60,
    ;
}

} // verus!
