//! The trusted boundary to the geometry libraries.
//!
//! A shape is a `geo::MultiPolygon` serialized by `bitcode`; a point is a
//! `geo::Coord` serialized the same way. Both travel through the library as
//! plain byte vectors, so every predicate below is a mathematical function
//! of byte sequences: `bitcode` deserialization is a deterministic function
//! of the bytes, and the `geo` and `geohash` operations are deterministic
//! functions of their arguments.
//!
//! Each executable function in this module is a trusted wrapper: its body
//! converts between the byte form and the library types and makes exactly
//! the calls its doc comment names; Verus believes its contract.
//!
//! A shape is admitted by `is_shape` only if, beyond deserializing, every
//! coordinate is finite and every ring is closed: `geo`'s relate machinery
//! aborts on NaN coordinates and asserts ring closure, so the one gate
//! everything passes through excludes the inputs on which the wrapped
//! calls would not return.

use vstd::prelude::*;
use crate::cells::valid_hash;

verus! {

/// The bytes are a well-formed serialized multi-polygon: deserializing
/// them as a `geo::MultiPolygon` succeeds, every coordinate is finite,
/// and every ring is closed.
pub uninterp spec fn is_shape(b: Seq<u8>) -> bool;

/// The bytes are a serialized coordinate: deserializing them as a
/// `geo::Coord` succeeds.
pub uninterp spec fn is_point(b: Seq<u8>) -> bool;

/// The serialized coordinate lies in the geohash domain: longitude in
/// [-180, 180] and latitude in [-90, 90].
pub uninterp spec fn point_in_bounds(b: Seq<u8>) -> bool;

/// The lon/lat rectangle of cell `hash` is fully contained in the shape.
pub uninterp spec fn cell_within_shape(shape: Seq<u8>, hash: Seq<u8>) -> bool;

/// The lon/lat rectangle of cell `hash` intersects the shape.
pub uninterp spec fn cell_meets_shape(shape: Seq<u8>, hash: Seq<u8>) -> bool;

/// The shape clipped to the rectangle of cell `hash`, serialized.
pub uninterp spec fn cell_clip(shape: Seq<u8>, hash: Seq<u8>) -> Seq<u8>;

/// The point lies strictly inside the shape.
pub uninterp spec fn point_in_shape(shape: Seq<u8>, point: Seq<u8>) -> bool;

/// The geohash of the point at depth `len`, as `len` alphabet bytes.
pub uninterp spec fn point_hash(point: Seq<u8>, len: int) -> Seq<u8>;

/// An interior candidate ring lies within the polygon bounded by an
/// exterior ring, both given as closed nanodegree coordinate rings.
pub uninterp spec fn ring_within(inner: Seq<(i64, i64)>, outer: Seq<(i64, i64)>) -> bool;

/// Relies on `bitcode::deserialize::<geo::MultiPolygon>`: whether the bytes
/// are a well-formed serialized multi-polygon — one that deserializes, with
/// every coordinate finite and every ring closed, the domain on which the
/// wrapped `geo` calls return.
#[verifier::external_body]
pub(crate) fn check_shape(b: &Vec<u8>) -> (r: bool)
    ensures
        r == is_shape(b@),
{
    let mp: geo::MultiPolygon = match bitcode::deserialize(b.as_slice()) {
        Ok(mp) => mp,
        Err(_) => return false,
    };
    let ring_ok = |ring: &geo::LineString| {
        ring.coords().all(|c| c.x.is_finite() && c.y.is_finite()) && ring.is_closed()
    };
    let ok = mp.iter().all(|p| ring_ok(p.exterior()) && p.interiors().iter().all(ring_ok));
    ok
}

/// Relies on `geohash::decode_bbox` for the cell rectangle (it accepts any
/// name of up to 12 alphabet bytes) and on `geo::Contains` of a
/// `geo::MultiPolygon` over a `geo::Rect` for full containment.
#[verifier::external_body]
pub(crate) fn shape_contains_cell(shape: &Vec<u8>, hash: &Vec<u8>) -> (r: bool)
    requires
        is_shape(shape@),
        valid_hash(hash@, 12),
    ensures
        r == cell_within_shape(shape@, hash@),
{
    let mp: geo::MultiPolygon = bitcode::deserialize(shape.as_slice()).unwrap();
    let rect = geohash::decode_bbox(std::str::from_utf8(hash.as_slice()).unwrap()).unwrap();
    geo::Contains::contains(&mp, &rect)
}

/// Relies on `geohash::decode_bbox` for the cell rectangle and on
/// `geo::Intersects` of a `geo::MultiPolygon` with a `geo::Rect`.
#[verifier::external_body]
pub(crate) fn shape_intersects_cell(shape: &Vec<u8>, hash: &Vec<u8>) -> (r: bool)
    requires
        is_shape(shape@),
        valid_hash(hash@, 12),
    ensures
        r == cell_meets_shape(shape@, hash@),
{
    let mp: geo::MultiPolygon = bitcode::deserialize(shape.as_slice()).unwrap();
    let rect = geohash::decode_bbox(std::str::from_utf8(hash.as_slice()).unwrap()).unwrap();
    geo::Intersects::intersects(&mp, &rect)
}

/// Relies on `geohash::decode_bbox` for the cell rectangle, on
/// `geo::BooleanOps::intersection` of the shape with the rectangle's
/// polygon, and on `bitcode::serialize` for the result. The result is a
/// shape again: serialization round-trips, the boolean operation builds
/// its result rings through `Polygon::new`, which closes them, and its
/// fixed-point arithmetic keeps finite input coordinates finite.
#[verifier::external_body]
pub(crate) fn clip_shape_to_cell(shape: &Vec<u8>, hash: &Vec<u8>) -> (r: Vec<u8>)
    requires
        is_shape(shape@),
        valid_hash(hash@, 12),
    ensures
        r@ == cell_clip(shape@, hash@),
        is_shape(r@),
{
    let mp: geo::MultiPolygon = bitcode::deserialize(shape.as_slice()).unwrap();
    let rect = geohash::decode_bbox(std::str::from_utf8(hash.as_slice()).unwrap()).unwrap();
    let cell = geo::MultiPolygon::new(vec![rect.to_polygon()]);
    let clipped = geo::BooleanOps::intersection(&mp, &cell);
    bitcode::serialize(&clipped).unwrap()
}

/// Relies on `geo::Contains` of a `geo::MultiPolygon` over a `geo::Coord`:
/// strict interior containment of the point. False whenever the shape
/// bytes are not a well-formed shape or the point bytes fail to
/// deserialize.
#[verifier::external_body]
pub(crate) fn shape_has_point(shape: &Vec<u8>, point: &Vec<u8>) -> (r: bool)
    ensures
        r == (is_shape(shape@) && is_point(point@) && point_in_shape(shape@, point@)),
{
    let mp: geo::MultiPolygon = match bitcode::deserialize(shape.as_slice()) {
        Ok(mp) => mp,
        Err(_) => return false,
    };
    let ring_ok = |ring: &geo::LineString| {
        ring.coords().all(|c| c.x.is_finite() && c.y.is_finite()) && ring.is_closed()
    };
    if !mp.iter().all(|p| ring_ok(p.exterior()) && p.interiors().iter().all(ring_ok)) {
        return false;
    }
    let c: geo::Coord = match bitcode::deserialize(point.as_slice()) {
        Ok(c) => c,
        Err(_) => return false,
    };
    geo::Contains::contains(&mp, &c)
}

/// Relies on `geohash::encode`: for a depth between 1 and 12 it returns the
/// point's geohash, `len` characters of the base32 alphabet, and fails
/// exactly on a coordinate outside the lon/lat domain.
#[verifier::external_body]
pub(crate) fn encode_point_hash(point: &Vec<u8>, len: usize) -> (r: Option<Vec<u8>>)
    requires
        1 <= len <= 12,
    ensures
        (r is Some) == (is_point(point@) && point_in_bounds(point@)),
        r matches Some(h) ==> h@ == point_hash(point@, len as int),
        r matches Some(h) ==> h@.len() == len,
        r matches Some(h) ==> valid_hash(h@, len as int),
{
    let c: geo::Coord = match bitcode::deserialize(point.as_slice()) {
        Ok(c) => c,
        Err(_) => return None,
    };
    match geohash::encode(c, len) {
        Ok(h) => Some(h.into_bytes()),
        Err(_) => None,
    }
}

/// Relies on `geo::Within` of one hole-free `geo::Polygon` in another, the
/// rings taken at nanodegree scale (containment is invariant under the
/// uniform change of scale).
#[verifier::external_body]
pub(crate) fn ring_is_within(inner: &Vec<(i64, i64)>, outer: &Vec<(i64, i64)>) -> (r: bool)
    ensures
        r == ring_within(inner@, outer@),
{
    let poly = |ring: &Vec<(i64, i64)>| -> geo::Polygon {
        let coords: Vec<geo::Coord> =
            ring.iter().map(|p| geo::Coord { x: p.0 as _, y: p.1 as _ }).collect();
        geo::Polygon::new(geo::LineString::new(coords), vec![])
    };
    geo::Within::is_within(&poly(inner), &poly(outer))
}

} // verus!
