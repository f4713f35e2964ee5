//! The data model: relation members, ways, assembled ring geometry, index
//! contributions, stored values, and the pipeline configuration.
//!
//! Coordinates are carried as OSM raw nanodegrees: a pair `(lon, lat)` of
//! 64-bit integers, each one billionth of a degree. Tag keys, tag values,
//! indexed values and cell names are byte strings. A shape that has left the
//! ring-assembly stage travels as its serialized geometry (see
//! `crate::geoshape`).

use vstd::prelude::*;

verus! {

/// A member way of an OSM relation, tagged with its ring role.
#[derive(Debug, Clone)]
pub enum RelationMember {
    OuterMember(i64),
    InnerMember(i64),
}

impl RelationMember {
    /// The way id carried by the member, whatever its role.
    pub fn to_i64(&self) -> (id: i64)
        ensures
            id == self.spec_id(),
    {
        match self {
            RelationMember::OuterMember(id) => *id,
            RelationMember::InnerMember(id) => *id,
        }
    }

    /// The way id carried by the member.
    pub open spec fn spec_id(&self) -> i64 {
        match self {
            RelationMember::OuterMember(id) => *id,
            RelationMember::InnerMember(id) => *id,
        }
    }

    /// Whether the member plays the outer-ring role.
    pub open spec fn spec_is_outer(&self) -> bool {
        match self {
            RelationMember::OuterMember(_) => true,
            RelationMember::InnerMember(_) => false,
        }
    }
}

/// A selected OSM relation: its id, its member ways in order, and the
/// configured subset of its tags, already renamed.
#[derive(Debug, Clone)]
pub struct RelationWithMembers {
    pub id: i64,
    pub members: Vec<RelationMember>,
    pub tags: Vec<(Vec<u8>, Vec<u8>)>,
}

/// An OSM way: its id, its node ids in order, and the role it was referenced
/// with.
#[derive(Debug, Clone)]
pub struct Way {
    pub id: i64,
    pub node_ids: Vec<i64>,
    pub outer: bool,
}

/// One assembled polygon: a closed exterior ring and the closed interior
/// rings (holes) attached to it, as nanodegree coordinates.
#[derive(Debug, Clone)]
pub struct RingPolygon {
    pub exterior: Vec<(i64, i64)>,
    pub interiors: Vec<Vec<(i64, i64)>>,
}

/// A relation assembled into geometry: its id, its multi-polygon as a list
/// of ring polygons, and its tags.
#[derive(Debug, Clone)]
pub struct RelationWithLocations {
    pub id: i64,
    pub shape: Vec<RingPolygon>,
    pub tags: Vec<(Vec<u8>, Vec<u8>)>,
}

/// A feature entering the fill stage: its id, its attributes, and its
/// multi-polygon as serialized geometry (see `crate::geoshape`).
#[derive(Debug, Clone)]
pub struct Feature {
    pub id: Vec<u8>,
    pub properties: Vec<(Vec<u8>, Vec<u8>)>,
    pub shape: Vec<u8>,
}

/// One cell contribution of a polygon to the index.
#[derive(Debug, Clone)]
pub enum GeohashIndex {
    /// The cell `hash` is fully contained in the polygon whose indexed
    /// value is `value`.
    DirectValue { hash: Vec<u8>, value: Vec<u8> },
    /// At the maximum depth, the cell `hash` is only partially covered;
    /// `shape` is the serialized intersection of the polygon with the cell.
    PartialValue { hash: Vec<u8>, value: Vec<u8>, shape: Vec<u8> },
}

impl GeohashIndex {
    /// The cell name of the contribution.
    pub open spec fn spec_hash(&self) -> Seq<u8> {
        match self {
            GeohashIndex::DirectValue { hash, .. } => hash@,
            GeohashIndex::PartialValue { hash, .. } => hash@,
        }
    }

    /// Whether the contribution claims full containment.
    pub open spec fn spec_is_direct(&self) -> bool {
        match self {
            GeohashIndex::DirectValue { .. } => true,
            GeohashIndex::PartialValue { .. } => false,
        }
    }
}

/// A frontier cell of the refinement: the cell name and the polygon clipped
/// to the cell's ancestors, serialized.
#[derive(Debug, Clone)]
pub struct ShouldCheck {
    pub hash: Vec<u8>,
    pub area: Vec<u8>,
}

/// One competing option stored at a partially covered cell: the indexed
/// value and the serialized clipped shape of its polygon.
#[derive(Debug, Clone, PartialEq, Eq)]
pub struct UndecidedValue {
    pub value: Vec<u8>,
    pub shape: Vec<u8>,
}

/// The value persisted at a cell key.
#[derive(Debug, Clone, PartialEq, Eq)]
pub enum GeohashValue {
    /// The cell is fully inside the polygon whose value this is.
    DirectValue { value: Vec<u8> },
    /// Several polygons partially cover the cell; each keeps its clipped
    /// shape for point-in-polygon tie-breaking.
    Undecided { options: Vec<UndecidedValue> },
}

/// The pipeline configuration: which relations to select, which tags to
/// keep (and their new names), and which tag's value is indexed.
#[derive(Debug, Clone)]
pub struct TopodexConfig {
    /// A relation is selected when every filter matches one of its tags:
    /// by key alone when the value is `None`, else by key and value.
    pub filters: Vec<(Vec<u8>, Option<Vec<u8>>)>,
    /// Tags to carry over: `(source key, Some(new name))` renames,
    /// `(source key, None)` keeps the key.
    pub extract_properties: Vec<(Vec<u8>, Option<Vec<u8>>)>,
    /// The tag key whose value is indexed.
    pub process_property_name: Vec<u8>,
}

} // verus!
