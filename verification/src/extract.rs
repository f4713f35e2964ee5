//! The extractor: from raw relation, way and node records to assembled
//! multi-polygons.
//!
//! A relation is selected when its tags satisfy every configured filter;
//! its member ways are partitioned by ring role, stitched head-to-tail
//! into closed rings of node ids, resolved to nanodegree coordinates, and
//! assembled into ring polygons, each outer ring carrying the inner rings
//! that lie within it. A relation whose rings cannot be closed, or which
//! references a node that is absent, is skipped whole.

use vstd::prelude::*;
use crate::geoshape::{ring_is_within, ring_within};
use crate::merge::bytes_eq;
use crate::types::{
    RelationMember, RelationWithLocations, RelationWithMembers, RingPolygon, Way,
};

verus! {

/// The tag satisfies the filter: equal key, and equal value where the
/// filter demands one.
pub open spec fn tag_matches(tag: (Vec<u8>, Vec<u8>), f: (Vec<u8>, Option<Vec<u8>>)) -> bool {
    &&& tag.0@ == f.0@
    &&& match f.1 {
        None => true,
        Some(v) => tag.1@ == v@,
    }
}

/// Some tag satisfies the filter.
pub open spec fn filter_matched(tags: Seq<(Vec<u8>, Vec<u8>)>, f: (Vec<u8>, Option<Vec<u8>>)) -> bool {
    exists|i: int| 0 <= i < tags.len() && tag_matches(#[trigger] tags[i], f)
}

/// Whether the tag set satisfies the conjunction of all filters.
#[verifier::loop_isolation(false)]
pub fn relation_filter(
    tags: &Vec<(Vec<u8>, Vec<u8>)>,
    required: &Vec<(Vec<u8>, Option<Vec<u8>>)>,
) -> (r: bool)
    ensures
        r == forall|j: int| 0 <= j < required@.len() ==> filter_matched(
            tags@,
            #[trigger] required@[j],
        ),
{
    let mut j: usize = 0;
    while j < required.len()
        invariant
            j <= required.len(),
            forall|q: int| 0 <= q < j ==> filter_matched(tags@, #[trigger] required@[q]),
        decreases required.len() - j,
    {
        let f = &required[j];
        let mut found = false;
        let mut i: usize = 0;
        while i < tags.len()
            invariant
                i <= tags.len(),
                found ==> filter_matched(tags@, required@[j as int]),
                !found ==> forall|q: int| 0 <= q < i ==> !tag_matches(
                    #[trigger] tags@[q],
                    required@[j as int],
                ),
            decreases tags.len() - i,
        {
            if bytes_eq(&tags[i].0, &f.0) {
                let value_ok = match &f.1 {
                    None => true,
                    Some(v) => bytes_eq(&tags[i].1, v),
                };
                if value_ok {
                    found = true;
                    proof {
                        assert(tag_matches(tags@[i as int], required@[j as int]));
                    }
                }
            }
            i = i + 1;
        }
        if !found {
            return false;
        }
        j = j + 1;
    }
    true
}

/// The new name of a tag key: the first configured property that matches
/// it, renamed where a new name is given.
pub open spec fn prop_rename(props: Seq<(Vec<u8>, Option<Vec<u8>>)>, k: Seq<u8>) -> Option<Seq<u8>>
    decreases props.len(),
{
    if props.len() == 0 {
        None
    } else if props[0].0@ == k {
        match props[0].1 {
            None => Some(props[0].0@),
            Some(nk) => Some(nk@),
        }
    } else {
        prop_rename(props.drop_first(), k)
    }
}

/// The kept tags of a relation: each tag whose key is configured, renamed
/// as directed, in tag order.
pub open spec fn selected_tags(
    tags: Seq<(Vec<u8>, Vec<u8>)>,
    props: Seq<(Vec<u8>, Option<Vec<u8>>)>,
) -> Seq<(Seq<u8>, Seq<u8>)>
    decreases tags.len(),
{
    if tags.len() == 0 {
        Seq::empty()
    } else {
        let head: Seq<(Seq<u8>, Seq<u8>)> = match prop_rename(props, tags[0].0@) {
            None => Seq::empty(),
            Some(nk) => seq![(nk, tags[0].1@)],
        };
        head + selected_tags(tags.drop_first(), props)
    }
}

/// The byte view of a tag list.
pub open spec fn tags_view(v: Seq<(Vec<u8>, Vec<u8>)>) -> Seq<(Seq<u8>, Seq<u8>)> {
    v.map_values(|t: (Vec<u8>, Vec<u8>)| (t.0@, t.1@))
}

/// Find the first configured property matching key `k` and return the
/// name to keep it under.
#[verifier::loop_isolation(false)]
fn rename_key(props: &Vec<(Vec<u8>, Option<Vec<u8>>)>, k: &Vec<u8>) -> (r: Option<Vec<u8>>)
    ensures
        r matches Some(nk) ==> prop_rename(props@, k@) == Some(nk@),
        r is None ==> prop_rename(props@, k@) is None,
{
    proof {
        assert(props@.skip(0) =~= props@);
    }
    let mut i: usize = 0;
    while i < props.len()
        invariant
            i <= props.len(),
            prop_rename(props@, k@) == prop_rename(props@.skip(i as int), k@),
        decreases props.len() - i,
    {
        proof {
            assert(props@.skip(i as int)[0] == props@[i as int]);
            assert(props@.skip(i as int).drop_first() =~= props@.skip(i as int + 1));
        }
        if bytes_eq(&props[i].0, k) {
            match &props[i].1 {
                None => {
                    return Some(crate::merge::clone_bytes(&props[i].0));
                },
                Some(nk) => {
                    return Some(crate::merge::clone_bytes(nk));
                },
            }
        }
        i = i + 1;
    }
    proof {
        assert(props@.skip(props@.len() as int) =~= Seq::<(Vec<u8>, Option<Vec<u8>>)>::empty());
    }
    None
}

/// Keep and rename the configured subset of a relation's tags.
#[verifier::loop_isolation(false)]
pub fn select_properties(
    tags: &Vec<(Vec<u8>, Vec<u8>)>,
    props: &Vec<(Vec<u8>, Option<Vec<u8>>)>,
) -> (r: Vec<(Vec<u8>, Vec<u8>)>)
    ensures
        tags_view(r@) == selected_tags(tags@, props@),
{
    let mut r: Vec<(Vec<u8>, Vec<u8>)> = Vec::new();
    proof {
        assert(tags@.skip(0) =~= tags@);
        assert(tags_view(r@) =~= Seq::<(Seq<u8>, Seq<u8>)>::empty());
    }
    let mut i: usize = 0;
    while i < tags.len()
        invariant
            i <= tags.len(),
            selected_tags(tags@, props@) == tags_view(r@) + selected_tags(
                tags@.skip(i as int),
                props@,
            ),
        decreases tags.len() - i,
    {
        proof {
            assert(tags@.skip(i as int)[0] == tags@[i as int]);
            assert(tags@.skip(i as int).drop_first() =~= tags@.skip(i as int + 1));
        }
        let ghost r_pre = r@;
        match rename_key(props, &tags[i].0) {
            Some(nk) => {
                r.push((nk, crate::merge::clone_bytes(&tags[i].1)));
                proof {
                    assert(tags_view(r@) =~= tags_view(r_pre) + seq![
                        (r@.last().0@, r@.last().1@),
                    ]);
                }
            },
            None => {},
        }
        i = i + 1;
    }
    proof {
        assert(tags@.skip(tags@.len() as int) =~= Seq::<(Vec<u8>, Vec<u8>)>::empty());
        assert(tags_view(r@) + Seq::<(Seq<u8>, Seq<u8>)>::empty() =~= tags_view(r@));
    }
    r
}

/// The node ids of the first way with the given id.
pub open spec fn way_nodes(ways: Seq<(i64, Vec<i64>)>, id: i64) -> Option<Seq<i64>>
    decreases ways.len(),
{
    if ways.len() == 0 {
        None
    } else if ways[0].0 == id {
        Some(ways[0].1@)
    } else {
        way_nodes(ways.drop_first(), id)
    }
}

/// Look up a way's node ids.
#[verifier::loop_isolation(false)]
fn find_way_nodes<'a>(ways: &'a Vec<(i64, Vec<i64>)>, id: i64) -> (r: Option<&'a Vec<i64>>)
    ensures
        r matches Some(v) ==> way_nodes(ways@, id) == Some(v@),
        r is None ==> way_nodes(ways@, id) is None,
{
    proof {
        assert(ways@.skip(0) =~= ways@);
    }
    let mut i: usize = 0;
    while i < ways.len()
        invariant
            i <= ways.len(),
            way_nodes(ways@, id) == way_nodes(ways@.skip(i as int), id),
        decreases ways.len() - i,
    {
        proof {
            assert(ways@.skip(i as int)[0] == ways@[i as int]);
            assert(ways@.skip(i as int).drop_first() =~= ways@.skip(i as int + 1));
        }
        if ways[i].0 == id {
            return Some(&ways[i].1);
        }
        i = i + 1;
    }
    proof {
        assert(ways@.skip(ways@.len() as int) =~= Seq::<(i64, Vec<i64>)>::empty());
    }
    None
}

/// The view of a way: its id, node ids and role.
pub struct WayModel {
    pub id: i64,
    pub node_ids: Seq<i64>,
    pub outer: bool,
}

impl View for Way {
    type V = WayModel;

    open spec fn view(&self) -> WayModel {
        WayModel { id: self.id, node_ids: self.node_ids@, outer: self.outer }
    }
}

/// The member ways of one role that the way table resolves, in member
/// order.
pub open spec fn resolved_ways(
    members: Seq<RelationMember>,
    ways: Seq<(i64, Vec<i64>)>,
    want_outer: bool,
) -> Seq<WayModel>
    decreases members.len(),
{
    if members.len() == 0 {
        Seq::empty()
    } else {
        let head: Seq<WayModel> = if members[0].spec_is_outer() == want_outer {
            match way_nodes(ways, members[0].spec_id()) {
                None => Seq::empty(),
                Some(nodes) => seq![
                    WayModel { id: members[0].spec_id(), node_ids: nodes, outer: want_outer },
                ],
            }
        } else {
            Seq::empty()
        };
        head + resolved_ways(members.drop_first(), ways, want_outer)
    }
}

/// The model view of a list of ways.
pub open spec fn ways_view(v: Seq<Way>) -> Seq<WayModel> {
    v.map_values(|w: Way| w@)
}

/// Partition a relation's member ways by ring role, resolving each id in
/// the way table and keeping member order; members whose way is absent
/// are dropped.
#[verifier::loop_isolation(false)]
pub fn extract_ways(relation: &RelationWithMembers, ways: &Vec<(i64, Vec<i64>)>) -> (r: (
    Vec<Way>,
    Vec<Way>,
))
    ensures
        ways_view(r.0@) == resolved_ways(relation.members@, ways@, true),
        ways_view(r.1@) == resolved_ways(relation.members@, ways@, false),
{
    let mut outer: Vec<Way> = Vec::new();
    let mut inner: Vec<Way> = Vec::new();
    proof {
        assert(relation.members@.skip(0) =~= relation.members@);
        assert(ways_view(outer@) =~= Seq::<WayModel>::empty());
        assert(ways_view(inner@) =~= Seq::<WayModel>::empty());
    }
    let mut i: usize = 0;
    while i < relation.members.len()
        invariant
            i <= relation.members.len(),
            resolved_ways(relation.members@, ways@, true) == ways_view(outer@) + resolved_ways(
                relation.members@.skip(i as int),
                ways@,
                true,
            ),
            resolved_ways(relation.members@, ways@, false) == ways_view(inner@) + resolved_ways(
                relation.members@.skip(i as int),
                ways@,
                false,
            ),
        decreases relation.members.len() - i,
    {
        proof {
            assert(relation.members@.skip(i as int)[0] == relation.members@[i as int]);
            assert(relation.members@.skip(i as int).drop_first() =~= relation.members@.skip(
                i as int + 1,
            ));
        }
        let member = &relation.members[i];
        let id = member.to_i64();
        let is_outer = match member {
            RelationMember::OuterMember(_) => true,
            RelationMember::InnerMember(_) => false,
        };
        match find_way_nodes(ways, id) {
            Some(node_ids) => {
                let way = Way {
                    id,
                    node_ids: clone_ids(node_ids),
                    outer: is_outer,
                };
                if is_outer {
                    let ghost pre = outer@;
                    outer.push(way);
                    proof {
                        assert(ways_view(outer@) =~= ways_view(pre) + seq![outer@.last()@]);
                    }
                } else {
                    let ghost pre = inner@;
                    inner.push(way);
                    proof {
                        assert(ways_view(inner@) =~= ways_view(pre) + seq![inner@.last()@]);
                    }
                }
            },
            None => {},
        }
        i = i + 1;
    }
    proof {
        assert(relation.members@.skip(relation.members@.len() as int) =~= Seq::<
            RelationMember,
        >::empty());
        assert(ways_view(outer@) + Seq::<WayModel>::empty() =~= ways_view(outer@));
        assert(ways_view(inner@) + Seq::<WayModel>::empty() =~= ways_view(inner@));
    }
    (outer, inner)
}

/// Copy a list of node ids.
fn clone_ids(v: &Vec<i64>) -> (r: Vec<i64>)
    ensures
        r@ == v@,
{
    let mut r: Vec<i64> = Vec::new();
    let mut i: usize = 0;
    while i < v.len()
        invariant
            i <= v.len(),
            r@ == v@.take(i as int),
        decreases v.len() - i,
    {
        r.push(v[i]);
        i = i + 1;
        proof {
            assert(v@.take(i as int) =~= v@.take(i - 1) + seq![v@[i - 1]]);
            assert(r@ =~= v@.take(i as int));
        }
    }
    proof {
        assert(v@.take(v@.len() as int) =~= v@);
    }
    r
}

/// The way can be appended at the walk's current end node: forward when
/// its first node matches, reversed when its last node does.
pub open spec fn way_joins(w: WayModel, node_id: i64) -> bool {
    w.node_ids.len() > 0 && (w.node_ids.first() == node_id || w.node_ids.last() == node_id)
}

/// The returned way is `w` taken forward or reversed so that it starts at
/// `node_id`: forward when the first node matches, else reversed.
pub open spec fn way_oriented(w: WayModel, node_id: i64, r: WayModel) -> bool {
    &&& r.id == w.id
    &&& r.outer == w.outer
    &&& if w.node_ids.first() == node_id {
        r.node_ids == w.node_ids
    } else {
        r.node_ids.len() == w.node_ids.len() && forall|j: int|
            0 <= j < w.node_ids.len() ==> r.node_ids[j] == w.node_ids[w.node_ids.len() - 1 - j]
    }
}

/// Find the first remaining way that joins at `node_id`, remove it, and
/// orient it to start there. `None` leaves the ways untouched: no way
/// joins.
#[verifier::loop_isolation(false)]
pub fn find_match(node_id: &i64, ways: &mut Vec<Way>) -> (r: Option<Way>)
    ensures
        r is None ==> final(ways)@ == old(ways)@ && forall|i: int|
            0 <= i < old(ways)@.len() ==> !way_joins((#[trigger] old(ways)@[i])@, *node_id),
        r matches Some(w) ==> exists|i: int|
            0 <= i < old(ways)@.len() && (forall|j: int| 0 <= j < i ==> !way_joins(
                (#[trigger] old(ways)@[j])@,
                *node_id,
            )) && way_joins((#[trigger] old(ways)@[i])@, *node_id) && way_oriented(
                old(ways)@[i]@,
                *node_id,
                w@,
            ) && final(ways)@ == old(ways)@.update(i, old(ways)@.last()).drop_last(),
{
    let mut i: usize = 0;
    while i < ways.len()
        invariant
            i <= ways.len(),
            ways@ == old(ways)@,
            forall|j: int| 0 <= j < i ==> !way_joins((#[trigger] ways@[j])@, *node_id),
        decreases ways.len() - i,
    {
        let way = &ways[i];
        let joins_first = way.node_ids.len() > 0 && way.node_ids[0] == *node_id;
        let joins_last = way.node_ids.len() > 0 && way.node_ids[way.node_ids.len() - 1] == *node_id;
        if joins_first {
            let w = ways.swap_remove(i);
            return Some(w);
        }
        if joins_last {
            let mut w = ways.swap_remove(i);
            let rev = reverse_ids(&w.node_ids);
            w.node_ids = rev;
            proof {
                assert(way_oriented(old(ways)@[i as int]@, *node_id, w@));
            }
            return Some(w);
        }
        i = i + 1;
    }
    None
}

/// Copy a list of node ids in reverse order.
fn reverse_ids(v: &Vec<i64>) -> (r: Vec<i64>)
    ensures
        r@.len() == v@.len(),
        forall|j: int| 0 <= j < v@.len() ==> r@[j] == v@[v@.len() - 1 - j],
{
    let mut r: Vec<i64> = Vec::new();
    let mut i: usize = v.len();
    while i > 0
        invariant
            i <= v.len(),
            r@.len() == v@.len() - i,
            forall|j: int| 0 <= j < r@.len() ==> r@[j] == v@[v@.len() - 1 - j],
        decreases i,
    {
        i = i - 1;
        r.push(v[i]);
    }
    r
}

/// All ways have at least two nodes, as OSM guarantees of a way.
pub open spec fn ways_nonempty(ways: Seq<Way>) -> bool {
    forall|i: int| 0 <= i < ways.len() ==> (#[trigger] ways[i]).node_ids@.len() >= 2
}

/// A closed ring of node ids: it starts and ends at the same node.
pub open spec fn closed_ring(ring: Seq<i64>) -> bool {
    ring.len() >= 2 && ring.first() == ring.last()
}

/// The view of a list of id rings.
pub open spec fn id_rings_view(v: Seq<Vec<i64>>) -> Seq<Seq<i64>> {
    v.map_values(|r: Vec<i64>| r@)
}

/// The index of the first way that joins at `node`, scanning from `k`.
pub open spec fn first_join_index(ways: Seq<WayModel>, node: i64, k: int) -> Option<int>
    decreases ways.len() - k,
{
    if k < 0 || k >= ways.len() {
        None
    } else if way_joins(ways[k], node) {
        Some(k)
    } else {
        first_join_index(ways, node, k + 1)
    }
}

/// The way oriented to start at `node`: forward when its first node is
/// `node`, else reversed.
pub open spec fn orient(w: WayModel, node: i64) -> WayModel {
    if w.node_ids.first() == node {
        w
    } else {
        WayModel {
            id: w.id,
            node_ids: Seq::new(w.node_ids.len(), |j: int| w.node_ids[w.node_ids.len() - 1 - j]),
            outer: w.outer,
        }
    }
}

/// The ways left after taking the way at `i` out, as `swap_remove` leaves
/// them: the last way moves into the hole.
pub open spec fn taken_out(ways: Seq<WayModel>, i: int) -> Seq<WayModel> {
    ways.update(i, ways.last()).drop_last()
}

/// One walk of the stitching: repeatedly take the first way that joins at
/// the walk's end out and append it, oriented to start there, until the
/// walk returns to `start` — the closed ring and the remaining ways — or
/// no way joins.
pub open spec fn stitch_walk(ways: Seq<WayModel>, start: i64, end: i64, ring: Seq<i64>) -> Option<
    (Seq<i64>, Seq<WayModel>),
>
    decreases ways.len(),
{
    if ways.len() == 0 {
        None
    } else {
        match first_join_index(ways, end, 0) {
            None => None,
            Some(i) => {
                if 0 <= i < ways.len() {
                    let w = orient(ways[i], end);
                    let rest = taken_out(ways, i);
                    let ring2 = ring + w.node_ids.skip(1);
                    let end2 = w.node_ids.last();
                    if end2 == start {
                        Some((ring2, rest))
                    } else {
                        stitch_walk(rest, start, end2, ring2)
                    }
                } else {
                    None
                }
            },
        }
    }
}

/// The full stitching: walks taken greedily, each starting at the first
/// remaining way's first node, until no way remains or a walk fails.
pub open spec fn spec_stitch(ways: Seq<WayModel>) -> Option<Seq<Seq<i64>>>
    decreases ways.len(),
{
    if ways.len() == 0 {
        Some(Seq::empty())
    } else {
        let start = ways[0].node_ids.first();
        match stitch_walk(ways, start, start, seq![start]) {
            None => None,
            Some((ring, rest)) => if rest.len() < ways.len() {
                match spec_stitch(rest) {
                    None => None,
                    Some(rings) => Some(seq![ring] + rings),
                }
            } else {
                None
            },
        }
    }
}

proof fn lemma_first_join_found(ways: Seq<WayModel>, node: i64, i: int, k: int)
    requires
        0 <= k <= i < ways.len(),
        forall|j: int| k <= j < i ==> !way_joins(#[trigger] ways[j], node),
        way_joins(ways[i], node),
    ensures
        first_join_index(ways, node, k) == Some(i),
    decreases i - k,
{
    if k < i {
        lemma_first_join_found(ways, node, i, k + 1);
    }
}

proof fn lemma_first_join_none(ways: Seq<WayModel>, node: i64, k: int)
    requires
        0 <= k,
        forall|j: int| k <= j < ways.len() ==> !way_joins(#[trigger] ways[j], node),
    ensures
        first_join_index(ways, node, k) is None,
    decreases ways.len() - k,
{
    if k < ways.len() {
        lemma_first_join_none(ways, node, k + 1);
    }
}

/// Stitch the remaining ways into closed rings of node ids, exactly as
/// `spec_stitch` walks them.
///
/// Walking from the first remaining way's first node, at each step the
/// first way joining the current end node is appended (reversed if it
/// joined by its last node), until the walk returns to its start — a
/// closed ring — or no way joins — the relation is incomplete and `None`
/// is returned, per the partial-data rule. On success every way was
/// consumed and every produced ring is closed.
#[verifier::loop_isolation(false)]
pub fn stitch_rings(ways: &mut Vec<Way>) -> (r: Option<Vec<Vec<i64>>>)
    requires
        ways_nonempty(old(ways)@),
    ensures
        (r is Some) == (spec_stitch(ways_view(old(ways)@)) is Some),
        r matches Some(rings) ==> Some(id_rings_view(rings@)) == spec_stitch(
            ways_view(old(ways)@),
        ),
        r matches Some(rings) ==> final(ways)@.len() == 0,
        r matches Some(rings) ==> forall|i: int|
            0 <= i < rings@.len() ==> closed_ring((#[trigger] rings@[i])@),
{
    let ghost orig = ways_view(old(ways)@);
    let mut rings: Vec<Vec<i64>> = Vec::new();
    proof {
        match spec_stitch(ways_view(ways@)) {
            Some(rest_rings) => {
                assert(id_rings_view(rings@) + rest_rings =~= rest_rings);
            },
            None => {},
        }
    }
    while ways.len() > 0
        invariant
            ways_nonempty(ways@),
            forall|i: int| 0 <= i < rings@.len() ==> closed_ring((#[trigger] rings@[i])@),
            match spec_stitch(ways_view(ways@)) {
                None => spec_stitch(orig) is None,
                Some(rest_rings) => spec_stitch(orig) == Some(
                    id_rings_view(rings@) + rest_rings,
                ),
            },
        decreases ways.len(),
    {
        let ghost outer_pre = ways_view(ways@);
        let ghost outer_pre_len = ways@.len();
        let start_node_id = ways[0].node_ids[0];
        proof {
            assert(outer_pre[0] == ways@[0]@);
            assert(outer_pre[0].node_ids.first() == start_node_id);
        }
        let mut ring: Vec<i64> = Vec::new();
        ring.push(start_node_id);
        let mut search_node_id = start_node_id;
        let mut closed = false;
        proof {
            assert(ring@ =~= seq![start_node_id]);
        }
        while !closed
            invariant
                ways_nonempty(ways@),
                ways@.len() <= outer_pre_len,
                ring@.len() >= 1,
                ring@.first() == start_node_id,
                ring@.last() == search_node_id,
                !closed ==> stitch_walk(outer_pre, start_node_id, start_node_id, seq![
                    start_node_id,
                ]) == stitch_walk(ways_view(ways@), start_node_id, search_node_id, ring@),
                closed ==> stitch_walk(outer_pre, start_node_id, start_node_id, seq![
                    start_node_id,
                ]) == Some((ring@, ways_view(ways@))),
                closed ==> ring@.len() >= 2 && search_node_id == start_node_id && ways@.len()
                    < outer_pre_len,
            decreases ways.len() + 1,
        {
            let ghost ways_pre = ways@;
            let ghost cur = ways_view(ways@);
            let ghost ring_pre = ring@;
            match find_match(&search_node_id, ways) {
                Some(way) => {
                    proof {
                        let i = choose|i: int|
                            0 <= i < ways_pre.len() && (forall|j: int| 0 <= j < i ==> !way_joins(
                                (#[trigger] ways_pre[j])@,
                                search_node_id,
                            )) && way_joins((#[trigger] ways_pre[i])@, search_node_id)
                                && way_oriented(ways_pre[i]@, search_node_id, way@) && ways@
                                == ways_pre.update(i, ways_pre.last()).drop_last();
                        assert(ways_pre[i]@.node_ids.len() >= 2);
                        assert(way@.node_ids.len() >= 2);
                        // the spec walk picks the same way
                        assert(forall|j: int| 0 <= j < cur.len() ==> #[trigger] cur[j]
                            == ways_pre[j]@);
                        lemma_first_join_found(cur, search_node_id, i, 0);
                        // oriented the same
                        if ways_pre[i]@.node_ids.first() == search_node_id {
                            assert(way@.node_ids.first() == search_node_id);
                            assert(way@ == orient(cur[i], search_node_id));
                        } else {
                            assert(ways_pre[i]@.node_ids.last() == search_node_id);
                            assert(way@.node_ids =~= orient(cur[i], search_node_id).node_ids);
                            assert(way@ == orient(cur[i], search_node_id));
                        }
                        assert(way@.node_ids.first() == search_node_id);
                        // the spec walk leaves the same ways
                        assert(ways_view(ways@) =~= taken_out(cur, i));
                        assert forall|j: int| 0 <= j < ways@.len() implies (
                        #[trigger] ways@[j]).node_ids@.len() >= 2 by {
                            assert(ways@[j] == ways_pre.update(i, ways_pre.last()).drop_last()[j]);
                            if j == i {
                                assert(ways@[j] == ways_pre.last());
                            } else {
                                assert(ways@[j] == ways_pre[j]);
                            }
                        }
                    }
                    let ghost ring_pre_len = ring@.len();
                    let mut k: usize = 1;
                    while k < way.node_ids.len()
                        invariant
                            1 <= k <= way.node_ids.len(),
                            ring@.len() == ring_pre_len + k - 1,
                            ring@ == ring_pre + way.node_ids@.subrange(1, k as int),
                            ring@.first() == start_node_id,
                            k > 1 ==> ring@.last() == way.node_ids@[k - 1],
                            k == 1 ==> ring@.last() == search_node_id,
                        decreases way.node_ids.len() - k,
                    {
                        ring.push(way.node_ids[k]);
                        k = k + 1;
                        proof {
                            assert(way.node_ids@.subrange(1, k as int) =~= way.node_ids@.subrange(
                                1,
                                k - 1,
                            ) + seq![way.node_ids@[k - 1]]);
                            assert(ring@ =~= ring_pre + way.node_ids@.subrange(1, k as int));
                        }
                    }
                    proof {
                        assert(ring@ =~= ring_pre + way@.node_ids.skip(1)) by {
                            assert(way.node_ids@.subrange(1, way.node_ids@.len() as int)
                                =~= way@.node_ids.skip(1));
                        }
                    }
                    search_node_id = way.node_ids[way.node_ids.len() - 1];
                    proof {
                        assert(way@.node_ids.last() == search_node_id);
                    }
                    if search_node_id == start_node_id {
                        closed = true;
                    }
                },
                None => {
                    proof {
                        assert(forall|j: int| 0 <= j < cur.len() ==> !way_joins(
                            #[trigger] cur[j],
                            search_node_id,
                        )) by {
                            assert(forall|j: int| 0 <= j < cur.len() ==> #[trigger] cur[j]
                                == ways_pre[j]@);
                        }
                        lemma_first_join_none(cur, search_node_id, 0);
                        assert(stitch_walk(cur, start_node_id, search_node_id, ring@) is None);
                        assert(stitch_walk(outer_pre, start_node_id, start_node_id, seq![
                            start_node_id,
                        ]) is None);
                        assert(spec_stitch(outer_pre) is None);
                        assert(spec_stitch(orig) is None);
                    }
                    return None;
                },
            }
        }
        proof {
            // the walk closed: the spec stitching continues on what is left
            assert(spec_stitch(outer_pre) == (match spec_stitch(ways_view(ways@)) {
                None => None::<Seq<Seq<i64>>>,
                Some(rr) => Some(seq![ring@] + rr),
            }));
        }
        let ghost rings_pre = rings@;
        let ghost ring_view = ring@;
        rings.push(ring);
        proof {
            assert(closed_ring(rings@.last()@));
            assert(forall|i: int|
                0 <= i < rings@.len() - 1 ==> rings@[i] == rings_pre[i]);
            match spec_stitch(ways_view(ways@)) {
                None => {},
                Some(rr) => {
                    assert(id_rings_view(rings@) =~= id_rings_view(rings_pre) + seq![ring_view]);
                    assert(id_rings_view(rings_pre) + (seq![ring_view] + rr) =~= id_rings_view(
                        rings@,
                    ) + rr);
                },
            }
        }
    }
    proof {
        assert(ways_view(ways@).len() == 0);
        assert(spec_stitch(ways_view(ways@)) == Some(Seq::<Seq<i64>>::empty()));
        assert(id_rings_view(rings@) + Seq::<Seq<i64>>::empty() =~= id_rings_view(rings@));
    }
    Some(rings)
}

/// The coordinates of the first node with the given id.
pub open spec fn node_coord(nodes: Seq<(i64, (i64, i64))>, id: i64) -> Option<(i64, i64)>
    decreases nodes.len(),
{
    if nodes.len() == 0 {
        None
    } else if nodes[0].0 == id {
        Some(nodes[0].1)
    } else {
        node_coord(nodes.drop_first(), id)
    }
}

/// Look up one node's coordinates.
#[verifier::loop_isolation(false)]
fn find_node_coord(nodes: &Vec<(i64, (i64, i64))>, id: i64) -> (r: Option<(i64, i64)>)
    ensures
        r == node_coord(nodes@, id),
{
    proof {
        assert(nodes@.skip(0) =~= nodes@);
    }
    let mut i: usize = 0;
    while i < nodes.len()
        invariant
            i <= nodes.len(),
            node_coord(nodes@, id) == node_coord(nodes@.skip(i as int), id),
        decreases nodes.len() - i,
    {
        proof {
            assert(nodes@.skip(i as int)[0] == nodes@[i as int]);
            assert(nodes@.skip(i as int).drop_first() =~= nodes@.skip(i as int + 1));
        }
        if nodes[i].0 == id {
            return Some(nodes[i].1);
        }
        i = i + 1;
    }
    proof {
        assert(nodes@.skip(nodes@.len() as int) =~= Seq::<(i64, (i64, i64))>::empty());
    }
    None
}

/// Resolve a ring of node ids to nanodegree coordinates; `None` when any
/// referenced node is absent, which fails the whole relation.
#[verifier::loop_isolation(false)]
pub fn ring_coords(ring: &Vec<i64>, nodes: &Vec<(i64, (i64, i64))>) -> (r: Option<Vec<(i64, i64)>>)
    ensures
        r matches Some(c) ==> c@.len() == ring@.len() && forall|i: int|
            0 <= i < ring@.len() ==> node_coord(nodes@, ring@[i]) == Some(#[trigger] c@[i]),
        r is None ==> exists|i: int|
            0 <= i < ring@.len() && node_coord(nodes@, #[trigger] ring@[i]) is None,
{
    let mut c: Vec<(i64, i64)> = Vec::new();
    let mut i: usize = 0;
    while i < ring.len()
        invariant
            i <= ring.len(),
            c@.len() == i,
            forall|j: int| 0 <= j < i ==> node_coord(nodes@, ring@[j]) == Some(#[trigger] c@[j]),
        decreases ring.len() - i,
    {
        match find_node_coord(nodes, ring[i]) {
            Some(xy) => {
                c.push(xy);
            },
            None => {
                return None;
            },
        }
        i = i + 1;
    }
    Some(c)
}

/// The view of a list of coordinate rings.
pub open spec fn rings_view(v: Seq<Vec<(i64, i64)>>) -> Seq<Seq<(i64, i64)>> {
    v.map_values(|r: Vec<(i64, i64)>| r@)
}

/// The inner rings lying within the given outer ring, in order, by the
/// named geometric test.
pub open spec fn inners_within(
    inners: Seq<Vec<(i64, i64)>>,
    outer: Seq<(i64, i64)>,
) -> Seq<Seq<(i64, i64)>>
    decreases inners.len(),
{
    if inners.len() == 0 {
        Seq::empty()
    } else {
        let head: Seq<Seq<(i64, i64)>> = if ring_within(inners[0]@, outer) {
            seq![inners[0]@]
        } else {
            Seq::empty()
        };
        head + inners_within(inners.drop_first(), outer)
    }
}

/// Attach to each outer ring the inner rings that lie within it: the
/// relation's multi-polygon.
#[verifier::loop_isolation(false)]
pub fn assemble_polygons(
    outer_rings: &Vec<Vec<(i64, i64)>>,
    inner_rings: &Vec<Vec<(i64, i64)>>,
) -> (r: Vec<RingPolygon>)
    ensures
        r@.len() == outer_rings@.len(),
        forall|i: int| 0 <= i < r@.len() ==> (#[trigger] r@[i]).exterior@ == outer_rings@[i]@
            && rings_view(r@[i].interiors@) == inners_within(inner_rings@, outer_rings@[i]@),
{
    let mut r: Vec<RingPolygon> = Vec::new();
    let mut i: usize = 0;
    while i < outer_rings.len()
        invariant
            i <= outer_rings.len(),
            r@.len() == i,
            forall|j: int| 0 <= j < i ==> (#[trigger] r@[j]).exterior@ == outer_rings@[j]@
                && rings_view(r@[j].interiors@) == inners_within(inner_rings@, outer_rings@[j]@),
        decreases outer_rings.len() - i,
    {
        let outer = &outer_rings[i];
        let mut interiors: Vec<Vec<(i64, i64)>> = Vec::new();
        proof {
            assert(inner_rings@.skip(0) =~= inner_rings@);
            assert(rings_view(interiors@) =~= Seq::<Seq<(i64, i64)>>::empty());
        }
        let mut k: usize = 0;
        while k < inner_rings.len()
            invariant
                k <= inner_rings.len(),
                inners_within(inner_rings@, outer@) == rings_view(interiors@) + inners_within(
                    inner_rings@.skip(k as int),
                    outer@,
                ),
            decreases inner_rings.len() - k,
        {
            proof {
                assert(inner_rings@.skip(k as int)[0] == inner_rings@[k as int]);
                assert(inner_rings@.skip(k as int).drop_first() =~= inner_rings@.skip(
                    k as int + 1,
                ));
            }
            if ring_is_within(&inner_rings[k], outer) {
                let ghost pre = interiors@;
                interiors.push(clone_coords(&inner_rings[k]));
                proof {
                    assert(rings_view(interiors@) =~= rings_view(pre) + seq![
                        interiors@.last()@,
                    ]);
                }
            }
            k = k + 1;
        }
        proof {
            assert(inner_rings@.skip(inner_rings@.len() as int) =~= Seq::<
                Vec<(i64, i64)>,
            >::empty());
            assert(rings_view(interiors@) + Seq::<Seq<(i64, i64)>>::empty() =~= rings_view(
                interiors@,
            ));
        }
        r.push(RingPolygon { exterior: clone_coords(outer), interiors });
        i = i + 1;
    }
    r
}

/// Copy a coordinate ring.
fn clone_coords(v: &Vec<(i64, i64)>) -> (r: Vec<(i64, i64)>)
    ensures
        r@ == v@,
{
    let mut r: Vec<(i64, i64)> = Vec::new();
    let mut i: usize = 0;
    while i < v.len()
        invariant
            i <= v.len(),
            r@ == v@.take(i as int),
        decreases v.len() - i,
    {
        r.push(v[i]);
        i = i + 1;
        proof {
            assert(v@.take(i as int) =~= v@.take(i - 1) + seq![v@[i - 1]]);
            assert(r@ =~= v@.take(i as int));
        }
    }
    proof {
        assert(v@.take(v@.len() as int) =~= v@);
    }
    r
}

/// Every ring of the polygon is closed in coordinates: its first and last
/// coordinate pairs are equal.
pub open spec fn polygon_rings_closed(p: RingPolygon) -> bool {
    &&& p.exterior@.len() >= 2
    &&& p.exterior@.first() == p.exterior@.last()
    &&& forall|k: int|
        0 <= k < p.interiors@.len() ==> (#[trigger] p.interiors@[k])@.len() >= 2
            && p.interiors@[k]@.first() == p.interiors@[k]@.last()
}

/// Resolve a list of id rings to coordinate rings, exactly as
/// `spec_rings_coords` does; `None` when any node is absent.
#[verifier::loop_isolation(false)]
fn rings_to_coords(rings: &Vec<Vec<i64>>, nodes: &Vec<(i64, (i64, i64))>) -> (r: Option<
    Vec<Vec<(i64, i64)>>,
>)
    requires
        forall|i: int| 0 <= i < rings@.len() ==> closed_ring((#[trigger] rings@[i])@),
    ensures
        (r is Some) == (spec_rings_coords(id_rings_view(rings@), nodes@) is Some),
        r matches Some(c) ==> Some(rings_view(c@)) == spec_rings_coords(
            id_rings_view(rings@),
            nodes@,
        ),
        r matches Some(c) ==> c@.len() == rings@.len() && forall|i: int|
            0 <= i < c@.len() ==> (#[trigger] c@[i])@.len() >= 2 && c@[i]@.first()
                == c@[i]@.last(),
{
    let ghost rv = id_rings_view(rings@);
    let mut c: Vec<Vec<(i64, i64)>> = Vec::new();
    let mut i: usize = 0;
    while i < rings.len()
        invariant
            i <= rings.len(),
            c@.len() == i,
            forall|j: int| 0 <= j < i ==> spec_ring_coords((#[trigger] rv[j]), nodes@) == Some(
                c@[j]@,
            ),
            forall|j: int| 0 <= j < i ==> (#[trigger] c@[j])@.len() >= 2 && c@[j]@.first()
                == c@[j]@.last(),
        decreases rings.len() - i,
    {
        match ring_coords(&rings[i], nodes) {
            Some(coords) => {
                proof {
                    let ring = rings@[i as int]@;
                    assert(rv[i as int] == ring);
                    assert(node_coord(nodes@, ring[0]) == Some(coords@[0]));
                    assert(node_coord(nodes@, ring[ring.len() - 1]) == Some(
                        coords@[coords@.len() - 1],
                    ));
                    assert(ring[0] == ring[ring.len() - 1]);
                    assert(spec_ring_coords(ring, nodes@) == Some(coords@)) by {
                        assert(!(exists|x: int|
                            0 <= x < ring.len() && node_coord(nodes@, #[trigger] ring[x])
                                is None)) by {
                            assert(forall|x: int|
                                0 <= x < ring.len() ==> node_coord(nodes@, #[trigger] ring[x])
                                    == Some(coords@[x]));
                        }
                        assert(Seq::new(
                            ring.len(),
                            |x: int| node_coord(nodes@, ring[x]).unwrap(),
                        ) =~= coords@);
                    }
                }
                c.push(coords);
            },
            None => {
                proof {
                    let ring = rings@[i as int]@;
                    assert(rv[i as int] == ring);
                    assert(spec_ring_coords(rv[i as int], nodes@) is None);
                    assert(spec_rings_coords(rv, nodes@) is None);
                }
                return None;
            },
        }
        i = i + 1;
    }
    proof {
        assert(!(exists|k: int|
            0 <= k < rv.len() && spec_ring_coords(#[trigger] rv[k], nodes@) is None));
        assert(Seq::new(rv.len(), |k: int| spec_ring_coords(rv[k], nodes@).unwrap())
            =~= rings_view(c@));
    }
    Some(c)
}

/// One assembled polygon, mathematically: the exterior ring and its
/// attached interior rings.
pub type PolygonModel = (Seq<(i64, i64)>, Seq<Seq<(i64, i64)>>);

/// The model of one assembled polygon.
pub open spec fn polygon_model(p: RingPolygon) -> PolygonModel {
    (p.exterior@, rings_view(p.interiors@))
}

/// The model of a multi-polygon.
pub open spec fn shape_model(s: Seq<RingPolygon>) -> Seq<PolygonModel> {
    s.map_values(|p: RingPolygon| polygon_model(p))
}

/// The inner rings lying within the given outer ring, at the model level.
pub open spec fn inners_within_m(
    inners: Seq<Seq<(i64, i64)>>,
    outer: Seq<(i64, i64)>,
) -> Seq<Seq<(i64, i64)>>
    decreases inners.len(),
{
    if inners.len() == 0 {
        Seq::empty()
    } else {
        let head: Seq<Seq<(i64, i64)>> = if ring_within(inners[0], outer) {
            seq![inners[0]]
        } else {
            Seq::empty()
        };
        head + inners_within_m(inners.drop_first(), outer)
    }
}

/// Filtering the inner rings commutes with taking their views.
proof fn lemma_inners_within_view(inners: Seq<Vec<(i64, i64)>>, outer: Seq<(i64, i64)>)
    ensures
        inners_within(inners, outer) == inners_within_m(rings_view(inners), outer),
    decreases inners.len(),
{
    if inners.len() > 0 {
        lemma_inners_within_view(inners.drop_first(), outer);
        assert(rings_view(inners).drop_first() =~= rings_view(inners.drop_first()));
        assert(rings_view(inners)[0] == inners[0]@);
    } else {
        assert(rings_view(inners) =~= Seq::<Seq<(i64, i64)>>::empty());
    }
}

/// The polygons assembled from the given coordinate rings: each outer
/// ring with the inner rings that lie within it.
pub open spec fn spec_assembled(
    outers: Seq<Seq<(i64, i64)>>,
    inners: Seq<Seq<(i64, i64)>>,
) -> Seq<PolygonModel> {
    Seq::new(outers.len(), |i: int| (outers[i], inners_within_m(inners, outers[i])))
}

/// The coordinates of one ring of node ids, if every node resolves.
pub open spec fn spec_ring_coords(ring: Seq<i64>, nodes: Seq<(i64, (i64, i64))>) -> Option<
    Seq<(i64, i64)>,
> {
    if exists|i: int| 0 <= i < ring.len() && node_coord(nodes, #[trigger] ring[i]) is None {
        None
    } else {
        Some(Seq::new(ring.len(), |i: int| node_coord(nodes, ring[i]).unwrap()))
    }
}

/// The coordinates of every ring, all or nothing.
pub open spec fn spec_rings_coords(rings: Seq<Seq<i64>>, nodes: Seq<(i64, (i64, i64))>) -> Option<
    Seq<Seq<(i64, i64)>>,
> {
    if exists|k: int| 0 <= k < rings.len() && spec_ring_coords(#[trigger] rings[k], nodes) is None {
        None
    } else {
        Some(Seq::new(rings.len(), |k: int| spec_ring_coords(rings[k], nodes).unwrap()))
    }
}

/// Every way carries at least two nodes, at the model level.
pub open spec fn way_models_nonempty(ways: Seq<WayModel>) -> bool {
    forall|i: int| 0 <= i < ways.len() ==> (#[trigger] ways[i]).node_ids.len() >= 2
}

/// The whole assembly of one relation: partition the resolved member ways
/// by role, stitch each partition into closed rings, resolve every node to
/// its coordinates, and attach each inner ring to the outer rings it lies
/// within. `None` — the relation is skipped — when a way is degenerate, a
/// ring fails to close, a node is absent, or no outer ring results.
pub open spec fn relation_pipeline(
    rel: RelationWithMembers,
    ways: Seq<(i64, Vec<i64>)>,
    nodes: Seq<(i64, (i64, i64))>,
) -> Option<Seq<PolygonModel>> {
    let outer_w = resolved_ways(rel.members@, ways, true);
    let inner_w = resolved_ways(rel.members@, ways, false);
    if !(way_models_nonempty(outer_w) && way_models_nonempty(inner_w)) {
        None
    } else {
        match (spec_stitch(outer_w), spec_stitch(inner_w)) {
            (Some(outer_rings), Some(inner_rings)) => if outer_rings.len() == 0 {
                None
            } else {
                match (spec_rings_coords(outer_rings, nodes), spec_rings_coords(
                    inner_rings,
                    nodes,
                )) {
                    (Some(oc), Some(ic)) => Some(spec_assembled(oc, ic)),
                    _ => None,
                }
            },
            _ => None,
        }
    }
}

/// The model of one emitted relation: its id, tags and assembled shape.
pub type RelationModel = (i64, Seq<(Seq<u8>, Seq<u8>)>, Seq<PolygonModel>);

/// The models of the emitted relations.
pub open spec fn relations_model(v: Seq<RelationWithLocations>) -> Seq<RelationModel> {
    v.map_values(
        |o: RelationWithLocations| (o.id, tags_view(o.tags@), shape_model(o.shape@)),
    )
}

/// The whole extractor assembly: one emitted relation per input relation
/// whose pipeline succeeds, in input order, carrying that relation's id,
/// tags and assembled shape.
pub open spec fn spec_build_relations(
    relations: Seq<RelationWithMembers>,
    ways: Seq<(i64, Vec<i64>)>,
    nodes: Seq<(i64, (i64, i64))>,
) -> Seq<RelationModel>
    decreases relations.len(),
{
    if relations.len() == 0 {
        Seq::empty()
    } else {
        let head: Seq<RelationModel> = match relation_pipeline(relations[0], ways, nodes) {
            None => Seq::empty(),
            Some(shape) => seq![
                (relations[0].id, tags_view(relations[0].tags@), shape),
            ],
        };
        head + spec_build_relations(relations.drop_first(), ways, nodes)
    }
}

proof fn lemma_spec_build_snoc(
    relations: Seq<RelationWithMembers>,
    t: int,
    ways: Seq<(i64, Vec<i64>)>,
    nodes: Seq<(i64, (i64, i64))>,
)
    requires
        0 <= t < relations.len(),
    ensures
        spec_build_relations(relations.take(t + 1), ways, nodes) == spec_build_relations(
            relations.take(t),
            ways,
            nodes,
        ) + (match relation_pipeline(relations[t], ways, nodes) {
            None => Seq::empty(),
            Some(shape) => seq![(relations[t].id, tags_view(relations[t].tags@), shape)],
        }),
    decreases t,
{
    let tail: Seq<RelationModel> = match relation_pipeline(relations[t], ways, nodes) {
        None => Seq::empty(),
        Some(shape) => seq![(relations[t].id, tags_view(relations[t].tags@), shape)],
    };
    if t == 0 {
        assert(relations.take(1).drop_first() =~= Seq::<RelationWithMembers>::empty());
        assert(relations.take(1)[0] == relations[0]);
        assert(relations.take(0) =~= Seq::<RelationWithMembers>::empty());
        assert(spec_build_relations(relations.take(1), ways, nodes) =~= spec_build_relations(
            relations.take(0),
            ways,
            nodes,
        ) + tail);
    } else {
        lemma_spec_build_snoc(relations.drop_first(), t - 1, ways, nodes);
        assert(relations.take(t + 1).drop_first() =~= relations.drop_first().take(t));
        assert(relations.take(t).drop_first() =~= relations.drop_first().take(t - 1));
        assert(relations.take(t + 1)[0] == relations[0]);
        assert(relations.take(t)[0] == relations[0]);
        assert(relations.drop_first()[t - 1] == relations[t]);
        assert(spec_build_relations(relations.take(t + 1), ways, nodes)
            =~= spec_build_relations(relations.take(t), ways, nodes) + tail);
    }
}

/// The emitted relation keeps the id and tags of some input relation.
pub open spec fn from_some_relation(
    out: RelationWithLocations,
    relations: Seq<RelationWithMembers>,
) -> bool {
    exists|j: int|
        0 <= j < relations.len() && out.id == (#[trigger] relations[j]).id && tags_view(out.tags@)
            == tags_view(relations[j].tags@)
}

/// Assemble each selected relation into its multi-polygon, exactly as
/// `spec_build_relations` walks them: one emitted relation per input
/// relation whose `relation_pipeline` succeeds, in input order, with that
/// relation's id, tags and assembled shape.
///
/// A relation is skipped — with no error, per the partial-data rule — when
/// a ring fails to close, when a referenced node is absent, or when it
/// yields no outer polygon. Every emitted relation carries a non-empty
/// multi-polygon whose rings are all closed.
#[verifier::loop_isolation(false)]
pub fn build_relations(
    relations: &Vec<RelationWithMembers>,
    ways: &Vec<(i64, Vec<i64>)>,
    nodes: &Vec<(i64, (i64, i64))>,
) -> (r: Vec<RelationWithLocations>)
    ensures
        relations_model(r@) == spec_build_relations(relations@, ways@, nodes@),
        forall|i: int| 0 <= i < r@.len() ==> from_some_relation(#[trigger] r@[i], relations@),
        forall|i: int| 0 <= i < r@.len() ==> (#[trigger] r@[i]).shape@.len() >= 1,
        forall|i: int, p: int|
            0 <= i < r@.len() && 0 <= p < r@[i].shape@.len() ==> polygon_rings_closed(
                #[trigger] (#[trigger] r@[i]).shape@[p],
            ),
{
    let mut r: Vec<RelationWithLocations> = Vec::new();
    proof {
        assert(relations@.take(0) =~= Seq::<RelationWithMembers>::empty());
        assert(relations_model(r@) =~= spec_build_relations(relations@.take(0), ways@, nodes@));
    }
    let mut t: usize = 0;
    while t < relations.len()
        invariant
            t <= relations.len(),
            relations_model(r@) == spec_build_relations(relations@.take(t as int), ways@, nodes@),
            forall|i: int| 0 <= i < r@.len() ==> from_some_relation(
                #[trigger] r@[i],
                relations@,
            ),
            forall|i: int| 0 <= i < r@.len() ==> (#[trigger] r@[i]).shape@.len() >= 1,
            forall|i: int, p: int|
                0 <= i < r@.len() && 0 <= p < r@[i].shape@.len() ==> polygon_rings_closed(
                    #[trigger] (#[trigger] r@[i]).shape@[p],
                ),
        decreases relations.len() - t,
    {
        let ghost pipeline = relation_pipeline(relations@[t as int], ways@, nodes@);
        proof {
            lemma_spec_build_snoc(relations@, t as int, ways@, nodes@);
        }
        let relation = &relations[t];
        let (mut outer_ways, mut inner_ways) = extract_ways(relation, ways);
        let ghost ow = ways_view(outer_ways@);
        let ghost iw = ways_view(inner_ways@);
        proof {
            assert(ow == resolved_ways(relations@[t as int].members@, ways@, true));
            assert(iw == resolved_ways(relations@[t as int].members@, ways@, false));
        }
        let oke = ways_all_nonempty(&outer_ways);
        let ike = ways_all_nonempty(&inner_ways);
        proof {
            // the executable check and the model-level condition agree
            if ways_nonempty(outer_ways@) {
                assert forall|i: int|
                    0 <= i < ow.len() implies (#[trigger] ow[i]).node_ids.len() >= 2 by {
                    assert(ow[i] == outer_ways@[i]@);
                }
            } else {
                let i = choose|i: int|
                    0 <= i < outer_ways@.len() && !((#[trigger] outer_ways@[i]).node_ids@.len()
                        >= 2);
                assert(ow[i] == outer_ways@[i]@);
                assert(!way_models_nonempty(ow));
            }
            if ways_nonempty(inner_ways@) {
                assert forall|i: int|
                    0 <= i < iw.len() implies (#[trigger] iw[i]).node_ids.len() >= 2 by {
                    assert(iw[i] == inner_ways@[i]@);
                }
            } else {
                let i = choose|i: int|
                    0 <= i < inner_ways@.len() && !((#[trigger] inner_ways@[i]).node_ids@.len()
                        >= 2);
                assert(iw[i] == inner_ways@[i]@);
                assert(!way_models_nonempty(iw));
            }
        }
        if oke && ike {
            let outer_rings_opt = stitch_rings(&mut outer_ways);
            let inner_rings_opt = stitch_rings(&mut inner_ways);
            match (outer_rings_opt, inner_rings_opt) {
                (Some(outer_rings), Some(inner_rings)) => {
                    proof {
                        assert(Some(id_rings_view(outer_rings@)) == spec_stitch(ow));
                        assert(Some(id_rings_view(inner_rings@)) == spec_stitch(iw));
                    }
                    if outer_rings.len() > 0 {
                        let outer_coords_opt = rings_to_coords(&outer_rings, nodes);
                        let inner_coords_opt = rings_to_coords(&inner_rings, nodes);
                        proof {
                            if outer_coords_opt is None {
                                assert(spec_rings_coords(id_rings_view(outer_rings@), nodes@)
                                    is None);
                                assert(pipeline is None);
                            } else if inner_coords_opt is None {
                                assert(spec_rings_coords(id_rings_view(inner_rings@), nodes@)
                                    is None);
                                assert(pipeline is None);
                            }
                        }
                        match (outer_coords_opt, inner_coords_opt) {
                            (Some(outer_coords), Some(inner_coords)) => {
                                let shape = assemble_polygons(&outer_coords, &inner_coords);
                                proof {
                                    let oc = rings_view(outer_coords@);
                                    let ic = rings_view(inner_coords@);
                                    assert(pipeline == Some(spec_assembled(oc, ic))) by {
                                        assert(spec_rings_coords(
                                            id_rings_view(outer_rings@),
                                            nodes@,
                                        ) == Some(oc));
                                        assert(spec_rings_coords(
                                            id_rings_view(inner_rings@),
                                            nodes@,
                                        ) == Some(ic));
                                        assert(id_rings_view(outer_rings@).len() > 0);
                                    }
                                    assert forall|p: int|
                                        0 <= p < shape@.len() implies polygon_rings_closed(
                                        #[trigger] shape@[p],
                                    ) by {
                                        assert(shape@[p].exterior@ == outer_coords@[p]@);
                                        let ivs = inners_within(
                                            inner_coords@,
                                            outer_coords@[p]@,
                                        );
                                        lemma_inners_within_closed(
                                            inner_coords@,
                                            outer_coords@[p]@,
                                        );
                                        assert(forall|k: int|
                                            0 <= k < shape@[p].interiors@.len()
                                                ==> (#[trigger] shape@[p].interiors@[k])@
                                                == ivs[k]);
                                    }
                                    // the assembled shape is the pipeline's
                                    assert(shape_model(shape@) =~= spec_assembled(oc, ic)) by {
                                        assert forall|p: int|
                                            0 <= p < shape@.len() implies shape_model(shape@)[p]
                                            == spec_assembled(oc, ic)[p] by {
                                            assert(shape_model(shape@)[p] == polygon_model(
                                                shape@[p],
                                            ));
                                            assert(shape@[p].exterior@ == outer_coords@[p]@);
                                            assert(oc[p] == outer_coords@[p]@);
                                            lemma_inners_within_view(
                                                inner_coords@,
                                                outer_coords@[p]@,
                                            );
                                            assert(rings_view(shape@[p].interiors@)
                                                == inners_within_m(ic, oc[p]));
                                        }
                                    }
                                }
                                let ghost r_pre = r@;
                                r.push(
                                    RelationWithLocations {
                                        id: relation.id,
                                        shape,
                                        tags: clone_tags(&relation.tags),
                                    },
                                );
                                proof {
                                    assert(tags_view(r@.last().tags@) =~= tags_view(
                                        relations@[t as int].tags@,
                                    ));
                                    assert(r@.last().id == relations@[t as int].id);
                                    assert forall|i: int|
                                        0 <= i < r@.len() implies from_some_relation(
                                        #[trigger] r@[i],
                                        relations@,
                                    ) by {
                                        if i < r@.len() - 1 {
                                            assert(r@[i] == r_pre[i]);
                                        } else {
                                            assert(r@[i].id == (
                                            #[trigger] relations@[t as int]).id && tags_view(
                                                r@[i].tags@,
                                            ) == tags_view(relations@[t as int].tags@));
                                        }
                                    }
                                    assert(relations_model(r@) =~= relations_model(r_pre)
                                        + seq![
                                        (
                                            relations@[t as int].id,
                                            tags_view(relations@[t as int].tags@),
                                            pipeline.unwrap(),
                                        ),
                                    ]) by {
                                        assert(relations_model(r@)[r_pre.len() as int] == (
                                            r@.last().id,
                                            tags_view(r@.last().tags@),
                                            shape_model(r@.last().shape@),
                                        ));
                                    }
                                    assert(relations_model(r@) =~= spec_build_relations(
                                        relations@.take(t as int + 1),
                                        ways@,
                                        nodes@,
                                    ));
                                }
                            },
                            _ => {
                                proof {
                                    assert(pipeline is None);
                                    assert(relations_model(r@) =~= spec_build_relations(
                                        relations@.take(t as int + 1),
                                        ways@,
                                        nodes@,
                                    ));
                                }
                            },
                        }
                    } else {
                        proof {
                            assert(id_rings_view(outer_rings@).len() == 0);
                            assert(pipeline is None);
                            assert(relations_model(r@) =~= spec_build_relations(
                                relations@.take(t as int + 1),
                                ways@,
                                nodes@,
                            ));
                        }
                    }
                },
                (o_opt, i_opt) => {
                    proof {
                        if o_opt is None {
                            assert(spec_stitch(ow) is None);
                        } else {
                            assert(i_opt is None);
                            assert(spec_stitch(iw) is None);
                        }
                        assert(pipeline is None);
                        assert(relations_model(r@) =~= spec_build_relations(
                            relations@.take(t as int + 1),
                            ways@,
                            nodes@,
                        ));
                    }
                },
            }
        } else {
            proof {
                assert(!(way_models_nonempty(ow) && way_models_nonempty(iw)));
                assert(pipeline is None);
                assert(relations_model(r@) =~= spec_build_relations(
                    relations@.take(t as int + 1),
                    ways@,
                    nodes@,
                ));
            }
        }
        t = t + 1;
    }
    proof {
        assert(relations@.take(relations@.len() as int) =~= relations@);
    }
    r
}

/// Rings within a list of closed rings are closed.
proof fn lemma_inners_within_closed(inners: Seq<Vec<(i64, i64)>>, outer: Seq<(i64, i64)>)
    requires
        forall|i: int| 0 <= i < inners.len() ==> (#[trigger] inners[i])@.len() >= 2
            && inners[i]@.first() == inners[i]@.last(),
    ensures
        forall|k: int| 0 <= k < inners_within(inners, outer).len()
            ==> (#[trigger] inners_within(inners, outer)[k]).len() >= 2 && inners_within(
            inners,
            outer,
        )[k].first() == inners_within(inners, outer)[k].last(),
    decreases inners.len(),
{
    if inners.len() > 0 {
        assert(forall|i: int|
            0 <= i < inners.drop_first().len() ==> #[trigger] inners.drop_first()[i] == inners[
                i + 1
            ]);
        lemma_inners_within_closed(inners.drop_first(), outer);
        let iv = inners_within(inners, outer);
        let rest = inners_within(inners.drop_first(), outer);
        assert forall|k: int| 0 <= k < iv.len() implies (#[trigger] iv[k]).len() >= 2
            && iv[k].first() == iv[k].last() by {
            if ring_within(inners[0]@, outer) {
                if k == 0 {
                    assert(iv[k] == inners[0]@);
                } else {
                    assert(iv[k] == rest[k - 1]);
                }
            } else {
                assert(iv[k] == rest[k]);
            }
        }
    }
}

/// Whether every way carries at least two nodes; ways that do not cannot
/// come from OSM data and fail the relation.
fn ways_all_nonempty(ways: &Vec<Way>) -> (r: bool)
    ensures
        r == ways_nonempty(ways@),
{
    let mut i: usize = 0;
    while i < ways.len()
        invariant
            i <= ways.len(),
            forall|j: int| 0 <= j < i ==> (#[trigger] ways@[j]).node_ids@.len() >= 2,
        decreases ways.len() - i,
    {
        if ways[i].node_ids.len() < 2 {
            proof {
                assert(!ways_nonempty(ways@));
            }
            return false;
        }
        i = i + 1;
    }
    true
}

/// Copy a tag list.
fn clone_tags(v: &Vec<(Vec<u8>, Vec<u8>)>) -> (r: Vec<(Vec<u8>, Vec<u8>)>)
    ensures
        r@.len() == v@.len(),
        forall|i: int| 0 <= i < v@.len() ==> (#[trigger] r@[i]).0@ == v@[i].0@ && r@[i].1@
            == v@[i].1@,
{
    let mut r: Vec<(Vec<u8>, Vec<u8>)> = Vec::new();
    let mut i: usize = 0;
    while i < v.len()
        invariant
            i <= v.len(),
            r@.len() == i,
            forall|j: int| 0 <= j < i ==> (#[trigger] r@[j]).0@ == v@[j].0@ && r@[j].1@
                == v@[j].1@,
        decreases v.len() - i,
    {
        r.push(
            (crate::merge::clone_bytes(&v[i].0), crate::merge::clone_bytes(&v[i].1)),
        );
        i = i + 1;
    }
    r
}

} // verus!
