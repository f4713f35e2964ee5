//! The filler: one polygon's geohash-cell decomposition.
//!
//! Starting from the 32 depth-1 cells, each cell is tested against the
//! polygon clipped to the cell's ancestors. A fully contained cell becomes
//! a direct entry and is not refined; a cell the polygon only meets is
//! split into its 32 children (carrying the clipped polygon) until the
//! maximum depth, where it becomes a partial entry holding the clip; a
//! disjoint cell is pruned.
//!
//! The contract pins the output down exactly, over the named geometry
//! predicates of `crate::geoshape`: an entry appears for a cell if and
//! only if the cell is reachable through a chain of met-but-not-contained
//! ancestors and the cell's own test decides it.

use vstd::prelude::*;
use crate::cells::{
    alphabet, is_geohash_byte, lemma_geohash_byte_in_alphabet, spec_alphabet, valid_hash,
};
use crate::geoshape::{
    cell_clip, cell_meets_shape, cell_within_shape, check_shape, clip_shape_to_cell, is_shape,
    shape_contains_cell, shape_intersects_cell,
};
use crate::merge::clone_bytes;
use crate::types::{Feature, GeohashIndex, ShouldCheck, TopodexConfig};

verus! {

/// The polygon as clipped along the ancestors of cell `h`: depth-1 cells
/// are tested against the polygon itself, a deeper cell against its
/// parent's area clipped to the parent's rectangle.
pub open spec fn area_of(shape: Seq<u8>, h: Seq<u8>) -> Seq<u8>
    decreases h.len(),
{
    if h.len() <= 1 {
        shape
    } else {
        cell_clip(area_of(shape, h.drop_last()), h.drop_last())
    }
}

/// Cell `h` is reachable in the refinement: every strict ancestor was met
/// by its area but not fully contained in it.
pub open spec fn chain_live(shape: Seq<u8>, h: Seq<u8>) -> bool
    decreases h.len(),
{
    if h.len() <= 1 {
        true
    } else {
        &&& chain_live(shape, h.drop_last())
        &&& cell_meets_shape(area_of(shape, h.drop_last()), h.drop_last())
        &&& !cell_within_shape(area_of(shape, h.drop_last()), h.drop_last())
    }
}

/// Cell `h` earns a direct entry: it is reachable and its rectangle is
/// fully contained in its area.
pub open spec fn direct_cell(shape: Seq<u8>, max_level: int, h: Seq<u8>) -> bool {
    &&& valid_hash(h, max_level)
    &&& chain_live(shape, h)
    &&& cell_within_shape(area_of(shape, h), h)
}

/// Cell `h` earns a partial entry: it sits at the maximum depth, is
/// reachable, and its area meets it without containing it.
pub open spec fn partial_cell(shape: Seq<u8>, max_level: int, h: Seq<u8>) -> bool {
    &&& h.len() == max_level
    &&& valid_hash(h, max_level)
    &&& chain_live(shape, h)
    &&& !cell_within_shape(area_of(shape, h), h)
    &&& cell_meets_shape(area_of(shape, h), h)
}

/// The entry is a direct entry for cell `h` with value `v`.
pub open spec fn entry_is_direct(e: GeohashIndex, h: Seq<u8>, v: Seq<u8>) -> bool {
    match e {
        GeohashIndex::DirectValue { hash, value } => hash@ == h && value@ == v,
        GeohashIndex::PartialValue { .. } => false,
    }
}

/// The entry is a partial entry for cell `h` with value `v` and clipped
/// shape `s`.
pub open spec fn entry_is_partial(e: GeohashIndex, h: Seq<u8>, v: Seq<u8>, s: Seq<u8>) -> bool {
    match e {
        GeohashIndex::PartialValue { hash, value, shape } => hash@ == h && value@ == v && shape@
            == s,
        GeohashIndex::DirectValue { .. } => false,
    }
}

/// Some entry is a direct entry for cell `h` with value `v`.
pub open spec fn has_direct(r: Seq<GeohashIndex>, h: Seq<u8>, v: Seq<u8>) -> bool {
    exists|i: int| 0 <= i < r.len() && entry_is_direct(#[trigger] r[i], h, v)
}

/// Some entry is a partial entry for cell `h` with value `v` and shape `s`.
pub open spec fn has_partial(r: Seq<GeohashIndex>, h: Seq<u8>, v: Seq<u8>, s: Seq<u8>) -> bool {
    exists|i: int| 0 <= i < r.len() && entry_is_partial(#[trigger] r[i], h, v, s)
}

/// The entry is earned by its cell, carries value `value`, and a partial
/// entry carries exactly the clip of its cell's area.
pub open spec fn entry_sound(e: GeohashIndex, shape: Seq<u8>, value: Seq<u8>, max_level: int) -> bool {
    match e {
        GeohashIndex::DirectValue { hash, value: v } => v@ == value && direct_cell(
            shape,
            max_level,
            hash@,
        ),
        GeohashIndex::PartialValue { hash, value: v, shape: s } => v@ == value && partial_cell(
            shape,
            max_level,
            hash@,
        ) && s@ == cell_clip(area_of(shape, hash@), hash@),
    }
}

/// The filler's contract: every entry is earned, and every earning cell
/// has its entry.
pub open spec fn fill_output_ok(
    shape: Seq<u8>,
    value: Seq<u8>,
    max_level: int,
    r: Seq<GeohashIndex>,
) -> bool {
    &&& forall|i: int| 0 <= i < r.len() ==> entry_sound(#[trigger] r[i], shape, value, max_level)
    &&& forall|i: int, j: int| 0 <= i < j < r.len() ==> (#[trigger] r[i]).spec_hash() != (
    #[trigger] r[j]).spec_hash()
    &&& forall|h: Seq<u8>| #[trigger] direct_cell(shape, max_level, h) ==> has_direct(r, h, value)
    &&& forall|h: Seq<u8>| #[trigger] partial_cell(shape, max_level, h) ==> has_partial(
        r,
        h,
        value,
        cell_clip(area_of(shape, h), h),
    )
}

/// A frontier cell of depth `d` is well formed: its name has `d` valid
/// bytes, its chain is live, and its area is the polygon clipped along its
/// ancestors.
pub open spec fn frontier_cell_ok(shape: Seq<u8>, max_level: int, d: int, c: ShouldCheck) -> bool {
    &&& c.hash@.len() == d
    &&& 1 <= d <= max_level
    &&& forall|b: int| 0 <= b < c.hash@.len() ==> #[trigger] is_geohash_byte(c.hash@[b])
    &&& chain_live(shape, c.hash@)
    &&& is_shape(c.area@)
    &&& c.area@ == area_of(shape, c.hash@)
}

/// Some frontier cell has name `h`.
pub open spec fn frontier_has(frontier: Seq<ShouldCheck>, h: Seq<u8>) -> bool {
    exists|x: int| 0 <= x < frontier.len() && (#[trigger] frontier[x]).hash@ == h
}

/// A processed frontier cell left its mark: a contained cell has its
/// direct entry; a met cell above the maximum depth has all 32 children in
/// the next frontier; a met cell at the maximum depth has its partial
/// entry.
pub open spec fn processed_ok(
    shape: Seq<u8>,
    value: Seq<u8>,
    max_level: int,
    d: int,
    c: ShouldCheck,
    r: Seq<GeohashIndex>,
    next: Seq<ShouldCheck>,
) -> bool {
    &&& (cell_within_shape(area_of(shape, c.hash@), c.hash@) ==> has_direct(r, c.hash@, value))
    &&& (!cell_within_shape(area_of(shape, c.hash@), c.hash@) && cell_meets_shape(
        area_of(shape, c.hash@),
        c.hash@,
    ) && d < max_level ==> forall|ci: int| 0 <= ci < 32 ==> frontier_has(
        next,
        c.hash@.push(#[trigger] spec_alphabet()[ci]),
    ))
    &&& (!cell_within_shape(area_of(shape, c.hash@), c.hash@) && cell_meets_shape(
        area_of(shape, c.hash@),
        c.hash@,
    ) && d == max_level ==> has_partial(
        r,
        c.hash@,
        value,
        cell_clip(area_of(shape, c.hash@), c.hash@),
    ))
}

/// Entries, once present, stay present as the output grows.
proof fn lemma_entries_grow(pre: Seq<GeohashIndex>, post: Seq<GeohashIndex>)
    requires
        pre.len() <= post.len(),
        forall|i: int| 0 <= i < pre.len() ==> post[i] == pre[i],
    ensures
        forall|h: Seq<u8>, v: Seq<u8>| has_direct(pre, h, v) ==> has_direct(post, h, v),
        forall|h: Seq<u8>, v: Seq<u8>, s: Seq<u8>| has_partial(pre, h, v, s) ==> has_partial(
            post,
            h,
            v,
            s,
        ),
{
    assert forall|h: Seq<u8>, v: Seq<u8>| has_direct(pre, h, v) implies has_direct(post, h, v) by {
        let i = choose|i: int| 0 <= i < pre.len() && entry_is_direct(#[trigger] pre[i], h, v);
        assert(entry_is_direct(post[i], h, v));
    }
    assert forall|h: Seq<u8>, v: Seq<u8>, s: Seq<u8>| has_partial(pre, h, v, s) implies has_partial(
        post,
        h,
        v,
        s,
    ) by {
        let i = choose|i: int| 0 <= i < pre.len() && entry_is_partial(#[trigger] pre[i], h, v, s);
        assert(entry_is_partial(post[i], h, v, s));
    }
}

/// A processed cell's mark survives later growth of the output and of the
/// next frontier.
proof fn lemma_processed_grow(
    shape: Seq<u8>,
    value: Seq<u8>,
    max_level: int,
    d: int,
    c: ShouldCheck,
    r_pre: Seq<GeohashIndex>,
    r_post: Seq<GeohashIndex>,
    next_pre: Seq<ShouldCheck>,
    next_post: Seq<ShouldCheck>,
)
    requires
        processed_ok(shape, value, max_level, d, c, r_pre, next_pre),
        r_pre.len() <= r_post.len(),
        forall|i: int| 0 <= i < r_pre.len() ==> r_post[i] == r_pre[i],
        next_pre.len() <= next_post.len(),
        forall|i: int| 0 <= i < next_pre.len() ==> next_post[i] == next_pre[i],
    ensures
        processed_ok(shape, value, max_level, d, c, r_post, next_post),
{
    lemma_entries_grow(r_pre, r_post);
    assert forall|h: Seq<u8>| frontier_has(next_pre, h) implies frontier_has(next_post, h) by {
        let x = choose|x: int| 0 <= x < next_pre.len() && (#[trigger] next_pre[x]).hash@ == h;
        assert(next_post[x].hash@ == h);
    }
}

/// Process one frontier cell: emit its direct entry, refine it into the
/// next frontier, emit its partial entry, or prune it.
#[verifier::loop_isolation(false)]
fn refine_cell(
    check: &ShouldCheck,
    value: &Vec<u8>,
    level: usize,
    max_level: usize,
    Ghost(shape): Ghost<Seq<u8>>,
    geohashes: &mut Vec<GeohashIndex>,
    next: &mut Vec<ShouldCheck>,
)
    requires
        1 <= level <= max_level <= 12,
        frontier_cell_ok(shape, max_level as int, level as int, *check),
    ensures
        old(geohashes)@.len() <= final(geohashes)@.len(),
        forall|i: int| 0 <= i < old(geohashes)@.len() ==> final(geohashes)@[i] == old(
            geohashes,
        )@[i],
        old(next)@.len() <= final(next)@.len(),
        forall|i: int| 0 <= i < old(next)@.len() ==> final(next)@[i] == old(next)@[i],
        forall|i: int|
            old(geohashes)@.len() <= i < final(geohashes)@.len() ==> entry_sound(
                #[trigger] final(geohashes)@[i],
                shape,
                value@,
                max_level as int,
            ),
        forall|y: int|
            old(next)@.len() <= y < final(next)@.len() ==> frontier_cell_ok(
                shape,
                max_level as int,
                level as int + 1,
                #[trigger] final(next)@[y],
            ),
        final(geohashes)@.len() <= old(geohashes)@.len() + 1,
        forall|i: int|
            old(geohashes)@.len() <= i < final(geohashes)@.len()
                ==> (#[trigger] final(geohashes)@[i]).spec_hash() == check.hash@,
        forall|y: int|
            old(next)@.len() <= y < final(next)@.len()
                ==> (#[trigger] final(next)@[y]).hash@.drop_last() == check.hash@,
        forall|y1: int, y2: int|
            old(next)@.len() <= y1 < y2 < final(next)@.len()
                ==> (#[trigger] final(next)@[y1]).hash@ != (#[trigger] final(next)@[y2]).hash@,
        processed_ok(
            shape,
            value@,
            max_level as int,
            level as int,
            *check,
            final(geohashes)@,
            final(next)@,
        ),
{
    let ghost next_pre = next@;
    if shape_contains_cell(&check.area, &check.hash) {
        geohashes.push(
            GeohashIndex::DirectValue { hash: clone_bytes(&check.hash), value: clone_bytes(value) },
        );
        proof {
            assert(entry_is_direct(geohashes@.last(), check.hash@, value@));
            assert(direct_cell(shape, max_level as int, check.hash@));
        }
    } else if shape_intersects_cell(&check.area, &check.hash) {
        if level < max_level {
            let clipped = clip_shape_to_cell(&check.area, &check.hash);
            let alpha = alphabet();
            let mut ci: usize = 0;
            while ci < 32
                invariant
                    ci <= 32,
                    next@.len() == next_pre.len() + ci,
                    forall|x: int| 0 <= x < next_pre.len() ==> next@[x] == next_pre[x],
                    forall|c: int| 0 <= c < ci ==> (#[trigger] next@[next_pre.len() + c]).hash@
                        == check.hash@.push(spec_alphabet()[c]) && next@[next_pre.len() + c].area@
                        == clipped@,
                decreases 32 - ci,
            {
                let mut child_hash = clone_bytes(&check.hash);
                child_hash.push(alpha[ci]);
                proof {
                    assert(child_hash@ =~= check.hash@.push(spec_alphabet()[ci as int]));
                }
                next.push(ShouldCheck { hash: child_hash, area: clone_bytes(&clipped) });
                ci = ci + 1;
            }
            proof {
                crate::cells::lemma_alphabet_bytes_valid();
                assert forall|y: int|
                    next_pre.len() <= y < next@.len() implies frontier_cell_ok(
                    shape,
                    max_level as int,
                    level as int + 1,
                    #[trigger] next@[y],
                ) by {
                    let c = y - next_pre.len();
                    assert(next@[y] == next@[next_pre.len() + c]);
                    let child = next@[y].hash@;
                    assert(child == check.hash@.push(spec_alphabet()[c]));
                    assert(child.drop_last() =~= check.hash@);
                    assert(child.last() == spec_alphabet()[c]);
                    assert forall|b: int| 0 <= b < child.len() implies #[trigger] is_geohash_byte(
                        child[b],
                    ) by {
                        if b < check.hash@.len() {
                            assert(child[b] == check.hash@[b]);
                        } else {
                            assert(child[b] == spec_alphabet()[c]);
                        }
                    }
                    assert(area_of(shape, child) == cell_clip(
                        area_of(shape, check.hash@),
                        check.hash@,
                    )) by {
                        assert(child.drop_last() == check.hash@);
                        assert(child.len() > 1);
                    }
                    assert(chain_live(shape, child));
                }
                assert forall|ci2: int| 0 <= ci2 < 32 implies frontier_has(
                    next@,
                    check.hash@.push(#[trigger] spec_alphabet()[ci2]),
                ) by {
                    assert(next@[next_pre.len() + ci2].hash@ == check.hash@.push(
                        spec_alphabet()[ci2],
                    ));
                }
                assert forall|y: int|
                    next_pre.len() <= y < next@.len() implies (#[trigger] next@[y]).hash@.drop_last()
                    == check.hash@ by {
                    let c = y - next_pre.len();
                    assert(next@[y] == next@[next_pre.len() + c]);
                    assert(next@[y].hash@ == check.hash@.push(spec_alphabet()[c]));
                    assert(check.hash@.push(spec_alphabet()[c]).drop_last() =~= check.hash@);
                }
                crate::cells::lemma_alphabet_distinct();
                assert forall|y1: int, y2: int|
                    next_pre.len() <= y1 < y2 < next@.len() implies (#[trigger] next@[y1]).hash@
                    != (#[trigger] next@[y2]).hash@ by {
                    let c1 = y1 - next_pre.len();
                    let c2 = y2 - next_pre.len();
                    assert(next@[y1] == next@[next_pre.len() + c1]);
                    assert(next@[y2] == next@[next_pre.len() + c2]);
                    assert(next@[y1].hash@ == check.hash@.push(spec_alphabet()[c1]));
                    assert(next@[y2].hash@ == check.hash@.push(spec_alphabet()[c2]));
                    assert(spec_alphabet()[c1] != spec_alphabet()[c2]);
                    assert(next@[y1].hash@.last() != next@[y2].hash@.last());
                }
            }
        } else {
            let clipped = clip_shape_to_cell(&check.area, &check.hash);
            geohashes.push(
                GeohashIndex::PartialValue {
                    hash: clone_bytes(&check.hash),
                    value: clone_bytes(value),
                    shape: clipped,
                },
            );
            proof {
                assert(entry_is_partial(
                    geohashes@.last(),
                    check.hash@,
                    value@,
                    cell_clip(area_of(shape, check.hash@), check.hash@),
                ));
                assert(partial_cell(shape, max_level as int, check.hash@));
            }
        }
    }
}

/// Process one whole frontier level: refine every cell, extending the
/// output, and hand back the next frontier.
#[verifier::loop_isolation(false)]
fn process_level(
    frontier: &Vec<ShouldCheck>,
    value: &Vec<u8>,
    level: usize,
    max_level: usize,
    Ghost(shape): Ghost<Seq<u8>>,
    geohashes: &mut Vec<GeohashIndex>,
) -> (next: Vec<ShouldCheck>)
    requires
        1 <= level <= max_level <= 12,
        forall|x: int| 0 <= x < frontier@.len() ==> frontier_cell_ok(
            shape,
            max_level as int,
            level as int,
            #[trigger] frontier@[x],
        ),
        forall|i: int| 0 <= i < old(geohashes)@.len() ==> entry_sound(
            #[trigger] old(geohashes)@[i],
            shape,
            value@,
            max_level as int,
        ),
        forall|x1: int, x2: int|
            0 <= x1 < x2 < frontier@.len() ==> (#[trigger] frontier@[x1]).hash@ != (
            #[trigger] frontier@[x2]).hash@,
        forall|i: int, j: int|
            0 <= i < j < old(geohashes)@.len() ==> (#[trigger] old(geohashes)@[i]).spec_hash() != (
            #[trigger] old(geohashes)@[j]).spec_hash(),
        forall|i: int|
            0 <= i < old(geohashes)@.len() ==> (#[trigger] old(geohashes)@[i]).spec_hash().len()
                < level,
    ensures
        old(geohashes)@.len() <= final(geohashes)@.len(),
        forall|i: int| 0 <= i < old(geohashes)@.len() ==> final(geohashes)@[i] == old(
            geohashes,
        )@[i],
        forall|i: int| 0 <= i < final(geohashes)@.len() ==> entry_sound(
            #[trigger] final(geohashes)@[i],
            shape,
            value@,
            max_level as int,
        ),
        forall|x: int| 0 <= x < frontier@.len() ==> processed_ok(
            shape,
            value@,
            max_level as int,
            level as int,
            #[trigger] frontier@[x],
            final(geohashes)@,
            next@,
        ),
        forall|y: int| 0 <= y < next@.len() ==> frontier_cell_ok(
            shape,
            max_level as int,
            level as int + 1,
            #[trigger] next@[y],
        ),
        forall|i: int, j: int|
            0 <= i < j < final(geohashes)@.len()
                ==> (#[trigger] final(geohashes)@[i]).spec_hash()
                != (#[trigger] final(geohashes)@[j]).spec_hash(),
        forall|i: int|
            old(geohashes)@.len() <= i < final(geohashes)@.len()
                ==> (#[trigger] final(geohashes)@[i]).spec_hash().len() == level,
        forall|y1: int, y2: int|
            0 <= y1 < y2 < next@.len() ==> (#[trigger] next@[y1]).hash@ != (
            #[trigger] next@[y2]).hash@,
{
    let mut next: Vec<ShouldCheck> = Vec::new();
    let mut f: usize = 0;
    while f < frontier.len()
        invariant
            f <= frontier.len(),
            old(geohashes)@.len() <= geohashes@.len(),
            forall|i: int| 0 <= i < old(geohashes)@.len() ==> geohashes@[i] == old(
                geohashes,
            )@[i],
            forall|i: int| 0 <= i < geohashes@.len() ==> entry_sound(
                #[trigger] geohashes@[i],
                shape,
                value@,
                max_level as int,
            ),
            forall|x: int| 0 <= x < f ==> processed_ok(
                shape,
                value@,
                max_level as int,
                level as int,
                #[trigger] frontier@[x],
                geohashes@,
                next@,
            ),
            forall|y: int| 0 <= y < next@.len() ==> frontier_cell_ok(
                shape,
                max_level as int,
                level as int + 1,
                #[trigger] next@[y],
            ),
            forall|i: int, j: int|
                0 <= i < j < geohashes@.len() ==> (#[trigger] geohashes@[i]).spec_hash() != (
                #[trigger] geohashes@[j]).spec_hash(),
            forall|i: int|
                old(geohashes)@.len() <= i < geohashes@.len() ==> exists|x: int|
                    0 <= x < f && (#[trigger] geohashes@[i]).spec_hash() == (
                    #[trigger] frontier@[x]).hash@,
            forall|y1: int, y2: int|
                0 <= y1 < y2 < next@.len() ==> (#[trigger] next@[y1]).hash@ != (
                #[trigger] next@[y2]).hash@,
            forall|y: int|
                0 <= y < next@.len() ==> exists|x: int|
                    0 <= x < f && (#[trigger] next@[y]).hash@.drop_last() == (
                    #[trigger] frontier@[x]).hash@,
        decreases frontier.len() - f,
    {
        let ghost geo_pre = geohashes@;
        let ghost next_pre = next@;
        let check = &frontier[f];
        refine_cell(check, value, level, max_level, Ghost(shape), geohashes, &mut next);
        proof {
            assert forall|x: int| 0 <= x < f + 1 implies processed_ok(
                shape,
                value@,
                max_level as int,
                level as int,
                #[trigger] frontier@[x],
                geohashes@,
                next@,
            ) by {
                if x < f {
                    lemma_processed_grow(
                        shape,
                        value@,
                        max_level as int,
                        level as int,
                        frontier@[x],
                        geo_pre,
                        geohashes@,
                        next_pre,
                        next@,
                    );
                }
            }
            // at most one entry was emitted, for this cell's name, which no
            // earlier entry carries
            assert forall|i: int, j: int|
                0 <= i < j < geohashes@.len() implies (#[trigger] geohashes@[i]).spec_hash() != (
            #[trigger] geohashes@[j]).spec_hash() by {
                if j >= geo_pre.len() {
                    assert(geohashes@[j].spec_hash() == frontier@[f as int].hash@);
                    if i < old(geohashes)@.len() {
                        assert(geohashes@[i].spec_hash().len() < level);
                        assert(frontier@[f as int].hash@.len() == level);
                    } else {
                        let x = choose|x: int|
                            0 <= x < f && (#[trigger] geohashes@[i]).spec_hash() == (
                            #[trigger] frontier@[x]).hash@;
                        assert(frontier@[x].hash@ != frontier@[f as int].hash@);
                    }
                }
            }
            assert forall|i: int|
                old(geohashes)@.len() <= i < geohashes@.len() implies exists|x: int|
                    0 <= x < f + 1 && (#[trigger] geohashes@[i]).spec_hash() == (
                    #[trigger] frontier@[x]).hash@ by {
                if i < geo_pre.len() {
                    let x = choose|x: int|
                        0 <= x < f && (#[trigger] geohashes@[i]).spec_hash() == (
                        #[trigger] frontier@[x]).hash@;
                    assert(geohashes@[i].spec_hash() == frontier@[x].hash@);
                } else {
                    assert(geohashes@[i].spec_hash() == (#[trigger] frontier@[f as int]).hash@);
                }
            }
            // the new frontier cells are this cell's children, distinct among
            // themselves and from every earlier cell's children
            assert forall|y1: int, y2: int|
                0 <= y1 < y2 < next@.len() implies (#[trigger] next@[y1]).hash@ != (
            #[trigger] next@[y2]).hash@ by {
                if y1 < next_pre.len() && y2 >= next_pre.len() {
                    let x = choose|x: int|
                        0 <= x < f && (#[trigger] next@[y1]).hash@.drop_last() == (
                        #[trigger] frontier@[x]).hash@;
                    assert(next@[y2].hash@.drop_last() == frontier@[f as int].hash@);
                    assert(frontier@[x].hash@ != frontier@[f as int].hash@);
                }
            }
            assert forall|y: int|
                0 <= y < next@.len() implies exists|x: int|
                    0 <= x < f + 1 && (#[trigger] next@[y]).hash@.drop_last() == (
                    #[trigger] frontier@[x]).hash@ by {
                if y < next_pre.len() {
                    let x = choose|x: int|
                        0 <= x < f && (#[trigger] next@[y]).hash@.drop_last() == (
                        #[trigger] frontier@[x]).hash@;
                    assert(next@[y].hash@.drop_last() == frontier@[x].hash@);
                } else {
                    assert(next@[y].hash@.drop_last() == (#[trigger] frontier@[f as int]).hash@);
                }
            }
        }
        f = f + 1;
    }
    proof {
        assert forall|i: int|
            old(geohashes)@.len() <= i < geohashes@.len() implies (
        #[trigger] geohashes@[i]).spec_hash().len() == level by {
            let x = choose|x: int|
                0 <= x < frontier@.len() && (#[trigger] geohashes@[i]).spec_hash() == (
                #[trigger] frontier@[x]).hash@;
            assert(frontier@[x].hash@.len() == level);
        }
    }
    next
}

/// What one fully processed level establishes: the next frontier carries
/// every live cell one deeper, the level's direct cells are all in the
/// output, and at the maximum depth so are its partial cells.
proof fn lemma_level_complete(
    shape: Seq<u8>,
    value: Seq<u8>,
    max_level: int,
    level: int,
    frontier: Seq<ShouldCheck>,
    r: Seq<GeohashIndex>,
    next: Seq<ShouldCheck>,
)
    requires
        1 <= level <= max_level <= 12,
        forall|x: int| 0 <= x < frontier.len() ==> frontier_cell_ok(
            shape,
            max_level,
            level,
            #[trigger] frontier[x],
        ),
        forall|h: Seq<u8>|
            h.len() == level && valid_hash(h, max_level) && chain_live(shape, h) ==> frontier_has(
                frontier,
                h,
            ),
        forall|x: int| 0 <= x < frontier.len() ==> processed_ok(
            shape,
            value,
            max_level,
            level,
            #[trigger] frontier[x],
            r,
            next,
        ),
    ensures
        level < max_level ==> forall|h: Seq<u8>|
            h.len() == level + 1 && valid_hash(h, max_level) && chain_live(shape, h)
                ==> frontier_has(next, h),
        forall|h: Seq<u8>|
            #[trigger] direct_cell(shape, max_level, h) && h.len() == level ==> has_direct(
                r,
                h,
                value,
            ),
        level == max_level ==> forall|h: Seq<u8>|
            #[trigger] partial_cell(shape, max_level, h) ==> has_partial(
                r,
                h,
                value,
                cell_clip(area_of(shape, h), h),
            ),
{
    if level < max_level {
        assert forall|h: Seq<u8>|
            h.len() == level + 1 && valid_hash(h, max_level) && chain_live(
                shape,
                h,
            ) implies frontier_has(next, h) by {
            let parent = h.drop_last();
            assert(parent.len() == level);
            assert(valid_hash(parent, max_level)) by {
                assert forall|b: int| 0 <= b < parent.len() implies #[trigger] is_geohash_byte(
                    parent[b],
                ) by {
                    assert(parent[b] == h[b]);
                }
            }
            assert(chain_live(shape, parent));
            assert(cell_meets_shape(area_of(shape, parent), parent));
            assert(!cell_within_shape(area_of(shape, parent), parent));
            assert(frontier_has(frontier, parent));
            let x = choose|x: int|
                0 <= x < frontier.len() && (#[trigger] frontier[x]).hash@ == parent;
            assert(processed_ok(shape, value, max_level, level, frontier[x], r, next));
            assert(is_geohash_byte(h.last()));
            lemma_geohash_byte_in_alphabet(h.last());
            let c = choose|c: int| 0 <= c < 32 && spec_alphabet()[c] == h.last();
            assert(frontier_has(next, parent.push(spec_alphabet()[c])));
            assert(parent.push(spec_alphabet()[c]) =~= h);
        }
    }
    assert forall|h: Seq<u8>|
        #[trigger] direct_cell(shape, max_level, h) && h.len() == level implies has_direct(
        r,
        h,
        value,
    ) by {
        assert(frontier_has(frontier, h));
        let x = choose|x: int| 0 <= x < frontier.len() && (#[trigger] frontier[x]).hash@ == h;
        assert(processed_ok(shape, value, max_level, level, frontier[x], r, next));
    }
    if level == max_level {
        assert forall|h: Seq<u8>| #[trigger] partial_cell(shape, max_level, h) implies has_partial(
            r,
            h,
            value,
            cell_clip(area_of(shape, h), h),
        ) by {
            assert(h.len() == level);
            assert(frontier_has(frontier, h));
            let x = choose|x: int| 0 <= x < frontier.len() && (#[trigger] frontier[x]).hash@ == h;
            assert(processed_ok(shape, value, max_level, level, frontier[x], r, next));
        }
    }
}

/// Compute the geohash-cell decomposition of one polygon up to depth
/// `max_level`.
#[verifier::loop_isolation(false)]
pub fn fill_polygon(shape: &Vec<u8>, value: &Vec<u8>, max_level: usize) -> (r: Vec<GeohashIndex>)
    requires
        is_shape(shape@),
        1 <= max_level <= 12,
    ensures
        fill_output_ok(shape@, value@, max_level as int, r@),
{
    let alpha = alphabet();
    let mut geohashes: Vec<GeohashIndex> = Vec::new();
    // the depth-1 frontier: one cell per alphabet byte, the polygon itself
    // as each cell's area
    let mut frontier: Vec<ShouldCheck> = Vec::new();
    let mut ci: usize = 0;
    while ci < 32
        invariant
            ci <= 32,
            frontier@.len() == ci,
            forall|x: int| 0 <= x < ci ==> (#[trigger] frontier@[x]).hash@ =~= seq![
                spec_alphabet()[x],
            ] && frontier@[x].area@ == shape@,
        decreases 32 - ci,
    {
        let mut h: Vec<u8> = Vec::new();
        h.push(alpha[ci]);
        frontier.push(ShouldCheck { hash: h, area: clone_bytes(shape) });
        ci = ci + 1;
    }
    proof {
        crate::cells::lemma_alphabet_bytes_valid();
        assert forall|x: int| 0 <= x < frontier@.len() implies frontier_cell_ok(
            shape@,
            max_level as int,
            1,
            #[trigger] frontier@[x],
        ) by {
            assert(frontier@[x].hash@ == seq![spec_alphabet()[x]]);
            assert(frontier@[x].hash@.len() == 1);
            assert(is_geohash_byte(frontier@[x].hash@[0]));
        }
        assert forall|h: Seq<u8>|
            h.len() == 1 && valid_hash(h, max_level as int) && chain_live(
                shape@,
                h,
            ) implies frontier_has(frontier@, h) by {
            assert(is_geohash_byte(h[0]));
            lemma_geohash_byte_in_alphabet(h[0]);
            let i = choose|i: int| 0 <= i < 32 && spec_alphabet()[i] == h[0];
            assert(frontier@[i].hash@ =~= h);
        }
        crate::cells::lemma_alphabet_distinct();
        assert forall|x1: int, x2: int|
            0 <= x1 < x2 < frontier@.len() implies (#[trigger] frontier@[x1]).hash@ != (
        #[trigger] frontier@[x2]).hash@ by {
            assert(frontier@[x1].hash@[0] == spec_alphabet()[x1]);
            assert(frontier@[x2].hash@[0] == spec_alphabet()[x2]);
        }
    }
    let mut level: usize = 1;
    while level <= max_level
        invariant
            1 <= level <= max_level + 1,
            forall|x: int| 0 <= x < frontier@.len() ==> frontier_cell_ok(
                shape@,
                max_level as int,
                level as int,
                #[trigger] frontier@[x],
            ),
            level <= max_level ==> forall|h: Seq<u8>|
                h.len() == level && valid_hash(h, max_level as int) && chain_live(shape@, h)
                    ==> frontier_has(frontier@, h),
            forall|i: int| 0 <= i < geohashes@.len() ==> entry_sound(
                #[trigger] geohashes@[i],
                shape@,
                value@,
                max_level as int,
            ),
            forall|h: Seq<u8>|
                #[trigger] direct_cell(shape@, max_level as int, h) && h.len() < level
                    ==> has_direct(geohashes@, h, value@),
            level > max_level ==> forall|h: Seq<u8>|
                #[trigger] partial_cell(shape@, max_level as int, h) ==> has_partial(
                    geohashes@,
                    h,
                    value@,
                    cell_clip(area_of(shape@, h), h),
                ),
            forall|x1: int, x2: int|
                0 <= x1 < x2 < frontier@.len() ==> (#[trigger] frontier@[x1]).hash@ != (
                #[trigger] frontier@[x2]).hash@,
            forall|i: int, j: int|
                0 <= i < j < geohashes@.len() ==> (#[trigger] geohashes@[i]).spec_hash() != (
                #[trigger] geohashes@[j]).spec_hash(),
            forall|i: int| 0 <= i < geohashes@.len() ==> (
            #[trigger] geohashes@[i]).spec_hash().len() < level,
        decreases max_level + 1 - level,
    {
        let ghost geo_pre = geohashes@;
        let next = process_level(
            &frontier,
            value,
            level,
            max_level,
            Ghost(shape@),
            &mut geohashes,
        );
        proof {
            lemma_entries_grow(geo_pre, geohashes@);
            lemma_level_complete(
                shape@,
                value@,
                max_level as int,
                level as int,
                frontier@,
                geohashes@,
                next@,
            );
            assert forall|h: Seq<u8>|
                #[trigger] direct_cell(shape@, max_level as int, h) && h.len()
                    < level + 1 implies has_direct(geohashes@, h, value@) by {
                if h.len() < level {
                    assert(has_direct(geo_pre, h, value@));
                }
            }
        }
        frontier = next;
        level = level + 1;
    }
    proof {
        assert forall|h: Seq<u8>|
            #[trigger] direct_cell(shape@, max_level as int, h) implies has_direct(
            geohashes@,
            h,
            value@,
        ) by {
            assert(h.len() <= max_level < level);
        }
    }
    geohashes
}

/// Compute the decomposition after checking that the bytes are a shape:
/// the total entry to the filler.
pub fn fill_polygon_checked(shape: &Vec<u8>, value: &Vec<u8>, max_level: usize) -> (r: Option<
    Vec<GeohashIndex>,
>)
    requires
        1 <= max_level <= 12,
    ensures
        (r is Some) == is_shape(shape@),
        r matches Some(entries) ==> fill_output_ok(shape@, value@, max_level as int, entries@),
{
    if check_shape(shape) {
        Some(fill_polygon(shape, value, max_level))
    } else {
        None
    }
}

/// The value of the first tag with the given key.
pub open spec fn tag_value(tags: Seq<(Vec<u8>, Vec<u8>)>, key: Seq<u8>) -> Option<Seq<u8>>
    decreases tags.len(),
{
    if tags.len() == 0 {
        None
    } else if tags[0].0@ == key {
        Some(tags[0].1@)
    } else {
        tag_value(tags.drop_first(), key)
    }
}

/// Look up the first tag with the given key.
#[verifier::loop_isolation(false)]
pub fn lookup_tag<'a>(tags: &'a Vec<(Vec<u8>, Vec<u8>)>, key: &Vec<u8>) -> (r: Option<&'a Vec<u8>>)
    ensures
        r matches Some(v) ==> tag_value(tags@, key@) == Some(v@),
        r is None ==> tag_value(tags@, key@) is None,
{
    proof {
        assert(tags@.skip(0) =~= tags@);
    }
    let mut i: usize = 0;
    while i < tags.len()
        invariant
            i <= tags.len(),
            tag_value(tags@, key@) == tag_value(tags@.skip(i as int), key@),
        decreases tags.len() - i,
    {
        proof {
            assert(tags@.skip(i as int)[0] == tags@[i as int]);
            assert(tags@.skip(i as int).drop_first() =~= tags@.skip(i as int + 1));
        }
        if crate::merge::bytes_eq(&tags[i].0, key) {
            return Some(&tags[i].1);
        }
        i = i + 1;
    }
    proof {
        assert(tags@.skip(tags@.len() as int) =~= Seq::<(Vec<u8>, Vec<u8>)>::empty());
    }
    None
}

/// A feature takes part in the fill: its bytes are a shape and it carries
/// the indexed attribute.
pub open spec fn feature_usable(f: Feature, config: TopodexConfig) -> bool {
    is_shape(f.shape@) && tag_value(f.properties@, config.process_property_name@) is Some
}

/// The indexed value of a usable feature.
pub open spec fn feature_value(f: Feature, config: TopodexConfig) -> Seq<u8> {
    tag_value(f.properties@, config.process_property_name@).unwrap()
}

/// The entry is the sound product of some usable feature.
pub open spec fn entry_from_some_feature(
    e: GeohashIndex,
    features: Seq<Feature>,
    config: TopodexConfig,
    max_level: int,
) -> bool {
    exists|j: int|
        0 <= j < features.len() && feature_usable(#[trigger] features[j], config) && entry_sound(
            e,
            features[j].shape@,
            feature_value(features[j], config),
            max_level,
        )
}

/// The fill stage's output decomposes feature by feature: one block per
/// feature, in order; a usable feature's block is its exact decomposition
/// under `fill_output_ok`, any other feature's block is empty.
pub open spec fn fill_stage_decomposition(
    features: Seq<Feature>,
    config: TopodexConfig,
    max_level: int,
    r: Seq<GeohashIndex>,
    segs: Seq<Seq<GeohashIndex>>,
) -> bool {
    &&& segs.len() == features.len()
    &&& r == segs.flatten()
    &&& forall|j: int|
        0 <= j < features.len() ==> if feature_usable(#[trigger] features[j], config) {
            fill_output_ok(
                features[j].shape@,
                feature_value(features[j], config),
                max_level,
                segs[j],
            )
        } else {
            segs[j].len() == 0
        }
}

/// The whole fill stage: every usable feature contributes its exact
/// decomposition, keyed by its configured attribute value; features whose
/// bytes are no shape or which lack the attribute are skipped: the output
/// is exactly the concatenation of the per-feature decompositions.
#[verifier::loop_isolation(false)]
pub fn extract_topologies(features: &Vec<Feature>, max_level: usize, config: &TopodexConfig) -> (r:
    Vec<GeohashIndex>)
    requires
        1 <= max_level <= 12,
    ensures
        exists|segs: Seq<Seq<GeohashIndex>>| fill_stage_decomposition(
            features@,
            *config,
            max_level as int,
            r@,
            segs,
        ),
        forall|i: int| 0 <= i < r@.len() ==> entry_from_some_feature(
            #[trigger] r@[i],
            features@,
            *config,
            max_level as int,
        ),
        forall|j: int, h: Seq<u8>|
            0 <= j < features@.len() && feature_usable(features@[j], *config)
                && #[trigger] direct_cell(features@[j].shape@, max_level as int, h) ==> has_direct(
                r@,
                h,
                feature_value(features@[j], *config),
            ),
        forall|j: int, h: Seq<u8>|
            0 <= j < features@.len() && feature_usable(features@[j], *config)
                && #[trigger] partial_cell(features@[j].shape@, max_level as int, h)
                ==> has_partial(
                r@,
                h,
                feature_value(features@[j], *config),
                cell_clip(area_of(features@[j].shape@, h), h),
            ),
{
    let mut r: Vec<GeohashIndex> = Vec::new();
    let ghost mut segs: Seq<Seq<GeohashIndex>> = Seq::empty();
    proof {
        assert(r@ =~= segs.flatten());
    }
    let mut t: usize = 0;
    while t < features.len()
        invariant
            t <= features.len(),
            segs.len() == t,
            r@ == segs.flatten(),
            forall|j: int|
                0 <= j < t ==> if feature_usable(#[trigger] features@[j], *config) {
                    fill_output_ok(
                        features@[j].shape@,
                        feature_value(features@[j], *config),
                        max_level as int,
                        segs[j],
                    )
                } else {
                    segs[j].len() == 0
                },
            forall|i: int| 0 <= i < r@.len() ==> entry_from_some_feature(
                #[trigger] r@[i],
                features@,
                *config,
                max_level as int,
            ),
            forall|j: int, h: Seq<u8>|
                0 <= j < t && feature_usable(features@[j], *config) && #[trigger] direct_cell(
                    features@[j].shape@,
                    max_level as int,
                    h,
                ) ==> has_direct(r@, h, feature_value(features@[j], *config)),
            forall|j: int, h: Seq<u8>|
                0 <= j < t && feature_usable(features@[j], *config) && #[trigger] partial_cell(
                    features@[j].shape@,
                    max_level as int,
                    h,
                ) ==> has_partial(
                    r@,
                    h,
                    feature_value(features@[j], *config),
                    cell_clip(area_of(features@[j].shape@, h), h),
                ),
        decreases features.len() - t,
    {
        let ghost r_pre = r@;
        let ghost segs_pre = segs;
        let feature = &features[t];
        let value_opt = lookup_tag(&feature.properties, &config.process_property_name);
        match value_opt {
            Some(value) => {
                let value = clone_bytes(value);
                match fill_polygon_checked(&feature.shape, &value, max_level) {
                    Some(mut entries) => {
                        let ghost entries_view = entries@;
                        r.append(&mut entries);
                        proof {
                            segs = segs.push(entries_view);
                            segs_pre.lemma_flatten_push(entries_view);
                            assert(r@ == r_pre + entries_view);
                            assert(forall|i: int| 0 <= i < r_pre.len() ==> r@[i] == r_pre[i]);
                            lemma_entries_grow(r_pre, r@);
                            assert(feature_usable(features@[t as int], *config));
                            assert(feature_value(features@[t as int], *config) == value@);
                            assert forall|i: int|
                                0 <= i < r@.len() implies entry_from_some_feature(
                                #[trigger] r@[i],
                                features@,
                                *config,
                                max_level as int,
                            ) by {
                                if i < r_pre.len() {
                                    assert(r@[i] == r_pre[i]);
                                    assert(entry_from_some_feature(
                                        r_pre[i],
                                        features@,
                                        *config,
                                        max_level as int,
                                    ));
                                } else {
                                    assert(r@[i] == entries_view[i - r_pre.len()]);
                                    assert(entry_sound(
                                        r@[i],
                                        features@[t as int].shape@,
                                        feature_value(features@[t as int], *config),
                                        max_level as int,
                                    ));
                                }
                            }
                            assert forall|h: Seq<u8>|
                                #[trigger] direct_cell(
                                    features@[t as int].shape@,
                                    max_level as int,
                                    h,
                                ) implies has_direct(
                                r@,
                                h,
                                feature_value(features@[t as int], *config),
                            ) by {
                                assert(has_direct(entries_view, h, value@));
                                let i = choose|i: int|
                                    0 <= i < entries_view.len() && entry_is_direct(
                                        #[trigger] entries_view[i],
                                        h,
                                        value@,
                                    );
                                assert(entry_is_direct(r@[r_pre.len() + i], h, value@));
                            }
                            assert forall|h: Seq<u8>|
                                #[trigger] partial_cell(
                                    features@[t as int].shape@,
                                    max_level as int,
                                    h,
                                ) implies has_partial(
                                r@,
                                h,
                                feature_value(features@[t as int], *config),
                                cell_clip(area_of(features@[t as int].shape@, h), h),
                            ) by {
                                let s = cell_clip(area_of(features@[t as int].shape@, h), h);
                                assert(has_partial(entries_view, h, value@, s));
                                let i = choose|i: int|
                                    0 <= i < entries_view.len() && entry_is_partial(
                                        #[trigger] entries_view[i],
                                        h,
                                        value@,
                                        s,
                                    );
                                assert(entry_is_partial(r@[r_pre.len() + i], h, value@, s));
                            }
                        }
                    },
                    None => {
                        proof {
                            segs = segs.push(Seq::empty());
                            segs_pre.lemma_flatten_push(Seq::empty());
                            assert(r@ =~= segs.flatten());
                            assert(!feature_usable(features@[t as int], *config));
                        }
                    },
                }
            },
            None => {
                proof {
                    segs = segs.push(Seq::empty());
                    segs_pre.lemma_flatten_push(Seq::empty());
                    assert(r@ =~= segs.flatten());
                    assert(!feature_usable(features@[t as int], *config));
                }
            },
        }
        t = t + 1;
    }
    proof {
        assert(fill_stage_decomposition(features@, *config, max_level as int, r@, segs));
    }
    r
}

} // verus!
