//! The resolver: point queries against the persisted prefix map.
//!
//! A query point is encoded to its maximum-depth geohash; the store is
//! probed at every prefix of that geohash, shortest first, and the first
//! prefix that decides wins: a stored direct value answers at once, an
//! undecided cell answers with the first option whose clipped shape
//! contains the point. A point no prefix decides resolves to the empty
//! byte string.
//!
//! Fetching the stored bytes is the caller's affair (the store is opened
//! and read outside the library); the functions here build the exact key
//! list to fetch and resolve whatever the fetch returned.

use vstd::prelude::*;
use crate::codec::{dec_value, decode_value, UndecidedModel, ValueModel};
use crate::geoshape::{
    encode_point_hash, is_point, is_shape, point_hash, point_in_bounds, point_in_shape,
    shape_has_point,
};
use crate::merge::clone_bytes;
use crate::types::GeohashValue;

verus! {

/// The value of the first option whose shape contains the point.
pub open spec fn first_option_match(options: Seq<UndecidedModel>, point: Seq<u8>) -> Option<Seq<u8>>
    decreases options.len(),
{
    if options.len() == 0 {
        None
    } else if is_shape(options[0].shape) && is_point(point) && point_in_shape(
        options[0].shape,
        point,
    ) {
        Some(options[0].value)
    } else {
        first_option_match(options.drop_first(), point)
    }
}

/// The answer one stored cell gives for the point: a direct value answers
/// at once; an undecided cell answers with its first containing option; an
/// absent or undecodable cell answers nothing.
pub open spec fn stored_answer(stored: Option<Seq<u8>>, point: Seq<u8>) -> Option<Seq<u8>> {
    match stored {
        None => None,
        Some(bytes) => match dec_value(bytes) {
            None => None,
            Some(ValueModel::Direct { value }) => Some(value),
            Some(ValueModel::Undecided { options }) => first_option_match(options, point),
        },
    }
}

/// Walk the stored cells from the shortest prefix: the first answer wins;
/// no answer resolves to the empty byte string.
pub open spec fn resolve_walk(point: Seq<u8>, stored: Seq<Option<Seq<u8>>>) -> Seq<u8>
    decreases stored.len(),
{
    if stored.len() == 0 {
        Seq::empty()
    } else {
        match stored_answer(stored[0], point) {
            Some(v) => v,
            None => resolve_walk(point, stored.drop_first()),
        }
    }
}

/// The byte view of a list of fetched cells.
pub open spec fn stored_view(v: Seq<Option<Vec<u8>>>) -> Seq<Option<Seq<u8>>> {
    v.map_values(
        |o: Option<Vec<u8>>|
            match o {
                None => None,
                Some(b) => Some(b@),
            },
    )
}

/// All prefixes of a geohash, shortest first: the keys to probe for one
/// point, in probe order.
pub fn prefix_keys(hash: &Vec<u8>) -> (r: Vec<Vec<u8>>)
    ensures
        r@.len() == hash@.len(),
        forall|i: int| 0 <= i < r@.len() ==> (#[trigger] r@[i])@ == hash@.take(i + 1),
{
    let mut r: Vec<Vec<u8>> = Vec::new();
    let mut i: usize = 0;
    while i < hash.len()
        invariant
            i <= hash.len(),
            r@.len() == i,
            forall|j: int| 0 <= j < i ==> (#[trigger] r@[j])@ == hash@.take(j + 1),
        decreases hash.len() - i,
    {
        let p = vstd::slice::slice_to_vec(vstd::slice::slice_subrange(hash.as_slice(), 0, i + 1));
        proof {
            assert(p@ =~= hash@.take(i as int + 1));
        }
        r.push(p);
        i = i + 1;
    }
    r
}

/// Resolve one point against the stored cells `stored[start..end]`, walked
/// in order.
#[verifier::loop_isolation(false)]
pub fn resolve_range(point: &Vec<u8>, stored: &Vec<Option<Vec<u8>>>, start: usize, end: usize) -> (r:
    Vec<u8>)
    requires
        start <= end <= stored@.len(),
    ensures
        r@ == resolve_walk(point@, stored_view(stored@).subrange(start as int, end as int)),
{
    let ghost sv = stored_view(stored@).subrange(start as int, end as int);
    let mut i: usize = start;
    while i < end
        invariant
            start <= i <= end <= stored@.len(),
            sv == stored_view(stored@).subrange(start as int, end as int),
            resolve_walk(point@, sv) == resolve_walk(
                point@,
                stored_view(stored@).subrange(i as int, end as int),
            ),
        decreases end - i,
    {
        let ghost cur = stored_view(stored@).subrange(i as int, end as int);
        proof {
            assert(cur[0] == stored_view(stored@)[i as int]);
            assert(cur.drop_first() =~= stored_view(stored@).subrange(i as int + 1, end as int));
        }
        match &stored[i] {
            None => {},
            Some(bytes) => {
                match decode_value(bytes) {
                    None => {},
                    Some(GeohashValue::DirectValue { value }) => {
                        proof {
                            assert(stored_answer(cur[0], point@) == Some(value@));
                        }
                        return value;
                    },
                    Some(GeohashValue::Undecided { options }) => {
                        let ghost om = match dec_value(bytes@) {
                            Some(ValueModel::Undecided { options }) => options,
                            _ => Seq::empty(),
                        };
                        proof {
                            assert(dec_value(bytes@) == Some(
                                ValueModel::Undecided { options: om },
                            ));
                            assert(om == crate::codec::options_view(options@));
                            assert(cur[0] == Some(bytes@));
                            assert(om.skip(0) =~= om);
                        }
                        let mut j: usize = 0;
                        while j < options.len()
                            invariant
                                j <= options.len(),
                                om == crate::codec::options_view(options@),
                                first_option_match(om, point@) == first_option_match(
                                    om.skip(j as int),
                                    point@,
                                ),
                            decreases options.len() - j,
                        {
                            let ghost oj = om.skip(j as int);
                            proof {
                                assert(oj[0] == om[j as int]);
                                assert(om[j as int] == options@[j as int]@);
                                assert(oj.drop_first() =~= om.skip(j as int + 1));
                            }
                            if shape_has_point(&options[j].shape, point) {
                                proof {
                                    assert(first_option_match(oj, point@) == Some(
                                        options@[j as int].value@,
                                    ));
                                    assert(stored_answer(cur[0], point@) == Some(
                                        options@[j as int].value@,
                                    ));
                                }
                                return clone_bytes(&options[j].value);
                            }
                            j = j + 1;
                        }
                        proof {
                            assert(om.skip(om.len() as int) =~= Seq::<UndecidedModel>::empty());
                            assert(first_option_match(om, point@) is None);
                            assert(stored_answer(cur[0], point@) is None);
                        }
                    },
                }
            },
        }
        proof {
            assert(stored_answer(cur[0], point@) is None);
        }
        i = i + 1;
    }
    proof {
        assert(stored_view(stored@).subrange(i as int, end as int) =~= Seq::<
            Option<Seq<u8>>,
        >::empty());
    }
    Vec::new()
}

/// Resolve one point against its fetched prefix cells.
pub fn resolve_values(point: &Vec<u8>, stored: &Vec<Option<Vec<u8>>>) -> (r: Vec<u8>)
    ensures
        r@ == resolve_walk(point@, stored_view(stored@)),
{
    let r = resolve_range(point, stored, 0, stored.len());
    proof {
        assert(stored_view(stored@).subrange(0, stored@.len() as int) =~= stored_view(stored@));
    }
    r
}

/// The flat list of keys to fetch for a batch of points: for each point in
/// order, the prefixes of its depth-`max_level` geohash, shortest first.
/// `None` when some point is not a coordinate in the lon/lat domain, as
/// the whole batch then fails.
pub fn lookup_keys(points: &Vec<Vec<u8>>, max_level: usize) -> (r: Option<Vec<Vec<u8>>>)
    requires
        1 <= max_level <= 12,
    ensures
        (r is Some) == (forall|p: int| 0 <= p < points@.len() ==> is_point(
            (#[trigger] points@[p])@,
        ) && point_in_bounds(points@[p]@)),
        r matches Some(keys) ==> keys@.len() == points@.len() * max_level,
        r matches Some(keys) ==> forall|p: int, j: int|
            0 <= p < points@.len() && 0 <= j < max_level
                ==> (#[trigger] keys@[p * max_level + j])@ == point_hash(
                points@[p]@,
                max_level as int,
            ).take(j + 1),
{
    let mut keys: Vec<Vec<u8>> = Vec::new();
    let mut p: usize = 0;
    while p < points.len()
        invariant
            p <= points.len(),
            1 <= max_level <= 12,
            keys@.len() == p * max_level,
            forall|q: int| 0 <= q < p ==> is_point((#[trigger] points@[q])@) && point_in_bounds(
                points@[q]@,
            ),
            forall|q: int, j: int|
                0 <= q < p && 0 <= j < max_level ==> (#[trigger] keys@[q * max_level + j])@
                    == point_hash(points@[q]@, max_level as int).take(j + 1),
        decreases points.len() - p,
    {
        let hash = match encode_point_hash(&points[p], max_level) {
            None => {
                return None;
            },
            Some(h) => h,
        };
        let prefixes = prefix_keys(&hash);
        let ghost keys_pre = keys@;
        let mut j: usize = 0;
        while j < prefixes.len()
            invariant
                j <= prefixes.len(),
                keys@.len() == keys_pre.len() + j,
                forall|x: int| 0 <= x < keys_pre.len() ==> keys@[x] == keys_pre[x],
                forall|x: int| 0 <= x < j ==> (#[trigger] keys@[keys_pre.len() + x])@
                    == prefixes@[x]@,
            decreases prefixes.len() - j,
        {
            keys.push(clone_bytes(&prefixes[j]));
            j = j + 1;
        }
        proof {
            assert(keys@.len() == p * max_level + max_level) by {
                assert(prefixes@.len() == max_level);
            }
            assert((p + 1) * max_level == p * max_level + max_level) by (nonlinear_arith);
            assert(keys_pre.len() == p * max_level);
            assert forall|q: int, j2: int|
                0 <= q < p + 1 && 0 <= j2 < max_level implies (#[trigger] keys@[q * max_level
                + j2])@ == point_hash(points@[q]@, max_level as int).take(j2 + 1) by {
                if q < p {
                    assert(0 <= q * max_level + j2 < p * max_level) by (nonlinear_arith)
                        requires
                            0 <= q < p,
                            0 <= j2 < max_level,
                    ;
                    assert(keys@[q * max_level + j2] == keys_pre[q * max_level + j2]);
                } else {
                    assert(q * max_level == p * max_level);
                    assert(keys@[keys_pre.len() + j2]@ == prefixes@[j2]@);
                    assert(prefixes@[j2]@ == hash@.take(j2 + 1));
                }
            }
        }
        p = p + 1;
    }
    proof {
        assert(keys@.len() == points@.len() * max_level);
    }
    Some(keys)
}

/// Resolve a batch of points against the fetched cells of `lookup_keys`:
/// one answer per point, in the order the points came, an unmatched point
/// answering the empty byte string.
pub fn lookup_coordinates(
    points: &Vec<Vec<u8>>,
    fetched: &Vec<Option<Vec<u8>>>,
    max_level: usize,
) -> (r: Vec<Vec<u8>>)
    requires
        fetched@.len() == points@.len() * max_level,
        1 <= max_level <= 12,
    ensures
        r@.len() == points@.len(),
        forall|p: int| 0 <= p < r@.len() ==> (#[trigger] r@[p])@ == resolve_walk(
            points@[p]@,
            stored_view(fetched@).subrange(p * max_level, (p + 1) * max_level),
        ),
{
    let mut r: Vec<Vec<u8>> = Vec::new();
    let mut p: usize = 0;
    proof {
        assert(points@.len() * max_level >= 0) by (nonlinear_arith)
            requires points@.len() >= 0 && max_level >= 1,
        ;
    }
    while p < points.len()
        invariant
            p <= points.len(),
            1 <= max_level <= 12,
            fetched@.len() == points@.len() * max_level,
            r@.len() == p,
            forall|q: int| 0 <= q < p ==> (#[trigger] r@[q])@ == resolve_walk(
                points@[q]@,
                stored_view(fetched@).subrange(q * max_level, (q + 1) * max_level),
            ),
        decreases points.len() - p,
    {
        proof {
            assert(0 <= p * max_level && (p + 1) * max_level <= points@.len() * max_level)
                by (nonlinear_arith)
                requires
                    0 <= p < points@.len(),
                    1 <= max_level,
            ;
            assert((p + 1) * max_level == p * max_level + max_level) by (nonlinear_arith);
            assert(fetched@.len() == fetched.len());
        }
        let start = p * max_level;
        let end = start + max_level;
        let answer = resolve_range(&points[p], fetched, start, end);
        r.push(answer);
        p = p + 1;
    }
    r
}

} // verus!
