//! Laws that span pipeline stages.

use vstd::prelude::*;
use crate::cells::valid_hash;
use crate::fill::{entry_from_some_feature, entry_sound, fill_output_ok};
use crate::merge::{has_key, merged_map_ok};
use crate::types::{Feature, GeohashIndex, GeohashValue, TopodexConfig};

verus! {

/// Every key of one polygon's merged decomposition is a well-formed cell
/// name: between 1 and `max_level` bytes, each from the geohash alphabet.
/// The filler builds cell names from the alphabet alone, and the merger
/// keys the map by exactly the contributed cells.
pub proof fn lemma_persisted_keys_valid(
    shape: Seq<u8>,
    value: Seq<u8>,
    max_level: int,
    entries: Seq<GeohashIndex>,
    m: Seq<(Vec<u8>, GeohashValue)>,
)
    requires
        fill_output_ok(shape, value, max_level, entries),
        merged_map_ok(entries, m),
    ensures
        forall|i: int| 0 <= i < m.len() ==> valid_hash((#[trigger] m[i]).0@, max_level),
{
    assert forall|i: int| 0 <= i < m.len() implies valid_hash((#[trigger] m[i]).0@, max_level) by {
        assert(has_key(entries, m[i].0@));
        let e = choose|e: int|
            0 <= e < entries.len() && (#[trigger] entries[e]).spec_hash() == m[i].0@;
        assert(entry_sound(entries[e], shape, value, max_level));
        match entries[e] {
            GeohashIndex::DirectValue { hash, .. } => {
                assert(hash@ == m[i].0@);
            },
            GeohashIndex::PartialValue { hash, .. } => {
                assert(hash@ == m[i].0@);
            },
        }
    }
}

/// The same, for the whole fill stage: every key persisted after merging
/// the contributions of all features is a well-formed cell name.
pub proof fn lemma_pipeline_keys_valid(
    features: Seq<Feature>,
    config: TopodexConfig,
    max_level: int,
    entries: Seq<GeohashIndex>,
    m: Seq<(Vec<u8>, GeohashValue)>,
)
    requires
        forall|i: int| 0 <= i < entries.len() ==> entry_from_some_feature(
            #[trigger] entries[i],
            features,
            config,
            max_level,
        ),
        merged_map_ok(entries, m),
    ensures
        forall|i: int| 0 <= i < m.len() ==> valid_hash((#[trigger] m[i]).0@, max_level),
{
    assert forall|i: int| 0 <= i < m.len() implies valid_hash((#[trigger] m[i]).0@, max_level) by {
        assert(has_key(entries, m[i].0@));
        let e = choose|e: int|
            0 <= e < entries.len() && (#[trigger] entries[e]).spec_hash() == m[i].0@;
        assert(entry_from_some_feature(entries[e], features, config, max_level));
        let j = choose|j: int|
            0 <= j < features.len() && crate::fill::feature_usable(#[trigger] features[j], config)
                && entry_sound(
                entries[e],
                features[j].shape@,
                crate::fill::feature_value(features[j], config),
                max_level,
            );
        match entries[e] {
            GeohashIndex::DirectValue { hash, .. } => {
                assert(hash@ == m[i].0@);
            },
            GeohashIndex::PartialValue { hash, .. } => {
                assert(hash@ == m[i].0@);
            },
        }
    }
}

} // verus!
