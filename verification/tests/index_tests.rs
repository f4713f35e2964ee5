//! The filler, the merger and the resolver, end to end on real geometry.

use topodex::fill::{extract_topologies, fill_polygon_checked};
use topodex::merge::{encode_store_pairs, merge_geohash_index};
use topodex::resolver::{lookup_coordinates, lookup_keys, prefix_keys, resolve_values};
use topodex::types::{Feature, GeohashIndex, GeohashValue, TopodexConfig};

fn rect_shape(x0: f64, y0: f64, x1: f64, y1: f64) -> Vec<u8> {
    let ring = geo::LineString::from(vec![(x0, y0), (x1, y0), (x1, y1), (x0, y1), (x0, y0)]);
    let mp = geo::MultiPolygon::new(vec![geo::Polygon::new(ring, vec![])]);
    bitcode::serialize(&mp).expect("geometry serializes")
}

fn point(lng: f64, lat: f64) -> Vec<u8> {
    bitcode::serialize(&geo::Coord { x: lng, y: lat }).expect("coordinate serializes")
}

fn store_get(pairs: &[(Vec<u8>, Vec<u8>)], key: &[u8]) -> Option<Vec<u8>> {
    pairs.iter().find(|(k, _)| k == key).map(|(_, v)| v.clone())
}

fn fetch(pairs: &[(Vec<u8>, Vec<u8>)], keys: &[Vec<u8>]) -> Vec<Option<Vec<u8>>> {
    keys.iter().map(|k| store_get(pairs, k)).collect()
}

fn entry_hash(e: &GeohashIndex) -> Vec<u8> {
    match e {
        GeohashIndex::DirectValue { hash, .. } => hash.clone(),
        GeohashIndex::PartialValue { hash, .. } => hash.clone(),
    }
}

/// One square country: a direct cell fully inside it is emitted, every
/// key is a well-formed cell name, and no cell is both direct and partial.
#[test]
fn single_square_country() {
    let shape = rect_shape(0.0, 0.0, 10.0, 10.0);
    let entries = fill_polygon_checked(&shape, &b"A".to_vec(), 3).expect("valid shape");
    assert!(!entries.is_empty());

    // the depth-3 cell around the square's center lies fully inside it
    let center_hash = geohash::encode(geo::Coord { x: 5.0, y: 5.0 }, 3).unwrap();
    let center_key = center_hash.as_bytes().to_vec();
    assert!(entries.iter().any(|e| matches!(
        e,
        GeohashIndex::DirectValue { hash, value } if *hash == center_key && value == b"A"
    )));

    let alphabet = b"0123456789bcdefghjkmnpqrstuvwxyz";
    for e in &entries {
        let h = entry_hash(e);
        assert!(1 <= h.len() && h.len() <= 3);
        assert!(h.iter().all(|b| alphabet.contains(b)));
        if let GeohashIndex::PartialValue { hash, .. } = e {
            assert_eq!(hash.len(), 3);
        }
    }

    // a fully covered cell is never also a partial cell
    for e in &entries {
        if let GeohashIndex::DirectValue { hash, .. } = e {
            assert!(!entries.iter().any(|o| matches!(
                o,
                GeohashIndex::PartialValue { hash: ph, .. } if ph == hash
            )));
        }
    }

    // every direct cell's rectangle lies inside the square
    for e in &entries {
        if let GeohashIndex::DirectValue { hash, .. } = e {
            let rect = geohash::decode_bbox(std::str::from_utf8(hash).unwrap()).unwrap();
            assert!(rect.min().x >= 0.0 && rect.max().x <= 10.0);
            assert!(rect.min().y >= 0.0 && rect.max().y <= 10.0);
        }
    }
}

/// A point dead-center resolves to the square's value; a faraway point
/// resolves to the empty string.
#[test]
fn point_dead_center_lookup() {
    let shape = rect_shape(0.0, 0.0, 10.0, 10.0);
    let entries = fill_polygon_checked(&shape, &b"A".to_vec(), 3).expect("valid shape");
    let merged = merge_geohash_index(&entries);
    let pairs = encode_store_pairs(&merged);

    let p = point(5.0, 5.0);
    let hash = geohash::encode(geo::Coord { x: 5.0, y: 5.0 }, 3).unwrap();
    let keys = prefix_keys(&hash.as_bytes().to_vec());
    let fetched = fetch(&pairs, &keys);
    assert_eq!(resolve_values(&p, &fetched), b"A".to_vec());

    let q = point(50.0, 50.0);
    let qhash = geohash::encode(geo::Coord { x: 50.0, y: 50.0 }, 3).unwrap();
    let qkeys = prefix_keys(&qhash.as_bytes().to_vec());
    let qfetched = fetch(&pairs, &qkeys);
    assert_eq!(resolve_values(&q, &qfetched), Vec::<u8>::new());
}

/// Two polygons covering disjoint depth-2 cells under one depth-1 cell:
/// both are persisted as direct values at distinct keys, and each point
/// resolves to its own polygon's value.
#[test]
fn two_polygons_disjoint_cells() {
    // the depth-2 cells of (5, 2) and (5, 8) differ inside the same
    // depth-1 cell
    let ha = geohash::encode(geo::Coord { x: 5.0, y: 2.0 }, 2).unwrap();
    let hb = geohash::encode(geo::Coord { x: 5.0, y: 8.0 }, 2).unwrap();
    assert_ne!(ha, hb);
    assert_eq!(ha.as_bytes()[0], hb.as_bytes()[0]);
    let ra = geohash::decode_bbox(&ha).unwrap();
    let rb = geohash::decode_bbox(&hb).unwrap();

    // each polygon is exactly its cell's rectangle, so it fully contains it
    let shape_a = rect_shape(ra.min().x, ra.min().y, ra.max().x, ra.max().y);
    let shape_b = rect_shape(rb.min().x, rb.min().y, rb.max().x, rb.max().y);
    let entries_a = fill_polygon_checked(&shape_a, &b"A".to_vec(), 2).expect("valid shape");
    let entries_b = fill_polygon_checked(&shape_b, &b"B".to_vec(), 2).expect("valid shape");

    let mut all = entries_a;
    all.extend(entries_b);
    let merged = merge_geohash_index(&all);

    let va = merged.iter().find(|(k, _)| *k == ha.as_bytes().to_vec());
    let vb = merged.iter().find(|(k, _)| *k == hb.as_bytes().to_vec());
    assert!(matches!(va, Some((_, GeohashValue::DirectValue { value })) if value == b"A"));
    assert!(matches!(vb, Some((_, GeohashValue::DirectValue { value })) if value == b"B"));

    let pairs = encode_store_pairs(&merged);
    let pa = point((ra.min().x + ra.max().x) / 2.0, (ra.min().y + ra.max().y) / 2.0);
    let keys = prefix_keys(&ha.as_bytes().to_vec());
    assert_eq!(resolve_values(&pa, &fetch(&pairs, &keys)), b"A".to_vec());
}

/// Two polygons crossing the same maximum-depth cell: the cell persists as
/// an undecided value holding both clipped shapes, a point inside only one
/// clip resolves to that polygon, a point covered by both resolves to the
/// first stored option, and a point in neither resolves to the empty
/// string.
#[test]
fn overlapping_partials_at_max_depth() {
    let h = geohash::encode(geo::Coord { x: 5.0, y: 2.0 }, 2).unwrap();
    let r = geohash::decode_bbox(&h).unwrap();
    let (x0, y0, x1, y1) = (r.min().x, r.min().y, r.max().x, r.max().y);
    let xmid = (x0 + x1) / 2.0;
    let ymid = (y0 + y1) / 2.0;

    // both polygons cover the lower half of the cell, A on the left and B
    // on the right, overlapping in a band around the middle
    let shape_a = rect_shape(x0 - 1.0, y0 - 1.0, xmid + 0.2, ymid);
    let shape_b = rect_shape(xmid - 0.2, y0 - 1.0, x1 + 1.0, ymid);
    let mut all = fill_polygon_checked(&shape_a, &b"A".to_vec(), 2).expect("valid shape");
    all.extend(fill_polygon_checked(&shape_b, &b"B".to_vec(), 2).expect("valid shape"));
    let merged = merge_geohash_index(&all);

    let key = h.as_bytes().to_vec();
    let cell = merged.iter().find(|(k, _)| *k == key).expect("cell persisted");
    match &cell.1 {
        GeohashValue::Undecided { options } => {
            assert_eq!(options.len(), 2);
            assert_eq!(options[0].value, b"A".to_vec());
            assert_eq!(options[1].value, b"B".to_vec());
        },
        GeohashValue::DirectValue { .. } => panic!("expected an undecided cell"),
    }

    let pairs = encode_store_pairs(&merged);
    let keys = prefix_keys(&key);

    // inside A's clip only
    let pa = point(x0 + 0.1, y0 + 0.1);
    assert_eq!(resolve_values(&pa, &fetch(&pairs, &keys)), b"A".to_vec());
    // inside B's clip only
    let pb = point(x1 - 0.1, y0 + 0.1);
    assert_eq!(resolve_values(&pb, &fetch(&pairs, &keys)), b"B".to_vec());
    // inside both clips: the first stored option wins
    let pboth = point(xmid, y0 + 0.1);
    assert_eq!(resolve_values(&pboth, &fetch(&pairs, &keys)), b"A".to_vec());
    // in the cell's upper half, inside neither clip: nothing answers
    let pnone = point(xmid, ymid + (y1 - ymid) / 2.0);
    assert_eq!(resolve_values(&pnone, &fetch(&pairs, &keys)), Vec::<u8>::new());
}

/// A batch lookup answers the points in their order, the unmatched one as
/// the empty string.
#[test]
fn batch_lookup_preserves_order() {
    let config = TopodexConfig {
        filters: Vec::new(),
        extract_properties: Vec::new(),
        process_property_name: b"code".to_vec(),
    };
    let features = vec![
        Feature {
            id: b"1".to_vec(),
            properties: vec![(b"code".to_vec(), b"v1".to_vec())],
            shape: rect_shape(0.0, 0.0, 10.0, 10.0),
        },
        Feature {
            id: b"2".to_vec(),
            properties: vec![(b"code".to_vec(), b"v3".to_vec())],
            shape: rect_shape(20.0, 20.0, 30.0, 30.0),
        },
    ];
    let entries = extract_topologies(&features, 3, &config);
    let merged = merge_geohash_index(&entries);
    let pairs = encode_store_pairs(&merged);

    let points = vec![point(5.0, 5.0), point(50.0, 50.0), point(25.0, 25.0)];
    let keys = lookup_keys(&points, 3).expect("all points in range");
    assert_eq!(keys.len(), 9);
    let fetched = fetch(&pairs, &keys);
    let answers = lookup_coordinates(&points, &fetched, 3);
    assert_eq!(
        answers,
        vec![b"v1".to_vec(), Vec::<u8>::new(), b"v3".to_vec()]
    );
}

/// A point outside the lon/lat domain fails the whole batch's key
/// building, as the store fetch cannot be formed.
#[test]
fn out_of_range_point_fails_key_building() {
    let points = vec![point(5.0, 5.0), point(200.0, 5.0)];
    assert!(lookup_keys(&points, 3).is_none());
}

/// A feature without the configured attribute contributes nothing.
#[test]
fn feature_without_attribute_is_skipped() {
    let config = TopodexConfig {
        filters: Vec::new(),
        extract_properties: Vec::new(),
        process_property_name: b"code".to_vec(),
    };
    let features = vec![Feature {
        id: b"1".to_vec(),
        properties: vec![(b"name".to_vec(), b"X".to_vec())],
        shape: rect_shape(0.0, 0.0, 10.0, 10.0),
    }];
    assert!(extract_topologies(&features, 2, &config).is_empty());
}

/// Bytes that are no serialized geometry are rejected.
#[test]
fn malformed_shape_is_rejected() {
    assert!(fill_polygon_checked(&vec![1, 2, 3], &b"A".to_vec(), 2).is_none());
}

/// A shape that deserializes but holds a NaN coordinate is not a
/// well-formed shape and contributes nothing.
#[test]
fn nan_shape_is_rejected() {
    let ring = geo::LineString::from(vec![
        (f64::NAN, 0.0),
        (1.0, 0.0),
        (1.0, 1.0),
        (f64::NAN, 0.0),
    ]);
    let mp = geo::MultiPolygon::new(vec![geo::Polygon::new(ring, vec![])]);
    let bytes = bitcode::serialize(&mp).expect("serializes");
    assert!(fill_polygon_checked(&bytes, &b"A".to_vec(), 2).is_none());
}

/// A stored option whose shape bytes are not a well-formed shape never
/// contains a point: the walk passes it by and the next option answers.
#[test]
fn degenerate_option_shape_is_passed_over() {
    let nan_ring = geo::LineString::from(vec![
        (f64::NAN, 0.0),
        (1.0, 0.0),
        (1.0, 1.0),
        (f64::NAN, 0.0),
    ]);
    let nan_mp = geo::MultiPolygon::new(vec![geo::Polygon::new(nan_ring, vec![])]);
    let nan_bytes = bitcode::serialize(&nan_mp).expect("serializes");
    let good_bytes = rect_shape(0.0, 0.0, 10.0, 10.0);
    let value = topodex::types::GeohashValue::Undecided {
        options: vec![
            topodex::types::UndecidedValue { value: b"bad".to_vec(), shape: nan_bytes },
            topodex::types::UndecidedValue { value: b"good".to_vec(), shape: good_bytes },
        ],
    };
    let stored = vec![Some(topodex::codec::encode_value(&value))];
    let p = point(5.0, 5.0);
    assert_eq!(resolve_values(&p, &stored), b"good".to_vec());
}

/// Merging keeps the last direct value at a key and drops partials once a
/// direct contribution exists, whichever order they arrived in.
#[test]
fn merge_rules() {
    let h = b"s0".to_vec();
    // all direct: last write wins
    let merged = merge_geohash_index(&vec![
        GeohashIndex::DirectValue { hash: h.clone(), value: b"A".to_vec() },
        GeohashIndex::DirectValue { hash: h.clone(), value: b"B".to_vec() },
    ]);
    assert_eq!(merged.len(), 1);
    assert!(matches!(&merged[0].1, GeohashValue::DirectValue { value } if value == b"B"));

    // all partial: options in arrival order
    let merged = merge_geohash_index(&vec![
        GeohashIndex::PartialValue { hash: h.clone(), value: b"A".to_vec(), shape: vec![1] },
        GeohashIndex::PartialValue { hash: h.clone(), value: b"B".to_vec(), shape: vec![2] },
    ]);
    assert_eq!(merged.len(), 1);
    match &merged[0].1 {
        GeohashValue::Undecided { options } => {
            assert_eq!(options[0].value, b"A".to_vec());
            assert_eq!(options[0].shape, vec![1]);
            assert_eq!(options[1].value, b"B".to_vec());
            assert_eq!(options[1].shape, vec![2]);
        },
        GeohashValue::DirectValue { .. } => panic!("expected undecided"),
    }

    // mixed: the direct value wins whatever the order
    let merged = merge_geohash_index(&vec![
        GeohashIndex::DirectValue { hash: h.clone(), value: b"A".to_vec() },
        GeohashIndex::PartialValue { hash: h.clone(), value: b"B".to_vec(), shape: vec![2] },
    ]);
    assert_eq!(merged.len(), 1);
    assert!(matches!(&merged[0].1, GeohashValue::DirectValue { value } if value == b"A"));

    let merged = merge_geohash_index(&vec![
        GeohashIndex::PartialValue { hash: h.clone(), value: b"B".to_vec(), shape: vec![2] },
        GeohashIndex::DirectValue { hash: h.clone(), value: b"A".to_vec() },
    ]);
    assert_eq!(merged.len(), 1);
    assert!(matches!(&merged[0].1, GeohashValue::DirectValue { value } if value == b"A"));
}

/// The geohash alphabet, in encoding order.
#[test]
fn alphabet_is_base32() {
    assert_eq!(
        topodex::cells::alphabet(),
        b"0123456789bcdefghjkmnpqrstuvwxyz".to_vec()
    );
}
