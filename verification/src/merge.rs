//! The merger: cell contributions from many polygons are combined into a
//! prefix-keyed map of stored values.
//!
//! At a key that received any full-containment contribution the map holds
//! the value of the last such contribution (overlapping polygons are the
//! only way to get more than one); a key that received only partial
//! contributions holds them all, in arrival order, for point-in-polygon
//! tie-breaking at lookup time.

use vstd::prelude::*;
use crate::codec::{enc_value, encode_value, UndecidedModel, ValueModel, options_view};
use crate::types::{GeohashIndex, GeohashValue, UndecidedValue};

verus! {

/// The values of the full-containment contributions at key `k`, in order.
pub open spec fn directs_at(entries: Seq<GeohashIndex>, k: Seq<u8>) -> Seq<Seq<u8>>
    decreases entries.len(),
{
    if entries.len() == 0 {
        Seq::empty()
    } else {
        let head: Seq<Seq<u8>> = match entries[0] {
            GeohashIndex::DirectValue { hash, value } => if hash@ == k {
                seq![value@]
            } else {
                Seq::empty()
            },
            GeohashIndex::PartialValue { .. } => Seq::empty(),
        };
        head + directs_at(entries.drop_first(), k)
    }
}

/// The partial contributions at key `k`, in order.
pub open spec fn partials_at(entries: Seq<GeohashIndex>, k: Seq<u8>) -> Seq<UndecidedModel>
    decreases entries.len(),
{
    if entries.len() == 0 {
        Seq::empty()
    } else {
        let head: Seq<UndecidedModel> = match entries[0] {
            GeohashIndex::PartialValue { hash, value, shape } => if hash@ == k {
                seq![UndecidedModel { value: value@, shape: shape@ }]
            } else {
                Seq::empty()
            },
            GeohashIndex::DirectValue { .. } => Seq::empty(),
        };
        head + partials_at(entries.drop_first(), k)
    }
}

/// The merged value at key `k`: the last direct contribution if any direct
/// contribution arrived, else all partial contributions in order.
pub open spec fn merged_value_at(entries: Seq<GeohashIndex>, k: Seq<u8>) -> ValueModel {
    if directs_at(entries, k).len() > 0 {
        ValueModel::Direct { value: directs_at(entries, k).last() }
    } else {
        ValueModel::Undecided { options: partials_at(entries, k) }
    }
}

/// Some contribution targets key `k`.
pub open spec fn has_key(entries: Seq<GeohashIndex>, k: Seq<u8>) -> bool {
    exists|e: int| 0 <= e < entries.len() && (#[trigger] entries[e]).spec_hash() == k
}

/// The merged map is exactly described: unique keys, one key per
/// contributed cell, and at each key the merged value of `merged_value_at`.
pub open spec fn merged_map_ok(entries: Seq<GeohashIndex>, r: Seq<(Vec<u8>, GeohashValue)>) -> bool {
    &&& forall|i: int, j: int| 0 <= i < j < r.len() ==> (#[trigger] r[i]).0@ != (#[trigger] r[j]).0@
    &&& forall|i: int| 0 <= i < r.len() ==> has_key(entries, (#[trigger] r[i]).0@)
    &&& forall|e: int| 0 <= e < entries.len() ==> exists|i: int|
        0 <= i < r.len() && (#[trigger] r[i]).0@ == (#[trigger] entries[e]).spec_hash()
    &&& forall|i: int| 0 <= i < r.len() ==> (#[trigger] r[i]).1@ == merged_value_at(
        entries,
        r[i].0@,
    )
}

proof fn lemma_directs_at_snoc(entries: Seq<GeohashIndex>, t: int, k: Seq<u8>)
    requires
        0 <= t < entries.len(),
    ensures
        directs_at(entries.take(t + 1), k) == directs_at(entries.take(t), k) + (
        match entries[t] {
            GeohashIndex::DirectValue { hash, value } => if hash@ == k {
                seq![value@]
            } else {
                Seq::empty()
            },
            GeohashIndex::PartialValue { .. } => Seq::empty(),
        }),
    decreases t,
{
    let tail: Seq<Seq<u8>> = match entries[t] {
        GeohashIndex::DirectValue { hash, value } => if hash@ == k {
            seq![value@]
        } else {
            Seq::empty()
        },
        GeohashIndex::PartialValue { .. } => Seq::empty(),
    };
    if t == 0 {
        assert(entries.take(1).drop_first() =~= Seq::<GeohashIndex>::empty());
        assert(entries.take(1)[0] == entries[0]);
        assert(entries.take(0) =~= Seq::<GeohashIndex>::empty());
        assert(directs_at(entries.take(1), k) =~= directs_at(entries.take(0), k) + tail);
    } else {
        lemma_directs_at_snoc(entries.drop_first(), t - 1, k);
        assert(entries.take(t + 1).drop_first() =~= entries.drop_first().take(t));
        assert(entries.take(t).drop_first() =~= entries.drop_first().take(t - 1));
        assert(entries.take(t + 1)[0] == entries[0]);
        assert(entries.take(t)[0] == entries[0]);
        assert(entries.drop_first()[t - 1] == entries[t]);
        assert(directs_at(entries.take(t + 1), k) =~= directs_at(entries.take(t), k) + tail);
    }
}

proof fn lemma_partials_at_snoc(entries: Seq<GeohashIndex>, t: int, k: Seq<u8>)
    requires
        0 <= t < entries.len(),
    ensures
        partials_at(entries.take(t + 1), k) == partials_at(entries.take(t), k) + (
        match entries[t] {
            GeohashIndex::PartialValue { hash, value, shape } => if hash@ == k {
                seq![UndecidedModel { value: value@, shape: shape@ }]
            } else {
                Seq::empty()
            },
            GeohashIndex::DirectValue { .. } => Seq::empty(),
        }),
    decreases t,
{
    let tail: Seq<UndecidedModel> = match entries[t] {
        GeohashIndex::PartialValue { hash, value, shape } => if hash@ == k {
            seq![UndecidedModel { value: value@, shape: shape@ }]
        } else {
            Seq::empty()
        },
        GeohashIndex::DirectValue { .. } => Seq::empty(),
    };
    if t == 0 {
        assert(entries.take(1).drop_first() =~= Seq::<GeohashIndex>::empty());
        assert(entries.take(1)[0] == entries[0]);
        assert(entries.take(0) =~= Seq::<GeohashIndex>::empty());
        assert(partials_at(entries.take(1), k) =~= partials_at(entries.take(0), k) + tail);
    } else {
        lemma_partials_at_snoc(entries.drop_first(), t - 1, k);
        assert(entries.take(t + 1).drop_first() =~= entries.drop_first().take(t));
        assert(entries.take(t).drop_first() =~= entries.drop_first().take(t - 1));
        assert(entries.take(t + 1)[0] == entries[0]);
        assert(entries.take(t)[0] == entries[0]);
        assert(entries.drop_first()[t - 1] == entries[t]);
        assert(partials_at(entries.take(t + 1), k) =~= partials_at(entries.take(t), k) + tail);
    }
}

/// No contribution among the first `t` targets key `k`, so the merged
/// streams at `k` are still empty there.
proof fn lemma_no_contrib_empty(entries: Seq<GeohashIndex>, t: int, k: Seq<u8>)
    requires
        0 <= t <= entries.len(),
        forall|e: int| 0 <= e < t ==> (#[trigger] entries[e]).spec_hash() != k,
    ensures
        directs_at(entries.take(t), k).len() == 0,
        partials_at(entries.take(t), k).len() == 0,
    decreases t,
{
    if t > 0 {
        lemma_no_contrib_empty(entries, t - 1, k);
        lemma_directs_at_snoc(entries, t - 1, k);
        lemma_partials_at_snoc(entries, t - 1, k);
        assert(entries[t - 1].spec_hash() != k);
    } else {
        assert(entries.take(0) =~= Seq::<GeohashIndex>::empty());
    }
}

/// Copy a byte string.
pub fn clone_bytes(v: &Vec<u8>) -> (r: Vec<u8>)
    ensures
        r@ == v@,
{
    let mut r: Vec<u8> = Vec::new();
    let mut i: usize = 0;
    while i < v.len()
        invariant
            i <= v.len(),
            r@ == v@.take(i as int),
        decreases v.len() - i,
    {
        r.push(v[i]);
        i = i + 1;
        proof {
            assert(v@.take(i as int) =~= v@.take(i - 1) + seq![v@[i - 1]]);
            assert(r@ =~= v@.take(i as int));
        }
    }
    proof {
        assert(v@.take(v@.len() as int) =~= v@);
    }
    r
}

/// Whether two byte strings are equal.
pub fn bytes_eq(a: &Vec<u8>, b: &Vec<u8>) -> (r: bool)
    ensures
        r == (a@ == b@),
{
    if a.len() != b.len() {
        proof {
            assert(a@.len() != b@.len());
        }
        return false;
    }
    let mut i: usize = 0;
    while i < a.len()
        invariant
            i <= a.len(),
            a@.len() == b@.len(),
            forall|j: int| 0 <= j < i ==> a@[j] == b@[j],
        decreases a.len() - i,
    {
        if a[i] != b[i] {
            return false;
        }
        i = i + 1;
    }
    proof {
        assert(a@ =~= b@);
    }
    true
}

/// One key's accumulated contributions while merging.
struct MergeCell {
    hash: Vec<u8>,
    last_direct: Option<Vec<u8>>,
    partials: Vec<UndecidedValue>,
}

impl MergeCell {
    /// The cell tracks exactly the contributions of `entries` at its key.
    spec fn tracks(&self, entries: Seq<GeohashIndex>) -> bool {
        &&& match self.last_direct {
            Some(v) => directs_at(entries, self.hash@).len() > 0 && v@ == directs_at(
                entries,
                self.hash@,
            ).last(),
            None => directs_at(entries, self.hash@).len() == 0,
        }
        &&& options_view(self.partials@) == partials_at(entries, self.hash@)
    }
}

/// Find the accumulated cell that carries `key`.
fn find_cell(acc: &Vec<MergeCell>, key: &Vec<u8>) -> (r: Option<usize>)
    ensures
        r matches Some(ix) ==> ix < acc.len() && acc@[ix as int].hash@ == key@,
        r is None ==> forall|j: int| 0 <= j < acc.len() ==> (#[trigger] acc@[j]).hash@ != key@,
{
    let mut s: usize = 0;
    while s < acc.len()
        invariant
            s <= acc.len(),
            forall|j: int| 0 <= j < s ==> (#[trigger] acc@[j]).hash@ != key@,
        decreases acc.len() - s,
    {
        if bytes_eq(&acc[s].hash, key) {
            return Some(s);
        }
        s = s + 1;
    }
    None
}

/// Merge the contributions of all polygons into a map from cell key to
/// stored value, as `merged_map_ok` describes.
pub fn merge_geohash_index(entries: &Vec<GeohashIndex>) -> (r: Vec<(Vec<u8>, GeohashValue)>)
    ensures
        merged_map_ok(entries@, r@),
{
    let mut acc: Vec<MergeCell> = Vec::new();
    let mut t: usize = 0;
    while t < entries.len()
        invariant
            t <= entries.len(),
            forall|i: int, j: int| 0 <= i < j < acc.len() ==> (#[trigger] acc@[i]).hash@ != (
            #[trigger] acc@[j]).hash@,
            forall|i: int| 0 <= i < acc.len() ==> has_key(
                entries@.take(t as int),
                (#[trigger] acc@[i]).hash@,
            ),
            forall|e: int| 0 <= e < t ==> exists|i: int|
                0 <= i < acc.len() && (#[trigger] acc@[i]).hash@ == (
                #[trigger] entries@[e]).spec_hash(),
            forall|i: int| 0 <= i < acc.len() ==> (#[trigger] acc@[i]).tracks(
                entries@.take(t as int),
            ),
        decreases entries.len() - t,
    {
        let ghost pre = entries@.take(t as int);
        let ghost post = entries@.take(t as int + 1);
        let ghost acc_pre = acc@;
        proof {
            assert(forall|e: int| 0 <= e < t ==> pre[e] == entries@[e] && post[e] == entries@[e]);
            assert(post[t as int] == entries@[t as int]);
        }
        let entry = &entries[t];
        let hash_ref = match entry {
            GeohashIndex::DirectValue { hash, .. } => hash,
            GeohashIndex::PartialValue { hash, .. } => hash,
        };
        proof {
            assert(entries@[t as int].spec_hash() == hash_ref@);
        }
        match find_cell(&acc, hash_ref) {
            Some(ix) => {
                match entry {
                    GeohashIndex::DirectValue { hash: _, value } => {
                        let nv = clone_bytes(value);
                        let cell = &mut acc[ix];
                        cell.last_direct = Some(nv);
                    },
                    GeohashIndex::PartialValue { hash: _, value, shape } => {
                        let option = UndecidedValue {
                            value: clone_bytes(value),
                            shape: clone_bytes(shape),
                        };
                        let cell = &mut acc[ix];
                        cell.partials.push(option);
                    },
                }
                proof {
                    let k = acc_pre[ix as int].hash@;
                    assert(acc@[ix as int].hash@ == k);
                    assert(forall|i: int|
                        0 <= i < acc@.len() && i != ix ==> acc@[i] == acc_pre[i]);
                    lemma_directs_at_snoc(entries@, t as int, k);
                    lemma_partials_at_snoc(entries@, t as int, k);
                    match entries@[t as int] {
                        GeohashIndex::DirectValue { hash, value } => {
                            assert(directs_at(post, k) =~= directs_at(pre, k) + seq![value@]);
                            assert(partials_at(post, k) =~= partials_at(pre, k));
                            assert(acc@[ix as int].partials@ == acc_pre[ix as int].partials@);
                            assert(acc@[ix as int].tracks(post));
                        },
                        GeohashIndex::PartialValue { hash, value, shape } => {
                            assert(partials_at(post, k) =~= partials_at(pre, k) + seq![
                                UndecidedModel { value: value@, shape: shape@ },
                            ]);
                            assert(directs_at(post, k) =~= directs_at(pre, k));
                            assert(options_view(acc@[ix as int].partials@) =~= options_view(
                                acc_pre[ix as int].partials@,
                            ) + seq![UndecidedModel { value: value@, shape: shape@ }]);
                            assert(acc@[ix as int].tracks(post));
                        },
                    }
                    assert forall|i: int| 0 <= i < acc@.len() implies (#[trigger] acc@[i]).tracks(
                        post,
                    ) by {
                        if i != ix {
                            let h = acc@[i].hash@;
                            assert(acc_pre[i].tracks(pre));
                            assert(h != k);
                            lemma_directs_at_snoc(entries@, t as int, h);
                            lemma_partials_at_snoc(entries@, t as int, h);
                            assert(directs_at(post, h) =~= directs_at(pre, h));
                            assert(partials_at(post, h) =~= partials_at(pre, h));
                        }
                    }
                    assert forall|i: int| 0 <= i < acc@.len() implies has_key(
                        post,
                        (#[trigger] acc@[i]).hash@,
                    ) by {
                        if i == ix {
                            assert(post[t as int].spec_hash() == acc@[i].hash@);
                        } else {
                            assert(has_key(pre, acc_pre[i].hash@));
                            let e = choose|e: int|
                                0 <= e < pre.len() && (#[trigger] pre[e]).spec_hash()
                                    == acc_pre[i].hash@;
                            assert(post[e].spec_hash() == acc@[i].hash@);
                        }
                    }
                    assert forall|e: int| 0 <= e < t + 1 implies exists|i: int|
                        0 <= i < acc@.len() && (#[trigger] acc@[i]).hash@ == (
                        #[trigger] entries@[e]).spec_hash() by {
                        if e < t {
                            let i = choose|i: int|
                                0 <= i < acc_pre.len() && (#[trigger] acc_pre[i]).hash@
                                    == entries@[e].spec_hash();
                            assert(acc@[i].hash@ == entries@[e].spec_hash());
                        } else {
                            assert(acc@[ix as int].hash@ == entries@[e].spec_hash());
                        }
                    }
                }
            },
            None => {
                proof {
                    assert forall|e: int| 0 <= e < t implies (#[trigger] entries@[e]).spec_hash()
                        != hash_ref@ by {
                        let i = choose|i: int|
                            0 <= i < acc_pre.len() && (#[trigger] acc_pre[i]).hash@
                                == entries@[e].spec_hash();
                        assert(acc_pre[i].hash@ != hash_ref@);
                    }
                    lemma_no_contrib_empty(entries@, t as int, hash_ref@);
                }
                let new_cell = match entry {
                    GeohashIndex::DirectValue { hash, value } => MergeCell {
                        hash: clone_bytes(hash),
                        last_direct: Some(clone_bytes(value)),
                        partials: Vec::new(),
                    },
                    GeohashIndex::PartialValue { hash, value, shape } => {
                        let mut partials: Vec<UndecidedValue> = Vec::new();
                        partials.push(
                            UndecidedValue { value: clone_bytes(value), shape: clone_bytes(shape) },
                        );
                        MergeCell { hash: clone_bytes(hash), last_direct: None, partials }
                    },
                };
                acc.push(new_cell);
                proof {
                    let last = acc@.len() - 1;
                    let k = hash_ref@;
                    assert(acc@[last].hash@ == k);
                    assert(forall|i: int| 0 <= i < last ==> acc@[i] == acc_pre[i]);
                    lemma_directs_at_snoc(entries@, t as int, k);
                    lemma_partials_at_snoc(entries@, t as int, k);
                    match entries@[t as int] {
                        GeohashIndex::DirectValue { hash, value } => {
                            assert(directs_at(post, k) =~= seq![value@]);
                            assert(partials_at(post, k) =~= Seq::<UndecidedModel>::empty());
                            assert(options_view(acc@[last].partials@) =~= Seq::<
                                UndecidedModel,
                            >::empty());
                            assert(acc@[last].tracks(post));
                        },
                        GeohashIndex::PartialValue { hash, value, shape } => {
                            assert(directs_at(post, k) =~= Seq::<Seq<u8>>::empty());
                            assert(partials_at(post, k) =~= seq![
                                UndecidedModel { value: value@, shape: shape@ },
                            ]);
                            assert(options_view(acc@[last].partials@) =~= seq![
                                UndecidedModel { value: value@, shape: shape@ },
                            ]);
                            assert(acc@[last].tracks(post));
                        },
                    }
                    assert forall|i: int| 0 <= i < acc@.len() implies (#[trigger] acc@[i]).tracks(
                        post,
                    ) by {
                        if i < last {
                            let h = acc@[i].hash@;
                            assert(acc_pre[i].tracks(pre));
                            assert(h != k);
                            lemma_directs_at_snoc(entries@, t as int, h);
                            lemma_partials_at_snoc(entries@, t as int, h);
                            assert(directs_at(post, h) =~= directs_at(pre, h));
                            assert(partials_at(post, h) =~= partials_at(pre, h));
                        }
                    }
                    assert forall|i: int| 0 <= i < acc@.len() implies has_key(
                        post,
                        (#[trigger] acc@[i]).hash@,
                    ) by {
                        if i == last {
                            assert(post[t as int].spec_hash() == acc@[i].hash@);
                        } else {
                            assert(has_key(pre, acc_pre[i].hash@));
                            let e = choose|e: int|
                                0 <= e < pre.len() && (#[trigger] pre[e]).spec_hash()
                                    == acc_pre[i].hash@;
                            assert(post[e].spec_hash() == acc@[i].hash@);
                        }
                    }
                    assert forall|e: int| 0 <= e < t + 1 implies exists|i: int|
                        0 <= i < acc@.len() && (#[trigger] acc@[i]).hash@ == (
                        #[trigger] entries@[e]).spec_hash() by {
                        if e < t {
                            let i = choose|i: int|
                                0 <= i < acc_pre.len() && (#[trigger] acc_pre[i]).hash@
                                    == entries@[e].spec_hash();
                            assert(acc@[i].hash@ == entries@[e].spec_hash());
                        } else {
                            assert(acc@[last].hash@ == entries@[e].spec_hash());
                        }
                    }
                }
            },
        }
        t = t + 1;
    }
    proof {
        assert(entries@.take(entries@.len() as int) =~= entries@);
    }
    // turn each accumulated cell into its stored value
    let mut r: Vec<(Vec<u8>, GeohashValue)> = Vec::new();
    let mut i: usize = 0;
    while i < acc.len()
        invariant
            i <= acc.len(),
            r@.len() == i,
            forall|j: int, l: int| 0 <= j < l < acc.len() ==> (#[trigger] acc@[j]).hash@ != (
            #[trigger] acc@[l]).hash@,
            forall|j: int| 0 <= j < acc.len() ==> has_key(entries@, (#[trigger] acc@[j]).hash@),
            forall|e: int| 0 <= e < entries@.len() ==> exists|j: int|
                0 <= j < acc.len() && (#[trigger] acc@[j]).hash@ == (
                #[trigger] entries@[e]).spec_hash(),
            forall|j: int| 0 <= j < acc.len() ==> (#[trigger] acc@[j]).tracks(entries@),
            forall|j: int| 0 <= j < i ==> (#[trigger] r@[j]).0@ == acc@[j].hash@,
            forall|j: int| 0 <= j < i ==> (#[trigger] r@[j]).1@ == merged_value_at(
                entries@,
                acc@[j].hash@,
            ),
        decreases acc.len() - i,
    {
        let cell = &acc[i];
        let value = match &cell.last_direct {
            Some(v) => GeohashValue::DirectValue { value: clone_bytes(v) },
            None => {
                let mut options: Vec<UndecidedValue> = Vec::new();
                let mut j: usize = 0;
                while j < cell.partials.len()
                    invariant
                        j <= cell.partials.len(),
                        options@.len() == j,
                        forall|l: int| 0 <= l < j ==> (#[trigger] options@[l])@
                            == cell.partials@[l]@,
                    decreases cell.partials.len() - j,
                {
                    let p = &cell.partials[j];
                    options.push(
                        UndecidedValue {
                            value: clone_bytes(&p.value),
                            shape: clone_bytes(&p.shape),
                        },
                    );
                    j = j + 1;
                }
                proof {
                    assert(options_view(options@) =~= options_view(cell.partials@));
                }
                GeohashValue::Undecided { options }
            },
        };
        let key = clone_bytes(&cell.hash);
        r.push((key, value));
        i = i + 1;
    }
    proof {
        assert forall|a: int, b: int| 0 <= a < b < r@.len() implies (#[trigger] r@[a]).0@ != (
        #[trigger] r@[b]).0@ by {
            assert(acc@[a].hash@ != acc@[b].hash@);
        }
        assert forall|e: int| 0 <= e < entries@.len() implies exists|j: int|
            0 <= j < r@.len() && (#[trigger] r@[j]).0@ == (#[trigger] entries@[e]).spec_hash() by {
            let j = choose|j: int|
                0 <= j < acc.len() && (#[trigger] acc@[j]).hash@ == entries@[e].spec_hash();
            assert(r@[j].0@ == entries@[e].spec_hash());
        }
    }
    r
}

/// Encode each stored value of the merged map through the codec, giving the
/// exact byte pairs the persistent store receives.
pub fn encode_store_pairs(merged: &Vec<(Vec<u8>, GeohashValue)>) -> (r: Vec<(Vec<u8>, Vec<u8>)>)
    ensures
        r@.len() == merged@.len(),
        forall|i: int| 0 <= i < r@.len() ==> (#[trigger] r@[i]).0@ == merged@[i].0@,
        forall|i: int| 0 <= i < r@.len() ==> (#[trigger] r@[i]).1@ == enc_value(merged@[i].1@),
{
    let mut r: Vec<(Vec<u8>, Vec<u8>)> = Vec::new();
    let mut i: usize = 0;
    while i < merged.len()
        invariant
            i <= merged.len(),
            r@.len() == i,
            forall|j: int| 0 <= j < i ==> (#[trigger] r@[j]).0@ == merged@[j].0@,
            forall|j: int| 0 <= j < i ==> (#[trigger] r@[j]).1@ == enc_value(merged@[j].1@),
        decreases merged.len() - i,
    {
        let pair = &merged[i];
        r.push((clone_bytes(&pair.0), encode_value(&pair.1)));
        i = i + 1;
    }
    r
}

} // verus!
