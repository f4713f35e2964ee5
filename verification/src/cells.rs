//! The geohash cell naming scheme: the base32 alphabet, well-formed cell
//! names, and the children of a cell.

use vstd::prelude::*;

verus! {

/// A byte is a geohash character: one of `0123456789bcdefghjkmnpqrstuvwxyz`
/// (lowercase base32 excluding `a`, `i`, `l` and `o`).
pub open spec fn is_geohash_byte(b: u8) -> bool {
    (48 <= b && b <= 57) || (98 <= b && b <= 122 && b != 105 && b != 108 && b != 111)
}

/// The geohash alphabet in encoding order.
pub open spec fn spec_alphabet() -> Seq<u8> {
    seq![
        48u8, 49u8, 50u8, 51u8, 52u8, 53u8, 54u8, 55u8, 56u8, 57u8,
        98u8, 99u8, 100u8, 101u8, 102u8, 103u8, 104u8, 106u8, 107u8, 109u8,
        110u8, 112u8, 113u8, 114u8, 115u8, 116u8, 117u8, 118u8, 119u8, 120u8,
        121u8, 122u8,
    ]
}

/// A well-formed cell name: between 1 and `max` geohash characters.
pub open spec fn valid_hash(h: Seq<u8>, max: int) -> bool {
    &&& 1 <= h.len() <= max
    &&& forall|i: int| 0 <= i < h.len() ==> #[trigger] is_geohash_byte(h[i])
}

/// The geohash alphabet, as the sequence of its 32 bytes.
pub fn alphabet() -> (r: Vec<u8>)
    ensures
        r@ == spec_alphabet(),
{
    let r: Vec<u8> = vec![
        48u8, 49u8, 50u8, 51u8, 52u8, 53u8, 54u8, 55u8, 56u8, 57u8,
        98u8, 99u8, 100u8, 101u8, 102u8, 103u8, 104u8, 106u8, 107u8, 109u8,
        110u8, 112u8, 113u8, 114u8, 115u8, 116u8, 117u8, 118u8, 119u8, 120u8,
        121u8, 122u8,
    ];
    proof {
        assert(r@ =~= spec_alphabet());
    }
    r
}

/// Every byte of the alphabet is a geohash character.
pub proof fn lemma_alphabet_bytes_valid()
    ensures
        spec_alphabet().len() == 32,
        forall|i: int| 0 <= i < 32 ==> #[trigger] is_geohash_byte(spec_alphabet()[i]),
{
}

/// Distinct alphabet positions hold distinct bytes.
pub proof fn lemma_alphabet_distinct()
    ensures
        forall|i: int, j: int|
            0 <= i < j < 32 ==> #[trigger] spec_alphabet()[i] != #[trigger] spec_alphabet()[j],
{
    assert forall|i: int, j: int|
        0 <= i < j < 32 implies #[trigger] spec_alphabet()[i] != #[trigger] spec_alphabet()[j] by {
        lemma_alphabet_bytes_valid();
    }
}

/// Every geohash character occurs in the alphabet.
pub proof fn lemma_geohash_byte_in_alphabet(b: u8)
    requires
        is_geohash_byte(b),
    ensures
        exists|i: int| 0 <= i < 32 && spec_alphabet()[i] == b,
{
    if 48 <= b <= 57 {
        assert(spec_alphabet()[b as int - 48] == b);
    } else if 98 <= b <= 104 {
        assert(spec_alphabet()[b as int - 88] == b);
    } else if b == 106 || b == 107 {
        assert(spec_alphabet()[b as int - 89] == b);
    } else if b == 109 || b == 110 {
        assert(spec_alphabet()[b as int - 90] == b);
    } else {
        assert(spec_alphabet()[b as int - 91] == b);
    }
}

} // verus!
