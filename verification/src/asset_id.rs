//! Generational asset identifiers: a 24-bit slot index and an 8-bit generation
//! packed into one `u32`.

use vstd::prelude::*;

verus! {

/// Mask of the slot-index bits.
pub const INDEX_MASK: u32 = 0x00FF_FFFF;

/// Generational index: 24-bit slot + 8-bit generation.
#[derive(Debug, Clone, Copy, PartialEq, Eq, Hash, Structural)]
pub struct AssetId(u32);

impl AssetId {
    /// The slot index that an id names.
    pub closed spec fn index_spec(self) -> nat {
        (self.0 % 0x0100_0000) as nat
    }

    /// The generation that an id carries.
    pub closed spec fn generation_spec(self) -> nat {
        (self.0 / 0x0100_0000) as nat
    }

    /// The id with the given slot index and generation.
    pub closed spec fn from_parts(index: nat, generation: nat) -> AssetId {
        AssetId((generation * 0x0100_0000 + index % 0x0100_0000) as u32)
    }

    /// Pack a slot index (its low 24 bits) and a generation.
    pub fn new(index: u32, generation: u8) -> (id: AssetId)
        ensures
            id.index_spec() == index % 0x0100_0000,
            id.generation_spec() == generation,
            id == AssetId::from_parts(index as nat, generation as nat),
    {
        let g = generation as u32;
        let raw = (g << 24u32) | (index & INDEX_MASK);
        assert(((g << 24u32) | (index & 0x00FF_FFFFu32)) % 0x0100_0000 == index % 0x0100_0000
            && ((g << 24u32) | (index & 0x00FF_FFFFu32)) / 0x0100_0000 == g) by (bit_vector)
            requires g < 256;
        assert(((g << 24u32) | (index & 0x00FF_FFFFu32)) == g * 0x0100_0000 + index % 0x0100_0000) by (bit_vector)
            requires g < 256;
        AssetId(raw)
    }

    /// The slot index.
    pub fn index(self) -> (i: u32)
        ensures
            i == self.index_spec(),
    {
        let v = self.0;
        assert(v & 0x00FF_FFFFu32 == v % 0x0100_0000) by (bit_vector);
        v & INDEX_MASK
    }

    /// The generation.
    pub fn generation(self) -> (g: u8)
        ensures
            g == self.generation_spec(),
    {
        let v = self.0;
        assert(v >> 24u32 == v / 0x0100_0000 && v >> 24u32 < 256) by (bit_vector);
        (v >> 24u32) as u8
    }
}

/// Two ids are equal exactly when their slot indices and generations are.
pub proof fn lemma_asset_id_eq(a: AssetId, b: AssetId)
    ensures
        (a == b) <==> (a.index_spec() == b.index_spec() && a.generation_spec() == b.generation_spec()),
        a.index_spec() < 0x0100_0000,
        a.generation_spec() < 256,
{
    let x = a.0;
    let y = b.0;
    assert((x % 0x0100_0000 == y % 0x0100_0000 && x / 0x0100_0000 == y / 0x0100_0000) ==> x == y)
        by (nonlinear_arith);
}

/// Packing and unpacking are inverse: the id built from a 24-bit slot index
/// and an 8-bit generation answers that index and that generation.
pub proof fn lemma_from_parts(index: nat, generation: nat)
    requires
        index < 0x0100_0000,
        generation < 256,
    ensures
        AssetId::from_parts(index, generation).index_spec() == index,
        AssetId::from_parts(index, generation).generation_spec() == generation,
{
    let v = generation * 0x0100_0000 + index;
    assert(v < 0x1_0000_0000) by (nonlinear_arith)
        requires index < 0x0100_0000, generation < 256, v == generation * 0x0100_0000 + index;
    assert(v % 0x0100_0000 == index && v / 0x0100_0000 == generation) by (nonlinear_arith)
        requires index < 0x0100_0000, generation < 256, v == generation * 0x0100_0000 + index;
}

} // verus!
