//! Handles and their 64-bit encoding.

use vstd::prelude::*;

verus! {

/// Lightweight identity of an entity: a slot index and the generation of the
/// slot's occupant.
///
/// Two handles name the same entity exactly when both fields agree. The
/// generation of a handle that the allocator gave out is never zero.
#[derive(Clone, Copy, Debug, Hash, PartialEq, Eq, PartialOrd, Ord, Structural)]
pub struct Entity {
    pub id: u32,
    pub generation: u32,
}

impl Entity {
    /// A handle is well formed when its generation is not zero.
    pub open spec fn wf(self) -> bool {
        self.generation != 0
    }

    /// The handle with the largest slot index and the largest generation.
    pub open spec fn spec_dangling() -> Entity {
        Entity { id: u32::MAX, generation: u32::MAX }
    }

    /// The encoding: generation in the high 32 bits, slot index in the low 32.
    pub open spec fn spec_to_bits(self) -> u64 {
        ((self.generation as u64) << 32) | (self.id as u64)
    }

    /// The decoding: `None` when the high 32 bits are all zero.
    pub open spec fn spec_from_bits(bits: u64) -> Option<Entity> {
        if bits >> 32 == 0 {
            None
        } else {
            Some(Entity { id: (bits & 0xffff_ffff) as u32, generation: (bits >> 32) as u32 })
        }
    }

    /// A handle that need not name anything in any table; useful as a dummy.
    #[verifier::when_used_as_spec(spec_dangling)]
    pub fn dangling() -> (e: Entity)
        ensures
            e == Entity::spec_dangling(),
            e.wf(),
    {
        Entity { id: u32::MAX, generation: u32::MAX }
    }

    /// Encodes the handle as one integer.
    #[verifier::when_used_as_spec(spec_to_bits)]
    pub fn to_bits(self) -> (bits: u64)
        ensures
            bits == self.spec_to_bits(),
            self.wf() ==> bits != 0,
    {
        proof {
            Self::lemma_bits_roundtrip(self);
        }
        ((self.generation as u64) << 32) | (self.id as u64)
    }

    /// Decodes a handle; fails exactly when the generation field is zero.
    #[verifier::when_used_as_spec(spec_from_bits)]
    pub fn from_bits(bits: u64) -> (r: Option<Entity>)
        ensures
            r == Entity::spec_from_bits(bits),
            r is Some ==> r->0.wf() && r->0.spec_to_bits() == bits,
    {
        proof {
            Self::lemma_decoded_bits(bits);
        }
        let generation: u64 = bits >> 32;
        if generation == 0 {
            None
        } else {
            let id: u64 = bits & 0xffff_ffff;
            assert(id <= 0xffff_ffff) by (bit_vector)
                requires
                    id == bits & 0xffff_ffff,
            ;
            assert(generation <= 0xffff_ffff) by (bit_vector)
                requires
                    generation == bits >> 32,
            ;
            Some(Entity { id: id as u32, generation: generation as u32 })
        }
    }

    /// The slot index.
    pub fn id(self) -> (id: u32)
        ensures
            id == self.id,
    {
        self.id
    }

    /// Decoding undoes encoding: every well-formed handle comes back from its
    /// own bits, and those bits are not zero.
    pub proof fn lemma_bits_roundtrip(e: Entity)
        ensures
            e.wf() ==> Entity::spec_from_bits(e.spec_to_bits()) == Some(e),
            e.wf() ==> e.spec_to_bits() != 0,
            !e.wf() ==> Entity::spec_from_bits(e.spec_to_bits()) is None,
    {
        let g = e.generation;
        let i = e.id;
        let bits = ((g as u64) << 32) | (i as u64);
        assert(bits >> 32 == g as u64) by (bit_vector)
            requires
                bits == ((g as u64) << 32) | (i as u64),
        ;
        assert(bits & 0xffff_ffff == i as u64) by (bit_vector)
            requires
                bits == ((g as u64) << 32) | (i as u64),
        ;
        assert(g != 0 ==> bits != 0) by (bit_vector)
            requires
                bits == ((g as u64) << 32) | (i as u64),
        ;
    }

    /// An integer whose high 32 bits are all zero decodes to nothing.
    pub proof fn lemma_zero_generation_rejected(bits: u64)
        requires
            bits >> 32 == 0,
        ensures
            Entity::spec_from_bits(bits) is None,
    {
    }

    /// Encoding undoes decoding: a decoded handle is well formed and encodes
    /// to the integer it came from.
    pub proof fn lemma_decoded_bits(bits: u64)
        ensures
            Entity::spec_from_bits(bits) matches Some(e) ==> e.wf() && e.spec_to_bits() == bits,
    {
        let hi = bits >> 32;
        let lo = bits & 0xffff_ffff;
        assert(hi <= 0xffff_ffff && lo <= 0xffff_ffff && ((((hi as u32) as u64) << 32) | ((lo as u32)
            as u64)) == bits) by (bit_vector)
            requires
                hi == bits >> 32,
                lo == bits & 0xffff_ffff,
        ;
    }
}

} // verus!
