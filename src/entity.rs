use vstd::prelude::*;

verus! {

/// Names one logical record of the store: a slot index together with the
/// generation of that slot, so that a reused slot is told apart from the
/// entity that held it before.
#[derive(Debug, Clone, Copy, PartialEq, Eq, Structural, PartialOrd, Ord, Hash)]
pub struct Entity {
    id: u32,
    generation: u32,
}

impl Entity {
    pub closed spec fn spec_id(&self) -> u32 {
        self.id
    }

    pub closed spec fn spec_generation(&self) -> u32 {
        self.generation
    }

    /// The entity with the given slot index and generation.
    pub closed spec fn from_parts(id: u32, generation: u32) -> Entity {
        Entity { id, generation }
    }

    /// Two entities are equal exactly when their index and generation are.
    pub proof fn lemma_eq(a: Entity, b: Entity)
        ensures
            (a.spec_id() == b.spec_id() && a.spec_generation() == b.spec_generation()) <==> (a
                == b),
    {
    }

    pub broadcast proof fn lemma_from_parts(id: u32, generation: u32)
        ensures
            (#[trigger] Entity::from_parts(id, generation)).spec_id() == id,
            Entity::from_parts(id, generation).spec_generation() == generation,
    {
    }

    pub fn new(id: u32, generation: u32) -> (r: Entity)
        ensures
            r == Entity::from_parts(id, generation),
            r.spec_id() == id,
            r.spec_generation() == generation,
    {
        Entity { id, generation }
    }

    #[verifier::when_used_as_spec(spec_id)]
    pub fn id(&self) -> (r: u32)
        ensures
            r == self.spec_id(),
    {
        self.id
    }

    #[verifier::when_used_as_spec(spec_generation)]
    pub fn generation(&self) -> (r: u32)
        ensures
            r == self.spec_generation(),
    {
        self.generation
    }
}

} // verus!
