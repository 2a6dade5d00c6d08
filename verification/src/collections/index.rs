use vstd::prelude::*;

verus! {

/// A stable, generational index into a generational collection: a slot position and
/// the generation of the slot when the index was handed out.
#[derive(Clone, Copy, PartialEq, Eq, Structural, PartialOrd, Ord, Hash, Debug)]
pub struct Index {
    index: u32,
    generation: u32,
}

impl Index {
    /// The slot position.
    pub closed spec fn spec_index(&self) -> u32 {
        self.index
    }

    /// The generation.
    pub closed spec fn spec_generation(&self) -> u32 {
        self.generation
    }

    /// Creates an index from a slot position and a generation.
    pub fn new(index: u32, generation: u32) -> (r: Self)
        ensures
            r.spec_index() == index,
            r.spec_generation() == generation,
            r == mk_index(index, generation),
    {
        Index { index, generation }
    }

    /// Two indices are equal exactly when their positions and generations are.
    pub proof fn lemma_eq(a: Index, b: Index)
        ensures
            (a == b) <==> (a.spec_index() == b.spec_index() && a.spec_generation()
                == b.spec_generation()),
    {
    }

    /// Returns the slot position.
    pub fn index(&self) -> (r: u32)
        ensures
            r == self.spec_index(),
    {
        self.index
    }

    /// Returns the generation.
    pub fn generation(&self) -> (r: u32)
        ensures
            r == self.spec_generation(),
    {
        self.generation
    }
}

/// The index with the given position and generation.
pub closed spec fn mk_index(index: u32, generation: u32) -> Index {
    Index { index, generation }
}

/// The accessors of a built index give back its parts.
pub broadcast proof fn lemma_mk_index(index: u32, generation: u32)
    ensures
        #[trigger] mk_index(index, generation).spec_index() == index,
        mk_index(index, generation).spec_generation() == generation,
{
}

/// An index is the index built from its own position and generation.
pub broadcast proof fn lemma_index_ext(a: Index)
    ensures
        a == mk_index(#[trigger] a.spec_index(), a.spec_generation()),
{
}

/// The generation a slot takes when it is vacated: one more, skipping 0 on wrap-around.
pub open spec fn next_generation(g: u32) -> u32 {
    if g == u32::MAX {
        1
    } else {
        (g + 1) as u32
    }
}

} // verus!
