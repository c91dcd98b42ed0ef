//! Lists of structs as a message holds them.
use vstd::prelude::*;

verus! {

/// A list of structs. A message counts its elements in 32 bits.
pub struct Reader<T> {
    elements: Vec<T>,
}

impl<T> View for Reader<T> {
    type V = Seq<T>;

    closed spec fn view(&self) -> Seq<T> {
        self.elements@
    }
}

impl<T> Reader<T> {
    #[verifier::type_invariant]
    spec fn counted(self) -> bool {
        self.elements@.len() <= u32::MAX
    }

    /// The list of the given elements.
    pub fn from_vec(elements: Vec<T>) -> (r: Self)
        requires
            elements@.len() <= u32::MAX,
        ensures
            r@ == elements@,
    {
        Reader { elements }
    }

    /// The number of elements.
    pub fn len(&self) -> (r: u32)
        ensures
            r == self@.len(),
    {
        proof {
            use_type_invariant(self);
        }
        self.elements.len() as u32
    }

    /// The element at `index`.
    pub fn get(&self, index: u32) -> (r: &T)
        requires
            index < self@.len(),
        ensures
            *r == self@[index as int],
    {
        &self.elements[index as usize]
    }
}

} // verus!
