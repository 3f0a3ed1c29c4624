use vstd::prelude::*;
use std::ops::Index;

verus! {

/// A vector of fixed length; its view is the sequence of its elements.
#[derive(Debug)]
pub struct Vector<T> {
    container: Vec<T>,
}

/// A cursor over a `Vector`, from its first element to its last.
pub struct VectorIter<'a, T> {
    index: usize,
    holder: &'a Vector<T>,
}

impl<T> View for Vector<T> {
    type V = Seq<T>;

    closed spec fn view(&self) -> Seq<T> {
        self.container@
    }
}

impl<T: Clone + Default> Vector<T> {
    /// A vector of `length` elements, each a clone of `T`'s default value.
    pub fn new(length: usize) -> (v: Vector<T>)
        ensures
            v@.len() == length,
            exists|d: T|
                call_ensures(T::default, (), d) && forall|i: int|
                    0 <= i < length ==> cloned::<T>(d, #[trigger] v@[i]),
    {
        let mut v: Vector<T> = Vector { container: Vec::new() };
        let d: T = Default::default();
        v.container.resize(length, d);
        assert(forall|i: int| 0 <= i < length ==> cloned::<T>(d, #[trigger] v@[i]));
        v
    }
}

impl<T: Clone> Vector<T> {
    /// A vector of `length` elements, each a clone of `value`.
    pub fn new_with(length: usize, value: T) -> (v: Vector<T>)
        ensures
            v@.len() == length,
            forall|i: int| 0 <= i < length ==> cloned::<T>(value, #[trigger] v@[i]),
    {
        let mut v: Vector<T> = Vector { container: Vec::new() };
        v.container.resize(length, value);
        v
    }
}

impl<T> Vector<T> {
    /// The element at place `i`.
    pub open spec fn spec_index(&self, i: int) -> T {
        self@[i]
    }

    /// Overwrites the element at `index`.
    pub fn set(&mut self, index: usize, v: T)
        requires
            index < old(self)@.len(),
        ensures
            final(self)@ == old(self)@.update(index as int, v),
    {
        self.container[index] = v;
    }

    /// A cursor placed before the first element.
    pub fn get_iterator(&self) -> (it: VectorIter<'_, T>)
        ensures
            it.position() == 0,
            it.elements() == self@,
    {
        VectorIter { index: 0, holder: self }
    }

    /// The number of elements.
    pub fn length(&self) -> (n: usize)
        ensures
            n == self@.len(),
    {
        self.container.len()
    }
}

impl<T> vstd::std_specs::core::IndexSpecImpl<usize> for Vector<T> {
    open spec fn index_req(&self, index: &usize) -> bool {
        *index < self@.len()
    }
}

impl<T> Index<usize> for Vector<T> {
    type Output = T;

    fn index(&self, index: usize) -> (r: &T)
        ensures
            *r == self@[index as int],
    {
        &self.container[index]
    }
}

impl<'a, T> VectorIter<'a, T> {
    #[verifier::type_invariant]
    /// The cursor stands inside its vector.
    spec fn inside(&self) -> bool {
        self.index <= self.holder.container@.len()
    }

    /// The number of elements already handed out.
    pub closed spec fn position(&self) -> nat {
        self.index as nat
    }

    /// The elements of the vector that the cursor walks.
    pub closed spec fn elements(&self) -> Seq<T> {
        self.holder@
    }

    /// The next element, or `None` once every element was handed out; after
    /// that it stays `None`.
    pub fn next(&mut self) -> (r: Option<&'a T>)
        ensures
            old(self).position() <= old(self).elements().len(),
            final(self).elements() == old(self).elements(),
            old(self).position() < old(self).elements().len() ==> {
                &&& r == Some(&old(self).elements()[old(self).position() as int])
                &&& final(self).position() == old(self).position() + 1
            },
            old(self).position() == old(self).elements().len() ==> {
                &&& r.is_none()
                &&& final(self).position() == old(self).position()
            },
    {
        proof {
            use_type_invariant(&*self);
        }
        if self.index == self.holder.container.len() {
            None
        } else {
            let v = &self.holder.container[self.index];
            self.index += 1;
            Some(v)
        }
    }
}

} // verus!
