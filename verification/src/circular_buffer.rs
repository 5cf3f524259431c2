//! A vector cycled through by an ever-growing cursor.

use vstd::prelude::*;

verus! {

/// A buffer whose cursor wraps around its contents.
pub struct CircularBuffer<T> {
    pub data: Vec<T>,
    current_index: usize,
}

impl<T> CircularBuffer<T> {
    pub closed spec fn spec_index(self) -> usize {
        self.current_index
    }

    /// The contents, as the contracts see them.
    pub closed spec fn spec_data(self) -> Seq<T> {
        self.data@
    }

    pub fn new(data: Vec<T>) -> (r: Self)
        ensures
            r.spec_data() == data@,
            r.spec_index() == 0,
    {
        Self { data, current_index: 0 }
    }

    /// The element under the cursor, wrapping around the length.
    pub fn get_mut(&mut self) -> (r: &mut T)
        requires
            old(self).spec_data().len() > 0,
        ensures
            *r == old(self).spec_data()[old(self).spec_index() as int % old(
                self,
            ).spec_data().len() as int],
            final(self).spec_index() == old(self).spec_index(),
            final(self).spec_data() == old(self).spec_data().update(
                old(self).spec_index() as int % old(self).spec_data().len() as int,
                *final(r),
            ),
    {
        let len = self.data.len();
        let i = self.current_index % len;
        &mut self.data[i]
    }

    /// Advances the cursor.
    pub fn next(&mut self)
        requires
            old(self).spec_index() < usize::MAX,
        ensures
            final(self).spec_index() == old(self).spec_index() + 1,
            final(self).spec_data() == old(self).spec_data(),
    {
        self.current_index = self.current_index + 1;
    }

    /// The contents in order.
    pub fn iter(&self) -> (r: &Vec<T>)
        ensures
            r@ == self.spec_data(),
    {
        &self.data
    }

    /// Takes the contents out of the buffer.
    pub fn drain(self) -> (r: Vec<T>)
        ensures
            r@ == self.spec_data(),
    {
        self.data
    }
}

} // verus!
