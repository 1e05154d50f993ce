//! A plain step counter.
use vstd::prelude::*;

verus! {

pub struct Counter {
    pub index: usize,
}

impl Counter {
    pub fn inc(&mut self)
        requires
            old(self).index < usize::MAX,
        ensures
            final(self).index == old(self).index + 1,
    {
        self.index += 1;
    }

    pub fn dec(&mut self)
        requires
            old(self).index > 0,
        ensures
            final(self).index == old(self).index - 1,
    {
        self.index -= 1;
    }

    pub fn eq(&self, value: usize) -> (r: bool)
        ensures
            r == (self.index == value),
    {
        self.index == value
    }

    pub fn gt(&self, value: usize) -> (r: bool)
        ensures
            r == (self.index > value),
    {
        self.index > value
    }

    pub fn value(&self) -> (r: usize)
        ensures
            r == self.index,
    {
        self.index
    }
}

} // verus!
