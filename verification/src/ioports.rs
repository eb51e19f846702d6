//! I/O ports: a port is a number, and what may be read from it and written to
//! it is fixed by its two type parameters.

use vstd::prelude::*;
use std::marker::PhantomData;

verus! {

/// The port `num`, from which `In` values are read and to which `Out` values are written.
pub struct IOPort<In, Out> {
    num: u16,
    phantom_in: PhantomData<In>,
    phantom_out: PhantomData<Out>,
}

impl<In, Out> IOPort<In, Out> {
    /// The number of the port.
    pub closed spec fn spec_num(&self) -> u16 {
        self.num
    }

    /// The port `num`.
    pub fn new(num: u16) -> (r: Self)
        ensures
            r.spec_num() == num,
    {
        IOPort { num: num, phantom_in: PhantomData, phantom_out: PhantomData }
    }

    /// The number of the port.
    pub fn num(&self) -> (r: u16)
        ensures
            r == self.spec_num(),
    {
        self.num
    }
}

} // verus!
