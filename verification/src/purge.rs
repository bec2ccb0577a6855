//! Process-wide stores are volatile: each can be created fresh and reset to
//! that fresh state.  A restart of the process is equivalent to a purge of
//! every store.

use vstd::prelude::*;

verus! {

pub trait Purge: Sized {
    /// The store holds nothing.
    spec fn pristine(&self) -> bool;

    /// A fresh, empty store.
    fn new() -> (r: Self)
        ensures
            r.pristine(),
    ;

    /// Empty the store.
    fn purge(&mut self)
        ensures
            final(self).pristine(),
    ;
}

} // verus!
