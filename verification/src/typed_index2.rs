//! A pair of typed handles into two arenas of different element kinds.

use vstd::prelude::*;
use crate::typed_index::TypedIndex;

verus! {

/// A pair of typed handles, one for an element of kind `A` and one for
/// an element of kind `B`.
pub struct TypedIndex2<A, B> {
    fst: TypedIndex<A>,
    snd: TypedIndex<B>,
}

impl<A, B> TypedIndex2<A, B> {
    /// The first handle.
    pub closed spec fn fst_spec(&self) -> TypedIndex<A> {
        self.fst
    }

    /// The second handle.
    pub closed spec fn snd_spec(&self) -> TypedIndex<B> {
        self.snd
    }

    /// Pair two typed handles.
    pub fn new(fst: TypedIndex<A>, snd: TypedIndex<B>) -> (r: Self)
        ensures
            r.fst_spec() == fst,
            r.snd_spec() == snd,
    {
        Self { fst, snd }
    }

    /// The first handle.
    pub fn fst(&self) -> (r: TypedIndex<A>)
        ensures
            r == self.fst_spec(),
    {
        self.fst
    }

    /// The second handle.
    pub fn snd(&self) -> (r: TypedIndex<B>)
        ensures
            r == self.snd_spec(),
    {
        self.snd
    }
}

impl<A, B> Clone for TypedIndex2<A, B> {
    /// A handle pair copies field for field.
    fn clone(&self) -> (r: Self)
        ensures
            r.fst_spec() == self.fst_spec(),
            r.snd_spec() == self.snd_spec(),
    {
        Self { fst: self.fst, snd: self.snd }
    }
}

impl<A, B> Copy for TypedIndex2<A, B> {

}

impl<A, B> PartialEq for TypedIndex2<A, B> {
    fn eq(&self, other: &Self) -> (r: bool) {
        self.fst.inner() == other.fst.inner() && self.snd.inner() == other.snd.inner()
    }
}

impl<A, B> vstd::std_specs::cmp::PartialEqSpecImpl for TypedIndex2<A, B> {
    open spec fn obeys_eq_spec() -> bool {
        true
    }

    closed spec fn eq_spec(&self, other: &Self) -> bool {
        self.fst.inner_spec() == other.fst.inner_spec() && self.snd.inner_spec()
            == other.snd.inner_spec()
    }
}

impl<A, B> Eq for TypedIndex2<A, B> {

}

} // verus!
