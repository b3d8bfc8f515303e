//! The searches under measurement.

use vstd::prelude::*;

verus! {

/// Something that can be searched. A search may change the searcher; what it may answer,
/// each type that implements the trait says for itself.
pub trait Search<Q, T, E>: Sized {
    /// Whether the searcher can be asked for this query on this index.
    spec fn ready(&self, index: usize, query: Q) -> bool;

    /// Whether a search on index `index` for `query` may take the searcher from
    /// `before` to `after` and give `answer`.
    spec fn answered(
        before: Self,
        index: usize,
        query: Q,
        after: Self,
        answer: Result<T, E>,
    ) -> bool;

    /// Searches index `index` for `query`.
    fn search(&mut self, index: usize, query: &Q) -> (answer: Result<T, E>)
        requires
            old(self).ready(index, *query),
        ensures
            Self::answered(*old(self), index, *query, *final(self), answer),
            forall|i: usize, q: Q| old(self).ready(i, q) ==> #[trigger] final(self).ready(i, q),
    ;
}

/// A searcher that is a function.
pub struct Searching<F> {
    pub function: F,
}

impl<F> Searching<F> {
    /// The searcher that a function is.
    pub fn new<Q, T, E>(function: F) -> (searching: Self) where
        F: FnMut(usize, &Q) -> Result<T, E>,

        ensures
            searching.function == function,
            forall|index: usize, query: Q|
                call_requires(function, (index, &query)) ==> #[trigger] Search::<Q, T, E>::ready(
                    &searching,
                    index,
                    query,
                ),
    {
        Searching { function }
    }
}

impl<Q, T, E, F: FnMut(usize, &Q) -> Result<T, E>> Search<Q, T, E> for Searching<F> {
    open spec fn ready(&self, index: usize, query: Q) -> bool {
        call_requires(self.function, (index, &query))
    }

    open spec fn answered(
        before: Self,
        index: usize,
        query: Q,
        after: Self,
        answer: Result<T, E>,
    ) -> bool {
        &&& after == before
        &&& call_ensures(before.function, (index, &query), answer)
    }

    fn search(&mut self, index: usize, query: &Q) -> (answer: Result<T, E>) {
        (self.function)(index, query)
    }
}

} // verus!
