//! The openers of the files that are loaded.

use vstd::prelude::*;

use crate::corpus::Opened;

verus! {

/// Something that opens files. Opening a file may change the opener; what it may give, each
/// type that implements the trait says for itself.
pub trait Open<R>: Sized {
    /// Whether the opener can be asked for this file of this directory.
    spec fn ready(&self, directory: String, file: &'static str) -> bool;

    /// Whether opening `file` of `directory` may take the opener from `before` to `after`
    /// and give `opened`.
    spec fn gave(
        before: Self,
        directory: String,
        file: &'static str,
        after: Self,
        opened: Opened<R>,
    ) -> bool;

    /// Opens the file of the given name in the given directory.
    fn open(&mut self, directory: &String, file: &'static str) -> (opened: Opened<R>)
        requires
            old(self).ready(*directory, file),
        ensures
            Self::gave(*old(self), *directory, file, *final(self), opened),
            forall|d: String, f: &'static str|
                old(self).ready(d, f) ==> #[trigger] final(self).ready(d, f),
    ;
}

/// An opener that is a function.
pub struct Opening<F> {
    pub function: F,
}

impl<F> Opening<F> {
    /// The opener that a function is.
    pub fn new<R>(function: F) -> (opening: Self) where
        F: FnMut(&String, &'static str) -> Opened<R>,

        ensures
            opening.function == function,
            forall|directory: String, file: &'static str|
                call_requires(function, (&directory, file)) ==> #[trigger] Open::<R>::ready(
                    &opening,
                    directory,
                    file,
                ),
            forall|
                before: Self,
                directory: String,
                file: &'static str,
                after: Self,
                opened: Opened<R>,
            | #[trigger]
                <Self as Open<R>>::gave(before, directory, file, after, opened) ==> {
                    &&& after == before
                    &&& call_ensures(before.function, (&directory, file), opened)
                },
    {
        Opening { function }
    }
}

impl<R, F: FnMut(&String, &'static str) -> Opened<R>> Open<R> for Opening<F> {
    open spec fn ready(&self, directory: String, file: &'static str) -> bool {
        call_requires(self.function, (&directory, file))
    }

    open spec fn gave(
        before: Self,
        directory: String,
        file: &'static str,
        after: Self,
        opened: Opened<R>,
    ) -> bool {
        &&& after == before
        &&& call_ensures(before.function, (&directory, file), opened)
    }

    fn open(&mut self, directory: &String, file: &'static str) -> (opened: Opened<R>) {
        (self.function)(directory, file)
    }
}

} // verus!
