//! What partial paths share with the other kinds of path: the errors of
//! extending one, and the sink that takes the extensions.

use vstd::prelude::*;
use std::collections::VecDeque;

verus! {

/// Why an edge cannot extend a path, or a jump cannot be resolved.
#[derive(Clone, Copy, PartialEq, Eq, Structural, Debug)]
pub enum PathResolutionError {
    /// The scope stack can only match the empty stack, so a jump to scope
    /// has nowhere to go.
    EmptyScopeStack,
    /// The symbol on top of the symbol stack is not the one that the node pops.
    IncorrectPoppedSymbol,
    /// The edge does not start where the path ends.
    IncorrectSourceNode,
    /// A scoped symbol is popped, and the symbol on top has no scope list.
    MissingAttachedScopeList,
    /// A plain symbol is popped, and the symbol on top has a scope list.
    UnexpectedAttachedScopeList,
}

/// A collection that takes the paths that a search produces, in order.
pub trait Extend<T>: Sized {
    /// What has been put in so far, oldest first.
    spec fn items(&self) -> Seq<T>;

    /// Makes room for `additional` more items; the contents stay as they are.
    fn reserve(&mut self, additional: usize)
        ensures
            final(self).items() == old(self).items(),
    ;

    /// Puts `item` behind the others.
    fn push(&mut self, item: T)
        ensures
            final(self).items() == old(self).items().push(item),
    ;
}

impl<T> Extend<T> for Vec<T> {
    open spec fn items(&self) -> Seq<T> {
        self@
    }

    fn reserve(&mut self, additional: usize) {
        Vec::reserve(self, additional);
    }

    fn push(&mut self, item: T) {
        Vec::push(self, item);
    }
}

impl<T> Extend<T> for VecDeque<T> {
    open spec fn items(&self) -> Seq<T> {
        self@
    }

    fn reserve(&mut self, additional: usize) {
        VecDeque::reserve(self, additional);
    }

    fn push(&mut self, item: T) {
        self.push_back(item);
    }
}

} // verus!
