//! The input of a search.

use vstd::prelude::*;

use crate::repr::Integral;

verus! {

/// An input: a sequence of elements, read by position.
///
/// A position is a place between two elements, before the first or after the
/// last: the positions of an input of `n` elements are `0..=n`, and position
/// `at` has element `at - 1` on its left and element `at` on its right.
#[derive(Clone, Debug)]
pub struct Context<I: Integral> {
    items: Vec<I>,
}

/// The element on the right of position `at`, where there is one.
pub open spec fn element_after<I>(input: Seq<I>, at: int) -> Option<I> {
    if 0 <= at < input.len() {
        Some(input[at])
    } else {
        None
    }
}

/// The element on the left of position `at`, where there is one.
pub open spec fn element_before<I>(input: Seq<I>, at: int) -> Option<I> {
    if 0 < at <= input.len() {
        Some(input[at - 1])
    } else {
        None
    }
}

impl<I: Integral> View for Context<I> {
    type V = Seq<I>;

    closed spec fn view(&self) -> Seq<I> {
        self.items@
    }
}

impl<I: Integral> Context<I> {
    /// An input made of `items`, in their order.
    pub fn new(items: Vec<I>) -> (context: Self)
        ensures
            context@ == items@,
    {
        Context { items }
    }

    /// The number of elements.
    pub fn len(&self) -> (n: usize)
        ensures
            n == self@.len(),
    {
        self.items.len()
    }

    /// The elements, in their order.
    pub fn as_slice(&self) -> (items: &[I])
        ensures
            items@ == self@,
    {
        self.items.as_slice()
    }

    /// The element on the right of position `at`: the one that a step from
    /// `at` to `at + 1` consumes. `None` at the end of the input and beyond.
    pub fn get(&self, at: usize) -> (item: Option<I>)
        ensures
            item == element_after(self@, at as int),
    {
        if at < self.items.len() {
            Some(self.items[at])
        } else {
            None
        }
    }

    /// The element on the left of position `at`. `None` at the start of the
    /// input, and beyond its end.
    pub fn before(&self, at: usize) -> (item: Option<I>)
        ensures
            item == element_before(self@, at as int),
    {
        if 0 < at && at <= self.items.len() {
            Some(self.items[at - 1])
        } else {
            None
        }
    }
}

} // verus!
