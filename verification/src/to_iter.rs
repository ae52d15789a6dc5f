//! Collections of posting lists that present themselves as one sequence of
//! lists: a slice or an array of lists, or a slice or an array of such
//! collections.

use crate::solver::constraint_lists;
use vstd::prelude::*;
use vstd::slice::slice_to_vec;

verus! {

/// A collection that presents itself as a sequence of posting lists.
pub trait ToIter {
    /// The posting lists of the collection, in order.
    spec fn lists(&self) -> Seq<Seq<usize>>;

    /// The posting lists of the collection, in order.
    fn to_iter(&self) -> (lists: Vec<&[usize]>)
        ensures
            constraint_lists(lists@) == self.lists(),
    ;
}

/// The posting lists of each collection, one collection after the other.
pub open spec fn lists_of_all<T: ToIter>(items: Seq<T>) -> Seq<Seq<usize>>
    decreases items.len(),
{
    if items.len() == 0 {
        Seq::empty()
    } else {
        lists_of_all(items.drop_last()) + items.last().lists()
    }
}

/// The posting lists of each collection of a slice, one collection after
/// the other.
fn collect_lists<T: ToIter>(items: &[T]) -> (lists: Vec<&[usize]>)
    ensures
        constraint_lists(lists@) == lists_of_all(items@),
{
    let mut lists: Vec<&[usize]> = Vec::new();
    let mut i: usize = 0;
    while i < items.len()
        invariant
            i <= items@.len(),
            constraint_lists(lists@) == lists_of_all(items@.take(i as int)),
        decreases items@.len() - i,
    {
        let mut more = items[i].to_iter();
        lists.append(&mut more);
        proof {
            assert(items@.take(i + 1).drop_last() =~= items@.take(i as int));
        }
        i += 1;
    }
    proof {
        assert(items@.take(i as int) =~= items@);
    }
    lists
}

impl ToIter for &[&[usize]] {
    open spec fn lists(&self) -> Seq<Seq<usize>> {
        constraint_lists(self@)
    }

    fn to_iter(&self) -> (lists: Vec<&[usize]>) {
        slice_to_vec(*self)
    }
}

impl<const N: usize> ToIter for [&[usize]; N] {
    open spec fn lists(&self) -> Seq<Seq<usize>> {
        constraint_lists(self@)
    }

    fn to_iter(&self) -> (lists: Vec<&[usize]>) {
        slice_to_vec(self.as_slice())
    }
}

impl<const N: usize> ToIter for &[&[usize]; N] {
    open spec fn lists(&self) -> Seq<Seq<usize>> {
        constraint_lists(self@)
    }

    fn to_iter(&self) -> (lists: Vec<&[usize]>) {
        slice_to_vec(self.as_slice())
    }
}

impl<T: ToIter> ToIter for &[T] {
    open spec fn lists(&self) -> Seq<Seq<usize>> {
        lists_of_all(self@)
    }

    fn to_iter(&self) -> (lists: Vec<&[usize]>) {
        collect_lists(*self)
    }
}

impl<T: ToIter, const N: usize> ToIter for [T; N] {
    open spec fn lists(&self) -> Seq<Seq<usize>> {
        lists_of_all(self@)
    }

    fn to_iter(&self) -> (lists: Vec<&[usize]>) {
        collect_lists(self.as_slice())
    }
}

impl<T: ToIter, const N: usize> ToIter for &[T; N] {
    open spec fn lists(&self) -> Seq<Seq<usize>> {
        lists_of_all(self@)
    }

    fn to_iter(&self) -> (lists: Vec<&[usize]>) {
        collect_lists(self.as_slice())
    }
}

} // verus!
