//! Values that stand for the posting lists of a query: one list, a slice or
//! an array of such values, or a tuple of them.

use crate::solver::constraint_lists;
use vstd::prelude::*;

verus! {

/// A value that presents itself as a sequence of posting lists.
pub trait ToConstraints {
    /// The posting lists that the value stands for, in order.
    spec fn constraints(&self) -> Seq<Seq<usize>>;

    /// The posting lists that the value stands for, in order.
    fn to_constraints(&self) -> (lists: Vec<&[usize]>)
        ensures
            constraint_lists(lists@) == self.constraints(),
    ;
}

/// The posting lists of each item, one item after the other.
pub open spec fn constraints_of_all<T: ToConstraints>(items: Seq<T>) -> Seq<Seq<usize>>
    decreases items.len(),
{
    if items.len() == 0 {
        Seq::empty()
    } else {
        constraints_of_all(items.drop_last()) + items.last().constraints()
    }
}

/// The posting lists of each item of a slice, one item after the other.
fn collect_constraints<T: ToConstraints>(items: &[T]) -> (lists: Vec<&[usize]>)
    ensures
        constraint_lists(lists@) == constraints_of_all(items@),
{
    let mut lists: Vec<&[usize]> = Vec::new();
    let mut i: usize = 0;
    while i < items.len()
        invariant
            i <= items@.len(),
            constraint_lists(lists@) == constraints_of_all(items@.take(i as int)),
        decreases items@.len() - i,
    {
        let mut more = items[i].to_constraints();
        lists.append(&mut more);
        proof {
            assert(items@.take(i + 1).drop_last() =~= items@.take(i as int));
        }
        i += 1;
    }
    proof {
        assert(items@.take(i as int) =~= items@);
    }
    lists
}

impl ToConstraints for &[usize] {
    open spec fn constraints(&self) -> Seq<Seq<usize>> {
        seq![self@]
    }

    fn to_constraints(&self) -> (lists: Vec<&[usize]>) {
        let mut lists: Vec<&[usize]> = Vec::new();
        lists.push(*self);
        lists
    }
}

impl<T: ToConstraints> ToConstraints for &[T] {
    open spec fn constraints(&self) -> Seq<Seq<usize>> {
        constraints_of_all(self@)
    }

    fn to_constraints(&self) -> (lists: Vec<&[usize]>) {
        collect_constraints(*self)
    }
}

impl<T: ToConstraints, const N: usize> ToConstraints for [T; N] {
    open spec fn constraints(&self) -> Seq<Seq<usize>> {
        constraints_of_all(self@)
    }

    fn to_constraints(&self) -> (lists: Vec<&[usize]>) {
        collect_constraints(self.as_slice())
    }
}

impl<T: ToConstraints, const N: usize> ToConstraints for &[T; N] {
    open spec fn constraints(&self) -> Seq<Seq<usize>> {
        constraints_of_all(self@)
    }

    fn to_constraints(&self) -> (lists: Vec<&[usize]>) {
        collect_constraints(self.as_slice())
    }
}

impl ToConstraints for () {
    open spec fn constraints(&self) -> Seq<Seq<usize>> {
        Seq::empty()
    }

    fn to_constraints(&self) -> (lists: Vec<&[usize]>) {
        let lists: Vec<&[usize]> = Vec::new();
        lists
    }
}

impl<A: ToConstraints> ToConstraints for (A,) {
    open spec fn constraints(&self) -> Seq<Seq<usize>> {
        self.0.constraints()
    }

    fn to_constraints(&self) -> (lists: Vec<&[usize]>) {
        let mut lists: Vec<&[usize]> = self.0.to_constraints();
        lists
    }
}

impl<A: ToConstraints, B: ToConstraints> ToConstraints for (A, B) {
    open spec fn constraints(&self) -> Seq<Seq<usize>> {
        self.0.constraints() + self.1.constraints()
    }

    fn to_constraints(&self) -> (lists: Vec<&[usize]>) {
        let mut lists: Vec<&[usize]> = self.0.to_constraints();
        let mut more = self.1.to_constraints();
        lists.append(&mut more);
        lists
    }
}

impl<A: ToConstraints, B: ToConstraints, C: ToConstraints> ToConstraints for (A, B, C) {
    open spec fn constraints(&self) -> Seq<Seq<usize>> {
        self.0.constraints() + self.1.constraints() + self.2.constraints()
    }

    fn to_constraints(&self) -> (lists: Vec<&[usize]>) {
        let mut lists: Vec<&[usize]> = self.0.to_constraints();
        let mut more = self.1.to_constraints();
        lists.append(&mut more);
        let mut more = self.2.to_constraints();
        lists.append(&mut more);
        lists
    }
}

impl<A: ToConstraints, B: ToConstraints, C: ToConstraints, D: ToConstraints> ToConstraints for (A, B, C, D) {
    open spec fn constraints(&self) -> Seq<Seq<usize>> {
        self.0.constraints() + self.1.constraints() + self.2.constraints() + self.3.constraints()
    }

    fn to_constraints(&self) -> (lists: Vec<&[usize]>) {
        let mut lists: Vec<&[usize]> = self.0.to_constraints();
        let mut more = self.1.to_constraints();
        lists.append(&mut more);
        let mut more = self.2.to_constraints();
        lists.append(&mut more);
        let mut more = self.3.to_constraints();
        lists.append(&mut more);
        lists
    }
}

impl<A: ToConstraints, B: ToConstraints, C: ToConstraints, D: ToConstraints, E: ToConstraints> ToConstraints for (A, B, C, D, E) {
    open spec fn constraints(&self) -> Seq<Seq<usize>> {
        self.0.constraints() + self.1.constraints() + self.2.constraints() + self.3.constraints() + self.4.constraints()
    }

    fn to_constraints(&self) -> (lists: Vec<&[usize]>) {
        let mut lists: Vec<&[usize]> = self.0.to_constraints();
        let mut more = self.1.to_constraints();
        lists.append(&mut more);
        let mut more = self.2.to_constraints();
        lists.append(&mut more);
        let mut more = self.3.to_constraints();
        lists.append(&mut more);
        let mut more = self.4.to_constraints();
        lists.append(&mut more);
        lists
    }
}

impl<A: ToConstraints, B: ToConstraints, C: ToConstraints, D: ToConstraints, E: ToConstraints, F: ToConstraints> ToConstraints for (A, B, C, D, E, F) {
    open spec fn constraints(&self) -> Seq<Seq<usize>> {
        self.0.constraints() + self.1.constraints() + self.2.constraints() + self.3.constraints() + self.4.constraints() + self.5.constraints()
    }

    fn to_constraints(&self) -> (lists: Vec<&[usize]>) {
        let mut lists: Vec<&[usize]> = self.0.to_constraints();
        let mut more = self.1.to_constraints();
        lists.append(&mut more);
        let mut more = self.2.to_constraints();
        lists.append(&mut more);
        let mut more = self.3.to_constraints();
        lists.append(&mut more);
        let mut more = self.4.to_constraints();
        lists.append(&mut more);
        let mut more = self.5.to_constraints();
        lists.append(&mut more);
        lists
    }
}

impl<A: ToConstraints, B: ToConstraints, C: ToConstraints, D: ToConstraints, E: ToConstraints, F: ToConstraints, G: ToConstraints> ToConstraints for (A, B, C, D, E, F, G) {
    open spec fn constraints(&self) -> Seq<Seq<usize>> {
        self.0.constraints() + self.1.constraints() + self.2.constraints() + self.3.constraints() + self.4.constraints() + self.5.constraints() + self.6.constraints()
    }

    fn to_constraints(&self) -> (lists: Vec<&[usize]>) {
        let mut lists: Vec<&[usize]> = self.0.to_constraints();
        let mut more = self.1.to_constraints();
        lists.append(&mut more);
        let mut more = self.2.to_constraints();
        lists.append(&mut more);
        let mut more = self.3.to_constraints();
        lists.append(&mut more);
        let mut more = self.4.to_constraints();
        lists.append(&mut more);
        let mut more = self.5.to_constraints();
        lists.append(&mut more);
        let mut more = self.6.to_constraints();
        lists.append(&mut more);
        lists
    }
}

impl<A: ToConstraints, B: ToConstraints, C: ToConstraints, D: ToConstraints, E: ToConstraints, F: ToConstraints, G: ToConstraints, H: ToConstraints> ToConstraints for (A, B, C, D, E, F, G, H) {
    open spec fn constraints(&self) -> Seq<Seq<usize>> {
        self.0.constraints() + self.1.constraints() + self.2.constraints() + self.3.constraints() + self.4.constraints() + self.5.constraints() + self.6.constraints() + self.7.constraints()
    }

    fn to_constraints(&self) -> (lists: Vec<&[usize]>) {
        let mut lists: Vec<&[usize]> = self.0.to_constraints();
        let mut more = self.1.to_constraints();
        lists.append(&mut more);
        let mut more = self.2.to_constraints();
        lists.append(&mut more);
        let mut more = self.3.to_constraints();
        lists.append(&mut more);
        let mut more = self.4.to_constraints();
        lists.append(&mut more);
        let mut more = self.5.to_constraints();
        lists.append(&mut more);
        let mut more = self.6.to_constraints();
        lists.append(&mut more);
        let mut more = self.7.to_constraints();
        lists.append(&mut more);
        lists
    }
}

impl<A: ToConstraints, B: ToConstraints, C: ToConstraints, D: ToConstraints, E: ToConstraints, F: ToConstraints, G: ToConstraints, H: ToConstraints, I: ToConstraints> ToConstraints for (A, B, C, D, E, F, G, H, I) {
    open spec fn constraints(&self) -> Seq<Seq<usize>> {
        self.0.constraints() + self.1.constraints() + self.2.constraints() + self.3.constraints() + self.4.constraints() + self.5.constraints() + self.6.constraints() + self.7.constraints() + self.8.constraints()
    }

    fn to_constraints(&self) -> (lists: Vec<&[usize]>) {
        let mut lists: Vec<&[usize]> = self.0.to_constraints();
        let mut more = self.1.to_constraints();
        lists.append(&mut more);
        let mut more = self.2.to_constraints();
        lists.append(&mut more);
        let mut more = self.3.to_constraints();
        lists.append(&mut more);
        let mut more = self.4.to_constraints();
        lists.append(&mut more);
        let mut more = self.5.to_constraints();
        lists.append(&mut more);
        let mut more = self.6.to_constraints();
        lists.append(&mut more);
        let mut more = self.7.to_constraints();
        lists.append(&mut more);
        let mut more = self.8.to_constraints();
        lists.append(&mut more);
        lists
    }
}

impl<A: ToConstraints, B: ToConstraints, C: ToConstraints, D: ToConstraints, E: ToConstraints, F: ToConstraints, G: ToConstraints, H: ToConstraints, I: ToConstraints, J: ToConstraints> ToConstraints for (A, B, C, D, E, F, G, H, I, J) {
    open spec fn constraints(&self) -> Seq<Seq<usize>> {
        self.0.constraints() + self.1.constraints() + self.2.constraints() + self.3.constraints() + self.4.constraints() + self.5.constraints() + self.6.constraints() + self.7.constraints() + self.8.constraints() + self.9.constraints()
    }

    fn to_constraints(&self) -> (lists: Vec<&[usize]>) {
        let mut lists: Vec<&[usize]> = self.0.to_constraints();
        let mut more = self.1.to_constraints();
        lists.append(&mut more);
        let mut more = self.2.to_constraints();
        lists.append(&mut more);
        let mut more = self.3.to_constraints();
        lists.append(&mut more);
        let mut more = self.4.to_constraints();
        lists.append(&mut more);
        let mut more = self.5.to_constraints();
        lists.append(&mut more);
        let mut more = self.6.to_constraints();
        lists.append(&mut more);
        let mut more = self.7.to_constraints();
        lists.append(&mut more);
        let mut more = self.8.to_constraints();
        lists.append(&mut more);
        let mut more = self.9.to_constraints();
        lists.append(&mut more);
        lists
    }
}

impl<A: ToConstraints, B: ToConstraints, C: ToConstraints, D: ToConstraints, E: ToConstraints, F: ToConstraints, G: ToConstraints, H: ToConstraints, I: ToConstraints, J: ToConstraints, K: ToConstraints> ToConstraints for (A, B, C, D, E, F, G, H, I, J, K) {
    open spec fn constraints(&self) -> Seq<Seq<usize>> {
        self.0.constraints() + self.1.constraints() + self.2.constraints() + self.3.constraints() + self.4.constraints() + self.5.constraints() + self.6.constraints() + self.7.constraints() + self.8.constraints() + self.9.constraints() + self.10.constraints()
    }

    fn to_constraints(&self) -> (lists: Vec<&[usize]>) {
        let mut lists: Vec<&[usize]> = self.0.to_constraints();
        let mut more = self.1.to_constraints();
        lists.append(&mut more);
        let mut more = self.2.to_constraints();
        lists.append(&mut more);
        let mut more = self.3.to_constraints();
        lists.append(&mut more);
        let mut more = self.4.to_constraints();
        lists.append(&mut more);
        let mut more = self.5.to_constraints();
        lists.append(&mut more);
        let mut more = self.6.to_constraints();
        lists.append(&mut more);
        let mut more = self.7.to_constraints();
        lists.append(&mut more);
        let mut more = self.8.to_constraints();
        lists.append(&mut more);
        let mut more = self.9.to_constraints();
        lists.append(&mut more);
        let mut more = self.10.to_constraints();
        lists.append(&mut more);
        lists
    }
}

impl<A: ToConstraints, B: ToConstraints, C: ToConstraints, D: ToConstraints, E: ToConstraints, F: ToConstraints, G: ToConstraints, H: ToConstraints, I: ToConstraints, J: ToConstraints, K: ToConstraints, L: ToConstraints> ToConstraints for (A, B, C, D, E, F, G, H, I, J, K, L) {
    open spec fn constraints(&self) -> Seq<Seq<usize>> {
        self.0.constraints() + self.1.constraints() + self.2.constraints() + self.3.constraints() + self.4.constraints() + self.5.constraints() + self.6.constraints() + self.7.constraints() + self.8.constraints() + self.9.constraints() + self.10.constraints() + self.11.constraints()
    }

    fn to_constraints(&self) -> (lists: Vec<&[usize]>) {
        let mut lists: Vec<&[usize]> = self.0.to_constraints();
        let mut more = self.1.to_constraints();
        lists.append(&mut more);
        let mut more = self.2.to_constraints();
        lists.append(&mut more);
        let mut more = self.3.to_constraints();
        lists.append(&mut more);
        let mut more = self.4.to_constraints();
        lists.append(&mut more);
        let mut more = self.5.to_constraints();
        lists.append(&mut more);
        let mut more = self.6.to_constraints();
        lists.append(&mut more);
        let mut more = self.7.to_constraints();
        lists.append(&mut more);
        let mut more = self.8.to_constraints();
        lists.append(&mut more);
        let mut more = self.9.to_constraints();
        lists.append(&mut more);
        let mut more = self.10.to_constraints();
        lists.append(&mut more);
        let mut more = self.11.to_constraints();
        lists.append(&mut more);
        lists
    }
}

} // verus!
