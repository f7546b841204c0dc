use vstd::prelude::*;
use std::marker::PhantomData;

verus! {

/// An index into a `TypedVec<T>`: a position, marked with the type of what it finds.
pub struct TypedIndex<T> {
    index: usize,
    phantom: PhantomData<T>,
}

impl<T> View for TypedIndex<T> {
    type V = usize;

    closed spec fn view(&self) -> usize {
        self.index
    }
}

impl<T> Clone for TypedIndex<T> {
    fn clone(&self) -> (r: Self)
        ensures
            r@ == self@,
    {
        TypedIndex::new(self.index)
    }
}

impl<T> Copy for TypedIndex<T> {

}

impl<T> PartialEq for TypedIndex<T> {
    fn eq(&self, other: &Self) -> (r: bool) {
        self.index == other.index
    }
}

impl<T> vstd::std_specs::cmp::PartialEqSpecImpl for TypedIndex<T> {
    open spec fn obeys_eq_spec() -> bool {
        true
    }

    open spec fn eq_spec(&self, other: &Self) -> bool {
        self@ == other@
    }
}

impl<T> Eq for TypedIndex<T> {

}

impl<T> TypedIndex<T> {
    pub fn new(index: usize) -> (r: Self)
        ensures
            r@ == index,
    {
        TypedIndex { index, phantom: PhantomData }
    }

    pub fn into(self) -> (r: usize)
        ensures
            r == self@,
    {
        self.index
    }

    /// Two indices are equal where their positions are.
    pub fn same(&self, other: &Self) -> (r: bool)
        ensures
            r == (self@ == other@),
    {
        self.index == other.index
    }

    /// The position in decimal digits.
    pub fn digits(&self) -> (r: String)
        ensures
            r@ == decimal(self@ as nat),
    {
        usize_digits(self.index)
    }
}

/// The character of a digit.
pub open spec fn digit_char(digit: nat) -> char {
    if digit == 0 {
        '0'
    } else if digit == 1 {
        '1'
    } else if digit == 2 {
        '2'
    } else if digit == 3 {
        '3'
    } else if digit == 4 {
        '4'
    } else if digit == 5 {
        '5'
    } else if digit == 6 {
        '6'
    } else if digit == 7 {
        '7'
    } else if digit == 8 {
        '8'
    } else {
        '9'
    }
}

/// The decimal digits of a number, the highest first, without leading zeros.
pub open spec fn decimal(n: nat) -> Seq<char>
    decreases n,
{
    if n < 10 {
        seq![digit_char(n)]
    } else {
        decimal(n / 10).push(digit_char(n % 10))
    }
}

/// `usize`'s `to_string`: the decimal digits of the number.
#[verifier::external_body]
fn usize_digits(n: usize) -> (r: String)
    ensures
        r@ == decimal(n as nat),
{
    n.to_string()
}

/// A vector whose positions are named by `TypedIndex<T>`.
pub struct TypedVec<T>(Vec<T>);

impl<T> View for TypedVec<T> {
    type V = Seq<T>;

    closed spec fn view(&self) -> Seq<T> {
        self.0@
    }
}

impl<T> TypedVec<T> {
    pub fn new() -> (r: Self)
        ensures
            r@ == Seq::<T>::empty(),
    {
        TypedVec(Vec::new())
    }

    /// Appends the item and returns the index at which it stands.
    pub fn insert(&mut self, item: T) -> (r: TypedIndex<T>)
        ensures
            final(self)@ == old(self)@.push(item),
            r@ == old(self)@.len(),
    {
        self.0.push(item);
        TypedIndex { index: self.0.len() - 1, phantom: PhantomData }
    }

    /// Takes the item at `index` out; those behind it move one place to the front.
    pub fn remove(&mut self, index: TypedIndex<T>) -> (r: T)
        requires
            index@ < old(self)@.len(),
        ensures
            r == old(self)@[index@ as int],
            final(self)@ == old(self)@.remove(index@ as int),
    {
        self.0.remove(index.index)
    }

    pub fn get(&self, index: TypedIndex<T>) -> (r: Option<&T>)
        ensures
            index@ < self@.len() ==> r == Some(&self@[index@ as int]),
            index@ >= self@.len() ==> r.is_none(),
    {
        if index.index < self.0.len() {
            Some(&self.0[index.index])
        } else {
            None
        }
    }

    pub fn get_mut(&mut self, index: TypedIndex<T>) -> (r: Option<&mut T>)
        ensures
            index@ >= old(self)@.len() ==> r.is_none() && final(self)@ == old(self)@,
            index@ < old(self)@.len() ==> r.is_some() && *r.unwrap() == old(self)@[index@ as int]
                && final(self)@ == old(self)@.update(index@ as int, *final(r.unwrap())),
    {
        if index.index < self.0.len() {
            Some(&mut self.0[index.index])
        } else {
            None
        }
    }

    pub fn len(&self) -> (r: usize)
        ensures
            r == self@.len(),
    {
        self.0.len()
    }

    pub fn is_empty(&self) -> (r: bool)
        ensures
            r == (self@.len() == 0),
    {
        self.0.len() == 0
    }

    /// A cursor over the items from the first on, each with its index.
    pub fn iter(&self) -> (r: Iter<'_, T>)
        ensures
            r.items() == self@,
            r.position() == 0,
    {
        Iter { index: 0, inner: self.0.as_slice() }
    }

    /// A cursor as `iter` gives it, taken from a mutable borrow.
    pub fn iter_mut(&mut self) -> (r: IterMut<'_, T>)
        ensures
            r.items() == old(self)@,
            r.position() == 0,
            final(self)@ == old(self)@,
    {
        IterMut { index: 0, inner: self.0.as_slice() }
    }

    pub fn as_slice(&self) -> (r: &[T])
        ensures
            r@ == self@,
    {
        self.0.as_slice()
    }

    pub fn as_slice_mut(&mut self) -> (r: &mut [T])
        ensures
            r@ == old(self)@,
            final(r)@ == final(self)@,
    {
        self.0.as_mut_slice()
    }

    /// The vector of the items, in their order.
    pub fn from_vec(items: Vec<T>) -> (r: Self)
        ensures
            r@ == items@,
    {
        TypedVec(items)
    }

    /// The items, in their order.
    pub fn into_vec(self) -> (r: Vec<T>)
        ensures
            r@ == self@,
    {
        self.0
    }
}

/// A cursor over a `TypedVec`: `next` hands out the items in order, each with its index.
pub struct Iter<'a, T> {
    index: usize,
    inner: &'a [T],
}

impl<'a, T> Iter<'a, T> {
    /// The items of the vector that the cursor runs over.
    pub closed spec fn items(&self) -> Seq<T> {
        self.inner@
    }

    /// The number of items handed out so far.
    pub closed spec fn position(&self) -> nat {
        self.index as nat
    }

    pub fn next(&mut self) -> (r: Option<(TypedIndex<T>, &'a T)>)
        requires
            old(self).position() <= old(self).items().len(),
        ensures
            final(self).items() == old(self).items(),
            r.is_some() == (old(self).position() < old(self).items().len()),
            final(self).position() == old(self).position() + (if r.is_some() { 1nat } else { 0nat }),
            r.is_some() ==> r.unwrap().0@ == old(self).position(),
            r.is_some() ==> *r.unwrap().1 == old(self).items()[old(self).position() as int],
    {
        if self.index < self.inner.len() {
            let idx = TypedIndex { index: self.index, phantom: PhantomData };
            let value = &self.inner[self.index];
            self.index += 1;
            Some((idx, value))
        } else {
            None
        }
    }
}

/// A cursor as `Iter`, made from a mutable borrow of the vector.
pub struct IterMut<'a, T> {
    index: usize,
    inner: &'a [T],
}

impl<'a, T> IterMut<'a, T> {
    /// The items of the vector that the cursor runs over.
    pub closed spec fn items(&self) -> Seq<T> {
        self.inner@
    }

    /// The number of items handed out so far.
    pub closed spec fn position(&self) -> nat {
        self.index as nat
    }

    pub fn next(&mut self) -> (r: Option<(TypedIndex<T>, &'a T)>)
        requires
            old(self).position() <= old(self).items().len(),
        ensures
            final(self).items() == old(self).items(),
            r.is_some() == (old(self).position() < old(self).items().len()),
            final(self).position() == old(self).position() + (if r.is_some() { 1nat } else { 0nat }),
            r.is_some() ==> r.unwrap().0@ == old(self).position(),
            r.is_some() ==> *r.unwrap().1 == old(self).items()[old(self).position() as int],
    {
        if self.index < self.inner.len() {
            let idx = TypedIndex { index: self.index, phantom: PhantomData };
            let value = &self.inner[self.index];
            self.index += 1;
            Some((idx, value))
        } else {
            None
        }
    }
}

} // verus!
