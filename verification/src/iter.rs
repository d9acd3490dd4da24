//! Iteration over a vector in index order.

use vstd::prelude::*;
use std::sync::Arc;
use crate::node::Node;
use crate::radix::{MASK, SIZE};
use crate::vector::PersistentVector;

verus! {

/// What a call of `next` gives at `position` of a walk over `source`: the
/// element there, or nothing at the end.
pub open spec fn item_at<T>(source: Seq<T>, position: nat) -> Option<T> {
    if position < source.len() {
        Some(source[position as int])
    } else {
        None
    }
}

/// Where a call of `next` at `position` leaves a walk over `len` elements:
/// one further, or in place at the end.
pub open spec fn position_behind(len: nat, position: nat) -> nat {
    if position < len {
        position + 1
    } else {
        position
    }
}

/// A forward walk over the elements of one vector. It keeps the leaf of the
/// block of 32 indices it is in and asks the vector again only when it
/// enters the next block.
pub struct Iter<'a, T: 'a> {
    vec: &'a PersistentVector<T>,
    node: Option<&'a Arc<Node<T>>>,
    index: usize,
}

impl<'a, T> Iter<'a, T> {
    /// The elements of the vector that is walked.
    pub closed spec fn source(&self) -> Seq<T> {
        self.vec@
    }

    /// The index of the element that comes next.
    pub closed spec fn position(&self) -> nat {
        self.index as nat
    }

    /// The walk has not passed the end, and inside a block the kept leaf is
    /// the leaf of that block.
    #[verifier::type_invariant]
    closed spec fn inv(self) -> bool {
        let base = (self.index / 32 * 32) as nat;
        &&& self.index <= self.vec@.len()
        &&& (self.index % 32 != 0 || self.index == 0) ==> if base < self.vec@.len() {
            self.node matches Some(leaf) && **leaf == self.vec.leaf_for(base)
        } else {
            self.node is None
        }
    }

    /// The next element, or nothing once every element was given.
    #[inline]
    pub fn next(&mut self) -> (item: Option<&'a T>)
        ensures
            final(self).source() == old(self).source(),
            final(self).position() == position_behind(
                old(self).source().len(),
                old(self).position(),
            ),
            match item {
                Some(element) => item_at(old(self).source(), old(self).position()) == Some(*element),
                None => item_at(old(self).source(), old(self).position()) is None,
            },
    {
        let index = self.index;
        let slot = index & MASK;
        let ghost base = (index / 32 * 32) as nat;
        proof {
            use_type_invariant(&*self);
            use_type_invariant(self.vec);
            assert(index & 31 == index % 32) by (bit_vector);
        }

        if (index - PersistentVector::<T>::tail_off(index)) >= SIZE {
            self.node = self.vec.find_node(index);
        }
        proof {
            self.vec.lemma_len_fits();
            assert(base / 32 * 32 + slot == index);
            if base < self.vec@.len() {
                self.vec.lemma_leaf_slot(base, slot as nat);
            }
        }

        match self.node {
            Some(arc) => match &**arc {
                Node::Leaf(s) => match &s[slot] {
                    Some(value) => {
                        self.index += 1;
                        Some(&**value)
                    },
                    None => None,
                },
                _ => None,
            },
            None => None,
        }
    }

    /// The number of elements still to come, as both bounds.
    #[inline]
    pub fn size_hint(&self) -> (hint: (usize, Option<usize>))
        ensures
            hint.0 == self.source().len() - self.position(),
            hint.1 == Some(hint.0),
    {
        proof {
            use_type_invariant(self);
        }
        let size = self.vec.len() - self.index;
        (size, Some(size))
    }
}

impl<T> PersistentVector<T> {
    /// A walk over the elements from index 0.
    #[inline(always)]
    pub fn iter<'a>(&'a self) -> (iter: Iter<'a, T>)
        ensures
            iter.source() == self@,
            iter.position() == 0,
    {
        Iter { vec: self, node: self.find_node(0), index: 0 }
    }

    /// The elements in the order in which a walk gives them, which is the
    /// order of their indices.
    pub fn to_vec<'a>(&'a self) -> (items: Vec<&'a T>)
        ensures
            items@.len() == self@.len(),
            forall|i: int| 0 <= i < self@.len() ==> *items@[i] == self@[i],
    {
        let mut items: Vec<&'a T> = Vec::new();
        let mut iter = self.iter();
        loop
            invariant
                iter.source() == self@,
                iter.position() == items@.len(),
                iter.position() <= self@.len(),
                forall|i: int| 0 <= i < items@.len() ==> *items@[i] == self@[i],
            ensures
                items@.len() == self@.len(),
            decreases self@.len() - iter.position(),
        {
            match iter.next() {
                Some(item) => {
                    items.push(item);
                },
                None => {
                    break ;
                },
            }
        }
        items
    }
}

} // verus!
