//! Nodes of the trie: a parent keeps up to 32 shared children, a leaf up to
//! 32 shared values. Slots are filled from the left.

use vstd::prelude::*;
use std::sync::Arc;
use vstd::pervasive::unreached;
use crate::radix::{
    lemma_same_block,
    lemma_slot_in_range,
    lemma_slot_order,
    lemma_span_step,
    lemma_span_whole_blocks,
    lemma_within_block,
    share,
    span,
    SIZE,
};

verus! {

pub(crate) enum Node<T> {
    Parent([Option<Arc<Node<T>>>; SIZE]),
    Leaf([Option<Arc<T>>; SIZE]),
}

/// An array of 32 empty slots.
pub(crate) fn create_slice<T>() -> (slice: [Option<T>; SIZE])
    ensures
        forall|k: int| 0 <= k < SIZE ==> (#[trigger] slice@[k]) is None,
{
    [
        None, None, None, None, None, None, None, None,
        None, None, None, None, None, None, None, None,
        None, None, None, None, None, None, None, None,
        None, None, None, None, None, None, None, None,
    ]
}

impl<T> Node<T> {
    /// The child slots of a parent.
    pub(crate) open spec fn children(self) -> Seq<Option<Arc<Node<T>>>> {
        self->Parent_0@
    }

    /// The value slots of a leaf.
    pub(crate) open spec fn values(self) -> Seq<Option<Arc<T>>> {
        self->Leaf_0@
    }

    /// All slots are empty.
    pub(crate) open spec fn is_vacant(self) -> bool {
        match self {
            Node::Parent(slots) => forall|k: int| 0 <= k < SIZE ==> (#[trigger] slots@[k]) is None,
            Node::Leaf(slots) => forall|k: int| 0 <= k < SIZE ==> (#[trigger] slots@[k]) is None,
        }
    }

    /// This node heads a subtree at `level` that keeps exactly `count`
    /// values, packed from the left: every slot before the last occupied one
    /// is complete, and the slots behind it are empty.
    pub(crate) open spec fn holds(self, level: nat, count: nat) -> bool
        decreases level,
    {
        if level == 0 {
            &&& self is Leaf
            &&& count <= SIZE
            &&& forall|k: int| 0 <= k < SIZE ==> ((#[trigger] self.values()[k]) is Some <==> k < count)
        } else if level >= 5 && level % 5 == 0 {
            &&& self is Parent
            &&& count <= SIZE * span(level)
            &&& forall|k: int|
                0 <= k < SIZE ==> {
                    let part = share(count, k, span(level));
                    &&& (#[trigger] self.children()[k]) is Some <==> part > 0
                    &&& part > 0 ==> self.children()[k].unwrap().holds((level - 5) as nat, part)
                }
        } else {
            false
        }
    }

    /// The leaf that keeps position `i` of the subtree that this node heads
    /// at `level`.
    pub(crate) open spec fn leaf_at(self, level: nat, i: nat) -> Node<T>
        decreases level,
    {
        if level < 5 {
            self
        } else {
            let slot = i / span(level);
            (*self.children()[slot as int].unwrap()).leaf_at((level - 5) as nat, i % span(level))
        }
    }

    #[inline(always)]
    pub(crate) fn new_parent() -> (node: Self)
        ensures
            node is Parent,
            node.is_vacant(),
    {
        Node::Parent(create_slice::<Arc<Node<T>>>())
    }

    #[inline(always)]
    pub(crate) fn new_leaf() -> (node: Self)
        ensures
            node is Leaf,
            node.is_vacant(),
            node.holds(0, 0),
    {
        Node::Leaf(create_slice::<Arc<T>>())
    }

    #[inline]
    pub(crate) fn set_value(&mut self, index: usize, value: Arc<T>)
        requires
            *old(self) is Leaf,
            index < SIZE,
        ensures
            *final(self) is Leaf,
            final(self).values() == old(self).values().update(index as int, Some(value)),
    {
        match self {
            Node::Leaf(slice) => {
                slice[index] = Some(value);
            },
            _ => unreached(),
        }
    }

    #[inline]
    pub(crate) fn set_array(&mut self, index: usize, array: Arc<Node<T>>)
        requires
            *old(self) is Parent,
            index < SIZE,
        ensures
            *final(self) is Parent,
            final(self).children() == old(self).children().update(index as int, Some(array)),
    {
        match self {
            Node::Parent(slice) => {
                slice[index] = Some(array);
            },
            _ => unreached(),
        }
    }

    #[inline]
    pub(crate) fn get_array(&self, index: usize) -> (child: Option<&Arc<Node<T>>>)
        requires
            self is Parent,
            index < SIZE,
        ensures
            child == match self.children()[index as int] {
                Some(array) => Some(&array),
                None => None,
            },
    {
        match self {
            Node::Parent(slice) => match &slice[index] {
                Some(array) => Some(array),
                None => None,
            },
            _ => unreached(),
        }
    }

    #[inline]
    pub(crate) fn get_value(&self, index: usize) -> (value: Option<&Arc<T>>)
        requires
            self is Leaf,
            index < SIZE,
        ensures
            value == match self.values()[index as int] {
                Some(shared) => Some(&shared),
                None => None,
            },
    {
        match self {
            Node::Leaf(slice) => match &slice[index] {
                Some(value) => Some(value),
                None => None,
            },
            _ => unreached(),
        }
    }

    /// A node of the same kind that shares the first `len` slots with this
    /// one and leaves the others empty.
    #[inline]
    pub(crate) fn clone_with_len(&self, len: usize) -> (copy: Self)
        requires
            len <= SIZE,
        ensures
            copy is Parent <==> self is Parent,
            self is Parent ==> forall|k: int|
                0 <= k < SIZE ==> #[trigger] copy.children()[k] == if k < len {
                    self.children()[k]
                } else {
                    None
                },
            self is Leaf ==> forall|k: int|
                0 <= k < SIZE ==> #[trigger] copy.values()[k] == if k < len {
                    self.values()[k]
                } else {
                    None
                },
    {
        match self {
            Node::Parent(slice) => {
                let mut new_slice = create_slice::<Arc<Node<T>>>();
                for i in 0..len
                    invariant
                        len <= SIZE,
                        forall|k: int|
                            0 <= k < SIZE ==> #[trigger] new_slice@[k] == if k < i {
                                slice@[k]
                            } else {
                                None
                            },
                {
                    match &slice[i] {
                        Some(node) => {
                            new_slice[i] = Some(node.clone());
                        },
                        None => (),
                    }
                }
                Node::Parent(new_slice)
            },
            Node::Leaf(slice) => {
                let mut new_slice = create_slice::<Arc<T>>();
                for i in 0..len
                    invariant
                        len <= SIZE,
                        forall|k: int|
                            0 <= k < SIZE ==> #[trigger] new_slice@[k] == if k < i {
                                slice@[k]
                            } else {
                                None
                            },
                {
                    match &slice[i] {
                        Some(node) => {
                            new_slice[i] = Some(node.clone());
                        },
                        None => (),
                    }
                }
                Node::Leaf(new_slice)
            },
        }
    }
}

impl<T> Node<T> {
    /// In a subtree that keeps whole blocks of 32, the leaf of every kept
    /// position is complete.
    pub(crate) proof fn lemma_leaf_is_full(self, level: nat, count: nat, i: nat)
        requires
            self.holds(level, count),
            count % 32 == 0,
            i < count,
        ensures
            self.leaf_at(level, i).holds(0, 32),
        decreases level,
    {
        if level >= 5 {
            let width = span(level);
            lemma_span_step(level);
            lemma_span_whole_blocks(level);
            lemma_slot_order(i, count, width);
            lemma_slot_in_range(i, width);
            lemma_within_block(count, width, 0);
            let slot = (i / width) as int;
            let part = share(count, slot, width);
            assert(self.children()[slot] is Some);
            let child = *self.children()[slot].unwrap();
            child.lemma_leaf_is_full((level - 5) as nat, part, i % width);
        }
    }

    /// The positions of one aligned block of 32 share their leaf.
    pub(crate) proof fn lemma_block_shares_leaf(self, level: nat, i: nat, j: nat)
        requires
            level % 5 == 0,
            i / 32 == j / 32,
        ensures
            self.leaf_at(level, i) == self.leaf_at(level, j),
        decreases level,
    {
        if level >= 5 {
            let width = span(level);
            lemma_span_whole_blocks(level);
            lemma_same_block(i, j, width);
            let child = *self.children()[(i / width) as int].unwrap();
            child.lemma_block_shares_leaf((level - 5) as nat, i % width, j % width);
        }
    }
}

impl<T> Clone for Node<T> {
    #[inline]
    fn clone(&self) -> (copy: Self)
        ensures
            copy == *self,
    {
        let copy = self.clone_with_len(SIZE);
        proof {
            if self is Parent {
                assert(copy->Parent_0 =~= self->Parent_0);
            } else {
                assert(copy->Leaf_0 =~= self->Leaf_0);
            }
        }
        copy
    }
}

} // verus!
