//! The vector handle: a trie of complete leaves plus a tail leaf that takes
//! the most recent elements.

use vstd::prelude::*;
use std::sync::Arc;
use vstd::arithmetic::div_mod::lemma_small_mod;
use vstd::bits::{lemma_usize_pow2_no_overflow, lemma_usize_shl_is_mul, lemma_usize_shr_is_div};
use crate::node::Node;
use crate::radix::{
    is_trie_shift,
    kept_below,
    lemma_append_block,
    lemma_descend,
    lemma_first_slots,
    lemma_single_block,
    lemma_span_fits,
    lemma_tail_slot,
    lemma_slot_in_range,
    lemma_slot_is_digit,
    lemma_slot_order,
    lemma_span_base,
    lemma_span_step,
    lemma_span_whole_blocks,
    lemma_tail_offset,
    lemma_within_block,
    share,
    span,
    tail_offset,
    MASK,
    SHIFT,
    SIZE,
};

verus! {

/// An immutable vector. `push` returns a new vector and leaves the receiver
/// as it was; the two share all storage that the append did not touch.
pub struct PersistentVector<T> {
    root: Option<Arc<Node<T>>>,
    tail: Option<Arc<Node<T>>>,
    len: usize,
    shift: usize,
}

impl<T> View for PersistentVector<T> {
    type V = Seq<T>;

    /// The elements in index order.
    closed spec fn view(&self) -> Seq<T> {
        Seq::new(self.len as nat, |i: int| self.entry(i as nat))
    }
}

impl<T> PersistentVector<T> {
    /// The leaf that keeps index `i`: the tail from the tail offset on, else
    /// the leaf that the trie reaches by the digits of `i`.
    pub(crate) closed spec fn leaf_for(self, i: nat) -> Node<T> {
        if i >= tail_offset(self.len as nat) {
            *self.tail.unwrap()
        } else {
            (*self.root.unwrap()).leaf_at(self.shift as nat, i)
        }
    }

    /// The element at index `i`.
    pub(crate) closed spec fn entry(self, i: nat) -> T {
        *self.leaf_for(i).values()[i as int % 32].unwrap()
    }

    /// The trie keeps the elements below the tail offset in complete leaves
    /// and is exactly as high as that takes; the tail keeps the rest.
    #[verifier::type_invariant]
    pub(crate) closed spec fn inv(self) -> bool {
        let trie_len = tail_offset(self.len as nat);
        &&& is_trie_shift(self.shift as nat, self.len as nat)
        &&& self.shift < usize::BITS
        &&& match self.root {
            Some(root) => trie_len > 0 && root.holds(self.shift as nat, trie_len),
            None => trie_len == 0,
        }
        &&& match self.tail {
            Some(tail) => tail.holds(0, (self.len - trie_len) as nat),
            None => self.len == 0,
        }
    }

    /// The number of elements fits a `usize`.
    pub proof fn lemma_len_fits(self)
        ensures
            self@.len() <= usize::MAX,
    {
    }

    /// The empty vector.
    #[inline(always)]
    pub fn new() -> (vector: Self)
        ensures
            vector@ == Seq::<T>::empty(),
    {
        let vector = PersistentVector { root: None, tail: None, len: 0usize, shift: SHIFT };
        assert(vector@ =~= Seq::<T>::empty());
        vector
    }

    /// The number of elements.
    #[inline(always)]
    pub fn len(&self) -> (len: usize)
        ensures
            len == self@.len(),
    {
        self.len
    }

    /// The level of the root of the trie, in bits of the index.
    #[inline(always)]
    pub fn shift(&self) -> (shift: usize)
        ensures
            is_trie_shift(shift as nat, self@.len()),
    {
        proof {
            use_type_invariant(self);
        }
        self.shift
    }

    /// Where the tail begins in a vector of `len` elements.
    #[inline]
    pub fn tail_off(len: usize) -> (offset: usize)
        ensures
            offset == tail_offset(len as nat),
    {
        if len < SIZE {
            0
        } else {
            let last = len - 1;
            assert((last >> 5usize) << 5usize == last / 32 * 32) by (bit_vector);
            (last >> SHIFT) << SHIFT
        }
    }

    /// The leaf that keeps `index`, if the vector has that index.
    #[inline]
    pub(crate) fn find_node(&self, index: usize) -> (found: Option<&Arc<Node<T>>>)
        ensures
            index >= self@.len() ==> found is None,
            index < self@.len() ==> (found matches Some(leaf) && **leaf == self.leaf_for(index as nat)),
    {
        proof {
            use_type_invariant(self);
            lemma_tail_offset(self.len as nat);
        }
        if index < self.len {
            if index >= Self::tail_off(self.len) {
                match self.tail {
                    Some(ref tail) => Some(tail),
                    None => None,
                }
            } else {
                let mut node = self.root.as_ref();
                let mut level = self.shift;
                let ghost mut count = tail_offset(self.len as nat);
                let ghost mut at = index as nat;
                proof {
                    lemma_span_step(level as nat);
                    lemma_small_mod(at, span((level + 5) as nat));
                }

                while level > 0usize
                    invariant
                        level % 5 == 0,
                        level < usize::BITS,
                        at < count,
                        at == index as nat % span((level + 5) as nat),
                        node is Some,
                        node.unwrap().holds(level as nat, count),
                        node.unwrap().leaf_at(level as nat, at) == self.leaf_for(index as nat),
                    decreases level,
                {
                    let i = (index >> level) & MASK;
                    proof {
                        let width = span(level as nat);
                        lemma_span_step(level as nat);
                        lemma_span_step((level - 5) as nat);
                        lemma_slot_is_digit(index, level);
                        lemma_descend(index as nat, level as nat);
                        lemma_slot_order(at, count, width);
                        count = share(count, i as int, width);
                        at = at % width;
                    }

                    match node {
                        Some(n) => match &**n {
                            Node::Parent(slice) => {
                                node = slice[i].as_ref();
                            },
                            _ => return None,
                        },
                        None => return None,
                    }

                    level = level - SHIFT;
                }

                node
            }
        } else {
            None
        }
    }

    /// What the leaf of index `i` keeps in slot `k`: the element of that
    /// block of 32 indices, and nothing from the length on.
    pub(crate) proof fn lemma_leaf_slot(self, i: nat, k: nat)
        requires
            self.inv(),
            i < self@.len(),
            k < 32,
        ensures
            self.leaf_for(i) is Leaf,
            i / 32 * 32 + k < self@.len() ==> (self.leaf_for(i).values()[k as int] matches Some(
                value,
            ) && *value == self@[i / 32 * 32 + k as int]),
            i / 32 * 32 + k >= self@.len() ==> self.leaf_for(i).values()[k as int] is None,
    {
        let trie_len = tail_offset(self.len as nat);
        let base = (i / 32 * 32) as nat;
        let j = base + k;
        lemma_tail_offset(self.len as nat);
        if i >= trie_len {
            assert(base == trie_len);
        } else {
            let root = *self.root.unwrap();
            root.lemma_leaf_is_full(self.shift as nat, trie_len, i);
            root.lemma_block_shares_leaf(self.shift as nat, i, j);
        }
    }

    /// The element at `index`, or nothing where the vector has no such index.
    #[inline]
    pub fn get(&self, index: usize) -> (value: Option<&T>)
        ensures
            value == if index < self@.len() {
                Some(&self@[index as int])
            } else {
                None
            },
    {
        let slot = index & MASK;
        proof {
            use_type_invariant(self);
            assert(index & 31 == index % 32) by (bit_vector);
            if index < self.len {
                self.lemma_leaf_slot(index as nat, slot as nat);
            }
        }
        match self.find_node(index) {
            Some(arc) => match arc.get_value(slot) {
                Some(value) => Some(&**value),
                None => None,
            },
            None => None,
        }
    }

    /// A chain of parents, one for each level from `level` down, that leads
    /// to `array` through first slots only.
    #[inline]
    pub(crate) fn new_path(array: Arc<Node<T>>, level: usize) -> (path: Arc<Node<T>>)
        requires
            level % 5 == 0,
            array.holds(0, 32),
        ensures
            path.holds(level as nat, 32),
            forall|j: nat| j < 32 ==> #[trigger] path.leaf_at(level as nat, j) == *array,
        decreases level,
    {
        if level == 0 {
            array
        } else {
            let mut new_array = Node::new_parent();
            new_array.set_array(0, Self::new_path(array, level - SHIFT));
            proof {
                let width = span(level as nat);
                lemma_span_step(level as nat);
                lemma_span_whole_blocks(level as nat);
                assert forall|k: int| 0 <= k < SIZE implies {
                    let part = share(32, k, width);
                    &&& (#[trigger] new_array.children()[k]) is Some <==> part > 0
                    &&& part > 0 ==> new_array.children()[k].unwrap().holds(
                        (level - 5) as nat,
                        part,
                    )
                } by {
                    lemma_single_block(width, k, 0);
                }
                assert forall|j: nat| j < 32 implies #[trigger] new_array.leaf_at(level as nat, j)
                    == *array by {
                    lemma_single_block(width, 0, j);
                    let child = *new_array.children()[0].unwrap();
                    assert(child.leaf_at((level - 5) as nat, j) == *array);
                }
            }
            Arc::new(new_array)
        }
    }

    /// Puts a full tail leaf into a parent that is still empty.
    #[inline]
    pub(crate) fn push_tail_empty_root(
        mut new_array: Node<T>,
        tail_array: Arc<Node<T>>,
        len: usize,
        level: usize,
    ) -> (root: Arc<Node<T>>)
        requires
            new_array is Parent,
            new_array.is_vacant(),
            tail_array.holds(0, 32),
            len >= 32,
            len % 32 == 0,
            level >= 5,
            level % 5 == 0,
            level < usize::BITS,
            kept_below(len as nat, level as nat) == 0,
        ensures
            root.holds(level as nat, 32),
            forall|j: nat| j < 32 ==> #[trigger] root.leaf_at(level as nat, j) == *tail_array,
    {
        let sub_index = ((len - 1) >> level) & MASK;
        proof {
            lemma_tail_slot(len, level);
            lemma_span_whole_blocks(level as nat);
            lemma_single_block(span(level as nat), 0, 0);
        }

        let array_to_insert = if level == SHIFT {
            tail_array
        } else {
            Self::new_path(tail_array, level - SHIFT)
        };

        new_array.set_array(sub_index, array_to_insert);

        proof {
            let width = span(level as nat);
            lemma_span_step(level as nat);
            lemma_span_base();
            assert forall|k: int| 0 <= k < SIZE implies {
                let part = share(32, k, width);
                &&& (#[trigger] new_array.children()[k]) is Some <==> part > 0
                &&& part > 0 ==> new_array.children()[k].unwrap().holds((level - 5) as nat, part)
            } by {
                lemma_single_block(width, k, 0);
            }
            assert forall|j: nat| j < 32 implies #[trigger] new_array.leaf_at(level as nat, j)
                == *tail_array by {
                lemma_single_block(width, 0, j);
                let child = *new_array.children()[0].unwrap();
                assert(child.leaf_at((level - 5) as nat, j) == *tail_array);
            }
        }

        Arc::new(new_array)
    }

    /// A copy of the path from `parent_array` to the place behind its last
    /// value, with a full tail leaf put there. What lies left of the path is
    /// shared with `parent_array`.
    #[inline]
    pub(crate) fn push_tail(
        parent_array: &Arc<Node<T>>,
        tail_array: Arc<Node<T>>,
        len: usize,
        level: usize,
    ) -> (root: Arc<Node<T>>)
        requires
            tail_array.holds(0, 32),
            len >= 32,
            len % 32 == 0,
            level >= 5,
            level % 5 == 0,
            level < usize::BITS,
            parent_array.holds(level as nat, kept_below(len as nat, level as nat)),
        ensures
            root.holds(level as nat, kept_below(len as nat, level as nat) + 32),
            forall|i: nat|
                i < kept_below(len as nat, level as nat) ==> #[trigger] root.leaf_at(
                    level as nat,
                    i,
                ) == parent_array.leaf_at(level as nat, i),
            forall|j: nat|
                j < 32 ==> #[trigger] root.leaf_at(
                    level as nat,
                    kept_below(len as nat, level as nat) + j,
                ) == *tail_array,
        decreases level,
    {
        let ghost width = span(level as nat);
        let ghost kept = kept_below(len as nat, level as nat);
        let ghost rest = kept_below(len as nat, (level - 5) as nat);
        let sub_index = ((len - 1) >> level) & MASK;
        proof {
            lemma_tail_slot(len, level);
            lemma_span_step(level as nat);
            lemma_span_whole_blocks(level as nat);
            lemma_span_base();
            lemma_slot_in_range(kept, width);
            lemma_within_block(kept, width, 0);
            assert(share(kept, sub_index as int, width) == rest);
        }
        let mut new_array = parent_array.clone_with_len(sub_index);

        let array_to_insert = if level == SHIFT {
            tail_array
        } else {
            match parent_array.get_array(sub_index) {
                Some(child) => { Self::push_tail(child, tail_array, len, level - SHIFT) },
                None => { Self::new_path(tail_array, level - SHIFT) },
            }
        };
        new_array.set_array(sub_index, array_to_insert);

        proof {
            lemma_append_block(kept, width);
            assert forall|k: int| 0 <= k < SIZE implies {
                let part = share(kept + 32, k, width);
                &&& (#[trigger] new_array.children()[k]) is Some <==> part > 0
                &&& part > 0 ==> new_array.children()[k].unwrap().holds((level - 5) as nat, part)
            } by {
                if k < sub_index {
                    assert(new_array.children()[k] == parent_array.children()[k]);
                }
            }
            assert forall|i: nat| i < kept implies #[trigger] new_array.leaf_at(level as nat, i)
                == parent_array.leaf_at(level as nat, i) by {
                lemma_slot_order(i, kept, width);
                let slot = (i / width) as int;
                if slot < sub_index {
                    assert(new_array.children()[slot] == parent_array.children()[slot]);
                } else {
                    let child = *new_array.children()[slot].unwrap();
                    let before = *parent_array.children()[slot].unwrap();
                    assert(child.leaf_at((level - 5) as nat, i % width) == before.leaf_at(
                        (level - 5) as nat,
                        i % width,
                    ));
                }
            }
            assert forall|j: nat| j < 32 implies #[trigger] new_array.leaf_at(
                level as nat,
                kept + j,
            ) == *tail_array by {
                lemma_within_block(kept, width, j);
                let child = *new_array.children()[sub_index as int].unwrap();
                assert(child.leaf_at((level - 5) as nat, rest + j) == *tail_array);
            }
        }

        Arc::new(new_array)
    }

    /// Appends `value` in place. A tail with room is copied and extended; a
    /// full tail moves into the trie, which grows by a level when it is
    /// complete, and a new tail starts with `value`.
    #[inline]
    fn push_value_mut(&mut self, value: T)
        requires
            old(self).tail is Some,
            old(self).len < usize::MAX,
        ensures
            final(self)@ == old(self)@.push(value),
    {
        let len = self.len;
        let shift = self.shift;
        let ghost before = *self;
        let ghost trie_len = tail_offset(len as nat);
        proof {
            use_type_invariant(&*self);
            lemma_tail_offset(len as nat);
            lemma_tail_offset((len + 1) as nat);
            lemma_span_step(shift as nat);
            lemma_span_base();
        }
        let used = len - Self::tail_off(len);

        if used < SIZE {
            let mut new_tail = (**self.tail.as_ref().unwrap()).clone();
            assert(len & 31 == len % 32) by (bit_vector);
            new_tail.set_value(len & MASK, Arc::new(value));

            let root = match self.root {
                Some(ref root) => Some(root.clone()),
                None => None,
            };
            *self = PersistentVector { root, tail: Some(Arc::new(new_tail)), len: len + 1, shift };
            proof {
                assert(self@ =~= before@.push(value));
            }
        } else {
            let tail_array = self.tail.as_ref().unwrap().clone();
            let mut new_shift = shift;
            proof {
                lemma_usize_shr_is_div(len, SHIFT);
                lemma_usize_pow2_no_overflow(shift as nat);
                lemma_usize_shl_is_mul(1usize, shift);
                lemma_span_whole_blocks(shift as nat);
                lemma_tail_slot(len, shift);
            }

            let new_root = if (len >> SHIFT) > (1usize << shift) {
                let mut new_root = Node::new_parent();
                new_root.set_array(0, self.root.as_ref().unwrap().clone());
                new_root.set_array(1, Self::new_path(tail_array, shift));
                new_shift += SHIFT;
                proof {
                    let width = span(new_shift as nat);
                    lemma_span_fits(new_shift as nat);
                    lemma_span_step(new_shift as nat);
                    assert(trie_len == width);
                    lemma_first_slots(32, width);
                    assert forall|k: int| 0 <= k < SIZE implies {
                        let part = share(len as nat, k, width);
                        &&& (#[trigger] new_root.children()[k]) is Some <==> part > 0
                        &&& part > 0 ==> new_root.children()[k].unwrap().holds(shift as nat, part)
                    } by {}
                    assert forall|i: nat| i < trie_len implies #[trigger] new_root.leaf_at(
                        new_shift as nat,
                        i,
                    ) == before.leaf_for(i) by {
                        lemma_first_slots(i, width);
                    }
                    assert forall|j: nat| j < 32 implies #[trigger] new_root.leaf_at(
                        new_shift as nat,
                        trie_len + j,
                    ) == *tail_array by {
                        lemma_first_slots(j, width);
                        let child = *new_root.children()[1].unwrap();
                        assert(child.leaf_at(shift as nat, j) == *tail_array);
                    }
                }
                Arc::new(new_root)
            } else {
                proof {
                    lemma_small_mod(trie_len, span((shift + 5) as nat));
                }
                match self.root.as_ref() {
                    Some(root) => { Self::push_tail(root, tail_array, len, shift) },
                    None => {
                        Self::push_tail_empty_root(Node::new_parent(), tail_array, len, shift)
                    },
                }
            };

            let mut new_tail = Node::new_leaf();
            new_tail.set_value(0, Arc::new(value));

            *self = PersistentVector {
                root: Some(new_root),
                tail: Some(Arc::new(new_tail)),
                len: len + 1,
                shift: new_shift,
            };
            proof {
                assert forall|i: int| 0 <= i < len + 1 implies self@[i] == before@.push(value)[i] by {
                    if trie_len <= i < len {
                        let j = (i - trie_len) as nat;
                        assert(new_root.leaf_at(new_shift as nat, trie_len + j) == *tail_array);
                    }
                }
                assert(self@ =~= before@.push(value));
            }
        }
    }

    /// A vector with `value` appended. The receiver is left as it was: every
    /// index it has keeps its element, here and in the result.
    #[inline]
    pub fn push(&self, value: T) -> (vector: Self)
        requires
            self@.len() < usize::MAX,
        ensures
            vector@ == self@.push(value),
            vector@.len() == self@.len() + 1,
            forall|i: int| 0 <= i < self@.len() ==> vector@[i] == self@[i],
            vector@[self@.len() as int] == value,
    {
        let mut vector = self.clone();

        if vector.tail.is_none() {
            proof {
                use_type_invariant(&vector);
            }
            vector.tail = Some(Arc::new(Node::new_leaf()));
        }
        vector.push_value_mut(value);

        vector
    }
}

impl<T> vstd::std_specs::core::IndexSpecImpl<usize> for PersistentVector<T> {
    open spec fn index_req(&self, index: &usize) -> bool {
        *index < self@.len()
    }
}

impl<T> core::ops::Index<usize> for PersistentVector<T> {
    type Output = T;

    /// The element at `index`, which the vector must have.
    #[inline(always)]
    fn index(&self, index: usize) -> (value: &T)
        ensures
            *value == self@[index as int],
    {
        self.get(index).unwrap()
    }
}

impl<T> Clone for PersistentVector<T> {
    /// A second handle on the same elements; no element is copied.
    #[inline(always)]
    fn clone(&self) -> (copy: Self)
        ensures
            copy == *self,
            copy@ == self@,
    {
        proof {
            use_type_invariant(self);
        }
        PersistentVector {
            root: match self.root {
                Some(ref root) => Some(root.clone()),
                None => None,
            },
            tail: match self.tail {
                Some(ref tail) => Some(tail.clone()),
                None => None,
            },
            len: self.len,
            shift: self.shift,
        }
    }
}

} // verus!
