//! Index arithmetic of a 32-way radix trie.
//!
//! An index is read five bits at a time. A node at `level` (a multiple of five)
//! selects one of its 32 slots with the five bits that start at bit `level`;
//! each slot then stands for `span(level)` consecutive positions.

use vstd::prelude::*;
use vstd::arithmetic::div_mod::{
    lemma_fundamental_div_mod,
    lemma_fundamental_div_mod_converse,
    lemma_mod_breakdown,
    lemma_mod_mod,
    lemma_small_mod,
};
use vstd::arithmetic::power2::{
    lemma2_to64,
    lemma2_to64_rest,
    lemma_pow2_adds,
    lemma_pow2_pos,
    lemma_pow2_strictly_increases,
    pow2,
};
use vstd::bits::lemma_usize_shr_is_div;

verus! {

/// Bits of an index consumed per trie level.
pub(crate) const SHIFT: usize = 5;

/// Slots per node.
pub(crate) const SIZE: usize = 32;

/// Selects the slot bits of an index that was shifted down to a level.
pub(crate) const MASK: usize = 31;

/// Number of positions that one slot of a node at `level` stands for.
pub open spec fn span(level: nat) -> nat {
    pow2(level)
}

/// Where the tail begins in a vector of `len` elements: zero while everything
/// fits in the tail, else the largest multiple of 32 below `len`.
pub open spec fn tail_offset(len: nat) -> nat {
    if len < 32 {
        0
    } else {
        ((len - 1) / 32 * 32) as nat
    }
}

/// Of `count` positions filled from the left, how many fall into slot `k`
/// when every slot stands for `width` positions.
pub(crate) open spec fn share(count: nat, k: int, width: nat) -> nat {
    if k < count / width {
        width
    } else if k == count / width {
        count % width
    } else {
        0
    }
}

/// One level up, a slot stands for 32 times as many positions.
pub proof fn lemma_span_step(level: nat)
    ensures
        span(level) > 0,
        span(level + 5) == 32 * span(level),
{
    lemma_pow2_pos(level);
    lemma_pow2_adds(level, 5);
    lemma2_to64();
}

/// A slot of a leaf stands for one position, a slot of a parent of leaves
/// for 32.
pub proof fn lemma_span_base()
    ensures
        span(0) == 1,
        span(5) == 32,
{
    lemma2_to64();
}

/// Above the leaves a slot stands for whole blocks of 32 positions.
pub(crate) proof fn lemma_span_whole_blocks(level: nat)
    requires
        level >= 5,
    ensures
        span(level) >= 32,
        span(level) % 32 == 0,
{
    lemma_span_step((level - 5) as nat);
    let d = span((level - 5) as nat);
    assert((32 * d) % 32 == 0) by (nonlinear_arith);
}

/// A span that fits a `usize` has a level that is a valid shift distance.
pub(crate) proof fn lemma_span_fits(level: nat)
    requires
        span(level) <= usize::MAX,
    ensures
        level < usize::BITS,
{
    lemma2_to64();
    lemma2_to64_rest();
    if level >= usize::BITS {
        if level > usize::BITS {
            lemma_pow2_strictly_increases(usize::BITS as nat, level);
        }
    }
}

/// The slot that the executable shift-and-mask picks is the base-32 digit of
/// the index at that level.
pub(crate) proof fn lemma_slot_is_digit(i: usize, level: usize)
    requires
        level < usize::BITS,
    ensures
        ((i >> level) & MASK) == (i as nat / span(level as nat)) % 32,
        ((i >> level) & MASK) < 32,
{
    lemma_usize_shr_is_div(i, level);
    let s = i >> level;
    assert(s & 31 == s % 32) by (bit_vector);
}

/// Going down one level: the digit is the quotient of the position within
/// the node, and the position within the slot is the remainder.
pub(crate) proof fn lemma_descend(i: nat, level: nat)
    ensures
        (i % span(level + 5)) / span(level) == (i / span(level)) % 32,
        (i % span(level + 5)) % span(level) == i % span(level),
{
    lemma_span_step(level);
    let d = span(level) as int;
    lemma_mod_breakdown(i as int, d, 32);
    lemma_mod_mod(i as int, d, 32);
    let x = i as int;
    assert(d * 32 == 32 * d) by (nonlinear_arith);
    let r = x % (d * 32);
    let q = (x / d) % 32;
    assert(r == q * d + x % d) by (nonlinear_arith)
        requires
            r == d * q + x % d,
    ;
    assert(0 <= x % d < d) by (nonlinear_arith)
        requires
            d > 0,
    ;
    lemma_fundamental_div_mod_converse(r, d, q, x % d);
}

/// Positions are ordered as their (slot, position in slot) pairs are.
pub(crate) proof fn lemma_slot_order(i: nat, count: nat, width: nat)
    requires
        i < count,
        width > 0,
    ensures
        i / width < count / width || (i / width == count / width && i % width < count % width),
        i % width < share(count, (i / width) as int, width),
{
    let d = width as int;
    lemma_fundamental_div_mod(i as int, d);
    lemma_fundamental_div_mod(count as int, d);
    let qi = i as int / d;
    let qc = count as int / d;
    assert(0 <= i as int % d < d && 0 <= count as int % d < d) by (nonlinear_arith)
        requires
            d > 0,
    ;
    if qi > qc {
        assert(d * qi >= d * (qc + 1)) by (nonlinear_arith)
            requires
                qi >= qc + 1,
                d > 0,
        ;
        assert(d * (qc + 1) == d * qc + d) by (nonlinear_arith);
    }
}

/// A node of `width`-wide slots that keeps `count` positions has a slot for
/// every position below `32 * width`.
pub(crate) proof fn lemma_slot_in_range(i: nat, width: nat)
    requires
        width > 0,
        i < 32 * width,
    ensures
        i / width < 32,
{
    let d = width as int;
    lemma_fundamental_div_mod(i as int, d);
    let q = i as int / d;
    assert(0 <= i as int % d) by (nonlinear_arith)
        requires
            d > 0,
    ;
    if q >= 32 {
        assert(d * q >= d * 32) by (nonlinear_arith)
            requires
                q >= 32,
                d > 0,
        ;
    }
}

/// Inside one aligned block of 32 positions the slot does not change and the
/// position in the slot advances with the offset.
pub(crate) proof fn lemma_within_block(count: nat, width: nat, j: nat)
    requires
        width > 0,
        width % 32 == 0,
        count % 32 == 0,
        j < 32,
    ensures
        (count % width) % 32 == 0,
        count % width + 32 <= width,
        (count + j) / width == count / width,
        (count + j) % width == count % width + j,
{
    let d = width as int;
    let x = count as int;
    lemma_fundamental_div_mod(x, d);
    lemma_fundamental_div_mod(d, 32);
    lemma_fundamental_div_mod(x, 32);
    let q = x / d;
    let r = x % d;
    let w = d / 32;
    assert(0 <= r < d) by (nonlinear_arith)
        requires
            r == x % d,
            d > 0,
    ;
    assert(r == 32 * (x / 32 - w * q)) by (nonlinear_arith)
        requires
            x == d * q + r,
            d == 32 * w,
            x == 32 * (x / 32),
    ;
    let t = x / 32 - w * q;
    assert(r % 32 == 0) by {
        lemma_fundamental_div_mod_converse(r, 32, t, 0);
    }
    assert(t < w) by (nonlinear_arith)
        requires
            r == 32 * t,
            d == 32 * w,
            r < d,
    ;
    assert(r + 32 <= d) by (nonlinear_arith)
        requires
            r == 32 * t,
            d == 32 * w,
            t + 1 <= w,
    ;
    assert(x + j == q * d + (r + j)) by (nonlinear_arith)
        requires
            x == d * q + r,
    ;
    lemma_fundamental_div_mod_converse(x + j, d, q, r + j);
}

/// Appending one aligned block of 32 either extends the last occupied slot
/// or, when that slot is complete, starts the next one.
pub(crate) proof fn lemma_append_block(count: nat, width: nat)
    requires
        width > 0,
        width % 32 == 0,
        count % 32 == 0,
    ensures
        count % width + 32 < width ==> (count + 32) / width == count / width && (count + 32)
            % width == count % width + 32,
        count % width + 32 >= width ==> (count + 32) / width == count / width + 1 && (count + 32)
            % width == 0,
{
    lemma_within_block(count, width, 0);
    let d = width as int;
    let x = count as int;
    lemma_fundamental_div_mod(x, d);
    let q = x / d;
    let r = x % d;
    if r + 32 < d {
        assert(x + 32 == q * d + (r + 32)) by (nonlinear_arith)
            requires
                x == d * q + r,
        ;
        lemma_fundamental_div_mod_converse(x + 32, d, q, r + 32);
    } else {
        assert(x + 32 == (q + 1) * d + 0) by (nonlinear_arith)
            requires
                x == d * q + r,
                r + 32 == d,
        ;
        lemma_fundamental_div_mod_converse(x + 32, d, q + 1, 0);
    }
}

/// Two positions of one aligned block of 32 lie in the same slot, and their
/// positions inside that slot lie in one block again.
pub(crate) proof fn lemma_same_block(i: nat, j: nat, width: nat)
    requires
        width > 0,
        width % 32 == 0,
        i / 32 == j / 32,
    ensures
        i / width == j / width,
        (i % width) / 32 == (j % width) / 32,
{
    let base = (i / 32 * 32) as nat;
    lemma_fundamental_div_mod(i as int, 32);
    lemma_fundamental_div_mod(j as int, 32);
    assert(base % 32 == 0) by {
        lemma_fundamental_div_mod_converse(base as int, 32, i as int / 32, 0);
    }
    let oi = (i % 32) as nat;
    let oj = (j % 32) as nat;
    assert(i == base + oi);
    assert(j == base + oj);
    lemma_within_block(base, width, oi);
    lemma_within_block(base, width, oj);
    let r = (base % width) as int;
    lemma_fundamental_div_mod(r, 32);
    lemma_fundamental_div_mod_converse(r + oi, 32, r / 32, oi as int);
    lemma_fundamental_div_mod_converse(r + oj, 32, r / 32, oj as int);
}

/// Positions below the slot width lie in the first slot, and the positions
/// that follow them in the second one.
pub(crate) proof fn lemma_first_slots(i: nat, width: nat)
    requires
        i < width,
    ensures
        i / width == 0,
        i % width == i,
        (width + i) / width == 1,
        (width + i) % width == i,
{
    lemma_fundamental_div_mod_converse(i as int, width as int, 0, i as int);
    lemma_fundamental_div_mod_converse((width + i) as int, width as int, 1, i as int);
}

/// A node whose slots are at least 32 wide keeps a single block of 32 in
/// its first slot.
pub(crate) proof fn lemma_single_block(width: nat, k: int, j: nat)
    requires
        width >= 32,
        width % 32 == 0,
        j < 32,
    ensures
        share(32, 0, width) == 32,
        k >= 1 ==> share(32, k, width) == 0,
        j / width == 0,
        j % width == j,
{
    lemma_within_block(0, width, j);
    if width > 32 {
        lemma_small_mod(32, width);
        lemma_fundamental_div_mod_converse(32, width as int, 0, 32);
    }
}

/// While a full tail of a vector of `len` elements is moved into the trie:
/// the number of values that the node at `level` on the way to the tail's
/// new place already keeps.
pub(crate) open spec fn kept_below(len: nat, level: nat) -> nat {
    ((len - 32) % (span(level + 5) as int)) as nat
}

/// At such a node the executable shift-and-mask of the last index picks the
/// first slot that is not complete, and the node below keeps what is in it.
pub(crate) proof fn lemma_tail_slot(len: usize, level: usize)
    requires
        len >= 32,
        len % 32 == 0,
        level >= 5,
        level % 5 == 0,
        level < usize::BITS,
    ensures
        (((len - 1) as usize >> level) & MASK) == kept_below(len as nat, level as nat) / span(
            level as nat,
        ),
        kept_below(len as nat, level as nat) % span(level as nat) == kept_below(
            len as nat,
            (level - 5) as nat,
        ),
        kept_below(len as nat, level as nat) % 32 == 0,
        kept_below(len as nat, level as nat) + 32 <= 32 * span(level as nat),
{
    let width = span(level as nat);
    let whole = span((level + 5) as nat);
    let x = (len - 32) as nat;
    let n = kept_below(len as nat, level as nat);
    lemma_span_step(level as nat);
    lemma_span_step((level - 5) as nat);
    lemma_span_whole_blocks(level as nat);
    lemma_span_whole_blocks((level + 5) as nat);
    lemma_within_block(x, whole, 31);
    lemma_slot_is_digit((len - 1) as usize, level);
    lemma_descend((len - 1) as nat, level as nat);
    lemma_within_block(n, width, 31);
    lemma_descend(x, level as nat);
}

/// `shift` is the level of the root of a trie that is just high enough for
/// the elements that a vector of `len` elements keeps outside its tail: a
/// root at `shift` has room for them, and a root one level lower would not.
pub open spec fn is_trie_shift(shift: nat, len: nat) -> bool {
    &&& shift >= 5
    &&& shift % 5 == 0
    &&& tail_offset(len) <= 32 * span(shift)
    &&& shift > 5 ==> span(shift) < tail_offset(len)
}

/// Spans grow with the level.
pub proof fn lemma_span_increases(low: nat, high: nat)
    requires
        low <= high,
    ensures
        span(low) <= span(high),
{
    if low < high {
        lemma_pow2_strictly_increases(low, high);
    }
}

/// A length has one trie shift only.
pub proof fn lemma_trie_shift_unique(a: nat, b: nat, len: nat)
    requires
        is_trie_shift(a, len),
        is_trie_shift(b, len),
    ensures
        a == b,
{
    if a < b {
        lemma_span_step(a);
        lemma_span_increases(a + 5, b);
    } else if b < a {
        lemma_span_step(b);
        lemma_span_increases(b + 5, a);
    }
}

/// The trie is no higher than the length asks for: above the lowest level,
/// the span of a root slot is less than the length, so the number of levels
/// is at most the logarithm of the length to base 32.
pub proof fn lemma_trie_shift_is_logarithmic(shift: nat, len: nat)
    requires
        is_trie_shift(shift, len),
        shift > 5,
    ensures
        pow2(shift) < len,
{
    lemma_tail_offset(len);
}

/// The tail offset is a multiple of 32 that leaves between 1 and 32 elements
/// to the tail of a vector that is not empty.
pub proof fn lemma_tail_offset(len: nat)
    ensures
        tail_offset(len) % 32 == 0,
        tail_offset(len) <= len,
        len > 0 ==> 1 <= len - tail_offset(len) <= 32,
        len <= 32 <==> tail_offset(len) == 0,
{
}

/// No multiple of 32 below `len` lies above the tail offset.
pub proof fn lemma_tail_offset_is_largest(len: nat, m: nat)
    requires
        m % 32 == 0,
        m < len,
    ensures
        m <= tail_offset(len),
{
}

} // verus!
