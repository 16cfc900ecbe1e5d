//! The parent counts read off the tree itself: a walk that splits each
//! subtree by the tree shape rule and counts, for every subtree of more than
//! one chunk, one parent before its first chunk (pre-order) and one after its
//! last chunk (post-order). The closed forms used by the encoder and the flip
//! are proved equal to these counts.
use vstd::prelude::*;
use crate::bits::{
    pow2, popcount, trailing_ones, trailing_zeros, bit_length, lemma_pow2_monotone,
    lemma_pow2_positive, lemma_trailing_ones_add_pow2, lemma_popcount_add_pow2,
    lemma_trailing_zeros_add_pow2, lemma_trailing_zeros_pow2, lemma_trailing_zeros_room,
    lemma_bit_length_exact, lemma_bit_length_below, lemma_bit_length_monotone,
    lemma_bit_length_all_ones,
};
use crate::hash::{split_from, split_point, lemma_split_from, num_chunks, lemma_num_chunks_bound};
use crate::encode::pre_order_count;

verus! {

/// Parents that stand right before chunk `c` in the pre-order layout of the
/// subtree of `size` chunks starting at chunk `start`.
pub open spec fn pre_walk(start: int, size: nat, c: int) -> nat
    decreases size,
{
    if size <= 1 {
        0
    } else {
        let k = split_point(size);
        if 1 <= k < size {
            (if c == start { 1nat } else { 0nat }) + pre_walk(start, k, c) + pre_walk(
                start + k,
                (size - k) as nat,
                c,
            )
        } else {
            0
        }
    }
}

/// Parents that stand right after chunk `c` in the post-order layout of the
/// subtree of `size` chunks starting at chunk `start`.
pub open spec fn post_walk(start: int, size: nat, c: int) -> nat
    decreases size,
{
    if size <= 1 {
        0
    } else {
        let k = split_point(size);
        if 1 <= k < size {
            (if c == start + size - 1 { 1nat } else { 0nat }) + post_walk(start, k, c) + post_walk(
                start + k,
                (size - k) as nat,
                c,
            )
        } else {
            0
        }
    }
}

/// The closed form of the pre-order count, over a chunk count `n`.
pub open spec fn pre_count(c: nat, n: nat) -> nat {
    let starting_bound = bit_length((n - c - 1) as nat);
    if c == 0 {
        starting_bound
    } else if trailing_zeros(c) < starting_bound {
        trailing_zeros(c)
    } else {
        starting_bound
    }
}

proof fn lemma_split_pow2(a: nat, n: nat) -> (h: nat)
    requires
        1 <= pow2(a) < n,
    ensures
        split_from(pow2(a), n) == pow2(h),
    decreases n - pow2(a),
{
    if 2 * pow2(a) < n {
        assert(pow2(a + 1) == 2 * pow2(a));
        lemma_split_pow2(a + 1, n)
    } else {
        a
    }
}

/// The left subtree of `n > 1` chunks has `2^h` chunks, with `2^h < n <= 2^(h+1)`.
pub proof fn lemma_split_shape(n: nat) -> (h: nat)
    requires
        n > 1,
    ensures
        split_point(n) == pow2(h),
        pow2(h) < n <= 2 * pow2(h),
        pow2(h + 1) == 2 * pow2(h),
{
    assert(pow2(0) == 1);
    lemma_split_from(1, n);
    let h = lemma_split_pow2(0, n);
    h
}

/// The split of `2^h` chunks is `2^(h-1)`.
proof fn lemma_split_complete(h: nat)
    requires
        h >= 1,
    ensures
        split_point(pow2(h)) == pow2((h - 1) as nat),
{
    lemma_pow2_positive((h - 1) as nat);
    assert(pow2(h) == 2 * pow2((h - 1) as nat));
    let g = lemma_split_shape(pow2(h));
    if g + 1 < h {
        lemma_pow2_monotone(g + 1, (h - 1) as nat);
    } else if g + 1 > h {
        lemma_pow2_monotone(h, g);
    }
}

proof fn lemma_walks_outside(start: int, size: nat, c: int)
    requires
        c < start || c >= start + size,
    ensures
        pre_walk(start, size, c) == 0,
        post_walk(start, size, c) == 0,
    decreases size,
{
    if size > 1 {
        let k = split_point(size);
        if 1 <= k < size {
            lemma_walks_outside(start, k, c);
            lemma_walks_outside(start + k, (size - k) as nat, c);
        }
    }
}

proof fn lemma_walks_shift(start: int, size: nat, c: int)
    ensures
        pre_walk(start, size, c) == pre_walk(0, size, c - start),
        post_walk(start, size, c) == post_walk(0, size, c - start),
    decreases size,
{
    if size > 1 {
        let k = split_point(size);
        if 1 <= k < size {
            lemma_walks_shift(start, k, c);
            lemma_walks_shift(start + k, (size - k) as nat, c);
            lemma_walks_shift(k as int, (size - k) as nat, c - start);
        }
    }
}

/// In a complete subtree of `2^h` chunks, chunk `i` is followed by as many
/// parents as it has trailing ones.
proof fn lemma_post_complete(h: nat, i: nat)
    requires
        i < pow2(h),
    ensures
        post_walk(0, pow2(h), i as int) == trailing_ones(i),
    decreases h,
{
    if h == 0 {
        assert(pow2(0) == 1);
    } else {
        let k = pow2((h - 1) as nat);
        lemma_split_complete(h);
        lemma_pow2_positive((h - 1) as nat);
        assert(pow2(h) == 2 * k);
        if i < k {
            lemma_post_complete((h - 1) as nat, i);
            lemma_walks_outside(k as int, k, i as int);
        } else {
            let j = (i - k) as nat;
            lemma_walks_outside(0, k, i as int);
            lemma_walks_shift(k as int, k, i as int);
            lemma_post_complete((h - 1) as nat, j);
            lemma_trailing_ones_add_pow2(j, (h - 1) as nat);
        }
    }
}

proof fn lemma_post_walk(n: nat, i: nat)
    requires
        1 <= n,
        i < n,
    ensures
        post_walk(0, n, i as int) == if i + 1 < n { trailing_ones(i) } else { popcount(i) },
    decreases n,
{
    if n == 1 {
        assert(popcount(0) == 0);
    } else {
        let h = lemma_split_shape(n);
        let k = pow2(h);
        if i < k {
            lemma_post_complete(h, i);
            lemma_walks_outside(k as int, (n - k) as nat, i as int);
        } else {
            let j = (i - k) as nat;
            lemma_walks_outside(0, k, i as int);
            lemma_walks_shift(k as int, (n - k) as nat, i as int);
            lemma_post_walk((n - k) as nat, j);
            if i + 1 < n {
                lemma_trailing_ones_add_pow2(j, h);
            } else {
                lemma_popcount_add_pow2(j, h);
            }
        }
    }
}

proof fn lemma_pre_walk(n: nat, i: nat)
    requires
        1 <= n,
        i < n,
    ensures
        pre_walk(0, n, i as int) == pre_count(i, n),
    decreases n,
{
    if n == 1 {
        assert(bit_length(0) == 0);
    } else {
        let h = lemma_split_shape(n);
        let k = pow2(h);
        if i == 0 {
            lemma_pre_walk(k, 0);
            lemma_walks_outside(k as int, (n - k) as nat, 0);
            lemma_bit_length_all_ones(h);
            lemma_bit_length_exact((n - 1) as nat, h);
        } else if i < k {
            lemma_pre_walk(k, i);
            lemma_walks_outside(k as int, (n - k) as nat, i as int);
            let t = trailing_zeros(i);
            lemma_trailing_zeros_room(i, h);
            lemma_pow2_positive(t);
            lemma_bit_length_all_ones(t);
            lemma_bit_length_monotone((pow2(t) - 1) as nat, (k - i - 1) as nat);
            lemma_bit_length_monotone((k - i - 1) as nat, (n - i - 1) as nat);
        } else {
            let j = (i - k) as nat;
            lemma_walks_outside(0, k, i as int);
            lemma_walks_shift(k as int, (n - k) as nat, i as int);
            lemma_pre_walk((n - k) as nat, j);
            if j == 0 {
                lemma_trailing_zeros_pow2(h);
                lemma_bit_length_below((n - k - 1) as nat, h);
            } else {
                lemma_trailing_zeros_add_pow2(j, h);
            }
        }
    }
}

/// For every chunk of content of `len` bytes, the number of parents that follow
/// it in post-order is the number of trailing ones of its index, or for the
/// last chunk the number of set bits, as the walk of the tree counts them.
pub proof fn lemma_post_order_counts(len: nat, c: nat)
    requires
        c < num_chunks(len),
    ensures
        post_walk(0, num_chunks(len), c as int) == if c + 1 < num_chunks(len) {
            trailing_ones(c)
        } else {
            popcount(c)
        },
{
    lemma_num_chunks_bound(len);
    lemma_post_walk(num_chunks(len), c);
}

/// For every chunk of content of `len` bytes, the number of parents that
/// precede it in pre-order is what `pre_order_parent_nodes` computes, as the
/// walk of the tree counts them.
pub proof fn lemma_pre_order_counts(len: nat, c: nat)
    requires
        c < num_chunks(len),
    ensures
        pre_walk(0, num_chunks(len), c as int) == pre_order_count(c, len),
{
    lemma_num_chunks_bound(len);
    lemma_pre_walk(num_chunks(len), c);
}

} // verus!
