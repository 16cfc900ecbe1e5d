//! Facts about the shape of the tree: sizes of subtrees on the subtree stack,
//! and how adjacent subtrees join under the split rule.
use vstd::prelude::*;
use crate::bits::{pow2, lemma_pow2_monotone};
use crate::hash::{doubled, set_bit_sizes, split_point, subtree_hash, Finalization};

verus! {

/// The sum of a sequence of sizes.
pub open spec fn sum(s: Seq<nat>) -> nat
    decreases s.len(),
{
    if s.len() == 0 {
        0
    } else {
        sum(s.drop_last()) + s.last()
    }
}

/// Whether `x` is a power of two.
pub open spec fn is_pow2(x: nat) -> bool
    decreases x,
{
    if x == 1 {
        true
    } else if x >= 2 && x % 2 == 0 {
        is_pow2(x / 2)
    } else {
        false
    }
}

pub proof fn lemma_sum_concat(s: Seq<nat>, t: Seq<nat>)
    ensures
        sum(s + t) == sum(s) + sum(t),
    decreases t.len(),
{
    if t.len() == 0 {
        assert(s + t =~= s);
    } else {
        assert((s + t).drop_last() =~= s + t.drop_last());
        lemma_sum_concat(s, t.drop_last());
    }
}

pub proof fn lemma_sum_prefix_step(s: Seq<nat>, i: int)
    requires
        0 <= i < s.len(),
    ensures
        sum(s.subrange(0, i + 1)) == sum(s.subrange(0, i)) + s[i],
{
    assert(s.subrange(0, i + 1).drop_last() =~= s.subrange(0, i));
}

proof fn lemma_sum_doubled(s: Seq<nat>)
    ensures
        sum(doubled(s)) == 2 * sum(s),
    decreases s.len(),
{
    if s.len() > 0 {
        assert(doubled(s).drop_last() =~= doubled(s.drop_last()));
        lemma_sum_doubled(s.drop_last());
    }
}

proof fn lemma_is_pow2_exp(x: nat) -> (h: nat)
    requires
        is_pow2(x),
    ensures
        pow2(h) == x,
    decreases x,
{
    if x == 1 {
        0
    } else {
        let g = lemma_is_pow2_exp(x / 2);
        g + 1
    }
}

/// A subtree of `x + t` chunks, `x` a power of two and `1 <= t <= x`, splits
/// into `x` chunks on the left and `t` on the right.
pub proof fn lemma_split_dominant(x: nat, t: nat)
    requires
        is_pow2(x),
        1 <= t <= x,
    ensures
        split_point(x + t) == x,
{
    let h = lemma_is_pow2_exp(x);
    let g = crate::walk::lemma_split_shape(x + t);
    assert(pow2(h + 1) == 2 * pow2(h));
    if g < h {
        lemma_pow2_monotone(g + 1, h);
    } else if g > h {
        lemma_pow2_monotone(h + 1, g);
    }
}

/// Two adjacent subtrees of `x` and `t` chunks, `x` a power of two and
/// `1 <= t <= x`, are the two children of the subtree of `x + t` chunks.
pub proof fn lemma_join_subtrees(input: Seq<u8>, start: nat, x: nat, t: nat, fin: Finalization)
    requires
        is_pow2(x),
        1 <= t <= x,
    ensures
        subtree_hash(input, start, x + t, fin) == crate::hash::node_hash(
            subtree_hash(input, start, x, Finalization::NotRoot) + subtree_hash(
                input,
                start + x,
                t,
                Finalization::NotRoot,
            ),
            fin,
        ),
{
    lemma_split_dominant(x, t);
}

/// The sizes of the set bits of `k` add up to `k`; each is a power of two and
/// exceeds the sum of all that follow it.
pub proof fn lemma_set_bit_sizes(k: nat)
    ensures
        sum(set_bit_sizes(k)) == k,
        forall|i: int| 0 <= i < set_bit_sizes(k).len() ==> is_pow2(#[trigger] set_bit_sizes(k)[i]),
        forall|i: int|
            0 <= i < set_bit_sizes(k).len() ==> sum(
                #[trigger] set_bit_sizes(k).subrange(i + 1, set_bit_sizes(k).len() as int),
            ) < set_bit_sizes(k)[i],
    decreases k,
{
    if k > 0 {
        let s = set_bit_sizes(k / 2);
        lemma_set_bit_sizes(k / 2);
        let d = doubled(s);
        lemma_sum_doubled(s);
        assert forall|i: int| 0 <= i < d.len() implies is_pow2(#[trigger] d[i]) by {
            assert(is_pow2(s[i]));
            assert(d[i] == 2 * s[i]);
            assert((2 * s[i]) / 2 == s[i]);
        }
        assert forall|i: int| 0 <= i < d.len() implies sum(
            #[trigger] d.subrange(i + 1, d.len() as int),
        ) <= 2 * s[i] - 2 by {
            assert(d.subrange(i + 1, d.len() as int) =~= doubled(s.subrange(i + 1, s.len() as int)));
            lemma_sum_doubled(s.subrange(i + 1, s.len() as int));
        }
        if k % 2 == 1 {
            let e = d.push(1);
            assert(e.drop_last() =~= d);
            assert forall|i: int| 0 <= i < e.len() implies sum(
                #[trigger] e.subrange(i + 1, e.len() as int),
            ) < e[i] by {
                if i < d.len() {
                    assert(e.subrange(i + 1, e.len() as int) =~= d.subrange(i + 1, d.len() as int)
                        + seq![1nat]);
                    lemma_sum_concat(d.subrange(i + 1, d.len() as int), seq![1nat]);
                    assert(sum(seq![1nat]) == 1) by {
                        assert(seq![1nat].drop_last() =~= Seq::<nat>::empty());
                        assert(sum(Seq::<nat>::empty()) == 0);
                        assert(seq![1nat].last() == 1);
                    }
                    assert(d.subrange(i + 1, d.len() as int) == d.subrange(i + 1, d.len() as int));
                    assert(is_pow2(s[i]));
                } else {
                    assert(e.subrange(i + 1, e.len() as int) =~= Seq::<nat>::empty());
                }
            }
            assert forall|i: int| 0 <= i < e.len() implies is_pow2(#[trigger] e[i]) by {
                if i < d.len() {
                    assert(e[i] == d[i]);
                }
            }
        } else {
            assert forall|i: int| 0 <= i < d.len() implies sum(
                #[trigger] d.subrange(i + 1, d.len() as int),
            ) < d[i] by {
                assert(sum(d.subrange(i + 1, d.len() as int)) <= 2 * s[i] - 2);
                assert(is_pow2(s[i]));
            }
        }
    }
}

/// Each hash on a subtree stack is the hash of the subtree of the matching
/// size that starts where the subtrees below it end.
pub open spec fn stack_matches(input: Seq<u8>, hashes: Seq<crate::hash::Hash>, sizes: Seq<nat>) -> bool {
    &&& hashes.len() == sizes.len()
    &&& forall|i: int|
        0 <= i < sizes.len() ==> (#[trigger] hashes[i])@ == subtree_hash(
            input,
            sum(sizes.subrange(0, i)),
            sizes[i],
            Finalization::NotRoot,
        )
}

/// Each size but the top one is a power of two at least as large as all the
/// sizes above it together, which are at least one chunk.
pub open spec fn dominated(sizes: Seq<nat>) -> bool {
    forall|i: int|
        0 <= i < sizes.len() - 1 ==> is_pow2(#[trigger] sizes[i]) && 1 <= sum(
            sizes.subrange(i + 1, sizes.len() as int),
        ) <= sizes[i]
}

/// The sizes after the two top subtrees are joined.
pub open spec fn fold_top(sizes: Seq<nat>) -> Seq<nat> {
    sizes.drop_last().drop_last().push(sizes[sizes.len() - 2] + sizes.last())
}

proof fn lemma_sum_pair(x: nat, t: nat)
    ensures
        sum(seq![x, t]) == x + t,
{
    assert(seq![x, t].drop_last() =~= seq![x]);
    assert(seq![x, t].last() == t);
    lemma_sum_single(x);
}

proof fn lemma_sum_single(x: nat)
    ensures
        sum(seq![x]) == x,
{
    assert(seq![x].drop_last() =~= Seq::<nat>::empty());
    assert(sum(Seq::<nat>::empty()) == 0);
}

/// Pushing the hash of the next chunk keeps the stack matched.
pub proof fn lemma_push_chunk(
    input: Seq<u8>,
    hashes: Seq<crate::hash::Hash>,
    sizes: Seq<nat>,
    h: crate::hash::Hash,
)
    requires
        stack_matches(input, hashes, sizes),
        h@ == subtree_hash(input, sum(sizes), 1, Finalization::NotRoot),
    ensures
        stack_matches(input, hashes.push(h), sizes.push(1)),
        sum(sizes.push(1)) == sum(sizes) + 1,
{
    let ns = sizes.push(1);
    assert(ns.drop_last() =~= sizes);
    assert forall|i: int| 0 <= i < ns.len() implies (#[trigger] hashes.push(h)[i])@ == subtree_hash(
        input,
        sum(ns.subrange(0, i)),
        ns[i],
        Finalization::NotRoot,
    ) by {
        if i < sizes.len() {
            assert(ns.subrange(0, i) =~= sizes.subrange(0, i));
            assert(hashes.push(h)[i] == hashes[i]);
        } else {
            assert(ns.subrange(0, i) =~= sizes);
        }
    }
}

/// Joining the two top subtrees keeps the stack matched, the total size, and
/// the dominance of the sizes.
pub proof fn lemma_fold_top(
    input: Seq<u8>,
    hashes: Seq<crate::hash::Hash>,
    sizes: Seq<nat>,
    new_hashes: Seq<crate::hash::Hash>,
)
    requires
        stack_matches(input, hashes, sizes),
        sizes.len() >= 2,
        is_pow2(sizes[sizes.len() - 2]),
        1 <= sizes.last() <= sizes[sizes.len() - 2],
        new_hashes.len() == sizes.len() - 1,
        new_hashes.subrange(0, sizes.len() - 2) == hashes.subrange(0, sizes.len() - 2),
        new_hashes.last()@ == crate::hash::node_hash(
            hashes[sizes.len() - 2]@ + hashes[sizes.len() - 1]@,
            Finalization::NotRoot,
        ),
    ensures
        stack_matches(input, new_hashes, fold_top(sizes)),
        sum(fold_top(sizes)) == sum(sizes),
        dominated(sizes) ==> dominated(fold_top(sizes)),
{
    let n = sizes.len() as int;
    let x = sizes[n - 2];
    let t = sizes[n - 1];
    let base = sizes.subrange(0, n - 2);
    let f = fold_top(sizes);
    assert(sizes =~= base + seq![x, t]);
    assert(f =~= base + seq![x + t]);
    lemma_sum_concat(base, seq![x, t]);
    lemma_sum_concat(base, seq![x + t]);
    lemma_sum_pair(x, t);
    lemma_sum_single(x + t);
    lemma_sum_prefix_step(sizes, n - 2);
    assert(sizes.subrange(0, n - 2) =~= base);
    assert(f.subrange(0, n - 2) =~= base);
    lemma_join_subtrees(input, sum(base), x, t, Finalization::NotRoot);
    assert(hashes[n - 2]@ == subtree_hash(input, sum(base), x, Finalization::NotRoot));
    assert(hashes[n - 1]@ == subtree_hash(input, sum(sizes.subrange(0, n - 1)), t, Finalization::NotRoot));
    assert forall|i: int| 0 <= i < f.len() implies (#[trigger] new_hashes[i])@ == subtree_hash(
        input,
        sum(f.subrange(0, i)),
        f[i],
        Finalization::NotRoot,
    ) by {
        if i < n - 2 {
            assert(f.subrange(0, i) =~= sizes.subrange(0, i));
            assert(new_hashes[i] == new_hashes.subrange(0, n - 2)[i]);
            assert(hashes[i] == hashes.subrange(0, n - 2)[i]);
        }
    }
    if dominated(sizes) {
        assert forall|i: int| 0 <= i < f.len() - 1 implies is_pow2(#[trigger] f[i]) && 1 <= sum(
            f.subrange(i + 1, f.len() as int),
        ) <= f[i] by {
            let mid = sizes.subrange(i + 1, n - 2);
            assert(sizes.subrange(i + 1, n) =~= mid + seq![x, t]);
            assert(f.subrange(i + 1, f.len() as int) =~= mid + seq![x + t]);
            lemma_sum_concat(mid, seq![x, t]);
            lemma_sum_concat(mid, seq![x + t]);
            assert(f[i] == sizes[i]);
            assert(is_pow2(sizes[i]));
        }
    }
}

/// With two subtrees left, joining them under the root finalization gives
/// the hash of the whole tree.
pub proof fn lemma_root_of_two(
    input: Seq<u8>,
    hashes: Seq<crate::hash::Hash>,
    sizes: Seq<nat>,
    fin: Finalization,
)
    requires
        stack_matches(input, hashes, sizes),
        sizes.len() == 2,
        is_pow2(sizes[0]),
        1 <= sizes[1] <= sizes[0],
    ensures
        crate::hash::node_hash(hashes[0]@ + hashes[1]@, fin) == subtree_hash(
            input,
            0,
            sum(sizes),
            fin,
        ),
{
    assert(sizes =~= seq![sizes[0], sizes[1]]);
    lemma_sum_pair(sizes[0], sizes[1]);
    assert(sizes.subrange(0, 0) =~= Seq::<nat>::empty());
    assert(sum(Seq::<nat>::empty()) == 0);
    assert(sizes.subrange(0, 1) =~= seq![sizes[0]]);
    lemma_sum_single(sizes[0]);
    assert(hashes[0]@ == subtree_hash(input, sum(sizes.subrange(0, 0)), sizes[0], Finalization::NotRoot));
    assert(hashes[1]@ == subtree_hash(input, sum(sizes.subrange(0, 1)), sizes[1], Finalization::NotRoot));
    lemma_join_subtrees(input, 0, sizes[0], sizes[1], fin);
}

/// The sizes of the set bits of `k` with one more chunk on top are dominated.
pub proof fn lemma_dominated_after_push(k: nat)
    ensures
        dominated(set_bit_sizes(k).push(1)),
        forall|i: int|
            0 <= i < set_bit_sizes(k).push(1).len() ==> #[trigger] set_bit_sizes(k).push(1)[i] >= 1,
{
    let s = set_bit_sizes(k);
    let e = s.push(1);
    lemma_set_bit_sizes(k);
    lemma_sum_single(1);
    assert forall|i: int| 0 <= i < e.len() - 1 implies is_pow2(#[trigger] e[i]) && 1 <= sum(
        e.subrange(i + 1, e.len() as int),
    ) <= e[i] by {
        assert(e.subrange(i + 1, e.len() as int) =~= s.subrange(i + 1, s.len() as int) + seq![1nat]);
        lemma_sum_concat(s.subrange(i + 1, s.len() as int), seq![1nat]);
        assert(e[i] == s[i]);
        assert(is_pow2(s[i]));
        assert(sum(s.subrange(i + 1, s.len() as int)) < s[i]);
    }
    assert forall|i: int| 0 <= i < e.len() implies #[trigger] e[i] >= 1 by {
        if i < s.len() {
            assert(e[i] == s[i]);
            assert(is_pow2(s[i]));
            lemma_pow2_positive_of(s[i]);
        }
    }
}

pub proof fn lemma_pow2_positive_of(x: nat)
    requires
        is_pow2(x),
    ensures
        x >= 1,
{
}

/// A subtree whose chunks all lie within `input` hashes the same after more
/// bytes are appended.
pub proof fn lemma_subtree_extend(input: Seq<u8>, more: Seq<u8>, start: nat, n: nat, fin: Finalization)
    requires
        1 <= n,
        (start + n) * crate::hash::CHUNK_SIZE <= input.len(),
    ensures
        subtree_hash(input + more, start, n, fin) == subtree_hash(input, start, n, fin),
    decreases n,
{
    if n <= 1 {
        assert(start * crate::hash::CHUNK_SIZE + crate::hash::CHUNK_SIZE <= input.len()) by (nonlinear_arith)
            requires
                (start + n) * 4096 <= input.len(),
                n == 1,
        ;
        assert(crate::hash::chunk_bytes(input + more, start) =~= crate::hash::chunk_bytes(input, start));
    } else {
        let k = split_point(n);
        if 1 <= k < n {
            assert((start + k) * 4096 <= (start + n) * 4096) by (nonlinear_arith)
                requires
                    k < n,
            ;
            lemma_subtree_extend(input, more, start, k, Finalization::NotRoot);
            lemma_subtree_extend(input, more, start + k, (n - k) as nat, Finalization::NotRoot);
        }
    }
}

/// A matched stack whose subtrees all lie within `input` stays matched after
/// more bytes are appended.
pub proof fn lemma_stack_matches_extend(
    input: Seq<u8>,
    more: Seq<u8>,
    hashes: Seq<crate::hash::Hash>,
    sizes: Seq<nat>,
)
    requires
        stack_matches(input, hashes, sizes),
        sum(sizes) * crate::hash::CHUNK_SIZE <= input.len(),
        forall|i: int| 0 <= i < sizes.len() ==> #[trigger] sizes[i] >= 1,
    ensures
        stack_matches(input + more, hashes, sizes),
{
    assert forall|i: int| 0 <= i < sizes.len() implies (#[trigger] hashes[i])@ == subtree_hash(
        input + more,
        sum(sizes.subrange(0, i)),
        sizes[i],
        Finalization::NotRoot,
    ) by {
        lemma_sum_prefix_step(sizes, i);
        assert(sizes =~= sizes.subrange(0, i + 1) + sizes.subrange(i + 1, sizes.len() as int));
        lemma_sum_concat(sizes.subrange(0, i + 1), sizes.subrange(i + 1, sizes.len() as int));
        let a = sum(sizes.subrange(0, i)) + sizes[i];
        assert(a * 4096 <= sum(sizes) * 4096) by (nonlinear_arith)
            requires
                a <= sum(sizes),
        ;
        assert(sizes[i] >= 1);
        lemma_subtree_extend(input, more, sum(sizes.subrange(0, i)), sizes[i], Finalization::NotRoot);
    }
}

/// The post-order layout of the subtree of `n` chunks of `x` from chunk
/// `start`: the left subtree, the right subtree, then the parent payload.
pub open spec fn post_layout(x: Seq<u8>, start: nat, n: nat) -> Seq<u8>
    decreases n,
{
    if n <= 1 {
        crate::hash::chunk_bytes(x, start)
    } else {
        let k = split_point(n);
        if 1 <= k < n {
            post_layout(x, start, k) + post_layout(x, start + k, (n - k) as nat) + subtree_hash(
                x,
                start,
                k,
                Finalization::NotRoot,
            ) + subtree_hash(x, start + k, (n - k) as nat, Finalization::NotRoot)
        } else {
            Seq::empty()
        }
    }
}

/// The pre-order layout of the same subtree: the parent payload, then the
/// left subtree, then the right subtree.
pub open spec fn pre_layout(x: Seq<u8>, start: nat, n: nat) -> Seq<u8>
    decreases n,
{
    if n <= 1 {
        crate::hash::chunk_bytes(x, start)
    } else {
        let k = split_point(n);
        if 1 <= k < n {
            subtree_hash(x, start, k, Finalization::NotRoot) + subtree_hash(
                x,
                start + k,
                (n - k) as nat,
                Finalization::NotRoot,
            ) + pre_layout(x, start, k) + pre_layout(x, start + k, (n - k) as nat)
        } else {
            Seq::empty()
        }
    }
}

/// The post-order layouts of the subtrees on a stack, bottom first.
pub open spec fn stack_layout(x: Seq<u8>, sizes: Seq<nat>) -> Seq<u8>
    decreases sizes.len(),
{
    if sizes.len() == 0 {
        Seq::empty()
    } else {
        stack_layout(x, sizes.drop_last()) + post_layout(x, sum(sizes.drop_last()), sizes.last())
    }
}

pub proof fn lemma_layout_push(x: Seq<u8>, sizes: Seq<nat>)
    ensures
        stack_layout(x, sizes.push(1)) == stack_layout(x, sizes) + crate::hash::chunk_bytes(
            x,
            sum(sizes),
        ),
{
    assert(sizes.push(1).drop_last() =~= sizes);
}

/// Joining the two top subtrees appends their parent payload to the layout.
pub proof fn lemma_layout_fold(x: Seq<u8>, hashes: Seq<crate::hash::Hash>, sizes: Seq<nat>)
    requires
        stack_matches(x, hashes, sizes),
        sizes.len() >= 2,
        is_pow2(sizes[sizes.len() - 2]),
        1 <= sizes.last() <= sizes[sizes.len() - 2],
    ensures
        stack_layout(x, fold_top(sizes)) == stack_layout(x, sizes) + hashes[sizes.len() - 2]@
            + hashes[sizes.len() - 1]@,
{
    let n = sizes.len() as int;
    let a = sizes[n - 2];
    let t = sizes[n - 1];
    let base = sizes.subrange(0, n - 2);
    let f = fold_top(sizes);
    assert(f.drop_last() =~= base);
    assert(sizes.drop_last() =~= base.push(a));
    assert(sizes.drop_last().drop_last() =~= base);
    assert(base.push(a).drop_last() =~= base);
    assert(sizes.subrange(0, n - 2) =~= base);
    lemma_sum_prefix_step(sizes, n - 2);
    assert(sizes.subrange(0, n - 1) =~= base.push(a));
    assert(hashes[n - 2]@ == subtree_hash(x, sum(base), a, Finalization::NotRoot));
    assert(hashes[n - 1]@ == subtree_hash(x, sum(sizes.subrange(0, n - 1)), t, Finalization::NotRoot));
    lemma_split_dominant(a, t);
    lemma_pow2_positive_of(a);
    let off = sum(base);
    assert(sum(base.push(a)) == off + a) by {
        assert(base.push(a).drop_last() =~= base);
    }
    assert(sum(sizes.subrange(0, n - 1)) == off + a);
    assert(post_layout(x, off, a + t) == post_layout(x, off, a) + post_layout(x, off + a, t)
        + subtree_hash(x, off, a, Finalization::NotRoot) + subtree_hash(
        x,
        off + a,
        t,
        Finalization::NotRoot,
    ));
    assert(stack_layout(x, f) == stack_layout(x, base) + post_layout(x, off, a + t));
    assert(stack_layout(x, base.push(a)) == stack_layout(x, base) + post_layout(x, off, a));
    assert(stack_layout(x, sizes) == stack_layout(x, base.push(a)) + post_layout(x, off + a, t));
    assert(stack_layout(x, f) =~= stack_layout(x, sizes) + hashes[n - 2]@ + hashes[n - 1]@);
}

/// A single subtree on the stack is laid out from chunk zero.
pub proof fn lemma_layout_single(x: Seq<u8>, size: nat)
    ensures
        stack_layout(x, seq![size]) == post_layout(x, 0, size),
{
    assert(seq![size].drop_last() =~= Seq::<nat>::empty());
    assert(sum(Seq::<nat>::empty()) == 0);
    assert(stack_layout(x, Seq::<nat>::empty()) == Seq::<u8>::empty());
    assert(Seq::<u8>::empty() + post_layout(x, 0, size) =~= post_layout(x, 0, size));
}

/// Bytes in the layout (either order) of the subtree of `n` chunks from
/// chunk `start`, for content of `len` bytes.
pub open spec fn span(len: nat, start: nat, n: nat) -> nat {
    (crate::hash::chunk_end(len, (start + n - 1) as nat) - start * crate::hash::CHUNK_SIZE + 64 * (n
        - 1)) as nat
}

pub proof fn lemma_subtree_hash_len(x: Seq<u8>, start: nat, n: nat, fin: Finalization)
    ensures
        n >= 1 ==> subtree_hash(x, start, n, fin).len() == crate::hash::HASH_SIZE,
{
    if n > 1 {
        crate::hash::lemma_split_from(1, n);
        assert(split_point(n) == crate::hash::split_from(1, n));
    }
}

/// Both layouts of a subtree have the same length, `span`.
pub proof fn lemma_layout_len(x: Seq<u8>, start: nat, n: nat)
    requires
        1 <= n,
        start + n <= crate::hash::num_chunks(x.len()),
    ensures
        post_layout(x, start, n).len() == span(x.len(), start, n),
        pre_layout(x, start, n).len() == span(x.len(), start, n),
        span(x.len(), start, n) >= 64 * (n - 1),
    decreases n,
{
    let len = x.len();
    assert(start * 4096 <= len && crate::hash::chunk_end(len, start) <= len
        && start * 4096 <= crate::hash::chunk_end(len, start)) by (nonlinear_arith)
        requires
            start < crate::hash::num_chunks(len),
            crate::hash::num_chunks(len) == if len == 0 { 1 } else { (len + 4095) / 4096 },
            crate::hash::chunk_end(len, start) == if start * 4096 + 4096 <= len {
                (start * 4096 + 4096) as nat
            } else {
                len
            },
    ;
    if n > 1 {
        crate::hash::lemma_split_from(1, n);
        let k = split_point(n);
        lemma_layout_len(x, start, k);
        lemma_layout_len(x, start + k, (n - k) as nat);
        lemma_subtree_hash_len(x, start, k, Finalization::NotRoot);
        lemma_subtree_hash_len(x, start + k, (n - k) as nat, Finalization::NotRoot);
        let i = (start + k - 1) as nat;
        assert(crate::hash::chunk_end(len, i) == (start + k) * 4096) by (nonlinear_arith)
            requires
                i + 1 < crate::hash::num_chunks(len),
                i == start + k - 1,
                crate::hash::num_chunks(len) == if len == 0 { 1 } else { (len + 4095) / 4096 },
                crate::hash::chunk_end(len, i) == if i * 4096 + 4096 <= len {
                    (i * 4096 + 4096) as nat
                } else {
                    len
                },
        ;
        assert((start + k) * 4096 == start * 4096 + k * 4096) by (nonlinear_arith);
    }
}

/// A subtree whose chunks all lie within `x` is laid out the same after more
/// bytes are appended.
pub proof fn lemma_post_layout_extend(x: Seq<u8>, more: Seq<u8>, start: nat, n: nat)
    requires
        1 <= n,
        (start + n) * crate::hash::CHUNK_SIZE <= x.len(),
    ensures
        post_layout(x + more, start, n) == post_layout(x, start, n),
    decreases n,
{
    if n <= 1 {
        assert(start * 4096 + 4096 <= x.len()) by (nonlinear_arith)
            requires
                (start + n) * 4096 <= x.len(),
                n == 1,
        ;
        assert(crate::hash::chunk_bytes(x + more, start) =~= crate::hash::chunk_bytes(x, start));
    } else {
        let k = split_point(n);
        if 1 <= k < n {
            assert((start + k) * 4096 <= (start + n) * 4096) by (nonlinear_arith)
                requires
                    k < n,
            ;
            lemma_post_layout_extend(x, more, start, k);
            lemma_post_layout_extend(x, more, start + k, (n - k) as nat);
            lemma_subtree_extend(x, more, start, k, Finalization::NotRoot);
            lemma_subtree_extend(x, more, start + k, (n - k) as nat, Finalization::NotRoot);
        }
    }
}

/// A stack of subtrees within `x` is laid out the same after more bytes are
/// appended.
pub proof fn lemma_stack_layout_extend(x: Seq<u8>, more: Seq<u8>, sizes: Seq<nat>)
    requires
        sum(sizes) * crate::hash::CHUNK_SIZE <= x.len(),
        forall|i: int| 0 <= i < sizes.len() ==> #[trigger] sizes[i] >= 1,
    ensures
        stack_layout(x + more, sizes) == stack_layout(x, sizes),
    decreases sizes.len(),
{
    if sizes.len() > 0 {
        let d = sizes.drop_last();
        assert(sum(sizes) == sum(d) + sizes.last());
        assert(sizes.last() >= 1);
        assert(sum(d) * 4096 <= sum(sizes) * 4096) by (nonlinear_arith)
            requires
                sum(d) <= sum(sizes),
        ;
        assert forall|i: int| 0 <= i < d.len() implies #[trigger] d[i] >= 1 by {
            assert(d[i] == sizes[i]);
        }
        lemma_stack_layout_extend(x, more, d);
        lemma_post_layout_extend(x, more, sum(d), sizes.last());
    }
}

} // verus!
