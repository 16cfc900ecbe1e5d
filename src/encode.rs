//! Post-order encoding, the flip into pre-order, and the parent-count arithmetic
//! that both rely on.
use vstd::prelude::*;
use vstd::slice::slice_subrange;
use arrayvec::ArrayVec;
use crate::bits::{
    popcount, trailing_ones, trailing_zeros, bit_length, count_ones, count_trailing_ones,
    count_trailing_zeros, bit_len, lemma_popcount_positive,
};
use crate::hash::{
    CHUNK_SIZE, HEADER_SIZE, PARENT_SIZE, MAX_DEPTH, ParentNode, State, Finalization, count_chunks,
    num_chunks, chunk_end, chunk_bytes, set_bit_sizes, subtree_hash, len_header, root_hash,
    encode_len, decode_len, hash_node, append_bytes, chunk_range, largest_power_of_two,
    lemma_num_chunks_bound,
};
use crate::shape::{
    sum, is_pow2, stack_matches, dominated, fold_top, lemma_push_chunk, lemma_fold_top,
    lemma_root_of_two, lemma_dominated_after_push, lemma_pow2_positive_of,
    lemma_stack_matches_extend, stack_layout, post_layout, pre_layout, lemma_layout_fold,
    lemma_layout_push, lemma_layout_single, span, lemma_stack_layout_extend, lemma_layout_len, lemma_subtree_hash_len,
};
use crate::stack::{
    parent_stack_items, parent_stack_new, parent_stack_len, parent_stack_push, parent_stack_pop,
};

verus! {

/// Size of the encoding of content of `len` bytes: the content, one parent
/// payload per chunk but one, and the length header.
pub open spec fn encoded_len(len: nat) -> nat {
    (len + (num_chunks(len) - 1) * PARENT_SIZE + HEADER_SIZE) as nat
}

/// Number of bytes in chunk `chunk` of content of `len` bytes.
pub open spec fn chunk_len(chunk: nat, len: nat) -> nat {
    (chunk_end(len, chunk) - chunk * CHUNK_SIZE) as nat
}

/// Number of parent nodes before chunk `chunk` in the pre-order encoding of
/// content of `len` bytes: the depth that the remaining chunks allow, capped
/// by the alignment of the chunk index.
pub open spec fn pre_order_count(chunk: nat, len: nat) -> nat {
    let remaining = num_chunks(len) - chunk;
    let starting_bound = bit_length((remaining - 1) as nat);
    if chunk == 0 {
        starting_bound
    } else if trailing_zeros(chunk) < starting_bound {
        trailing_zeros(chunk)
    } else {
        starting_bound
    }
}

/// The size of the encoding of content of `content_len` bytes.
pub fn encoded_size(content_len: u64) -> (r: u128)
    ensures
        r as nat == encoded_len(content_len as nat),
{
    encoded_subtree_size(content_len) + HEADER_SIZE as u128
}

/// The size of the encoding without its header.
pub fn encoded_subtree_size(content_len: u64) -> (r: u128)
    ensures
        r as nat == content_len + (num_chunks(content_len as nat) - 1) * PARENT_SIZE,
        r as nat + HEADER_SIZE <= u128::MAX,
{
    let num_parents = count_chunks(content_len) - 1;
    assert(num_parents as u128 * 64 <= 0x1_0000_0000_0000_0000 * 64) by (nonlinear_arith)
        requires
            num_parents <= u64::MAX,
    ;
    content_len as u128 + (num_parents as u128 * PARENT_SIZE as u128)
}

/// Number of bytes in chunk `chunk` of content of `content_len` bytes.
pub fn chunk_size(chunk: u64, content_len: u64) -> (r: usize)
    requires
        chunk < num_chunks(content_len as nat),
    ensures
        r as nat == chunk_len(chunk as nat, content_len as nat),
        r <= CHUNK_SIZE,
{
    if content_len == 0 {
        0
    } else {
        assert(chunk * CHUNK_SIZE < content_len) by (nonlinear_arith)
            requires
                chunk < (content_len + CHUNK_SIZE - 1) as nat / CHUNK_SIZE as nat,
                content_len > 0,
        ;
        let chunk_start = chunk * CHUNK_SIZE as u64;
        let rest = content_len - chunk_start;
        if rest >= CHUNK_SIZE as u64 {
            CHUNK_SIZE
        } else {
            rest as usize
        }
    }
}

/// Number of parent nodes that follow chunk `chunk` in post-order when it is
/// not the last chunk: the height of the subtree it completes, which is the
/// number of trailing ones of its index.
pub fn post_order_parent_nodes_nonfinal(chunk: u64) -> (r: u8)
    ensures
        r as nat == trailing_ones(chunk as nat),
{
    count_trailing_ones(chunk) as u8
}

/// Number of parent nodes that follow the last chunk in post-order: one per
/// subtree still open, which is the number of set bits of its index.
pub fn post_order_parent_nodes_final(chunk: u64) -> (r: u8)
    ensures
        r as nat == popcount(chunk as nat),
{
    count_ones(chunk) as u8
}

/// Number of parent nodes before chunk `chunk` in pre-order.
pub fn pre_order_parent_nodes(chunk: u64, content_len: u64) -> (r: u8)
    requires
        chunk < num_chunks(content_len as nat),
    ensures
        r as nat == pre_order_count(chunk as nat, content_len as nat),
{
    let total_chunks = count_chunks(content_len);
    let remaining = total_chunks - chunk;
    let starting_bound = bit_len(remaining - 1);
    if chunk == 0 {
        starting_bound as u8
    } else {
        let interior_bound = count_trailing_zeros(chunk);
        if interior_bound < starting_bound {
            interior_bound as u8
        } else {
            starting_bound as u8
        }
    }
}

/// What the flip does next.
#[derive(Clone, Copy, Debug, PartialEq, Eq)]
pub enum FlipperNext {
    /// Read one parent payload from the source into the flipper.
    FeedParent,
    /// Write one parent payload that the flipper hands out.
    TakeParent,
    /// Move one chunk of the given size.
    Chunk(usize),
    /// All chunks and parents are in place.
    Done,
}

/// The plan of the in-place flip from post-order to pre-order. It walks both
/// layouts from the tail to the head.
#[derive(Clone, Debug)]
pub struct FlipperState {
    parents: ArrayVec<ParentNode, MAX_DEPTH>,
    content_len: u64,
    chunk_moved: u64,
    parents_needed: u8,
    parents_available: u8,
}

impl FlipperState {
    pub closed spec fn len(&self) -> nat {
        self.content_len as nat
    }

    /// Chunks still to move.
    pub closed spec fn chunks_left(&self) -> nat {
        self.chunk_moved as nat
    }

    /// Parents still to read from the source before the next chunk.
    pub closed spec fn needed(&self) -> nat {
        self.parents_needed as nat
    }

    /// Parents to write before the next chunk.
    pub closed spec fn available(&self) -> nat {
        self.parents_available as nat
    }

    /// The parent payloads held, bottom first.
    pub closed spec fn held(&self) -> Seq<ParentNode> {
        parent_stack_items(self.parents)
    }

    pub open spec fn wf(&self) -> bool {
        self.chunks_left() <= num_chunks(self.len())
    }

    /// The event that `next` reports.
    pub open spec fn next_event(&self) -> FlipperNext {
        if self.available() > 0 {
            FlipperNext::TakeParent
        } else if self.needed() > 0 {
            FlipperNext::FeedParent
        } else if self.chunks_left() > 0 {
            FlipperNext::Chunk(chunk_len((self.chunks_left() - 1) as nat, self.len()) as usize)
        } else {
            FlipperNext::Done
        }
    }

    pub fn new(content_len: u64) -> (r: FlipperState)
        ensures
            r.wf(),
            r.len() == content_len,
            r.chunks_left() == num_chunks(content_len as nat),
            r.needed() == popcount((num_chunks(content_len as nat) - 1) as nat),
            r.available() == 0,
            r.held() == Seq::<ParentNode>::empty(),
    {
        let total_chunks = count_chunks(content_len);
        FlipperState {
            parents: parent_stack_new(),
            content_len,
            chunk_moved: total_chunks,
            parents_needed: post_order_parent_nodes_final(total_chunks - 1),
            parents_available: 0,
        }
    }

    pub fn next(&self) -> (r: FlipperNext)
        requires
            self.wf(),
        ensures
            r == self.next_event(),
    {
        if self.parents_available > 0 {
            FlipperNext::TakeParent
        } else if self.parents_needed > 0 {
            FlipperNext::FeedParent
        } else if self.chunk_moved > 0 {
            FlipperNext::Chunk(chunk_size(self.chunk_moved - 1, self.content_len))
        } else {
            FlipperNext::Done
        }
    }

    /// Records that the next chunk was moved: the parents that precede it in
    /// pre-order become available, and the parents between it and the chunk to
    /// its left in post-order become needed.
    pub fn chunk_moved(&mut self)
        requires
            old(self).wf(),
            old(self).chunks_left() > 0,
            old(self).available() == 0,
            old(self).needed() == 0,
        ensures
            final(self).wf(),
            final(self).len() == old(self).len(),
            final(self).chunks_left() == old(self).chunks_left() - 1,
            final(self).available() == pre_order_count(
                final(self).chunks_left(),
                old(self).len(),
            ),
            final(self).chunks_left() > 0 ==> final(self).needed() == trailing_ones(
                (final(self).chunks_left() - 1) as nat,
            ),
            final(self).chunks_left() == 0 ==> final(self).needed() == 0,
            final(self).held() == old(self).held(),
    {
        self.chunk_moved = self.chunk_moved - 1;
        self.parents_available = pre_order_parent_nodes(self.chunk_moved, self.content_len);
        if self.chunk_moved > 0 {
            self.parents_needed = post_order_parent_nodes_nonfinal(self.chunk_moved - 1);
        }
    }

    /// Takes in a parent payload read from the source.
    pub fn feed_parent(&mut self, parent: ParentNode)
        requires
            old(self).wf(),
            old(self).available() == 0,
            old(self).needed() > 0,
            old(self).held().len() < MAX_DEPTH,
        ensures
            final(self).wf(),
            final(self).len() == old(self).len(),
            final(self).chunks_left() == old(self).chunks_left(),
            final(self).available() == old(self).available(),
            final(self).needed() == old(self).needed() - 1,
            final(self).held() == old(self).held().push(parent),
    {
        self.parents_needed = self.parents_needed - 1;
        parent_stack_push(&mut self.parents, parent);
    }

    /// Hands out the most recently fed parent payload that is still held.
    pub fn take_parent(&mut self) -> (r: ParentNode)
        requires
            old(self).wf(),
            old(self).available() > 0,
            old(self).held().len() > 0,
        ensures
            final(self).wf(),
            final(self).len() == old(self).len(),
            final(self).chunks_left() == old(self).chunks_left(),
            final(self).available() == old(self).available() - 1,
            final(self).needed() == old(self).needed(),
            r == old(self).held().last(),
            final(self).held() == old(self).held().drop_last(),
    {
        self.parents_available = self.parents_available - 1;
        parent_stack_pop(&mut self.parents).unwrap()
    }

    /// How many parent payloads are held.
    pub fn parents_held(&self) -> (r: usize)
        ensures
            r == self.held().len(),
            r <= MAX_DEPTH,
    {
        parent_stack_len(&self.parents)
    }
}

/// Copies `n` bytes of `buf` starting at `at`.
fn copy_out(buf: &Vec<u8>, at: usize, n: usize) -> (r: Vec<u8>)
    requires
        at + n <= buf@.len(),
    ensures
        r@ == buf@.subrange(at as int, at + n),
{
    let mut out: Vec<u8> = Vec::new();
    let total = buf.len();
    let mut i: usize = 0;
    while i < n
        invariant
            i <= n,
            total == buf@.len(),
            at + n <= buf@.len(),
            out@ == buf@.subrange(at as int, at + i),
        decreases n - i,
    {
        out.push(buf[at + i]);
        i = i + 1;
        assert(out@ =~= buf@.subrange(at as int, at + i));
    }
    out
}

/// Pops and joins equal-sized subtrees until none are due, appending each
/// parent payload to `out`.
fn drain_merges(state: &mut State, out: &mut Vec<u8>, input: Ghost<Seq<u8>>)
    requires
        old(state).wf(),
        stack_matches(input@, old(state).stack(), old(state).sizes()),
        forall|i: int|
            0 <= i < old(state).sizes().len() ==> is_pow2(#[trigger] old(state).sizes()[i]),
        sum(old(state).sizes()) == old(state).count(),
    ensures
        final(state).wf(),
        !final(state).merge_due(),
        final(state).count() == old(state).count(),
        final(state).stack().len() <= old(state).stack().len(),
        final(out)@.len() == old(out)@.len() + PARENT_SIZE * (old(state).stack().len()
            - final(state).stack().len()),
        final(state).stack().len() == popcount(final(state).count()),
        final(state).sizes() == set_bit_sizes(final(state).count()),
        stack_matches(input@, final(state).stack(), final(state).sizes()),
        forall|i: int|
            0 <= i < final(state).sizes().len() ==> is_pow2(#[trigger] final(state).sizes()[i]),
        sum(final(state).sizes()) == final(state).count(),
        final(out)@.subrange(0, old(out)@.len() as int) == old(out)@,
        stack_layout(input@, old(state).sizes()) + final(out)@.subrange(
            old(out)@.len() as int,
            final(out)@.len() as int,
        ) == stack_layout(input@, final(state).sizes()),
{
    assert(old(out)@.subrange(old(out)@.len() as int, old(out)@.len() as int) =~= Seq::<u8>::empty());
    assert(stack_layout(input@, old(state).sizes()) + Seq::<u8>::empty() =~= stack_layout(input@, old(state).sizes()));
    assert(old(out)@.subrange(0, old(out)@.len() as int) =~= old(out)@);
    loop
        invariant
            out@.len() >= old(out)@.len(),
            out@.subrange(0, old(out)@.len() as int) == old(out)@,
            stack_layout(input@, old(state).sizes()) + out@.subrange(
                old(out)@.len() as int,
                out@.len() as int,
            ) == stack_layout(input@, state.sizes()),
            state.wf(),
            state.count() == old(state).count(),
            state.stack().len() <= old(state).stack().len(),
            out@.len() == old(out)@.len() + PARENT_SIZE * (old(state).stack().len()
                - state.stack().len()),
            stack_matches(input@, state.stack(), state.sizes()),
            forall|i: int| 0 <= i < state.sizes().len() ==> is_pow2(#[trigger] state.sizes()[i]),
            sum(state.sizes()) == state.count(),
        ensures
            state.wf(),
            !state.merge_due(),
            state.count() == old(state).count(),
            state.stack().len() <= old(state).stack().len(),
            out@.len() == old(out)@.len() + PARENT_SIZE * (old(state).stack().len()
                - state.stack().len()),
            state.stack().len() == popcount(state.count()),
            state.sizes() == set_bit_sizes(state.count()),
            stack_matches(input@, state.stack(), state.sizes()),
            forall|i: int| 0 <= i < state.sizes().len() ==> is_pow2(#[trigger] state.sizes()[i]),
            sum(state.sizes()) == state.count(),
            out@.subrange(0, old(out)@.len() as int) == old(out)@,
            stack_layout(input@, old(state).sizes()) + out@.subrange(
                old(out)@.len() as int,
                out@.len() as int,
            ) == stack_layout(input@, state.sizes()),
        decreases state.stack().len(),
    {
        let ghost old_stack = state.stack();
        let ghost old_sizes = state.sizes();
        let ghost old_out = out@;
        match state.merge_parent() {
            Some(parent) => {
                proof {
                    let n = old_sizes.len() as int;
                    let x = old_sizes[n - 1];
                    assert(is_pow2(old_sizes[n - 2]));
                    lemma_pow2_positive_of(x);
                    assert(state.sizes() == fold_top(old_sizes));
                    lemma_fold_top(input@, old_stack, old_sizes, state.stack());
                    lemma_layout_fold(input@, old_stack, old_sizes);
                    assert forall|i: int| 0 <= i < state.sizes().len() implies is_pow2(
                        #[trigger] state.sizes()[i],
                    ) by {
                        if i < n - 2 {
                            assert(state.sizes()[i] == old_sizes[i]);
                        } else {
                            assert(is_pow2(x));
                            assert((2 * x) / 2 == x);
                        }
                    }
                }
                append_bytes(out, parent.as_slice());
                proof {
                    let lo = old(out)@.len() as int;
                    assert(out@.subrange(0, lo) =~= old_out.subrange(0, lo));
                    assert(out@.subrange(lo, out@.len() as int) =~= old_out.subrange(
                        lo,
                        old_out.len() as int,
                    ) + parent@);
                    assert(stack_layout(input@, old(state).sizes()) + out@.subrange(
                        lo,
                        out@.len() as int,
                    ) =~= stack_layout(input@, old_sizes) + parent@);
                }
            },
            None => break,
        }
    }
}

/// After the last chunk: joins the subtrees on the stack from the top down,
/// appending each parent payload to `out`, and returns the root hash.
fn finish_tree(state: State, out: &mut Vec<u8>, input: Ghost<Seq<u8>>, fin: Finalization) -> (r:
    crate::hash::Hash)
    requires
        state.stack().len() >= 2,
        stack_matches(input@, state.stack(), state.sizes()),
        dominated(state.sizes()),
    ensures
        r@ == subtree_hash(input@, 0, sum(state.sizes()), fin),
        final(out)@.len() == old(out)@.len() + PARENT_SIZE * (state.stack().len() - 1),
        final(out)@.subrange(0, old(out)@.len() as int) == old(out)@,
        stack_layout(input@, state.sizes()) + final(out)@.subrange(
            old(out)@.len() as int,
            final(out)@.len() as int,
        ) == post_layout(input@, 0, sum(state.sizes())),
{
    let mut tree = state;
    let ghost mut fs: Seq<nat> = tree.sizes();
    assert(old(out)@.subrange(old(out)@.len() as int, old(out)@.len() as int) =~= Seq::<u8>::empty());
    assert(stack_layout(input@, fs) + Seq::<u8>::empty() =~= stack_layout(input@, fs));
    assert(old(out)@.subrange(0, old(out)@.len() as int) =~= old(out)@);
    loop
        invariant
            out@.len() >= old(out)@.len(),
            out@.subrange(0, old(out)@.len() as int) == old(out)@,
            stack_layout(input@, state.sizes()) + out@.subrange(
                old(out)@.len() as int,
                out@.len() as int,
            ) == stack_layout(input@, fs),
            stack_matches(input@, tree.stack(), fs),
            dominated(fs),
            sum(fs) == sum(state.sizes()),
            tree.stack().len() >= 2,
            out@.len() + PARENT_SIZE * tree.stack().len() == old(out)@.len() + PARENT_SIZE
                * state.stack().len(),
        decreases tree.stack().len(),
    {
        let ghost old_stack = tree.stack();
        proof {
            let n = fs.len() as int;
            assert(fs.subrange(n - 1, n) =~= seq![fs[n - 1]]);
            assert(seq![fs[n - 1]].drop_last() =~= Seq::<nat>::empty());
            assert(sum(Seq::<nat>::empty()) == 0);
            assert(is_pow2(fs[n - 2]));
        }
        let ghost old_out = out@;
        let (parent, maybe_root) = tree.merge_finish(fin);
        append_bytes(out, parent.as_slice());
        proof {
            let lo = old(out)@.len() as int;
            lemma_layout_fold(input@, old_stack, fs);
            assert(out@.subrange(0, lo) =~= old_out.subrange(0, lo));
            assert(out@.subrange(lo, out@.len() as int) =~= old_out.subrange(lo, old_out.len() as int)
                + parent@);
            assert(stack_layout(input@, state.sizes()) + out@.subrange(lo, out@.len() as int)
                =~= stack_layout(input@, fs) + parent@);
            if old_stack.len() == 2 {
                lemma_root_of_two(input@, old_stack, fs, fin);
                assert(fold_top(fs) =~= seq![fs[0] + fs[1]]);
                assert(fs =~= seq![fs[0], fs[1]]);
                lemma_layout_single(input@, fs[0] + fs[1]);
                assert(sum(seq![fs[0], fs[1]]) == fs[0] + fs[1]) by {
                    assert(seq![fs[0], fs[1]].drop_last() =~= seq![fs[0]]);
                    assert(seq![fs[0]].drop_last() =~= Seq::<nat>::empty());
                    assert(sum(Seq::<nat>::empty()) == 0);
                }
            } else {
                lemma_fold_top(input@, old_stack, fs, tree.stack());
                fs = fold_top(fs);
            }
        }
        if let Some(root) = maybe_root {
            return root;
        }
    }
}

/// Lays out `input` in post-order: each chunk, followed by the parent payloads
/// it completes, and at the end the length header. Returns the layout and the
/// root hash.
fn encode_post_order(input: &[u8]) -> (r: (Vec<u8>, crate::hash::Hash))
    ensures
        r.0@.len() == encoded_len(input@.len()),
        r.0@.subrange(r.0@.len() - HEADER_SIZE, r.0@.len() as int) == len_header(
            input@.len() as u64,
        ),
        r.0@ == post_layout(input@, 0, num_chunks(input@.len())) + len_header(
            input@.len() as u64,
        ),
        r.1@ == root_hash(input@),
{
    let len = input.len();
    let encoded_len = encode_len(len as u64);
    let finalization = Finalization::Root(len as u64);
    let capacity = encoded_size(len as u64) as usize;
    let mut ret: Vec<u8> = Vec::with_capacity(capacity);
    if len <= CHUNK_SIZE {
        assert(num_chunks(len as nat) == 1) by (nonlinear_arith)
            requires
                len <= 4096,
                num_chunks(len as nat) == if len == 0 { 1 } else { (len + 4095) as nat / 4096 },
        ;
        append_bytes(&mut ret, input);
        append_bytes(&mut ret, encoded_len.as_slice());
        assert(ret@.subrange(ret@.len() - HEADER_SIZE, ret@.len() as int) =~= encoded_len@);
        assert(chunk_bytes(input@, 0) =~= input@);
        return (ret, hash_node(input, finalization));
    }
    let mut state = State::new();
    let mut pos: usize = 0;
    loop
        invariant
            len == input@.len(),
            len > CHUNK_SIZE,
            pos < len,
            pos == state.count() * CHUNK_SIZE,
            state.wf(),
            !state.merge_due(),
            state.stack().len() <= state.count(),
            ret@.len() == pos + PARENT_SIZE * (state.count() - state.stack().len()),
            encoded_len@ == len_header(len as u64),
            encoded_len@.len() == HEADER_SIZE,
            finalization == Finalization::Root(len as u64),
            stack_matches(input@, state.stack(), state.sizes()),
            forall|i: int| 0 <= i < state.sizes().len() ==> is_pow2(#[trigger] state.sizes()[i]),
            sum(state.sizes()) == state.count(),
            ret@ == stack_layout(input@, state.sizes()),
        decreases len - pos,
    {
        let take: usize = if len - pos < CHUNK_SIZE {
            len - pos
        } else {
            CHUNK_SIZE
        };
        let chunk = slice_subrange(input, pos, pos + take);
        let ghost old_ret = ret@;
        append_bytes(&mut ret, chunk);
        let chunk_hash = hash_node(chunk, Finalization::NotRoot);
        proof {
            assert(state.count() < 0x8000_0000_0000_0000) by (nonlinear_arith)
                requires
                    pos == state.count() * 4096,
                    pos < len,
                    len <= usize::MAX,
            ;
        }
        let ghost before = state.count();
        proof {
            assert(chunk@ =~= chunk_bytes(input@, before));
            lemma_push_chunk(input@, state.stack(), state.sizes(), chunk_hash);
            lemma_layout_push(input@, state.sizes());
        }
        push_pow2(&mut state, chunk_hash);
        pos = pos + take;
        assert(pos < len ==> pos == state.count() * CHUNK_SIZE) by (nonlinear_arith)
            requires
                pos == before * 4096 + take,
                state.count() == before + 1,
                take == 4096 || pos == len,
        ;
        if pos < len {
            let ghost mid = ret@;
            drain_merges(&mut state, &mut ret, Ghost(input@));
            proof {
                assert(ret@ =~= mid + ret@.subrange(mid.len() as int, ret@.len() as int));
            }
        } else {
            proof {
                lemma_popcount_positive(before);
                assert(state.count() == num_chunks(len as nat)) by (nonlinear_arith)
                    requires
                        pos == len,
                        pos == before * 4096 + take,
                        before * 4096 < len,
                        0 < take <= 4096,
                        state.count() == before + 1,
                        num_chunks(len as nat) == (len + 4095) / 4096,
                ;
                lemma_dominated_after_push(before);
            }
            let ghost mid = ret@;
            let ghost sizes = state.sizes();
            let root = finish_tree(state, &mut ret, Ghost(input@), finalization);
            assert(ret@ =~= mid + ret@.subrange(mid.len() as int, ret@.len() as int));
            assert(ret@ == post_layout(input@, 0, num_chunks(len as nat)));
            append_bytes(&mut ret, encoded_len.as_slice());
            assert(ret@.subrange(ret@.len() - HEADER_SIZE, ret@.len() as int) =~= encoded_len@);
            return (ret, root);
        }
    }
}

/// Pushes a chunk hash; the sizes on the stack stay powers of two and keep
/// adding up to the chunk count.
fn push_pow2(state: &mut State, h: crate::hash::Hash)
    requires
        old(state).wf(),
        !old(state).merge_due(),
        old(state).count() + 1 < 0x8000_0000_0000_0000,
        forall|i: int|
            0 <= i < old(state).sizes().len() ==> is_pow2(#[trigger] old(state).sizes()[i]),
        sum(old(state).sizes()) == old(state).count(),
    ensures
        final(state).wf(),
        final(state).stack() == old(state).stack().push(h),
        final(state).count() == old(state).count() + 1,
        old(state).sizes() == set_bit_sizes(old(state).count()),
        final(state).sizes() == old(state).sizes().push(1),
        forall|i: int|
            0 <= i < final(state).sizes().len() ==> is_pow2(#[trigger] final(state).sizes()[i]),
        sum(final(state).sizes()) == final(state).count(),
{
    let ghost old_sizes = state.sizes();
    state.push_subtree(h);
    proof {
        assert(state.sizes().drop_last() =~= old_sizes);
        assert forall|i: int| 0 <= i < state.sizes().len() implies is_pow2(
            #[trigger] state.sizes()[i],
        ) by {
            if i < old_sizes.len() {
                assert(state.sizes()[i] == old_sizes[i]);
            }
        }
    }
}

/// Moves the `m` bytes at `at` up by `d` bytes, within `buf`. The `d` bytes
/// at `at` keep what they held.
fn shift_up(buf: &mut Vec<u8>, at: usize, m: usize, d: usize)
    requires
        at + m + d <= old(buf)@.len(),
    ensures
        final(buf)@.len() == old(buf)@.len(),
        final(buf)@.subrange(0, at + d) == old(buf)@.subrange(0, at + d),
        final(buf)@.subrange(at + d, at + d + m) == old(buf)@.subrange(at as int, at + m),
        final(buf)@.subrange(at + d + m, old(buf)@.len() as int) == old(buf)@.subrange(
            at + d + m,
            old(buf)@.len() as int,
        ),
{
    let total = buf.len();
    let mut i: usize = m;
    while i > 0
        invariant
            i <= m,
            total == old(buf)@.len(),
            buf@.len() == total,
            at + m + d <= total,
            forall|j: int| 0 <= j < at + d + i ==> buf@[j] == old(buf)@[j],
            forall|j: int| at + d + i <= j < at + d + m ==> #[trigger] buf@[j] == old(buf)@[j - d],
            forall|j: int| at + d + m <= j < total ==> buf@[j] == old(buf)@[j],
        decreases i,
    {
        let b = buf[at + i - 1];
        buf[at + d + i - 1] = b;
        i = i - 1;
    }
    assert(buf@.subrange(0, at + d) =~= old(buf)@.subrange(0, at + d));
    assert(buf@.subrange(at + d, at + d + m) =~= old(buf)@.subrange(at as int, at + m));
    assert(buf@.subrange(at + d + m, total as int) =~= old(buf)@.subrange(at + d + m, total as int));
}

/// Overwrites the bytes of `buf` from `at` on with `src`.
fn write_at(buf: &mut Vec<u8>, at: usize, src: &[u8])
    requires
        at + src@.len() <= old(buf)@.len(),
    ensures
        final(buf)@ == old(buf)@.subrange(0, at as int) + src@ + old(buf)@.subrange(
            at + src@.len(),
            old(buf)@.len() as int,
        ),
{
    let total = buf.len();
    let mut i: usize = 0;
    while i < src.len()
        invariant
            i <= src@.len(),
            total == old(buf)@.len(),
            at + src@.len() <= old(buf)@.len(),
            buf@ == old(buf)@.subrange(0, at as int) + src@.subrange(0, i as int) + old(buf)@.subrange(
                at + i,
                old(buf)@.len() as int,
            ),
        decreases src@.len() - i,
    {
        buf[at + i] = src[i];
        i = i + 1;
        assert(buf@ =~= old(buf)@.subrange(0, at as int) + src@.subrange(0, i as int) + old(buf)@.subrange(
            at + i,
            old(buf)@.len() as int,
        ));
    }
    assert(src@.subrange(0, i as int) =~= src@);
}

/// Bytes in the layout of the subtree of `n` chunks from chunk `start`.
fn span_of(len: usize, start: usize, n: usize, x: Ghost<Seq<u8>>, limit: usize) -> (r: usize)
    requires
        len == x@.len(),
        1 <= n,
        start + n <= num_chunks(len as nat),
        post_layout(x@, start as nat, n as nat).len() <= limit,
    ensures
        r == span(len as nat, start as nat, n as nat),
        r == post_layout(x@, start as nat, n as nat).len(),
{
    proof {
        lemma_layout_len(x@, start as nat, n as nat);
        lemma_num_chunks_bound(len as nat);
    }
    let (_, end) = chunk_range(len, start + n - 1);
    end - start * CHUNK_SIZE + PARENT_SIZE * (n - 1)
}

/// Rewrites, in place, the post-order layout of a subtree that stands at `at`
/// in `buf` into its pre-order layout: the right subtree, then the left one,
/// are flipped where they stand, then both move up to make room for the
/// parent payload, which is held meanwhile. Each level of the tree holds one
/// payload.
fn flip_subtree(buf: &mut Vec<u8>, at: usize, x: Ghost<Seq<u8>>, len: usize, start: usize, n: usize)
    requires
        len == x@.len(),
        1 <= n,
        start + n <= num_chunks(len as nat),
        at + post_layout(x@, start as nat, n as nat).len() <= old(buf)@.len(),
        old(buf)@.subrange(at as int, at + post_layout(x@, start as nat, n as nat).len())
            == post_layout(x@, start as nat, n as nat),
    ensures
        final(buf)@ == old(buf)@.subrange(0, at as int) + pre_layout(x@, start as nat, n as nat)
            + old(buf)@.subrange(
            at + post_layout(x@, start as nat, n as nat).len(),
            old(buf)@.len() as int,
        ),
    decreases n,
{
    let total = buf.len();
    proof {
        lemma_num_chunks_bound(len as nat);
        lemma_layout_len(x@, start as nat, n as nat);
    }
    if n == 1 {
        let ghost l = post_layout(x@, start as nat, 1);
        assert(old(buf)@ =~= old(buf)@.subrange(0, at as int) + old(buf)@.subrange(
            at as int,
            at + l.len(),
        ) + old(buf)@.subrange(at + l.len(), old(buf)@.len() as int));
        return;
    }
    let k = largest_power_of_two(n as u64) as usize;
    let left = span_of(len, start, k, x, total);
    let right = span_of(len, start + k, n - k, x, total);
    let ghost pl = post_layout(x@, start as nat, k as nat);
    let ghost pr = post_layout(x@, (start + k) as nat, (n - k) as nat);
    let ghost h1 = subtree_hash(x@, start as nat, k as nat, Finalization::NotRoot);
    let ghost h2 = subtree_hash(x@, (start + k) as nat, (n - k) as nat, Finalization::NotRoot);
    let ghost b0 = buf@;
    let ghost end = at + left + right + PARENT_SIZE;
    proof {
        lemma_subtree_hash_len(x@, start as nat, k as nat, Finalization::NotRoot);
        lemma_subtree_hash_len(x@, (start + k) as nat, (n - k) as nat, Finalization::NotRoot);
        assert(post_layout(x@, start as nat, n as nat) == pl + pr + h1 + h2);
        let whole = b0.subrange(at as int, end);
        assert(whole == pl + pr + h1 + h2);
        assert(b0.subrange(at as int, at + left) =~= whole.subrange(0, left as int));
        assert(whole.subrange(0, left as int) =~= pl);
        assert(b0.subrange(at + left, at + left + right) =~= whole.subrange(left as int, left + right));
        assert(whole.subrange(left as int, left + right) =~= pr);
        assert(b0.subrange(at + left + right, end) =~= whole.subrange(left + right, left + right + 64));
        assert(whole.subrange(left + right, left + right + 64) =~= h1 + h2);
    }
    let mut payload: ParentNode = [0u8; PARENT_SIZE];
    let mut i: usize = 0;
    while i < PARENT_SIZE
        invariant
            i <= PARENT_SIZE,
            buf@ == b0,
            total == b0.len(),
            at + left + right + PARENT_SIZE <= total,
            payload@.len() == PARENT_SIZE,
            forall|j: int| 0 <= j < i ==> payload@[j] == b0[at + left + right + j],
        decreases PARENT_SIZE - i,
    {
        payload[i] = buf[at + left + right + i];
        i = i + 1;
    }
    assert(payload@ =~= h1 + h2) by {
        assert(payload@ =~= b0.subrange(at + left + right, end));
    }
    flip_subtree(buf, at + left, x, len, start + k, n - k);
    let ghost b1 = buf@;
    proof {
        assert(b1.subrange(at as int, at + left) =~= b0.subrange(at as int, at + left));
    }
    flip_subtree(buf, at, x, len, start, k);
    let ghost b2 = buf@;
    shift_up(buf, at, left + right, PARENT_SIZE);
    let ghost b3 = buf@;
    write_at(buf, at, payload.as_slice());
    proof {
        lemma_layout_len(x@, start as nat, k as nat);
        lemma_layout_len(x@, (start + k) as nat, (n - k) as nat);
        lemma_flip_compose(
            b0,
            b1,
            b2,
            b3,
            buf@,
            at as int,
            left as int,
            right as int,
            pre_layout(x@, start as nat, k as nat),
            pre_layout(x@, (start + k) as nat, (n - k) as nat),
            payload@,
        );
        assert(pre_layout(x@, start as nat, n as nat) == h1 + h2 + pre_layout(
            x@,
            start as nat,
            k as nat,
        ) + pre_layout(x@, (start + k) as nat, (n - k) as nat));
    }
}

/// How the buffer looks after the two halves are flipped, moved up, and the
/// payload is written in front of them.
proof fn lemma_flip_compose(
    b0: Seq<u8>,
    b1: Seq<u8>,
    b2: Seq<u8>,
    b3: Seq<u8>,
    bf: Seq<u8>,
    at: int,
    left: int,
    right: int,
    pre_l: Seq<u8>,
    pre_r: Seq<u8>,
    payload: Seq<u8>,
)
    requires
        0 <= at,
        0 <= left,
        0 <= right,
        at + left + right + 64 <= b0.len(),
        pre_l.len() == left,
        pre_r.len() == right,
        payload.len() == 64,
        b1 == b0.subrange(0, at + left) + pre_r + b0.subrange(at + left + right, b0.len() as int),
        b2 == b1.subrange(0, at) + pre_l + b1.subrange(at + left, b1.len() as int),
        b3.len() == b2.len(),
        b3.subrange(0, at + 64) == b2.subrange(0, at + 64),
        b3.subrange(at + 64, at + 64 + left + right) == b2.subrange(at, at + left + right),
        b3.subrange(at + 64 + left + right, b3.len() as int) == b2.subrange(
            at + 64 + left + right,
            b2.len() as int,
        ),
        bf == b3.subrange(0, at) + payload + b3.subrange(at + 64, b3.len() as int),
    ensures
        bf == b0.subrange(0, at) + (payload + pre_l + pre_r) + b0.subrange(
            at + left + right + 64,
            b0.len() as int,
        ),
{
    let total = b0.len() as int;
    assert(b2 =~= b0.subrange(0, at) + pre_l + pre_r + b0.subrange(at + left + right, total));
    assert(b2.subrange(at, at + left + right) =~= pre_l + pre_r);
    assert(b3.subrange(0, at) =~= b0.subrange(0, at)) by {
        assert(b3.subrange(0, at) =~= b3.subrange(0, at + 64).subrange(0, at));
        assert(b2.subrange(0, at) =~= b0.subrange(0, at));
    }
    assert(b2.subrange(at + 64 + left + right, total) =~= b0.subrange(at + left + right + 64, total));
    assert(b3.subrange(at + 64, total) =~= b3.subrange(at + 64, at + 64 + left + right)
        + b3.subrange(at + 64 + left + right, total));
    assert(bf =~= b0.subrange(0, at) + (payload + pre_l + pre_r) + b0.subrange(
        at + left + right + 64,
        total,
    ));
}

/// Rewrites, in place, the post-order layout of content `x` with its length
/// trailer into the pre-order encoding: the length header, then the tree in
/// pre-order.
fn flip(encoded: &mut Vec<u8>, x: Ghost<Seq<u8>>)
    requires
        x@.len() <= u64::MAX,
        old(encoded)@ == post_layout(x@, 0, num_chunks(x@.len())) + len_header(x@.len() as u64),
    ensures
        final(encoded)@ == len_header(x@.len() as u64) + pre_layout(x@, 0, num_chunks(x@.len())),
{
    let total = encoded.len();
    let ghost l = post_layout(x@, 0, num_chunks(x@.len()));
    proof {
        lemma_num_chunks_bound(x@.len());
        lemma_layout_len(x@, 0, num_chunks(x@.len()));
        crate::hash::lemma_header_round_trip(x@.len() as u64);
    }
    let mut header: [u8; HEADER_SIZE] = [0u8; HEADER_SIZE];
    let mut i: usize = 0;
    while i < HEADER_SIZE
        invariant
            i <= HEADER_SIZE,
            total == encoded@.len(),
            encoded@ == old(encoded)@,
            total >= HEADER_SIZE,
            header@.len() == HEADER_SIZE,
            forall|j: int| 0 <= j < i ==> header@[j] == encoded@[total - HEADER_SIZE + j],
        decreases HEADER_SIZE - i,
    {
        header[i] = encoded[total - HEADER_SIZE + i];
        i = i + 1;
    }
    proof {
        assert(header@ =~= encoded@.subrange(total - HEADER_SIZE, total as int));
        assert(header@ =~= len_header(x@.len() as u64));
    }
    let content_len = decode_len(header.as_slice()) as usize;
    let chunks = count_chunks(content_len as u64) as usize;
    proof {
        assert(encoded@.subrange(0, l.len() as int) =~= l);
    }
    flip_subtree(encoded, 0, x, content_len, 0, chunks);
    let ghost b1 = encoded@;
    shift_up(encoded, 0, total - HEADER_SIZE, HEADER_SIZE);
    let ghost b2 = encoded@;
    write_at(encoded, 0, header.as_slice());
    proof {
        let pre = pre_layout(x@, 0, num_chunks(x@.len()));
        assert(b1.subrange(0, l.len() as int) =~= pre);
        assert(b2.subrange(HEADER_SIZE as int, total as int) =~= b1.subrange(0, l.len() as int));
        assert(encoded@ =~= len_header(x@.len() as u64) + pre);
    }
}

/// Encodes `input` all at once in memory. Returns the root hash and the
/// pre-order encoding.
pub fn encode(input: &[u8]) -> (r: (crate::hash::Hash, Vec<u8>))
    ensures
        r.1@ == len_header(input@.len() as u64) + pre_layout(input@, 0, num_chunks(input@.len())),
        r.1@.len() == encoded_len(input@.len()),
        r.1@.subrange(0, HEADER_SIZE as int) == len_header(input@.len() as u64),
        r.0@ == root_hash(input@),
{
    let (mut output, hash) = encode_post_order(input);
    let len = input.len();
    assert(len as nat <= u64::MAX);
    flip(&mut output, Ghost(input@));
    proof {
        lemma_num_chunks_bound(input@.len());
        lemma_layout_len(input@, 0, num_chunks(input@.len()));
        crate::hash::lemma_le_bytes_len(input@.len() as nat, HEADER_SIZE as nat);
        assert(output@.subrange(0, HEADER_SIZE as int) =~= len_header(input@.len() as u64));
    }
    (hash, output)
}

/// The hashing and post-order layout side of an incremental encoder. The
/// caller passes the bytes it writes through, and writes out the parent
/// payloads and the trailer that this hands back.
pub struct WriterState {
    chunk: Vec<u8>,
    total_len: u64,
    tree: State,
    content: Ghost<Seq<u8>>,
}

impl WriterState {
    /// The bytes of the chunk being filled.
    pub closed spec fn current_chunk(&self) -> Seq<u8> {
        self.chunk@
    }

    /// All content bytes accepted so far.
    pub closed spec fn content(&self) -> Seq<u8> {
        self.content@
    }

    /// Every byte handed to the caller to write so far, in order: chunks and
    /// parent payloads in post-order.
    pub closed spec fn emitted(&self) -> Seq<u8> {
        stack_layout(self.content@, self.tree.sizes()) + self.chunk@
    }

    /// The hashes on the subtree stack, bottom first.
    pub closed spec fn subtree_stack(&self) -> Seq<crate::hash::Hash> {
        self.tree.stack()
    }

    /// The number of chunks under each entry of the subtree stack, bottom first.
    pub closed spec fn subtree_sizes(&self) -> Seq<nat> {
        self.tree.sizes()
    }

    /// Between calls, the subtree stack holds one entry per set bit of the
    /// number of finished chunks, largest first, and each entry is the hash of
    /// the complete subtree of consecutive chunks that it stands for.
    pub open spec fn stack_law(&self) -> bool {
        &&& self.subtree_sizes() == set_bit_sizes(self.chunks_done())
        &&& self.subtree_stack().len() == popcount(self.chunks_done())
        &&& stack_matches(self.content(), self.subtree_stack(), self.subtree_sizes())
    }

    /// Number of content bytes accepted so far.
    pub closed spec fn total(&self) -> nat {
        self.total_len as nat
    }

    /// Number of chunks finished and pushed onto the subtree stack.
    pub closed spec fn chunks_done(&self) -> nat {
        self.tree.count()
    }

    pub closed spec fn wf(&self) -> bool {
        &&& self.chunk@.len() <= CHUNK_SIZE
        &&& self.tree.wf()
        &&& !self.tree.merge_due()
        &&& self.tree.count() * CHUNK_SIZE + self.chunk@.len() == self.total_len
        &&& self.content@.len() == self.total_len
        &&& self.chunk@ == self.content@.subrange(
            self.tree.count() * CHUNK_SIZE,
            self.total_len as int,
        )
        &&& stack_matches(self.content@, self.tree.stack(), self.tree.sizes())
        &&& forall|i: int|
            0 <= i < self.tree.sizes().len() ==> is_pow2(#[trigger] self.tree.sizes()[i])
        &&& sum(self.tree.sizes()) == self.tree.count()
        &&& self.tree.sizes() == set_bit_sizes(self.tree.count())
        &&& self.tree.stack().len() == popcount(self.tree.count())
    }

    /// Number of content bytes accepted so far.
    pub fn total_len(&self) -> (r: u64)
        ensures
            r == self.total(),
    {
        self.total_len
    }

    pub fn new() -> (r: WriterState)
        ensures
            r.wf(),
            r.total() == 0,
            r.chunks_done() == 0,
            r.current_chunk() == Seq::<u8>::empty(),
            r.content() == Seq::<u8>::empty(),
            r.emitted() == Seq::<u8>::empty(),
            r.stack_law(),
    {
        let r = WriterState {
            chunk: Vec::new(),
            total_len: 0,
            tree: State::new(),
            content: Ghost(Seq::empty()),
        };
        assert(r.tree.sizes().len() == 0);
        assert(sum(r.tree.sizes()) == 0);
        assert(r.chunk@ =~= r.content@.subrange(0, 0));
        assert(r.emitted() =~= Seq::<u8>::empty());
        assert(set_bit_sizes(0) == Seq::<nat>::empty());
        assert(r.tree.sizes() =~= set_bit_sizes(0));
        assert(popcount(0) == 0);
        r
    }

    /// How many more bytes the current chunk takes.
    pub fn room(&self) -> (r: usize)
        requires
            self.wf(),
        ensures
            r == CHUNK_SIZE - self.current_chunk().len(),
    {
        CHUNK_SIZE - self.chunk.len()
    }

    /// Called before more content is written. When the current chunk is full,
    /// finishes it and returns the parent payloads that now complete, which
    /// the caller writes out before the new content.
    pub fn start_write(&mut self) -> (r: Vec<u8>)
        requires
            old(self).wf(),
        ensures
            final(self).wf(),
            final(self).total() == old(self).total(),
            final(self).content() == old(self).content(),
            final(self).emitted() == old(self).emitted() + r@,
            final(self).stack_law(),
            old(self).current_chunk().len() < CHUNK_SIZE ==> r@.len() == 0 && *final(self)
                == *old(self),
            old(self).current_chunk().len() == CHUNK_SIZE ==> final(self).current_chunk().len()
                == 0 && final(self).chunks_done() == old(self).chunks_done() + 1
                && r@.len() == PARENT_SIZE * trailing_ones(old(self).chunks_done()),
    {
        let mut out: Vec<u8> = Vec::new();
        if self.chunk.len() < CHUNK_SIZE {
            assert(self.emitted() + out@ =~= self.emitted());
            return out;
        }
        let chunk_hash = hash_node(self.chunk.as_slice(), Finalization::NotRoot);
        let ghost before = self.tree.count();
        proof {
            assert(self.tree.count() + 1 < 0x8000_0000_0000_0000) by (nonlinear_arith)
                requires
                    self.tree.count() * 4096 + 4096 == self.total_len,
                    self.total_len <= u64::MAX,
            ;
            crate::bits::lemma_popcount_succ(before);
            assert(self.chunk@ =~= chunk_bytes(self.content@, before));
            lemma_push_chunk(self.content@, self.tree.stack(), self.tree.sizes(), chunk_hash);
            lemma_layout_push(self.content@, self.tree.sizes());
        }
        let ghost before_emitted = self.emitted();
        self.chunk = Vec::new();
        push_pow2(&mut self.tree, chunk_hash);
        assert(stack_layout(self.content@, self.tree.sizes()) == before_emitted);
        drain_merges(&mut self.tree, &mut out, self.content);
        proof {
            assert(out@.subrange(0, out@.len() as int) =~= out@);
            assert(self.emitted() =~= before_emitted + out@);
            assert(self.chunk@ =~= self.content@.subrange(
                self.tree.count() * CHUNK_SIZE,
                self.total_len as int,
            ));
        }
        out
    }

    /// Records content bytes that were written through.
    pub fn accept(&mut self, bytes: &[u8])
        requires
            old(self).wf(),
            bytes@.len() <= CHUNK_SIZE - old(self).current_chunk().len(),
            old(self).total() + bytes@.len() <= u64::MAX,
        ensures
            final(self).wf(),
            final(self).total() == old(self).total() + bytes@.len(),
            final(self).chunks_done() == old(self).chunks_done(),
            final(self).current_chunk() == old(self).current_chunk() + bytes@,
            final(self).content() == old(self).content() + bytes@,
            final(self).emitted() == old(self).emitted() + bytes@,
            final(self).stack_law(),
    {
        proof {
            assert forall|i: int| 0 <= i < self.tree.sizes().len() implies #[trigger] self.tree.sizes()[i]
                >= 1 by {
                lemma_pow2_positive_of(self.tree.sizes()[i]);
            }
            lemma_stack_matches_extend(self.content@, bytes@, self.tree.stack(), self.tree.sizes());
            lemma_stack_layout_extend(self.content@, bytes@, self.tree.sizes());
        }
        let ghost before_emitted = self.emitted();
        append_bytes(&mut self.chunk, bytes);
        self.total_len = self.total_len + bytes.len() as u64;
        self.content = Ghost(self.content@ + bytes@);
        proof {
            assert(self.emitted() =~= before_emitted + bytes@);
            assert(self.chunk@ =~= self.content@.subrange(
                self.tree.count() * CHUNK_SIZE,
                self.total_len as int,
            ));
        }
    }

    /// Finishes the post-order layout. Returns the bytes still to write (the
    /// last parent payloads, then the length header) and the root hash. The
    /// stream and the hash are those of all the content provided that a chunk
    /// closed by `start_write` was followed by at least one accepted byte; a
    /// caller whose write then takes no byte treats that as a failure.
    pub fn finish(self) -> (r: (Vec<u8>, crate::hash::Hash))
        requires
            self.wf(),
        ensures
            r.0@.len() >= HEADER_SIZE,
            r.0@.subrange(r.0@.len() - HEADER_SIZE, r.0@.len() as int) == len_header(
                self.total() as u64,
            ),
            self.total() <= CHUNK_SIZE ==> r.0@ == len_header(self.total() as u64),
            self.current_chunk().len() > 0 || self.total() == 0 ==> r.1@ == root_hash(
                self.content(),
            ),
            self.current_chunk().len() > 0 || self.total() == 0 ==> self.emitted() + r.0@
                == post_layout(self.content(), 0, num_chunks(self.total())) + len_header(
                self.total() as u64,
            ),
            self.current_chunk().len() > 0 || self.total() == 0 ==> self.emitted().len()
                + r.0@.len() == encoded_len(self.total()),
    {
        let ghost emitted0 = self.emitted();
        let ghost content = self.content@;
        let mut state = self;
        let mut out: Vec<u8> = Vec::new();
        let finalization = Finalization::Root(state.total_len);
        let header = encode_len(state.total_len);
        if state.total_len <= CHUNK_SIZE as u64 {
            let root = hash_node(state.chunk.as_slice(), finalization);
            append_bytes(&mut out, header.as_slice());
            assert(out@ =~= header@);
            assert(out@.subrange(0, HEADER_SIZE as int) =~= header@);
            proof {
                if state.chunk@.len() > 0 || state.total_len == 0 {
                    assert(state.tree.count() == 0) by (nonlinear_arith)
                        requires
                            state.tree.count() * 4096 + state.chunk@.len() == state.total_len,
                            state.total_len <= 4096,
                            state.chunk@.len() > 0 || state.total_len == 0,
                    ;
                    assert(num_chunks(content.len()) == 1) by (nonlinear_arith)
                        requires
                            content.len() <= 4096,
                            num_chunks(content.len()) == if content.len() == 0 { 1 } else { (
                            content.len() + 4095) as nat / 4096 },
                    ;
                    assert(state.chunk@ =~= chunk_bytes(content, 0));
                    assert(state.tree.sizes().len() == 0);
                    assert(emitted0 =~= content);
                    lemma_layout_len(content, 0, 1);
                }
            }
            return (out, root);
        }
        let chunk_hash = hash_node(state.chunk.as_slice(), Finalization::NotRoot);
        let ghost before = state.tree.count();
        proof {
            assert(state.tree.count() + 1 < 0x8000_0000_0000_0000 && state.tree.count() >= 1)
                by (nonlinear_arith)
                requires
                    state.tree.count() * 4096 + state.chunk@.len() == state.total_len,
                    state.chunk@.len() <= 4096,
                    state.total_len > 4096,
                    state.total_len <= u64::MAX,
            ;
            lemma_popcount_positive(before);
            assert(state.chunk@ =~= chunk_bytes(content, before));
            lemma_push_chunk(content, state.tree.stack(), state.tree.sizes(), chunk_hash);
            lemma_layout_push(content, state.tree.sizes());
            if state.chunk@.len() > 0 {
                assert(before + 1 == num_chunks(content.len())) by (nonlinear_arith)
                    requires
                        before * 4096 + state.chunk@.len() == content.len(),
                        0 < state.chunk@.len() <= 4096,
                        num_chunks(content.len()) == (content.len() + 4095) as nat / 4096,
                ;
            }
        }
        push_pow2(&mut state.tree, chunk_hash);
        proof {
            lemma_dominated_after_push(before);
        }
        assert(stack_layout(content, state.tree.sizes()) == emitted0);
        let ghost pushed = state.tree.sizes();
        let root = finish_tree(state.tree, &mut out, Ghost(content), finalization);
        let ghost tail = out@;
        append_bytes(&mut out, header.as_slice());
        assert(out@.subrange(out@.len() - HEADER_SIZE, out@.len() as int) =~= header@);
        proof {
            assert(tail.subrange(0, tail.len() as int) =~= tail);
            assert(emitted0 + tail == post_layout(content, 0, sum(pushed)));
            assert(emitted0 + out@ =~= emitted0 + tail + header@);
            if state.chunk@.len() > 0 {
                lemma_num_chunks_bound(content.len());
                lemma_layout_len(content, 0, num_chunks(content.len()));
            }
        }
        (out, root)
    }
}

} // verus!
