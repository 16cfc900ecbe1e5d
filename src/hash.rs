//! The node hash, the length header, the tree shape and the subtree stack.
use vstd::prelude::*;
use vstd::slice::slice_subrange;
use vstd::arithmetic::div_mod::lemma_mod_breakdown;
use arrayvec::ArrayVec;
use crate::bits::{
    popcount, trailing_ones, count_ones, lemma_popcount_succ, lemma_popcount_positive,
    lemma_popcount_below_63,
};
use crate::stack::{
    hash_stack_items, hash_stack_new, hash_stack_len, hash_stack_push, hash_stack_pop,
};

verus! {

/// Bytes in a full chunk, the leaf of the tree.
pub const CHUNK_SIZE: usize = 4096;

/// Bytes in a node hash.
pub const HASH_SIZE: usize = 32;

/// Bytes in a parent payload: the two child hashes.
pub const PARENT_SIZE: usize = 64;

/// Bytes in the length header.
pub const HEADER_SIZE: usize = 8;

/// Capacity of the fixed-size stacks of subtree hashes and parent payloads.
pub const MAX_DEPTH: usize = 64;

/// A node hash.
pub type Hash = [u8; 32];

/// A parent payload: the left child's hash, then the right child's.
pub type ParentNode = [u8; 64];

} // verus!

verus! {

/// Whether a node is the root of the whole tree. The root's hash also binds
/// the total content length.
#[derive(Clone, Copy, Debug, PartialEq, Eq)]
pub enum Finalization {
    NotRoot,
    Root(u64),
}

/// The 32-byte BLAKE2b digest of `message`, with the last-node flag set to `last_node`.
pub uninterp spec fn blake2b_digest(message: Seq<u8>, last_node: bool) -> Seq<u8>;

/// Relies on `blake2_c::blake2b::State` (`new`, `update`, `set_last_node`,
/// `finalize`): the 32-byte digest of `message` under the given last-node flag,
/// which depends on those two alone.
#[verifier::external_body]
fn blake2b_32(message: &[u8], last_node: bool) -> (r: crate::hash::Hash)
    ensures
        r@ == blake2b_digest(message@, last_node),
{
    let mut state = blake2_c::blake2b::State::new(HASH_SIZE);
    state.update(message);
    state.set_last_node(last_node);
    let digest = state.finalize();
    let mut out = [0u8; HASH_SIZE];
    out.copy_from_slice(&digest.bytes[..HASH_SIZE]);
    out
}

/// The `k` low bytes of `n`, least significant first.
pub open spec fn le_bytes(n: nat, k: nat) -> Seq<u8>
    decreases k,
{
    if k == 0 {
        Seq::empty()
    } else {
        seq![(n % 256) as u8] + le_bytes(n / 256, (k - 1) as nat)
    }
}

pub proof fn lemma_le_bytes_len(n: nat, k: nat)
    ensures
        le_bytes(n, k).len() == k,
    decreases k,
{
    if k > 0 {
        lemma_le_bytes_len(n / 256, (k - 1) as nat);
    }
}

/// The value of little-endian bytes.
pub open spec fn le_value(s: Seq<u8>) -> nat
    decreases s.len(),
{
    if s.len() == 0 {
        0
    } else {
        s[0] as nat + 256 * le_value(s.drop_first())
    }
}

/// The 8-byte length header.
pub open spec fn len_header(len: u64) -> Seq<u8> {
    le_bytes(len as nat, HEADER_SIZE as nat)
}

/// The hash of one node: a chunk, or a parent payload.
pub open spec fn node_hash(data: Seq<u8>, fin: Finalization) -> Seq<u8> {
    match fin {
        Finalization::Root(len) => hash_bytes(blake2b_digest(data + len_header(len), true)),
        Finalization::NotRoot => hash_bytes(blake2b_digest(data, false)),
    }
}

/// A digest taken as a node hash of `HASH_SIZE` bytes (the digests computed
/// here always have that length).
pub open spec fn hash_bytes(d: Seq<u8>) -> Seq<u8> {
    if d.len() == HASH_SIZE {
        d
    } else {
        Seq::new(HASH_SIZE as nat, |i: int| 0u8)
    }
}

/// How many chunks content of `len` bytes forms; empty content still forms one.
pub open spec fn num_chunks(len: nat) -> nat {
    if len == 0 {
        1
    } else {
        (len + CHUNK_SIZE - 1) as nat / CHUNK_SIZE as nat
    }
}

/// Where chunk `i` of content of `len` bytes ends.
pub open spec fn chunk_end(len: nat, i: nat) -> nat {
    if i * CHUNK_SIZE + CHUNK_SIZE <= len {
        (i * CHUNK_SIZE + CHUNK_SIZE) as nat
    } else {
        len
    }
}

/// The bytes of chunk `i` of `input`.
pub open spec fn chunk_bytes(input: Seq<u8>, i: nat) -> Seq<u8> {
    input.subrange((i * CHUNK_SIZE) as int, chunk_end(input.len(), i) as int)
}

/// Doubles `p` while the double stays below `n`.
pub open spec fn split_from(p: nat, n: nat) -> nat
    decreases n - p,
{
    if 1 <= p && 2 * p < n {
        split_from(2 * p, n)
    } else {
        p
    }
}

/// The largest power of two strictly below `n`, for `n > 1`: the number of
/// chunks in the left subtree of a tree of `n` chunks.
pub open spec fn split_point(n: nat) -> nat {
    split_from(1, n)
}

pub proof fn lemma_split_from(p: nat, n: nat)
    requires
        1 <= p < n,
    ensures
        p <= split_from(p, n) < n,
        n <= 2 * split_from(p, n),
    decreases n - p,
{
    if 2 * p < n {
        lemma_split_from(2 * p, n);
    }
}

/// The hash of the subtree of `n` chunks of `input` that starts at chunk `start`.
pub open spec fn subtree_hash(input: Seq<u8>, start: nat, n: nat, fin: Finalization) -> Seq<u8>
    decreases n,
{
    if n <= 1 {
        node_hash(chunk_bytes(input, start), fin)
    } else {
        let k = split_point(n);
        if 1 <= k < n {
            node_hash(
                subtree_hash(input, start, k, Finalization::NotRoot) + subtree_hash(
                    input,
                    start + k,
                    (n - k) as nat,
                    Finalization::NotRoot,
                ),
                fin,
            )
        } else {
            Seq::empty()
        }
    }
}

/// The root hash of `input`.
pub open spec fn root_hash(input: Seq<u8>) -> Seq<u8> {
    subtree_hash(input, 0, num_chunks(input.len()), Finalization::Root(input.len() as u64))
}

/// The 8-byte little-endian encoding of a content length.
pub fn encode_len(len: u64) -> (r: Vec<u8>)
    ensures
        r@ == len_header(len),
        r@.len() == HEADER_SIZE,
{
    proof {
        lemma_le_bytes_len(len as nat, HEADER_SIZE as nat);
    }
    let mut out: Vec<u8> = Vec::new();
    let mut m: u64 = len;
    let mut i: usize = 0;
    while i < HEADER_SIZE
        invariant
            i <= HEADER_SIZE,
            out@ + le_bytes(m as nat, (HEADER_SIZE - i) as nat) == len_header(len),
        decreases HEADER_SIZE - i,
    {
        proof {
            let rest = le_bytes(m as nat, (HEADER_SIZE - i) as nat);
            assert(rest == seq![(m % 256) as u8] + le_bytes(m as nat / 256, (HEADER_SIZE - i - 1) as nat));
            assert(out@.push((m % 256) as u8) + le_bytes(m as nat / 256, (HEADER_SIZE - i - 1) as nat)
                =~= out@ + rest);
        }
        out.push((m % 256) as u8);
        m = m / 256;
        i = i + 1;
    }
    assert(out@ + le_bytes(m as nat, 0) =~= out@);
    out
}

/// Reads a content length back from its 8-byte little-endian encoding.
pub fn decode_len(bytes: &[u8]) -> (r: u64)
    requires
        bytes@.len() == HEADER_SIZE,
    ensures
        r as nat == le_value(bytes@),
{
    let mut value: u64 = 0;
    let mut i: usize = HEADER_SIZE;
    assert(bytes@.subrange(HEADER_SIZE as int, HEADER_SIZE as int).len() == 0);
    while i > 0
        invariant
            i <= HEADER_SIZE,
            bytes@.len() == HEADER_SIZE,
            value as nat == le_value(bytes@.subrange(i as int, HEADER_SIZE as int)),
        decreases i,
    {
        let b = bytes[i - 1];
        proof {
            let s = bytes@.subrange(i - 1, HEADER_SIZE as int);
            assert(s.drop_first() =~= bytes@.subrange(i as int, HEADER_SIZE as int));
            lemma_le_value_bound(s);
            lemma_pow256_monotone(s.len(), HEADER_SIZE as nat);
            lemma_pow256_8();
            assert(le_value(s) == b as nat + 256 * value as nat);
        }
        value = value * 256 + b as u64;
        i = i - 1;
    }
    assert(bytes@.subrange(0, HEADER_SIZE as int) =~= bytes@);
    value
}

pub open spec fn pow256(k: nat) -> nat
    decreases k,
{
    if k == 0 {
        1
    } else {
        256 * pow256((k - 1) as nat)
    }
}

proof fn lemma_le_value_bound(s: Seq<u8>)
    ensures
        le_value(s) < pow256(s.len()),
    decreases s.len(),
{
    if s.len() > 0 {
        lemma_le_value_bound(s.drop_first());
    }
}

proof fn lemma_le_value_of_bytes(n: nat, k: nat)
    ensures
        le_value(le_bytes(n, k)) == n % pow256(k),
    decreases k,
{
    lemma_le_bytes_len(n, k);
    if k > 0 {
        let s = le_bytes(n, k);
        lemma_le_value_of_bytes(n / 256, (k - 1) as nat);
        assert(s.drop_first() =~= le_bytes(n / 256, (k - 1) as nat));
        lemma_pow256_positive((k - 1) as nat);
        lemma_mod_breakdown(n as int, 256, pow256((k - 1) as nat) as int);
    }
}

proof fn lemma_pow256_positive(k: nat)
    ensures
        pow256(k) > 0,
    decreases k,
{
    if k > 0 {
        lemma_pow256_positive((k - 1) as nat);
    }
}

/// Reading the length header back gives the length that was written.
pub proof fn lemma_header_round_trip(len: u64)
    ensures
        len_header(len).len() == HEADER_SIZE,
        le_value(len_header(len)) == len,
{
    lemma_le_bytes_len(len as nat, HEADER_SIZE as nat);
    lemma_le_value_of_bytes(len as nat, HEADER_SIZE as nat);
    lemma_pow256_8();
    vstd::arithmetic::div_mod::lemma_small_mod(len as nat, pow256(8));
}

proof fn lemma_pow256_monotone(a: nat, b: nat)
    requires
        a <= b,
    ensures
        pow256(a) <= pow256(b),
    decreases b,
{
    if a < b {
        lemma_pow256_monotone(a, (b - 1) as nat);
    }
}

proof fn lemma_pow256_8()
    ensures
        pow256(8) == 0x1_0000_0000_0000_0000,
{
    reveal_with_fuel(pow256, 9);
}

/// Appends `src` to `out`.
pub fn append_bytes(out: &mut Vec<u8>, src: &[u8])
    ensures
        final(out)@ == old(out)@ + src@,
{
    let mut i: usize = 0;
    while i < src.len()
        invariant
            i <= src@.len(),
            out@ == old(out)@ + src@.subrange(0, i as int),
        decreases src@.len() - i,
    {
        out.push(src[i]);
        i = i + 1;
        assert(out@ =~= old(out)@ + src@.subrange(0, i as int));
    }
    assert(src@.subrange(0, i as int) =~= src@);
}

/// The hash of one node: a chunk, or a parent payload.
pub fn hash_node(node: &[u8], fin: Finalization) -> (r: crate::hash::Hash)
    ensures
        r@ == node_hash(node@, fin),
{
    match fin {
        Finalization::Root(len) => {
            let mut message: Vec<u8> = Vec::new();
            append_bytes(&mut message, node);
            let header = encode_len(len);
            append_bytes(&mut message, header.as_slice());
            let r = blake2b_32(message.as_slice(), true);
            assert(r@.len() == HASH_SIZE);
            r
        },
        Finalization::NotRoot => {
            let r = blake2b_32(node, false);
            assert(r@.len() == HASH_SIZE);
            r
        },
    }
}

/// The payload of a parent node: the left child's hash, then the right child's.
pub fn parent_payload(left: &crate::hash::Hash, right: &crate::hash::Hash) -> (r: ParentNode)
    ensures
        r@ == left@ + right@,
{
    let mut p: ParentNode = [0u8; PARENT_SIZE];
    let mut i: usize = 0;
    while i < HASH_SIZE
        invariant
            i <= HASH_SIZE,
            p@.len() == PARENT_SIZE,
            forall|j: int| 0 <= j < i ==> p@[j] == left@[j] && p@[HASH_SIZE + j] == right@[j],
        decreases HASH_SIZE - i,
    {
        p[i] = left[i];
        p[HASH_SIZE + i] = right[i];
        i = i + 1;
    }
    assert(p@ =~= left@ + right@);
    p
}

/// The largest power of two strictly below `n`.
pub fn largest_power_of_two(n: u64) -> (r: u64)
    requires
        n > 1,
    ensures
        r as nat == split_point(n as nat),
        1 <= r < n,
{
    let mut p: u64 = 1;
    while p <= (n - 1) / 2
        invariant
            1 <= p < n,
            split_from(p as nat, n as nat) == split_point(n as nat),
        decreases n - p,
    {
        p = p * 2;
    }
    p
}

pub proof fn lemma_num_chunks_bound(len: nat)
    ensures
        num_chunks(len) <= len || num_chunks(len) == 1,
        num_chunks(len) >= 1,
{
    assert(num_chunks(len) <= len || num_chunks(len) == 1) by (nonlinear_arith)
        requires
            num_chunks(len) == if len == 0 { 1 } else { (len + 4095) / 4096 },
    ;
    assert(num_chunks(len) >= 1) by (nonlinear_arith)
        requires
            num_chunks(len) == if len == 0 { 1 } else { (len + 4095) / 4096 },
    ;
}

/// How many chunks content of `content_len` bytes forms.
pub fn count_chunks(content_len: u64) -> (r: u64)
    ensures
        r as nat == num_chunks(content_len as nat),
        1 <= r,
        r <= content_len || r == 1,
{
    let full_chunks: u64 = content_len / CHUNK_SIZE as u64;
    let has_partial_chunk: bool = content_len % CHUNK_SIZE as u64 != 0;
    let total: u64 = full_chunks + if has_partial_chunk { 1u64 } else { 0u64 };
    assert(total as nat == num_chunks(content_len as nat) || (content_len == 0 && total == 0))
        by (nonlinear_arith)
        requires
            full_chunks == content_len / 4096,
            has_partial_chunk == (content_len % 4096 != 0),
            total == full_chunks + if has_partial_chunk { 1int } else { 0int },
            num_chunks(content_len as nat) == if content_len == 0 { 1 } else { (content_len + 4095) as nat / 4096 },
    ;
    if total < 1 {
        1
    } else {
        total
    }
}

/// Start and end of chunk `i` of content of `len` bytes.
pub fn chunk_range(len: usize, i: usize) -> (r: (usize, usize))
    requires
        i < num_chunks(len as nat),
    ensures
        r.0 == i * CHUNK_SIZE,
        r.1 == chunk_end(len as nat, i as nat),
        r.0 <= r.1 <= len,
        len > 0 ==> r.0 < r.1,
{
    if len == 0 {
        (0, 0)
    } else {
        assert(i * CHUNK_SIZE < len) by (nonlinear_arith)
            requires
                i < (len + CHUNK_SIZE - 1) as nat / CHUNK_SIZE as nat,
                len > 0,
        ;
        let start = i * CHUNK_SIZE;
        if len - start >= CHUNK_SIZE {
            (start, start + CHUNK_SIZE)
        } else {
            (start, len)
        }
    }
}

fn hash_subtree(input: &[u8], start: usize, n: usize, fin: Finalization) -> (r: crate::hash::Hash)
    requires
        1 <= n,
        start + n <= num_chunks(input@.len()),
    ensures
        r@ == subtree_hash(input@, start as nat, n as nat, fin),
    decreases n,
{
    if n == 1 {
        let (s, e) = chunk_range(input.len(), start);
        hash_node(slice_subrange(input, s, e), fin)
    } else {
        let len = input.len();
        proof {
            lemma_num_chunks_bound(len as nat);
        }
        let k = largest_power_of_two(n as u64) as usize;
        let left = hash_subtree(input, start, k, Finalization::NotRoot);
        let right = hash_subtree(input, start + k, n - k, Finalization::NotRoot);
        let payload = parent_payload(&left, &right);
        hash_node(payload.as_slice(), fin)
    }
}

/// The root hash of `input`, computed by splitting the tree recursively.
pub fn hash(input: &[u8]) -> (r: crate::hash::Hash)
    requires
        input@.len() <= u64::MAX,
    ensures
        r@ == root_hash(input@),
{
    let len = input.len();
    let n = count_chunks(len as u64) as usize;
    hash_subtree(input, 0, n, Finalization::Root(len as u64))
}

/// Each size doubled.
pub open spec fn doubled(s: Seq<nat>) -> Seq<nat> {
    Seq::new(s.len(), |i: int| 2 * s[i])
}

/// The powers of two of the set bits of `k`, largest first.
pub open spec fn set_bit_sizes(k: nat) -> Seq<nat>
    decreases k,
{
    if k == 0 {
        Seq::empty()
    } else if k % 2 == 1 {
        doubled(set_bit_sizes(k / 2)).push(1)
    } else {
        doubled(set_bit_sizes(k / 2))
    }
}

/// Subtree sizes on the stack after `k` chunks were merged down, one more
/// chunk was pushed, and `m` merges followed.
pub open spec fn pending_sizes(k: nat, m: nat) -> Seq<nat>
    decreases m,
{
    if m == 0 {
        set_bit_sizes(k).push(1)
    } else {
        doubled(pending_sizes(k / 2, (m - 1) as nat))
    }
}

proof fn lemma_set_bit_sizes_len(k: nat)
    ensures
        set_bit_sizes(k).len() == popcount(k),
    decreases k,
{
    if k > 0 {
        lemma_set_bit_sizes_len(k / 2);
    }
}

proof fn lemma_pending_len(k: nat, m: nat)
    requires
        m <= trailing_ones(k),
    ensures
        pending_sizes(k, m).len() + m == popcount(k) + 1,
    decreases m,
{
    if m == 0 {
        lemma_set_bit_sizes_len(k);
    } else {
        lemma_pending_len(k / 2, (m - 1) as nat);
    }
}

/// Once all due merges are done, the sizes are those of the set bits.
proof fn lemma_pending_done(k: nat)
    ensures
        pending_sizes(k, trailing_ones(k)) == set_bit_sizes(k + 1),
    decreases k,
{
    if k % 2 == 1 {
        lemma_pending_done(k / 2);
        assert((k + 1) / 2 == k / 2 + 1);
    } else {
        assert((k + 1) / 2 == k / 2);
        assert(set_bit_sizes(k + 1) == doubled(set_bit_sizes(k / 2)).push(1));
    }
}

/// A due merge folds the two top sizes, which are equal, into their sum.
proof fn lemma_pending_step(k: nat, m: nat)
    requires
        m < trailing_ones(k),
    ensures
        pending_sizes(k, m).len() >= 2,
        pending_sizes(k, m)[pending_sizes(k, m).len() - 2] == pending_sizes(k, m).last(),
        pending_sizes(k, m + 1) == pending_sizes(k, m).drop_last().drop_last().push(
            2 * pending_sizes(k, m).last(),
        ),
    decreases m,
{
    if m == 0 {
        let d = doubled(set_bit_sizes(k / 2));
        assert(set_bit_sizes(k) == d.push(1));
        assert(pending_sizes(k / 2, 0) == set_bit_sizes(k / 2).push(1));
        assert(pending_sizes(k, 1) == doubled(pending_sizes(k / 2, 0)));
        assert(doubled(set_bit_sizes(k / 2).push(1)) =~= d.push(2));
        assert(d.push(1).push(1).drop_last().drop_last() =~= d);
    } else {
        lemma_pending_step(k / 2, (m - 1) as nat);
        let p = pending_sizes(k / 2, (m - 1) as nat);
        let q = pending_sizes(k / 2, m);
        assert(doubled(q) =~= doubled(p).drop_last().drop_last().push(2 * doubled(p).last()));
    }
}

/// The stack of subtree hashes that a post-order build keeps: one entry per
/// complete subtree not yet merged, bottom first.
pub struct State {
    subtrees: ArrayVec<crate::hash::Hash, MAX_DEPTH>,
    chunks: u64,
    sizes: Ghost<Seq<nat>>,
    merged: Ghost<nat>,
}

impl State {
    /// The hashes on the stack, bottom first.
    pub closed spec fn stack(&self) -> Seq<crate::hash::Hash> {
        hash_stack_items(self.subtrees)
    }

    /// How many chunk hashes have been pushed.
    pub closed spec fn count(&self) -> nat {
        self.chunks as nat
    }

    /// The number of chunks under each entry of the stack, bottom first.
    pub closed spec fn sizes(&self) -> Seq<nat> {
        self.sizes@
    }

    /// Between operations the stack holds at least one entry per set bit of
    /// the chunk count; it holds exactly that many once no merge is due.
    pub open spec fn wf(&self) -> bool {
        &&& popcount(self.count()) <= self.stack().len()
        &&& (self.count() == 0 ==> self.stack().len() == 0)
        &&& self.count() < 0x8000_0000_0000_0000
        &&& self.sizes().len() == self.stack().len()
        &&& self.sizes_wf()
    }

    /// The sizes are those of the set bits of the previous chunk count, plus
    /// the last chunk, after some of the merges that it makes due.
    pub closed spec fn sizes_wf(&self) -> bool {
        &&& self.count() == 0 ==> self.sizes@ == Seq::<nat>::empty()
        &&& self.count() > 0 ==> {
            let k = (self.count() - 1) as nat;
            &&& self.merged@ <= trailing_ones(k)
            &&& self.sizes@ == pending_sizes(k, self.merged@)
            &&& self.stack().len() + self.merged@ == popcount(k) + 1
        }
    }

    /// Whether the two top entries are subtrees of equal size.
    pub open spec fn merge_due(&self) -> bool {
        self.stack().len() > popcount(self.count())
    }

    pub fn new() -> (r: State)
        ensures
            r.wf(),
            r.stack().len() == 0,
            r.count() == 0,
    {
        State { subtrees: hash_stack_new(), chunks: 0, sizes: Ghost(Seq::empty()), merged: Ghost(0) }
    }

    /// Pushes the hash of a newly finished chunk. No merge may be due.
    pub fn push_subtree(&mut self, h: crate::hash::Hash)
        requires
            old(self).wf(),
            !old(self).merge_due(),
            old(self).count() + 1 < 0x8000_0000_0000_0000,
        ensures
            final(self).wf(),
            final(self).stack() == old(self).stack().push(h),
            final(self).count() == old(self).count() + 1,
            old(self).sizes() == set_bit_sizes(old(self).count()),
            final(self).sizes() == old(self).sizes().push(1),
    {
        proof {
            lemma_popcount_below_63(self.chunks as nat);
            lemma_popcount_succ(self.chunks as nat);
            if self.chunks > 0 {
                let k = (self.chunks - 1) as nat;
                lemma_popcount_succ(k);
                lemma_pending_done(k);
            }
        }
        hash_stack_push(&mut self.subtrees, h);
        self.chunks = self.chunks + 1;
        self.sizes = Ghost(self.sizes@.push(1));
        self.merged = Ghost(0);
    }

    /// How many subtree hashes the stack holds.
    pub fn depth(&self) -> (r: usize)
        ensures
            r == self.stack().len(),
    {
        hash_stack_len(&self.subtrees)
    }

    /// How many chunk hashes have been pushed.
    pub fn chunk_count(&self) -> (r: u64)
        ensures
            r == self.count(),
    {
        self.chunks
    }

    fn needs_merge(&self) -> (r: bool)
        requires
            self.wf(),
        ensures
            r == self.merge_due(),
            self.stack().len() <= MAX_DEPTH,
    {
        hash_stack_len(&self.subtrees) > count_ones(self.chunks) as usize
    }

    /// When the two top subtrees have equal size, pops them, pushes the
    /// (non-root) hash of their parent and returns the parent's payload.
    /// Going from `k` to `k + 1` chunks, exactly `trailing_ones(k)` merges are due.
    pub fn merge_parent(&mut self) -> (r: Option<ParentNode>)
        requires
            old(self).wf(),
        ensures
            final(self).wf(),
            final(self).count() == old(self).count(),
            old(self).merge_due() ==> {
                let s = old(self).stack();
                let n = s.len();
                &&& n >= 2
                &&& r is Some
                &&& r.unwrap()@ == s[n - 2]@ + s[n - 1]@
                &&& final(self).stack().len() == n - 1
                &&& final(self).stack().subrange(0, n - 2) == s.subrange(0, n - 2)
                &&& final(self).stack().last()@ == node_hash(r.unwrap()@, Finalization::NotRoot)
            },
            old(self).merge_due() ==> {
                let z = old(self).sizes();
                let n = z.len();
                &&& z[n - 2] == z[n - 1]
                &&& final(self).sizes() == z.drop_last().drop_last().push(2 * z[n - 1])
            },
            !old(self).merge_due() ==> r is None && final(self).stack() == old(self).stack()
                && final(self).sizes() == old(self).sizes(),
            r is None ==> final(self).stack().len() == popcount(final(self).count()),
            r is None ==> final(self).sizes() == set_bit_sizes(final(self).count()),
    {
        if !self.needs_merge() {
            proof {
                if self.chunks > 0 {
                    let k = (self.chunks - 1) as nat;
                    lemma_popcount_succ(k);
                    lemma_pending_done(k);
                }
            }
            return None;
        }
        proof {
            lemma_popcount_positive(self.chunks as nat);
            let k = (self.chunks - 1) as nat;
            lemma_popcount_succ(k);
            lemma_pending_step(k, self.merged@);
            lemma_pending_len(k, self.merged@ + 1);
        }
        let right = hash_stack_pop(&mut self.subtrees).unwrap();
        let left = hash_stack_pop(&mut self.subtrees).unwrap();
        let parent = parent_payload(&left, &right);
        let h = hash_node(parent.as_slice(), Finalization::NotRoot);
        hash_stack_push(&mut self.subtrees, h);
        let ghost z = self.sizes@;
        self.sizes = Ghost(z.drop_last().drop_last().push(2 * z.last()));
        self.merged = Ghost(self.merged@ + 1);
        Some(parent)
    }

    /// After the last chunk: folds the two top entries whatever their sizes
    /// and returns the parent's payload. When no entry is left below them,
    /// the parent is the root, hashed under `fin`, and its hash is returned.
    pub fn merge_finish(&mut self, fin: Finalization) -> (r: (ParentNode, Option<crate::hash::Hash>))
        requires
            old(self).stack().len() >= 2,
        ensures
            ({
                let s = old(self).stack();
                let n = s.len();
                &&& r.0@ == s[n - 2]@ + s[n - 1]@
                &&& final(self).count() == old(self).count()
                &&& n == 2 ==> r.1 is Some && r.1.unwrap()@ == node_hash(r.0@, fin)
                    && final(self).stack().len() == 0
                &&& n > 2 ==> r.1 is None && final(self).stack().len() == n - 1
                    && final(self).stack().subrange(0, n - 2) == s.subrange(0, n - 2)
                    && final(self).stack().last()@ == node_hash(r.0@, Finalization::NotRoot)
            }),
    {
        let depth = hash_stack_len(&self.subtrees);
        let right = hash_stack_pop(&mut self.subtrees).unwrap();
        let left = hash_stack_pop(&mut self.subtrees).unwrap();
        let parent = parent_payload(&left, &right);
        if depth == 2 {
            let root = hash_node(parent.as_slice(), fin);
            (parent, Some(root))
        } else {
            let h = hash_node(parent.as_slice(), Finalization::NotRoot);
            hash_stack_push(&mut self.subtrees, h);
            (parent, None)
        }
    }
}

} // verus!
