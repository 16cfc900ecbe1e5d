use bao::encode::{
    encode, encoded_size, post_order_parent_nodes_final, post_order_parent_nodes_nonfinal,
    pre_order_parent_nodes, FlipperNext, FlipperState, WriterState,
};
use bao::hash::{self, largest_power_of_two, Finalization, State, CHUNK_SIZE, HEADER_SIZE, PARENT_SIZE};
use std::io::{Cursor, Read, Seek, SeekFrom, Write};

const TEST_CASES: &[usize] = &[
    0,
    1,
    CHUNK_SIZE - 1,
    CHUNK_SIZE,
    CHUNK_SIZE + 1,
    2 * CHUNK_SIZE,
    2 * CHUNK_SIZE + 1,
    4 * CHUNK_SIZE,
    4 * CHUNK_SIZE + 1,
    10 * CHUNK_SIZE,
];

// Drives the incremental encoder over an in-memory seekable buffer, feeding the
// input in pieces of at most `piece` bytes.
fn writer_encode(input: &[u8], piece: usize) -> (hash::Hash, Vec<u8>) {
    let mut sink = Cursor::new(Vec::new());
    let mut state = WriterState::new();
    let mut rest = input;
    while !rest.is_empty() {
        let parents = state.start_write();
        sink.write_all(&parents).unwrap();
        let take = std::cmp::min(std::cmp::min(state.room(), rest.len()), piece);
        sink.write_all(&rest[..take]).unwrap();
        state.accept(&rest[..take]);
        rest = &rest[take..];
    }
    let (tail, root) = state.finish();
    sink.write_all(&tail).unwrap();
    let mut flipper = FlipperState::new(input.len() as u64);
    let mut write_cursor = sink.seek(SeekFrom::Current(0)).unwrap();
    let mut read_cursor = write_cursor - HEADER_SIZE as u64;
    loop {
        match flipper.next() {
            FlipperNext::FeedParent => {
                let mut parent = [0; PARENT_SIZE];
                sink.seek(SeekFrom::Start(read_cursor - PARENT_SIZE as u64)).unwrap();
                sink.read_exact(&mut parent).unwrap();
                read_cursor -= PARENT_SIZE as u64;
                flipper.feed_parent(parent);
            }
            FlipperNext::TakeParent => {
                let parent = flipper.take_parent();
                sink.seek(SeekFrom::Start(write_cursor - PARENT_SIZE as u64)).unwrap();
                sink.write_all(&parent).unwrap();
                write_cursor -= PARENT_SIZE as u64;
            }
            FlipperNext::Chunk(size) => {
                let mut chunk = [0; CHUNK_SIZE];
                sink.seek(SeekFrom::Start(read_cursor - size as u64)).unwrap();
                sink.read_exact(&mut chunk[..size]).unwrap();
                read_cursor -= size as u64;
                sink.seek(SeekFrom::Start(write_cursor - size as u64)).unwrap();
                sink.write_all(&chunk[..size]).unwrap();
                write_cursor -= size as u64;
                flipper.chunk_moved();
            }
            FlipperNext::Done => {
                assert_eq!(HEADER_SIZE as u64, write_cursor);
                sink.seek(SeekFrom::Start(0)).unwrap();
                sink.write_all(&hash::encode_len(input.len() as u64)).unwrap();
                return (root, sink.into_inner());
            }
        }
    }
}

#[test]
fn test_encoded_size() {
    for &case in TEST_CASES {
        let input = vec![0; case];
        let (_, encoded) = encode(&input);
        assert_eq!(encoded.len() as u128, encoded_size(case as u64));
        assert_eq!(encoded.len(), encoded.capacity());
    }
}

#[test]
fn check_hash() {
    for &case in TEST_CASES {
        println!("starting case {}", case);
        let input = vec![9; case];
        let expected_hash = hash::hash(&input);
        let (encoded_hash, _) = encode(&input);
        assert_eq!(expected_hash, encoded_hash, "hash mismatch");
    }
}

fn recurse(start: u64, size: u64, answers: &mut Vec<(u8, u8)>) {
    assert!(size > 0);
    if size == 1 {
        return;
    }
    answers[start as usize].0 += 1;
    answers[(start + size - 1) as usize].1 += 1;
    let split = largest_power_of_two(size);
    recurse(start, split, answers);
    recurse(start + split, size - split, answers);
}

// The parent counts found by walking the tree recursively.
fn make_pre_post_list(total_chunks: u64) -> Vec<(u8, u8)> {
    let mut answers = vec![(0, 0); total_chunks as usize];
    recurse(0, total_chunks, &mut answers);
    answers
}

#[test]
fn test_make_pre_post_list() {
    assert_eq!(make_pre_post_list(1), vec![(0, 0)]);
    assert_eq!(make_pre_post_list(2), vec![(1, 0), (0, 1)]);
    assert_eq!(make_pre_post_list(3), vec![(2, 0), (0, 1), (0, 1)]);
    assert_eq!(make_pre_post_list(4), vec![(2, 0), (0, 1), (1, 0), (0, 2)]);
    assert_eq!(
        make_pre_post_list(5),
        vec![(3, 0), (0, 1), (1, 0), (0, 2), (0, 1)]
    );
}

#[test]
fn test_parent_nodes() {
    for total_chunks in 1..100 {
        let content_len = total_chunks * CHUNK_SIZE as u64;
        let pre_post_list = make_pre_post_list(total_chunks);
        for chunk in 0..total_chunks {
            let (expected_pre, expected_post) = pre_post_list[chunk as usize];
            let pre = pre_order_parent_nodes(chunk, content_len);
            let post = if chunk < total_chunks - 1 {
                post_order_parent_nodes_nonfinal(chunk)
            } else {
                post_order_parent_nodes_final(chunk)
            };
            assert_eq!(
                expected_pre, pre,
                "incorrect pre-order parent nodes for chunk {} of total {}",
                chunk, total_chunks
            );
            assert_eq!(
                expected_post, post,
                "incorrect post-order parent nodes for chunk {} of total {}",
                chunk, total_chunks
            );
        }
    }
}

#[test]
fn test_writer() {
    for &case in TEST_CASES {
        println!("case {}", case);
        let input = vec![0; case];
        let (expected_hash, expected_encoded) = encode(&input);
        let (writer_hash, writer_encoded) = writer_encode(&input, usize::MAX);
        assert_eq!(expected_hash, writer_hash, "hash mismatch");
        assert_eq!(expected_encoded, writer_encoded, "encoded mismatch");
    }
}

#[test]
fn writer_matches_encode_for_small_pieces() {
    for &case in TEST_CASES {
        let input: Vec<u8> = (0..case).map(|i| (i % 251) as u8).collect();
        let expected = encode(&input);
        for &piece in &[1usize, 7, 1000, CHUNK_SIZE + 3] {
            assert_eq!(expected, writer_encode(&input, piece), "case {} piece {}", case, piece);
        }
    }
}

#[test]
fn header_holds_length() {
    for &case in TEST_CASES {
        for &byte in &[0u8, 9u8] {
            let input = vec![byte; case];
            let (_, encoded) = encode(&input);
            assert_eq!(hash::decode_len(&encoded[..HEADER_SIZE]), case as u64);
            assert_eq!(&encoded[..HEADER_SIZE], &(case as u64).to_le_bytes()[..]);
        }
    }
}

#[test]
fn root_hash_matches_recursive_hash() {
    for &case in TEST_CASES {
        for &byte in &[0u8, 9u8] {
            let input = vec![byte; case];
            let (root, _) = encode(&input);
            assert_eq!(root, hash::hash(&input));
        }
    }
}

#[test]
fn encoded_size_values() {
    assert_eq!(encoded_size(0), 8);
    assert_eq!(encoded_size(1), 9);
    assert_eq!(encoded_size(CHUNK_SIZE as u64), CHUNK_SIZE as u128 + 8);
    assert_eq!(encoded_size(CHUNK_SIZE as u64 + 1), CHUNK_SIZE as u128 + 1 + 64 + 8);
    assert_eq!(encoded_size(10 * CHUNK_SIZE as u64), 10 * CHUNK_SIZE as u128 + 9 * 64 + 8);
    let max = u64::MAX as u128;
    assert_eq!(encoded_size(u64::MAX), max + ((max + 4095) / 4096 - 1) * 64 + 8);
}

#[test]
fn empty_input_encoding() {
    let (root, encoded) = encode(&[]);
    assert_eq!(encoded, vec![0u8; 8]);
    assert_eq!(root, hash::hash_node(&[], Finalization::Root(0)));
}

#[test]
fn single_chunk_encoding_is_header_then_content() {
    let input = vec![9u8; CHUNK_SIZE];
    let (root, encoded) = encode(&input);
    assert_eq!(&encoded[..8], &(CHUNK_SIZE as u64).to_le_bytes()[..]);
    assert_eq!(&encoded[8..], &input[..]);
    assert_eq!(root, hash::hash_node(&input, Finalization::Root(CHUNK_SIZE as u64)));
}

#[test]
fn two_chunk_encoding_layout() {
    let mut input = vec![1u8; CHUNK_SIZE];
    input.push(2);
    let (root, encoded) = encode(&input);
    let left = hash::hash_node(&input[..CHUNK_SIZE], Finalization::NotRoot);
    let right = hash::hash_node(&input[CHUNK_SIZE..], Finalization::NotRoot);
    let parent = hash::parent_payload(&left, &right);
    assert_eq!(encoded.len(), 8 + 64 + CHUNK_SIZE + 1);
    assert_eq!(&encoded[8..72], &parent[..]);
    assert_eq!(&encoded[72..], &input[..]);
    assert_eq!(root, hash::hash_node(&parent, Finalization::Root(input.len() as u64)));
    assert_ne!(root, hash::hash_node(&parent, Finalization::NotRoot));
}

#[test]
fn root_and_non_root_hashes_differ() {
    let a = hash::hash_node(b"abc", Finalization::NotRoot);
    let b = hash::hash_node(b"abc", Finalization::Root(3));
    assert_ne!(a, b);
    assert_ne!(a, [0u8; 32]);
}

#[test]
fn parent_count_values() {
    assert_eq!(post_order_parent_nodes_nonfinal(0), 0);
    assert_eq!(post_order_parent_nodes_nonfinal(11), 2);
    assert_eq!(post_order_parent_nodes_nonfinal(u64::MAX), 64);
    assert_eq!(post_order_parent_nodes_final(11), 3);
    assert_eq!(post_order_parent_nodes_final(u64::MAX), 64);
    let sixteen = 16 * CHUNK_SIZE as u64;
    assert_eq!(pre_order_parent_nodes(0, sixteen), 4);
    assert_eq!(pre_order_parent_nodes(0, sixteen + 1), 5);
    assert_eq!(pre_order_parent_nodes(4, 7 * CHUNK_SIZE as u64), 2);
    assert_eq!(pre_order_parent_nodes(4, 5 * CHUNK_SIZE as u64), 0);
    assert_eq!(pre_order_parent_nodes(0, u64::MAX), 52);
}

#[test]
fn largest_power_of_two_values() {
    assert_eq!(largest_power_of_two(2), 1);
    assert_eq!(largest_power_of_two(3), 2);
    assert_eq!(largest_power_of_two(4), 2);
    assert_eq!(largest_power_of_two(5), 4);
    assert_eq!(largest_power_of_two(u64::MAX), 1 << 63);
}

#[test]
fn length_header_round_trip() {
    for &len in &[0u64, 1, 255, 256, 0x0102_0304_0506_0708, u64::MAX] {
        let bytes = hash::encode_len(len);
        assert_eq!(bytes, len.to_le_bytes().to_vec());
        assert_eq!(hash::decode_len(&bytes), len);
    }
}

#[test]
fn subtree_stack_matches_set_bits() {
    let mut state = State::new();
    for k in 1..=200u64 {
        state.push_subtree([k as u8; 32]);
        let mut merges = 0;
        while state.merge_parent().is_some() {
            merges += 1;
        }
        assert_eq!(merges, (k - 1).trailing_ones());
        assert_eq!(state.depth() as u32, k.count_ones());
        assert_eq!(state.chunk_count(), k);
    }
}

#[test]
fn merge_parent_payload_and_hash() {
    let mut state = State::new();
    state.push_subtree([1; 32]);
    assert!(state.merge_parent().is_none());
    state.push_subtree([2; 32]);
    let payload = state.merge_parent().unwrap();
    assert_eq!(&payload[..32], &[1u8; 32][..]);
    assert_eq!(&payload[32..], &[2u8; 32][..]);
    assert_eq!(state.depth(), 1);
    state.push_subtree([3; 32]);
    assert!(state.merge_parent().is_none());
    let (p, root) = state.merge_finish(Finalization::Root(5));
    let inner = hash::hash_node(&payload, Finalization::NotRoot);
    assert_eq!(&p[..32], &inner[..]);
    assert_eq!(&p[32..], &[3u8; 32][..]);
    assert_eq!(root, Some(hash::hash_node(&p, Finalization::Root(5))));
}

#[test]
fn flipper_plan_for_three_chunks() {
    let len = 2 * CHUNK_SIZE as u64 + 5;
    let mut flipper = FlipperState::new(len);
    let mut events = Vec::new();
    loop {
        let event = flipper.next();
        events.push(event);
        match event {
            FlipperNext::FeedParent => flipper.feed_parent([events.len() as u8; 64]),
            FlipperNext::TakeParent => {
                flipper.take_parent();
            }
            FlipperNext::Chunk(_) => flipper.chunk_moved(),
            FlipperNext::Done => break,
        }
    }
    assert_eq!(
        events,
        vec![
            FlipperNext::FeedParent,
            FlipperNext::Chunk(5),
            FlipperNext::FeedParent,
            FlipperNext::Chunk(CHUNK_SIZE),
            FlipperNext::Chunk(CHUNK_SIZE),
            FlipperNext::TakeParent,
            FlipperNext::TakeParent,
            FlipperNext::Done
        ]
    );
}

#[test]
fn node_hash_is_blake2b_256() {
    let h = hash::hash_node(b"abc", Finalization::NotRoot);
    let expected: [u8; 32] = [
        0xbd, 0xdd, 0x81, 0x3c, 0x63, 0x42, 0x39, 0x72, 0x31, 0x71, 0xef, 0x3f, 0xee, 0x98, 0x57,
        0x9b, 0x94, 0x96, 0x4e, 0x3b, 0xb1, 0xcb, 0x3e, 0x42, 0x72, 0x62, 0xc8, 0xc0, 0x68, 0xd5,
        0x23, 0x19,
    ];
    assert_eq!(h, expected);
}

#[test]
fn writer_state_counts_merges() {
    let mut state = WriterState::new();
    let full = vec![5u8; CHUNK_SIZE];
    for k in 0..8u64 {
        let parents = state.start_write();
        if k == 0 {
            assert!(parents.is_empty());
        } else {
            assert_eq!(parents.len(), PARENT_SIZE * (k - 1).trailing_ones() as usize);
        }
        assert_eq!(state.room(), CHUNK_SIZE);
        state.accept(&full);
        assert_eq!(state.room(), 0);
    }
    assert_eq!(state.total_len(), 8 * CHUNK_SIZE as u64);
    let (tail, root) = state.finish();
    assert_eq!(tail.len(), 3 * PARENT_SIZE + HEADER_SIZE);
    assert_eq!(root, hash::hash(&vec![5u8; 8 * CHUNK_SIZE]));
}

#[test]
fn one_byte_encoding() {
    let (root, encoded) = encode(&[9u8]);
    assert_eq!(encoded, vec![1, 0, 0, 0, 0, 0, 0, 0, 9]);
    assert_eq!(root, hash::hash_node(&[9u8], Finalization::Root(1)));
}

#[test]
fn four_chunk_encoding_layout() {
    let c = vec![9u8; CHUNK_SIZE];
    let input = vec![9u8; 4 * CHUNK_SIZE];
    let h = hash::hash_node(&c, Finalization::NotRoot);
    let g = hash::hash_node(&hash::parent_payload(&h, &h), Finalization::NotRoot);
    let (root, encoded) = encode(&input);
    let mut expected = hash::encode_len(4 * CHUNK_SIZE as u64);
    for part in [&g[..], &g[..], &h[..], &h[..], &c[..], &c[..], &h[..], &h[..], &c[..], &c[..]] {
        expected.extend_from_slice(part);
    }
    assert_eq!(encoded, expected);
    assert_eq!(root, hash::hash_node(&hash::parent_payload(&g, &g), Finalization::Root(4 * CHUNK_SIZE as u64)));
}

#[test]
fn writer_stream_before_flip_is_post_order() {
    let input = vec![0u8; 2 * CHUNK_SIZE + 1];
    let c = vec![0u8; CHUNK_SIZE];
    let h = hash::hash_node(&c, Finalization::NotRoot);
    let h2 = hash::hash_node(&[0u8], Finalization::NotRoot);
    let g = hash::hash_node(&hash::parent_payload(&h, &h), Finalization::NotRoot);
    let mut stream = Vec::new();
    let mut state = WriterState::new();
    let mut rest = &input[..];
    while !rest.is_empty() {
        stream.extend_from_slice(&state.start_write());
        let take = std::cmp::min(state.room(), rest.len());
        stream.extend_from_slice(&rest[..take]);
        state.accept(&rest[..take]);
        rest = &rest[take..];
    }
    let (tail, root) = state.finish();
    stream.extend_from_slice(&tail);
    let mut expected = Vec::new();
    for part in [&c[..], &c[..], &h[..], &h[..], &[0u8][..], &g[..], &h2[..]] {
        expected.extend_from_slice(part);
    }
    expected.extend_from_slice(&hash::encode_len(input.len() as u64));
    assert_eq!(stream, expected);
    assert_eq!(root, hash::hash_node(&hash::parent_payload(&g, &h2), Finalization::Root(input.len() as u64)));
}
