use storage_map::codec::{
    decode_state, encode_state, pack_bits, push_u64, read_u64, unpack_all, PersistedState,
};

#[test]
fn test_u64_round_trip() {
    let mut out: Vec<u8> = Vec::new();
    push_u64(&mut out, 0);
    push_u64(&mut out, 1);
    push_u64(&mut out, 0x0123_4567_89ab_cdef);
    push_u64(&mut out, u64::MAX);

    assert_eq!(out.len(), 32);
    assert_eq!(&out[8..16], &[1, 0, 0, 0, 0, 0, 0, 0]);
    assert_eq!(&out[16..24], &[0xef, 0xcd, 0xab, 0x89, 0x67, 0x45, 0x23, 0x01]);

    assert_eq!(read_u64(&out, 0).unwrap(), (0, 8));
    assert_eq!(read_u64(&out, 8).unwrap(), (1, 16));
    assert_eq!(read_u64(&out, 16).unwrap(), (0x0123_4567_89ab_cdef, 24));
    assert_eq!(read_u64(&out, 24).unwrap(), (u64::MAX, 32));
    assert!(read_u64(&out, 25).is_none());
}

#[test]
fn test_bit_round_trip() {
    let bits: Vec<bool> = (0..19).map(|i| i % 3 == 0).collect();
    let packed = pack_bits(&bits);
    assert_eq!(packed.len(), 3);
    // most significant bit first: 1001001 0... for the first byte
    assert_eq!(packed[0], 0b1001_0010);

    let unpacked = unpack_all(&packed);
    assert_eq!(unpacked.len(), 24);
    for i in 0..19 {
        assert_eq!(unpacked[i], bits[i]);
    }
    for i in 19..24 {
        assert!(!unpacked[i]);
    }
}

#[test]
fn test_state_round_trip() {
    let state = PersistedState {
        tree_bits: vec![true, false, true],
        tree_hashes: vec![9u8; 192],
        height: 2,
        leaf_count: 2,
        chunk_bits: vec![true; 8],
        chunk_size: 4096,
        chunk_count: 8,
        piece_size: 16384,
        piece_count: 2,
        chunks_in_piece: 4,
        name: "a name".to_string(),
        locations: vec!["first".to_string(), "second".to_string()],
        total_size: 20000,
    };

    let blob = encode_state(&state);
    let decoded = decode_state(&blob).unwrap();

    // bitmaps come back padded with zeros to whole bytes
    assert_eq!(&decoded.tree_bits[..3], &state.tree_bits[..]);
    assert!(decoded.tree_bits[3..].iter().all(|b| !b));
    assert_eq!(decoded.tree_hashes, state.tree_hashes);
    assert_eq!(decoded.height, state.height);
    assert_eq!(decoded.leaf_count, state.leaf_count);
    assert_eq!(decoded.chunk_bits, state.chunk_bits);
    assert_eq!(decoded.chunk_size, state.chunk_size);
    assert_eq!(decoded.chunk_count, state.chunk_count);
    assert_eq!(decoded.piece_size, state.piece_size);
    assert_eq!(decoded.piece_count, state.piece_count);
    assert_eq!(decoded.chunks_in_piece, state.chunks_in_piece);
    assert_eq!(decoded.name, state.name);
    assert_eq!(decoded.locations, state.locations);
    assert_eq!(decoded.total_size, state.total_size);

    // and re-encode to the identical blob
    assert_eq!(encode_state(&decoded), blob);
}

#[test]
fn test_decode_rejects_garbage() {
    assert!(decode_state(&vec![]).is_none());
    assert!(decode_state(&vec![1, 2, 3]).is_none());

    let state = PersistedState {
        tree_bits: vec![],
        tree_hashes: vec![],
        height: 0,
        leaf_count: 0,
        chunk_bits: vec![],
        chunk_size: 0,
        chunk_count: 0,
        piece_size: 0,
        piece_count: 0,
        chunks_in_piece: 0,
        name: String::new(),
        locations: vec![],
        total_size: 0,
    };
    let mut blob = encode_state(&state);
    blob.push(0);
    // trailing garbage is rejected
    assert!(decode_state(&blob).is_none());
}
