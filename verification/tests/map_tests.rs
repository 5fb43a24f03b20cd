use storage_map::map::{ErrorKind, StorageMap};
use storage_map::resource::MemResource;
use storage_map::service::StorageMapActor;

type TestMap = StorageMap<MemResource>;

fn one_resource(size: usize) -> Vec<(String, usize)> {
    vec![("resource_0".to_string(), size)]
}

#[test]
fn test_map_new_built() {
    // a freshly created map has every chunk present and a built tree
    let map = TestMap::new("m".to_string(), one_resource(65536)).unwrap();
    assert_eq!(*map.name(), "m".to_string());
    assert_eq!(map.piece_count_val(), 4);
    assert_eq!(map.chunk_size(), 4096);
    for c in 0..16 {
        assert!(map.has_chunk(c));
    }
    for p in 0..4 {
        assert!(map.has_piece(p));
    }
    assert!(!map.has_chunk(16));
    assert!(!map.has_piece(4));

    let proof = map.prove(0).unwrap();
    map.verify(&proof).unwrap();
}

#[test]
fn test_read_chunk() {
    let mut map = TestMap::new("m".to_string(), one_resource(65536)).unwrap();
    let bytes = map.read_chunk(1).unwrap();
    assert_eq!(bytes.len(), 4096);
    // the memory resource holds a repeating pattern
    assert_eq!(bytes[0], (4096 % 256) as u8);

    match map.read_chunk(99) {
        Err(e) => assert!(matches!(e.kind, ErrorKind::ChunkDoesNotExist(99))),
        Ok(_) => panic!("reading a missing chunk should fail"),
    }
}

#[test]
fn test_write_chunk_errors() {
    let mut map = TestMap::new("m".to_string(), one_resource(65536)).unwrap();
    let data = vec![0u8; 4096];

    match map.write_chunk(0, &data) {
        Err(e) => assert!(matches!(e.kind, ErrorKind::ChunkAlreadyExists(0))),
        Ok(_) => panic!("rewriting a chunk should fail"),
    }
    match map.write_chunk(99, &data) {
        Err(e) => assert!(matches!(e.kind, ErrorKind::ChunkOutOfRange(99))),
        Ok(_) => panic!("writing out of range should fail"),
    }
}

#[test]
fn test_reverse_fill() {
    // a fresh empty map over one 65536-byte resource, all chunks written in
    // reverse order: after the last write the tree is fully built and the
    // first piece can be proven
    let mut map = TestMap::new_empty("m".to_string(), one_resource(65536)).unwrap();
    assert_eq!(map.piece_count_val(), 4);

    for c in (0..16).rev() {
        assert!(!map.has_chunk(c));
        let data: Vec<u8> = (0..4096).map(|i| ((c + i) % 256) as u8).collect();
        map.write_chunk(c, &data).unwrap();
        assert!(map.has_chunk(c));
    }

    for p in 0..4 {
        assert!(map.has_piece(p));
    }

    let proof = map.prove(0).unwrap();
    assert_eq!(proof.partial, false);
    map.verify(&proof).unwrap();
}

#[test]
fn test_chunk_to_piece_completion() {
    // has_piece turns true exactly when all four consecutive chunk bits do
    let mut map = TestMap::new_empty("m".to_string(), one_resource(65536)).unwrap();
    let data = vec![7u8; 4096];

    assert!(!map.has_piece(1));
    map.write_chunk(4, &data).unwrap();
    map.write_chunk(5, &data).unwrap();
    map.write_chunk(6, &data).unwrap();
    assert!(!map.has_piece(1));
    map.write_chunk(7, &data).unwrap();
    assert!(map.has_piece(1));

    // fill the rest, then check the piece's leaf holds the digest of its
    // bytes
    for c in [0, 1, 2, 3, 8, 9, 10, 11, 12, 13, 14, 15] {
        map.write_chunk(c, &data).unwrap();
    }
    let piece: Vec<u8> = vec![7u8; 16384];
    let expected = storage_map::digest::sha512(&piece[..]);
    let proof = map.prove(1).unwrap();
    assert_eq!(proof.leaf_hash, expected);
}

#[test]
fn test_actor_dispatch() {
    let mut actor: StorageMapActor<MemResource> = StorageMapActor::new();

    match actor.handle_has_chunk(0) {
        Err(e) => assert!(matches!(
            e.kind,
            storage_map::service::ErrorKind::StorageDoesNotExist
        )),
        Ok(_) => panic!("a fresh worker holds no map"),
    }

    let name = actor.handle_create("m".to_string(), one_resource(65536)).unwrap();
    assert_eq!(name, "m".to_string());
    assert!(actor.handle_has_chunk(3).unwrap());
    assert!(actor.handle_has_piece(2).unwrap());
    let proof = actor.handle_prove(1).unwrap();
    actor.handle_verify(&proof).unwrap();
    assert_eq!(actor.handle_read_chunk(0).unwrap().len(), 4096);

    match actor.handle_create("m".to_string(), one_resource(65536)) {
        Err(e) => assert!(matches!(
            e.kind,
            storage_map::service::ErrorKind::StorageAlreadyExists
        )),
        Ok(_) => panic!("a worker holds at most one map"),
    }
}

#[test]
fn test_save_load_round_trip() {
    let mut actor: StorageMapActor<MemResource> = StorageMapActor::new();
    actor.handle_create("persisted".to_string(), one_resource(65536)).unwrap();
    let blob = actor.handle_save().unwrap();

    let mut restored: StorageMapActor<MemResource> = StorageMapActor::new();
    let name = restored.handle_load(&blob).unwrap();
    assert_eq!(name, "persisted".to_string());
    assert!(restored.handle_has_chunk(0).unwrap());
    let proof = restored.handle_prove(0).unwrap();
    restored.handle_verify(&proof).unwrap();

    // the restored map serializes to the same blob
    let blob2 = restored.handle_save().unwrap();
    assert_eq!(blob, blob2);
}

#[test]
fn test_load_size_mismatch() {
    // a persisted total that disagrees with the re-opened resources is
    // rejected
    let mut actor: StorageMapActor<MemResource> = StorageMapActor::new();
    actor.handle_create("m".to_string(), one_resource(65536)).unwrap();
    let blob = actor.handle_save().unwrap();

    let mut state = storage_map::codec::decode_state(&blob).unwrap();
    state.total_size += 1;
    let tampered = storage_map::codec::encode_state(&state);

    let mut restored: StorageMapActor<MemResource> = StorageMapActor::new();
    match restored.handle_load(&tampered) {
        Err(e) => assert!(matches!(
            e.kind,
            storage_map::service::ErrorKind::StorageError(
                storage_map::errors::ErrorKind::SizeMismatch(_, _)
            )
        )),
        Ok(_) => panic!("a mismatched total should be rejected"),
    }
}

#[test]
fn test_load_rejects_garbage() {
    let mut actor: StorageMapActor<MemResource> = StorageMapActor::new();
    match actor.handle_load(&vec![1, 2, 3]) {
        Err(e) => assert!(matches!(
            e.kind,
            storage_map::service::ErrorKind::SerializationError(_)
        )),
        Ok(_) => panic!("garbage should not load"),
    }
}
