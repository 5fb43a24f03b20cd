use storage_map::iter::StorageIterator;
use storage_map::resource::{MemResource, Resource};
use storage_map::shard::{Shard, Size};
use storage_map::storage::GenericStorage;

type TestStorage = GenericStorage<MemResource>;

fn make_size(n: i32) -> i32 {
    (n + 1) * 128
}

fn make_vec(size: usize) -> Vec<u8> {
    (0..size).map(|n| n as u8).collect()
}

fn resources(count: usize) -> Vec<(String, usize)> {
    (0..count)
        .map(|n| {
            let location: String = format!("location_{}", n);
            let size: usize = make_size(n as i32) as usize;
            (location, size)
        })
        .collect()
}

fn resources_of_size(count: usize, size: usize) -> Vec<(String, usize)> {
    (0..count).map(|n| (format!("location_{}", n).to_string(), size)).collect()
}

#[test]
fn test_size_impl() {
    assert_eq!(Shard { start: 10, end: 10 }.size(), 0);
    assert_eq!(Shard { start: 15, end: 10 }.size(), 0);
    assert_eq!(Shard { start: 21, end: 31 }.size(), 10);
}

#[test]
fn mod_test_new() {
    let resources = resources(10);
    let sizes: Vec<usize> = resources.iter().map(|(_, size)| *size).collect();
    let storage = TestStorage::new("Test storage".to_string(), resources).unwrap();

    assert_eq!(*storage.name(), "Test storage".to_string());
    assert_eq!(storage.size(), sizes.iter().sum::<usize>());
    assert_eq!(storage.location_list().len(), 10);
}

#[test]
fn test_read() {
    let resources = resources(10);
    let sizes: Vec<usize> = resources.iter().map(|(_, size)| *size).collect();
    let mut storage = TestStorage::new("Test storage".to_string(), resources).unwrap();

    let to_read = 1024usize;
    let size_last = to_read - sizes[0..3].iter().sum::<usize>();

    let mut expected: Vec<u8> = make_vec(sizes[0]);
    expected.extend(make_vec(sizes[1]));
    expected.extend(make_vec(sizes[2]));
    expected.extend(make_vec(size_last));

    let read = storage.read(0usize, to_read).unwrap();

    assert_eq!(read.len(), expected.len());
    assert_eq!(read[..], expected[..]);
}

#[test]
fn test_read_0() {
    let resources = resources(1);
    let mut storage = TestStorage::new("Test storage".to_string(), resources).unwrap();

    match storage.read(0usize, 0) {
        Ok(_) => (),
        Err(_) => panic!("Read failed"),
    }
}

#[test]
fn test_read_from_empty() {
    let resources = resources(0);
    let mut storage = TestStorage::new("Test storage".to_string(), resources).unwrap();

    match storage.read(0usize, 1) {
        Ok(_) => panic!("Reading out of bounds was possible"),
        Err(_) => (),
    }
}

#[test]
fn test_read_out_of_bounds() {
    let resources = resources(2);
    let mut storage = TestStorage::new("Test storage".to_string(), resources).unwrap();

    match storage.read(0usize, 1024) {
        Ok(_) => panic!("Reading out of bounds was possible"),
        Err(_) => (),
    }
}

#[test]
fn test_write() {
    let resources = resources(8);
    let mut storage = TestStorage::new("Test storage".to_string(), resources).unwrap();

    let expected: Vec<u8> = vec![1u8; 1024];
    storage.write(0usize, &expected).unwrap();

    let read = storage.read(0usize, 1024).unwrap();

    assert_eq!(read.len(), expected.len());
    assert_eq!(read[..], expected[..]);
}

#[test]
fn test_write_with_offset() {
    let resources = resources(128);
    let mut storage = TestStorage::new("Test storage".to_string(), resources).unwrap();

    let mut expected = vec![1u8; 3072];
    storage.write(0usize, &expected).unwrap();

    expected = vec![2u8; 1024];
    storage.write(1024usize, &expected).unwrap();
    let read = storage.read(1024usize, 1024).unwrap();
    assert_eq!(read[..], expected[..]);

    expected = vec![1u8; 1024];
    let read = storage.read(0usize, 1024).unwrap();
    assert_eq!(read[..], expected[..]);
    let read = storage.read(2048usize, 1024).unwrap();
    assert_eq!(read[..], expected[..]);
}

#[test]
fn test_write_0() {
    let resources = resources(1);
    let mut storage = TestStorage::new("Test storage".to_string(), resources).unwrap();

    let expected: Vec<u8> = make_vec(0);
    match storage.write(0usize, &expected) {
        Ok(_) => (),
        Err(_) => panic!("Write failed"),
    }
}

#[test]
fn test_write_to_empty() {
    let resources = resources(0);
    let mut storage = TestStorage::new("Test storage".to_string(), resources).unwrap();

    let expected: Vec<u8> = make_vec(1);
    match storage.write(0usize, &expected) {
        Ok(_) => panic!("Writing out of bounds was possible"),
        Err(_) => (),
    }
}

#[test]
fn test_write_out_of_bounds() {
    let resources = resources(2);
    let mut storage = TestStorage::new("Test storage".to_string(), resources).unwrap();

    let expected = make_vec(1024);
    match storage.write(0usize, &expected) {
        Ok(_) => panic!("Writing out of bounds was possible"),
        Err(_) => (),
    }
}

#[test]
fn test_iter() {
    let resources = resources_of_size(100, 128);
    let mut storage = TestStorage::new("Test storage".to_string(), resources).unwrap();
    let mut iter = StorageIterator::new(256);

    assert_eq!(iter.size_hint(&storage).1.unwrap(), storage.size() / 256);

    let mut expected = make_vec(128);
    expected.extend(make_vec(128));

    let mut blocks = 0;
    while let Some(data) = iter.next_block(&mut storage).unwrap() {
        assert_eq!(data[..], expected[..]);
        blocks += 1;
    }
    assert_eq!(blocks, 50);
}

#[test]
fn test_predefined_values() {
    const SLICE_SIZE: usize = 256;
    const FILE_SIZE: usize = 65536;

    let location = "location".to_string();
    let mut resource = MemResource::create(&location, &FILE_SIZE).unwrap();

    let expected: Vec<u8> = (0..256).map(|n| n as u8).collect();

    for i in 0..FILE_SIZE / SLICE_SIZE {
        let shard = Shard { start: i * SLICE_SIZE, end: (i + 1) * SLICE_SIZE };
        let read = resource.read_at(&shard).unwrap();
        assert_eq!(read[..], expected[..]);
    }
}

#[test]
fn test_write_read_identity() {
    // writing a range and reading it back yields the written bytes, and
    // bytes outside the range keep their old values
    let mut storage = TestStorage::new("rt".to_string(), resources(6)).unwrap();
    let before = storage.read(0, storage.size()).unwrap();

    let payload: Vec<u8> = (0..500).map(|n| (n * 7 % 256) as u8).collect();
    storage.write(700, &payload).unwrap();

    let read = storage.read(700, 500).unwrap();
    assert_eq!(read, payload);

    let after = storage.read(0, storage.size()).unwrap();
    for g in 0..storage.size() {
        if g < 700 || g >= 1200 {
            assert_eq!(after[g], before[g]);
        }
    }
}
