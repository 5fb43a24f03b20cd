use storage_map::level::{IndexedLevel, Level};

#[test]
fn test_level_len() {
    let mut level;

    level = Level::new(0, 0);
    assert_eq!(level.is_empty(), true);
    assert_eq!(level.len(), 0);

    level = Level::new(100, 0);
    assert_eq!(level.is_empty(), true);
    assert_eq!(level.len(), 0);

    level = Level::new(1, 101);
    assert_eq!(level.is_empty(), false);
    assert_eq!(level.len(), 100);
}

#[test]
fn test_level_contains() {
    let mut level;

    level = Level::new(0, 0);
    assert_eq!(level.contains(0), false);
    assert_eq!(level.contains(1), false);

    level = Level::new(100, 0);
    assert_eq!(level.contains(0), false);
    assert_eq!(level.contains(50), false);
    assert_eq!(level.contains(100), false);

    level = Level::new(1, 101);
    assert_eq!(level.contains(0), false);
    assert_eq!(level.contains(1), true);
    assert_eq!(level.contains(100), true);
    assert_eq!(level.contains(101), false);
}

#[test]
fn test_level_lower() {
    let mut level;

    level = Level::new(0, 0);
    assert_eq!(level.down(), None);

    level = Level::new(0, 1);
    assert_eq!(level.down(), Some(Level::new(1, 2)));

    level = Level::new(13, 13);
    assert_eq!(level.down(), None);

    level = Level::new(100, 0);
    assert_eq!(level.down(), None);

    level = Level::new(10, 20);
    assert_eq!(level.down(), Some(Level::new(20, 25)));
    assert_eq!(level.down().unwrap().len(), 5);

    level = Level::new(10, 19);
    assert_eq!(level.down(), Some(Level::new(19, 24)));
    assert_eq!(level.down().unwrap().len(), 5);
}

#[test]
fn test_indexed_level_new() {
    assert_eq!(IndexedLevel::new(1, 2, 3).is_some(), false);
    assert_eq!(IndexedLevel::new(2, 2, 2).is_some(), false);
    assert_eq!(IndexedLevel::new(1, 3, 2).is_some(), false);
}

#[test]
fn test_indexed_level_siblings() {
    let mut level;

    level = IndexedLevel::new(3, 3, 13).unwrap();
    assert_eq!(level.siblings(), [Some(3), Some(4)]);

    level = IndexedLevel::new(8, 3, 13).unwrap();
    assert_eq!(level.siblings(), [Some(7), Some(8)]);

    level = IndexedLevel::new(12, 3, 13).unwrap();
    assert_eq!(level.siblings(), [Some(11), Some(12)]);

    level = IndexedLevel::new(11, 3, 12).unwrap();
    assert_eq!(level.siblings(), [Some(11), None]);
}

#[test]
fn test_indexed_level_parent() {
    let mut level;

    level = IndexedLevel::new(3, 3, 5).unwrap();
    assert_eq!(level.parent(), 5);

    level = IndexedLevel::new(3, 3, 13).unwrap();
    assert_eq!(level.parent(), 13);

    level = IndexedLevel::new(4, 3, 13).unwrap();
    assert_eq!(level.parent(), 13);

    level = IndexedLevel::new(5, 3, 13).unwrap();
    assert_eq!(level.parent(), 14);

    level = IndexedLevel::new(6, 3, 13).unwrap();
    assert_eq!(level.parent(), 14);

    level = IndexedLevel::new(7, 3, 13).unwrap();
    assert_eq!(level.parent(), 15);
}

#[test]
fn test_indexed_level_arithmetic() {
    // sibling/parent arithmetic on a level of thirteen leaves
    let level = IndexedLevel::new(3, 3, 13).unwrap();
    assert_eq!(level.siblings(), [Some(3), Some(4)]);
    assert_eq!(level.parent(), 13);

    let level = IndexedLevel::new(11, 3, 12).unwrap();
    assert_eq!(level.sibling(), None);
    assert_eq!(level.parent(), 16);
}
