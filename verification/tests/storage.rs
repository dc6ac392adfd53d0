use rollback::block::Block;
use rollback::component::{Destroyed, Entity};
use rollback::index::{join, split, CAPACITY};
use rollback::storage::Storage;

#[test]
fn set_get_remove_round_trip() {
    let mut s: Storage<u64> = Storage::new();
    assert_eq!(s.len(), 0);
    assert_eq!(s.set(5, 50), None);
    assert_eq!(s.set(20000, 7), None);
    assert_eq!(s.len(), 2);
    assert_eq!(s.get(5), Some(&50));
    assert_eq!(s.get(20000), Some(&7));
    assert_eq!(s.get(6), None);
    assert_eq!(s.set(5, 51), Some(50));
    assert_eq!(s.len(), 2);
    assert_eq!(s.remove(5), Some(51));
    assert_eq!(s.remove(5), None);
    assert_eq!(s.len(), 1);
    assert!(!s.contains(5));
    assert!(s.contains(20000));
}

#[test]
fn out_of_range_index_is_absent() {
    let mut s: Storage<u8> = Storage::new();
    assert!(!s.contains(CAPACITY));
    assert_eq!(s.get(CAPACITY + 3), None);
    assert_eq!(s.remove(u32::MAX), None);
    assert!(!s.is_changed(CAPACITY));
    s.set(CAPACITY - 1, 9);
    assert_eq!(s.get(CAPACITY - 1), Some(&9));
    assert_eq!(s.len(), 1);
}

#[test]
fn change_marks_follow_writes_and_cleanup() {
    let mut s: Storage<u32> = Storage::new();
    s.set(1, 10);
    s.set(300, 30);
    assert!(s.is_changed(1));
    assert!(s.is_changed(300));
    assert!(!s.is_changed(2));
    s.clear_changes();
    assert!(!s.is_changed(1));
    assert!(!s.is_changed(300));
    assert_eq!(s.get(300), Some(&30));
    s.set(300, 31);
    assert!(s.is_changed(300));
    s.remove(300);
    assert!(!s.is_changed(300));
}

#[test]
fn spawn_takes_lowest_free_index() {
    let mut s: Storage<Entity> = Storage::new();
    assert_eq!(s.spawn().index(), 0);
    assert_eq!(s.spawn().index(), 1);
    assert_eq!(s.spawn().index(), 2);
    s.remove(1);
    assert_eq!(s.spawn().index(), 1);
    assert_eq!(s.spawn().index(), 3);
    assert_eq!(s.get(3), Some(&Entity { index: 3 }));
}

#[test]
fn spawn_crosses_block_boundaries() {
    let mut s: Storage<Entity> = Storage::new();
    let mut last = 0;
    for _ in 0..300 {
        last = s.spawn().index();
    }
    assert_eq!(last, 299);
    assert_eq!(s.len(), 300);
    s.remove(130);
    assert_eq!(s.spawn().index(), 130);
    assert_eq!(s.spawn().index(), 300);
}

#[test]
fn view_of_reads_the_component() {
    let mut s: Storage<Destroyed> = Storage::new();
    s.set(4, Destroyed {});
    let v = s.view_of(4).unwrap();
    assert_eq!(*v, Destroyed {});
    assert!(s.view_of(5).is_none());
}

#[test]
fn block_clear_empties_every_slot() {
    let mut b: Block<u8> = Block::new();
    b.data[3] = Some(1);
    b.data[4] = Some(2);
    b.data[90] = Some(3);
    b.presence_mask = (1u128 << 3) | (1u128 << 4) | (1u128 << 90);
    b.change_mask = 1u128 << 4;
    b.clear();
    assert_eq!(b.presence_mask, 0);
    assert_eq!(b.change_mask, 0);
    assert!(b.data.iter().all(|x| x.is_none()));
    assert_eq!(b.get(4), None);
}

#[test]
fn index_split_and_join() {
    assert_eq!(split(0), (0, 0, 0));
    assert_eq!(split(130), (0, 1, 2));
    assert_eq!(split(16384 + 129), (1, 1, 1));
    assert_eq!(split(CAPACITY - 1), (127, 127, 127));
    assert_eq!(join(1, 1, 1), 16513);
    assert_eq!(join(127, 127, 127), CAPACITY - 1);
}
