use git_multi_index::hash::ObjectId;
use git_multi_index::multi_index::entry::Entry;
use git_multi_index::multi_index::merge::{dedup_entries, merge_entries, sort_entries};

fn id(first: u8, last: u8) -> ObjectId {
    let mut bytes = [0u8; 20];
    bytes[0] = first;
    bytes[19] = last;
    ObjectId::new(bytes)
}

fn entry(id: ObjectId, pack_index: u32, pack_offset: u64, index_mtime: i128) -> Entry {
    Entry { id, pack_index, pack_offset, index_mtime }
}

fn fields(entries: &[Entry]) -> Vec<(u8, u8, u32, u64, i128)> {
    entries
        .iter()
        .map(|e| (e.id.bytes[0], e.id.bytes[19], e.pack_index, e.pack_offset, e.index_mtime))
        .collect()
}

#[test]
fn entries_are_sorted_by_identifier() {
    let sorted = sort_entries(vec![
        entry(id(3, 0), 0, 10, 0),
        entry(id(1, 2), 0, 20, 0),
        entry(id(1, 1), 0, 30, 0),
        entry(id(2, 0), 0, 40, 0),
    ]);
    assert_eq!(
        fields(&sorted),
        vec![(1, 1, 0, 30, 0), (1, 2, 0, 20, 0), (2, 0, 0, 40, 0), (3, 0, 0, 10, 0)]
    );
}

#[test]
fn newer_index_sorts_first_then_lower_pack() {
    let sorted = sort_entries(vec![
        entry(id(1, 0), 2, 10, 5),
        entry(id(1, 0), 1, 20, 5),
        entry(id(1, 0), 0, 30, 4),
        entry(id(1, 0), 3, 40, 9),
    ]);
    assert_eq!(
        fields(&sorted),
        vec![(1, 0, 3, 40, 9), (1, 0, 1, 20, 5), (1, 0, 2, 10, 5), (1, 0, 0, 30, 4)]
    );
}

#[test]
fn sorting_is_stable() {
    let sorted = sort_entries(vec![
        entry(id(1, 0), 0, 3, 0),
        entry(id(0, 0), 0, 9, 0),
        entry(id(1, 0), 0, 1, 0),
        entry(id(1, 0), 0, 2, 0),
    ]);
    assert_eq!(
        fields(&sorted),
        vec![(0, 0, 0, 9, 0), (1, 0, 0, 3, 0), (1, 0, 0, 1, 0), (1, 0, 0, 2, 0)]
    );
}

#[test]
fn sorting_many_entries() {
    let mut entries = Vec::new();
    for k in 0..1000u32 {
        let v = (k * 7919) % 1000;
        entries.push(entry(id((v / 4) as u8, (v % 4) as u8), 0, v as u64, 0));
    }
    let sorted = sort_entries(entries);
    assert_eq!(sorted.len(), 1000);
    for (k, e) in sorted.iter().enumerate() {
        assert_eq!(e.pack_offset, k as u64);
    }
}

#[test]
fn the_first_of_each_run_is_kept() {
    let kept = dedup_entries(vec![
        entry(id(1, 0), 0, 1, 0),
        entry(id(1, 0), 1, 2, 0),
        entry(id(2, 0), 0, 3, 0),
        entry(id(3, 0), 0, 4, 0),
        entry(id(3, 0), 1, 5, 0),
        entry(id(3, 0), 2, 6, 0),
    ]);
    assert_eq!(fields(&kept), vec![(1, 0, 0, 1, 0), (2, 0, 0, 3, 0), (3, 0, 0, 4, 0)]);
}

#[test]
fn nothing_gives_nothing() {
    assert_eq!(merge_entries(Vec::new()).len(), 0);
    assert_eq!(sort_entries(Vec::new()).len(), 0);
    assert_eq!(dedup_entries(Vec::new()).len(), 0);
}

#[test]
fn the_newer_pack_wins() {
    let merged = merge_entries(vec![
        entry(id(7, 7), 0, 100, 1_000),
        entry(id(7, 7), 1, 200, 2_000),
    ]);
    assert_eq!(fields(&merged), vec![(7, 7, 1, 200, 2_000)]);
    let merged = merge_entries(vec![
        entry(id(7, 7), 0, 100, 2_000),
        entry(id(7, 7), 1, 200, 1_000),
    ]);
    assert_eq!(fields(&merged), vec![(7, 7, 0, 100, 2_000)]);
}

#[test]
fn on_equal_times_the_lower_pack_wins() {
    let merged = merge_entries(vec![
        entry(id(7, 7), 2, 300, 5),
        entry(id(7, 7), 1, 200, 5),
        entry(id(7, 7), 3, 400, 5),
    ]);
    assert_eq!(fields(&merged), vec![(7, 7, 1, 200, 5)]);
}

#[test]
fn times_before_the_epoch_are_older() {
    let merged = merge_entries(vec![
        entry(id(7, 7), 0, 100, -1),
        entry(id(7, 7), 1, 200, 0),
    ]);
    assert_eq!(fields(&merged), vec![(7, 7, 1, 200, 0)]);
}

#[test]
fn each_object_once_and_ascending() {
    let merged = merge_entries(vec![
        entry(id(9, 0), 0, 1, 0),
        entry(id(2, 0), 0, 2, 0),
        entry(id(9, 0), 1, 3, 7),
        entry(id(5, 0), 1, 4, 7),
        entry(id(2, 0), 2, 5, 0),
        entry(id(2, 1), 2, 6, 0),
    ]);
    assert_eq!(
        fields(&merged),
        vec![(2, 0, 0, 2, 0), (2, 1, 2, 6, 0), (5, 0, 1, 4, 7), (9, 0, 1, 3, 7)]
    );
}

#[test]
fn entry_order_is_by_identifier_then_time_then_pack() {
    let a = entry(id(1, 0), 5, 0, 0);
    let b = entry(id(2, 0), 0, 0, 9);
    assert!(a.precedes(&b));
    assert!(!b.precedes(&a));
    let newer = entry(id(1, 0), 9, 0, 1);
    assert!(newer.precedes(&a));
    assert!(!a.precedes(&newer));
    let lower = entry(id(1, 0), 4, 0, 0);
    assert!(lower.precedes(&a));
    assert!(!a.precedes(&a));
    assert!(a.same_object(&newer));
    assert!(!a.same_object(&b));
}
