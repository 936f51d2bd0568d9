use git_multi_index::hash::{Kind, ObjectId};
use git_multi_index::multi_index::chunk::{fanout, index_names, large_offsets, lookup, offsets};
use git_multi_index::multi_index::entry::Entry;

fn id(first: u8, last: u8) -> ObjectId {
    let mut bytes = [0u8; 20];
    bytes[0] = first;
    bytes[19] = last;
    ObjectId::new(bytes)
}

fn entry(id: ObjectId, pack_index: u32, pack_offset: u64) -> Entry {
    Entry { id, pack_index, pack_offset, index_mtime: 0 }
}

#[test]
fn chunk_identifiers() {
    assert_eq!(&index_names::ID, b"PNAM");
    assert_eq!(&fanout::ID, b"OIDF");
    assert_eq!(&lookup::ID, b"OIDL");
    assert_eq!(&offsets::ID, b"OOFF");
    assert_eq!(&large_offsets::ID, b"LOFF");
}

#[test]
fn names_end_in_a_zero_byte() {
    let names = vec![b"pack-a.idx".to_vec(), b"b".to_vec()];
    let mut out = vec![0xff];
    index_names::write(&names, &mut out);
    assert_eq!(out, b"\xffpack-a.idx\0b\0".to_vec());
    assert_eq!(index_names::storage_size(&names), 13);
    assert_eq!(index_names::storage_size(&Vec::new()), 0);
}

#[test]
fn fanout_counts_up_to_each_byte() {
    let entries = vec![
        entry(id(0, 1), 0, 0),
        entry(id(2, 0), 0, 0),
        entry(id(2, 1), 0, 0),
        entry(id(255, 0), 0, 0),
    ];
    let mut out = Vec::new();
    fanout::write(&entries, &mut out);
    assert_eq!(out.len(), 1024);
    assert_eq!(fanout::SIZE, 1024);
    let slot = |b: usize| u32::from_be_bytes([out[4 * b], out[4 * b + 1], out[4 * b + 2], out[4 * b + 3]]);
    assert_eq!(slot(0), 1);
    assert_eq!(slot(1), 1);
    assert_eq!(slot(2), 3);
    assert_eq!(slot(3), 3);
    assert_eq!(slot(254), 3);
    assert_eq!(slot(255), 4);
}

#[test]
fn fanout_of_nothing_is_all_zero() {
    let mut out = Vec::new();
    fanout::write(&Vec::new(), &mut out);
    assert_eq!(out, vec![0u8; 1024]);
}

#[test]
fn fanout_does_not_need_sorted_entries() {
    let entries = vec![entry(id(9, 0), 0, 0), entry(id(1, 0), 0, 0), entry(id(9, 1), 0, 0)];
    let mut out = Vec::new();
    fanout::write(&entries, &mut out);
    let slot = |b: usize| u32::from_be_bytes([out[4 * b], out[4 * b + 1], out[4 * b + 2], out[4 * b + 3]]);
    assert_eq!(slot(0), 0);
    assert_eq!(slot(1), 1);
    assert_eq!(slot(8), 1);
    assert_eq!(slot(9), 3);
    assert_eq!(slot(255), 3);
}

#[test]
fn lookup_holds_the_identifiers() {
    let entries = vec![entry(id(1, 2), 0, 0), entry(id(3, 4), 0, 0)];
    let mut out = vec![7];
    lookup::write(&entries, &mut out);
    let mut expected = vec![7];
    expected.extend_from_slice(&id(1, 2).bytes);
    expected.extend_from_slice(&id(3, 4).bytes);
    assert_eq!(out, expected);
    assert_eq!(lookup::storage_size(2, Kind::Sha1), 40);
    assert_eq!(lookup::storage_size(0, Kind::Sha1), 0);
}

#[test]
fn small_offsets_are_written_as_they_are() {
    let entries = vec![entry(id(1, 0), 3, 0x0102_0304), entry(id(2, 0), 0x0a0b_0c0d, 0x7fff_ffff)];
    let mut out = Vec::new();
    offsets::write(&entries, &mut out);
    assert_eq!(
        out,
        vec![0, 0, 0, 3, 1, 2, 3, 4, 0x0a, 0x0b, 0x0c, 0x0d, 0x7f, 0xff, 0xff, 0xff]
    );
    assert_eq!(offsets::storage_size(2), 16);
    assert_eq!(large_offsets::num_large_offsets(&entries), 0);
    let mut large = Vec::new();
    large_offsets::write(&entries, 0, &mut large);
    assert_eq!(large, Vec::<u8>::new());
}

#[test]
fn large_offsets_go_to_their_own_chunk() {
    let entries = vec![
        entry(id(1, 0), 0, 0x8000_0000),
        entry(id(2, 0), 1, 12),
        entry(id(3, 0), 2, 0x0102_0304_0506_0708),
        entry(id(4, 0), 1, 0xffff_ffff_ffff_ffff),
    ];
    let mut out = Vec::new();
    offsets::write(&entries, &mut out);
    assert_eq!(
        out,
        vec![
            0, 0, 0, 0, 0x80, 0, 0, 0, //
            0, 0, 0, 1, 0, 0, 0, 12, //
            0, 0, 0, 2, 0x80, 0, 0, 1, //
            0, 0, 0, 1, 0x80, 0, 0, 2,
        ]
    );
    let n = large_offsets::num_large_offsets(&entries);
    assert_eq!(n, 3);
    assert_eq!(large_offsets::storage_size(n), 24);
    let mut large = Vec::new();
    large_offsets::write(&entries, n, &mut large);
    assert_eq!(
        large,
        vec![
            0, 0, 0, 0, 0x80, 0, 0, 0, //
            1, 2, 3, 4, 5, 6, 7, 8, //
            0xff, 0xff, 0xff, 0xff, 0xff, 0xff, 0xff, 0xff,
        ]
    );
}

#[test]
fn large_offsets_can_be_read_back() {
    let entries = vec![
        entry(id(1, 0), 0, 5),
        entry(id(2, 0), 1, 0x1_0000_0000),
        entry(id(3, 0), 2, 6),
        entry(id(4, 0), 3, 0x8000_0001),
    ];
    let mut small = Vec::new();
    offsets::write(&entries, &mut small);
    let mut large = Vec::new();
    large_offsets::write(&entries, large_offsets::num_large_offsets(&entries), &mut large);
    for (k, e) in entries.iter().enumerate() {
        let pack = u32::from_be_bytes([small[8 * k], small[8 * k + 1], small[8 * k + 2], small[8 * k + 3]]);
        let field =
            u32::from_be_bytes([small[8 * k + 4], small[8 * k + 5], small[8 * k + 6], small[8 * k + 7]]);
        assert_eq!(pack, e.pack_index);
        let offset = if field & 0x8000_0000 != 0 {
            let at = 8 * (field & 0x7fff_ffff) as usize;
            let mut b = [0u8; 8];
            b.copy_from_slice(&large[at..at + 8]);
            u64::from_be_bytes(b)
        } else {
            field as u64
        };
        assert_eq!(offset, e.pack_offset);
    }
}
