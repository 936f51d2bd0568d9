use git_multi_index::hash::{Kind, ObjectId};
use git_multi_index::multi_index::collect::{
    collect_entries, collect_index, count_large, IndexEntry, Opened, PackIndex,
};
use git_multi_index::multi_index::entry::Entry;
use git_multi_index::multi_index::write::{
    check_limits, Error, File, OpenError, Options, Version, HEADER_LEN, SIGNATURE,
};
use std::sync::atomic::AtomicBool;

fn id(first: u8, last: u8) -> ObjectId {
    let mut bytes = [0u8; 20];
    bytes[0] = first;
    bytes[19] = last;
    ObjectId::new(bytes)
}

fn index(mtime: Option<i128>, objects: &[(ObjectId, u64)]) -> Opened {
    Ok(PackIndex {
        mtime,
        objects: objects.iter().map(|(oid, pack_offset)| IndexEntry { oid: *oid, pack_offset: *pack_offset }).collect(),
    })
}

fn failed(message: &str) -> Opened {
    Err(OpenError { message: message.to_string() })
}

fn sha1(bytes: &[u8]) -> [u8; 20] {
    let mut hasher = git_features::hash::hasher(git_hash::Kind::Sha1);
    hasher.update(bytes);
    hasher.digest()
}

fn options() -> Options {
    Options { object_hash: Kind::Sha1 }
}

fn toc_entry(id: &[u8; 4], offset: u64) -> Vec<u8> {
    let mut entry = id.to_vec();
    entry.extend_from_slice(&offset.to_be_bytes());
    entry
}

#[test]
fn header_layout() {
    assert_eq!(&SIGNATURE, b"MIDX");
    assert_eq!(HEADER_LEN, 12);
    assert_eq!(Version::V1.code(), 1);
    let mut out = vec![9];
    let written = File::write_header(&mut out, 5, 0x0102_0304, Kind::Sha1);
    assert_eq!(written, 12);
    assert_eq!(out, vec![9, b'M', b'I', b'D', b'X', 1, 1, 5, 0, 1, 2, 3, 4]);
}

#[test]
fn two_indices_with_one_object_each() {
    let a = id(0xaa, 1);
    let b = id(0x10, 2);
    let paths = vec![b"packs/pack-b.idx".to_vec(), b"packs/pack-a.idx".to_vec()];
    let indices = vec![index(Some(10), &[(a, 0x1234)]), index(Some(20), &[(b, 0x5678)])];
    let mut out = Vec::new();
    let flag = AtomicBool::new(false);
    let outcome = File::write_from_index_paths(paths, &indices, &mut out, "progress", &flag, options())
        .expect("written");
    assert_eq!(outcome.progress, "progress");

    let mut expected = Vec::new();
    expected.extend_from_slice(b"MIDX");
    expected.extend_from_slice(&[1, 1, 4, 0]);
    expected.extend_from_slice(&[0, 0, 0, 2]);
    expected.extend_from_slice(&toc_entry(b"PNAM", 72));
    expected.extend_from_slice(&toc_entry(b"OIDF", 72 + 22));
    expected.extend_from_slice(&toc_entry(b"OIDL", 72 + 22 + 1024));
    expected.extend_from_slice(&toc_entry(b"OOFF", 72 + 22 + 1024 + 40));
    expected.extend_from_slice(&toc_entry(&[0, 0, 0, 0], 72 + 22 + 1024 + 40 + 16));
    assert_eq!(expected.len(), 72);
    expected.extend_from_slice(b"pack-a.idx\0pack-b.idx\0");
    for first in 0..256usize {
        let count: u32 = if first < 0x10 {
            0
        } else if first < 0xaa {
            1
        } else {
            2
        };
        expected.extend_from_slice(&count.to_be_bytes());
    }
    expected.extend_from_slice(&b.bytes);
    expected.extend_from_slice(&a.bytes);
    // `b` lies in the index at "packs/pack-a.idx", which is pack 0.
    expected.extend_from_slice(&[0, 0, 0, 0, 0, 0, 0x56, 0x78]);
    expected.extend_from_slice(&[0, 0, 0, 1, 0, 0, 0x12, 0x34]);
    let checksum = sha1(&expected);
    expected.extend_from_slice(&checksum);

    assert_eq!(out, expected);
    assert_eq!(outcome.multi_index_checksum.as_slice(), &checksum[..]);
}

#[test]
fn the_pack_count_is_the_number_of_paths() {
    let paths = vec![b"c".to_vec(), b"a".to_vec(), b"b".to_vec()];
    let indices = vec![index(None, &[]), index(None, &[]), index(None, &[])];
    let mut out = Vec::new();
    let flag = AtomicBool::new(false);
    File::write_from_index_paths(paths, &indices, &mut out, (), &flag, options()).expect("written");
    assert_eq!(&out[8..12], &[0, 0, 0, 3]);
    assert_eq!(&out[72..78], b"a\0b\0c\0");
    assert_eq!(out.len(), 72 + 6 + 1024 + 20);
}

#[test]
fn no_paths_give_an_index_without_packs() {
    let mut out = vec![1, 2, 3];
    let flag = AtomicBool::new(true);
    let outcome =
        File::write_from_index_paths(Vec::new(), &Vec::new(), &mut out, (), &flag, options())
            .expect("written");
    let mut expected = Vec::new();
    expected.extend_from_slice(b"MIDX");
    expected.extend_from_slice(&[1, 1, 4, 0, 0, 0, 0, 0]);
    expected.extend_from_slice(&toc_entry(b"PNAM", 72));
    expected.extend_from_slice(&toc_entry(b"OIDF", 72));
    expected.extend_from_slice(&toc_entry(b"OIDL", 72 + 1024));
    expected.extend_from_slice(&toc_entry(b"OOFF", 72 + 1024));
    expected.extend_from_slice(&toc_entry(&[0, 0, 0, 0], 72 + 1024));
    expected.extend_from_slice(&[0u8; 1024]);
    let checksum = sha1(&expected);
    assert_eq!(&out[..3], &[1, 2, 3]);
    assert_eq!(&out[3..3 + expected.len()], &expected[..]);
    assert_eq!(&out[3 + expected.len()..], &checksum[..]);
    assert_eq!(outcome.multi_index_checksum.as_slice(), &checksum[..]);
}

#[test]
fn large_offsets_add_a_fifth_chunk() {
    let names = vec![b"p.idx".to_vec()];
    let entries = vec![
        Entry { id: id(1, 0), pack_index: 0, pack_offset: 7, index_mtime: 0 },
        Entry { id: id(2, 0), pack_index: 0, pack_offset: 0x9_0000_0000, index_mtime: 0 },
    ];
    let mut out = Vec::new();
    let outcome = File::write_from_entries(&names, &entries, &mut out, (), options()).expect("written");
    let start = 12 + 6 * 12;
    let mut expected = Vec::new();
    expected.extend_from_slice(b"MIDX");
    expected.extend_from_slice(&[1, 1, 5, 0, 0, 0, 0, 1]);
    expected.extend_from_slice(&toc_entry(b"PNAM", start));
    expected.extend_from_slice(&toc_entry(b"OIDF", start + 6));
    expected.extend_from_slice(&toc_entry(b"OIDL", start + 6 + 1024));
    expected.extend_from_slice(&toc_entry(b"OOFF", start + 6 + 1024 + 40));
    expected.extend_from_slice(&toc_entry(b"LOFF", start + 6 + 1024 + 40 + 16));
    expected.extend_from_slice(&toc_entry(&[0, 0, 0, 0], start + 6 + 1024 + 40 + 16 + 8));
    expected.extend_from_slice(b"p.idx\0");
    for first in 0..256usize {
        let count: u32 = if first < 1 {
            0
        } else if first < 2 {
            1
        } else {
            2
        };
        expected.extend_from_slice(&count.to_be_bytes());
    }
    expected.extend_from_slice(&id(1, 0).bytes);
    expected.extend_from_slice(&id(2, 0).bytes);
    expected.extend_from_slice(&[0, 0, 0, 0, 0, 0, 0, 7]);
    expected.extend_from_slice(&[0, 0, 0, 0, 0x80, 0, 0, 0]);
    expected.extend_from_slice(&[0, 0, 0, 9, 0, 0, 0, 0]);
    let checksum = sha1(&expected);
    expected.extend_from_slice(&checksum);
    assert_eq!(out, expected);
    assert_eq!(outcome.multi_index_checksum.as_slice(), &checksum[..]);
}

#[test]
fn an_object_in_two_packs_is_listed_once() {
    let x = id(5, 5);
    let y = id(6, 6);
    let paths = vec![b"a.idx".to_vec(), b"b.idx".to_vec()];
    // The index at "b.idx" is the newer one.
    let indices = vec![index(Some(1), &[(x, 100), (y, 300)]), index(Some(2), &[(x, 200)])];
    let mut out = Vec::new();
    let flag = AtomicBool::new(false);
    File::write_from_index_paths(paths, &indices, &mut out, (), &flag, options()).expect("written");
    let lookup = 72 + 12 + 1024;
    assert_eq!(out.len(), lookup + 40 + 16 + 20);
    assert_eq!(&out[lookup..lookup + 20], &x.bytes);
    assert_eq!(&out[lookup + 20..lookup + 40], &y.bytes);
    assert_eq!(&out[lookup + 40..lookup + 48], &[0, 0, 0, 1, 0, 0, 0, 200]);
    assert_eq!(&out[lookup + 48..lookup + 56], &[0, 0, 0, 0, 0, 0, 1, 44]);
}

#[test]
fn a_missing_time_counts_as_the_epoch() {
    let x = id(5, 5);
    let paths = vec![b"a.idx".to_vec(), b"b.idx".to_vec()];
    let indices = vec![index(None, &[(x, 100)]), index(Some(1), &[(x, 200)])];
    let mut out = Vec::new();
    let flag = AtomicBool::new(false);
    File::write_from_index_paths(paths.clone(), &indices, &mut out, (), &flag, options()).expect("written");
    let offsets = 72 + 12 + 1024 + 20;
    assert_eq!(&out[offsets..offsets + 8], &[0, 0, 0, 1, 0, 0, 0, 200]);
    let indices = vec![index(None, &[(x, 100)]), index(Some(0), &[(x, 200)])];
    let mut out = Vec::new();
    File::write_from_index_paths(paths, &indices, &mut out, (), &flag, options()).expect("written");
    assert_eq!(&out[offsets..offsets + 8], &[0, 0, 0, 0, 0, 0, 0, 100]);
}

#[test]
fn writing_twice_gives_the_same_bytes() {
    let make = || {
        (
            vec![b"x/2.idx".to_vec(), b"x/1.idx".to_vec(), b"x/3.idx".to_vec()],
            vec![
                index(Some(3), &[(id(1, 1), 10), (id(9, 9), 0x8000_0000)]),
                index(Some(3), &[(id(1, 1), 20), (id(4, 4), 30)]),
                index(None, &[(id(4, 4), 40)]),
            ],
        )
    };
    let flag = AtomicBool::new(false);
    let (paths, indices) = make();
    let mut first = Vec::new();
    let one = File::write_from_index_paths(paths, &indices, &mut first, (), &flag, options()).expect("written");
    let (paths, indices) = make();
    let mut second = Vec::new();
    let two = File::write_from_index_paths(paths, &indices, &mut second, (), &flag, options()).expect("written");
    assert_eq!(first, second);
    assert_eq!(one.multi_index_checksum.bytes, two.multi_index_checksum.bytes);
    assert_eq!(first.len(), 12 + 72 + 18 + 1024 + 60 + 24 + 8 + 20);
}

#[test]
fn a_set_flag_interrupts() {
    let paths = vec![b"a.idx".to_vec()];
    let indices = vec![index(None, &[(id(1, 1), 1)])];
    let mut out = vec![42];
    let flag = AtomicBool::new(true);
    let r = File::write_from_index_paths(paths, &indices, &mut out, (), &flag, options());
    assert!(matches!(r, Err(Error::Interrupted)));
    assert_eq!(out, vec![42]);
}

#[test]
fn the_first_failure_in_path_order_is_reported() {
    let paths = vec![b"c.idx".to_vec(), b"a.idx".to_vec(), b"b.idx".to_vec()];
    let indices = vec![failed("third"), index(None, &[]), failed("second")];
    let mut out = vec![42];
    let flag = AtomicBool::new(false);
    let r = File::write_from_index_paths(paths, &indices, &mut out, (), &flag, options());
    match r {
        Err(Error::OpenIndex(e)) => assert_eq!(e.message, "second"),
        _ => panic!("the index could not be opened"),
    }
    assert_eq!(out, vec![42]);
}

#[test]
fn collecting_one_index() {
    let mut entries = vec![Entry { id: id(9, 9), pack_index: 0, pack_offset: 1, index_mtime: 2 }];
    let opened = index(Some(77), &[(id(1, 1), 10), (id(2, 2), 20)]);
    assert!(collect_index(&mut entries, 3, &opened, false).is_ok());
    assert_eq!(entries.len(), 3);
    assert_eq!(entries[1].id.bytes, id(1, 1).bytes);
    assert_eq!(entries[1].pack_index, 3);
    assert_eq!(entries[1].pack_offset, 10);
    assert_eq!(entries[1].index_mtime, 77);
    assert_eq!(entries[2].id.bytes, id(2, 2).bytes);
    assert_eq!(entries[2].pack_index, 3);
    assert_eq!(entries[2].pack_offset, 20);
    assert_eq!(entries[2].index_mtime, 77);

    assert!(matches!(collect_index(&mut entries, 4, &opened, true), Err(Error::Interrupted)));
    assert_eq!(entries.len(), 3);
    match collect_index(&mut entries, 4, &failed("broken"), false) {
        Err(Error::OpenIndex(e)) => assert_eq!(e.message, "broken"),
        _ => panic!("the index could not be opened"),
    }
    assert!(matches!(collect_index(&mut entries, 4, &failed("broken"), true), Err(Error::Interrupted)));
    assert_eq!(entries.len(), 3);
}

#[test]
fn collecting_in_order() {
    let indices = vec![index(Some(1), &[(id(1, 1), 10)]), index(None, &[(id(2, 2), 20), (id(3, 3), 30)])];
    let flag = AtomicBool::new(false);
    let entries = collect_entries(&indices, &vec![1, 0], &flag).expect("collected");
    let seen: Vec<(u8, u32, u64, i128)> =
        entries.iter().map(|e| (e.id.bytes[0], e.pack_index, e.pack_offset, e.index_mtime)).collect();
    assert_eq!(seen, vec![(2, 0, 20, 0), (3, 0, 30, 0), (1, 1, 10, 1)]);
    let flag = AtomicBool::new(true);
    assert!(matches!(collect_entries(&indices, &vec![1, 0], &flag), Err(Error::Interrupted)));
    assert!(collect_entries(&indices, &Vec::new(), &flag).expect("nothing to ask").is_empty());
}

#[test]
fn limits() {
    let ok = vec![index(None, &[(id(1, 1), 0x8000_0000)])];
    assert!(check_limits(&vec![b"a".to_vec()], &ok));
    assert!(!check_limits(&vec![b"a".to_vec(), b"b".to_vec()], &ok));
    assert!(check_limits(&vec![b"a/".to_vec()], &ok));
    assert!(!check_limits(&vec![b"a/..".to_vec()], &ok));
    assert!(!check_limits(&vec![vec![b'a'; 0x1_0000]], &ok));
    assert!(check_limits(&vec![vec![b'a'; 0xffff]], &ok));
    assert!(check_limits(&Vec::new(), &Vec::new()));
    assert!(check_limits(&vec![b"a".to_vec()], &vec![failed("gone")]));
    match &ok[0] {
        Ok(index) => assert_eq!(count_large(index), 1),
        Err(_) => panic!("the index is there"),
    }
}

#[test]
fn errors_convert() {
    let e: Error = std::io::Error::new(std::io::ErrorKind::Other, "full").into();
    assert!(matches!(e, Error::Io(_)));
    let e: Error = OpenError { message: "gone".to_string() }.into();
    assert!(matches!(e, Error::OpenIndex(_)));
}

#[test]
fn packs_are_numbered_in_the_order_of_the_components() {
    let x = id(1, 1);
    let y = id(2, 2);
    // By bytes `a-b` would come first; by components `a/b` does.
    let paths = vec![b"a-b".to_vec(), b"a/b".to_vec()];
    let indices = vec![index(None, &[(x, 10)]), index(None, &[(y, 20)])];
    let mut out = Vec::new();
    let flag = AtomicBool::new(false);
    File::write_from_index_paths(paths, &indices, &mut out, (), &flag, options()).expect("written");
    assert_eq!(&out[8..12], &[0, 0, 0, 2]);
    assert_eq!(&out[72..78], b"b\0a-b\0");
    let offsets = 72 + 6 + 1024 + 40;
    assert_eq!(&out[offsets..offsets + 8], &[0, 0, 0, 1, 0, 0, 0, 10]);
    assert_eq!(&out[offsets + 8..offsets + 16], &[0, 0, 0, 0, 0, 0, 0, 20]);
}

#[test]
fn a_path_may_end_in_a_separator() {
    let paths = vec![b"packs/one.idx/".to_vec()];
    let indices = vec![index(None, &[])];
    let mut out = Vec::new();
    let flag = AtomicBool::new(false);
    File::write_from_index_paths(paths, &indices, &mut out, (), &flag, options()).expect("written");
    assert_eq!(&out[72..80], b"one.idx\0");
}

#[test]
fn writing_entries_succeeds() {
    let mut out = Vec::new();
    let outcome = File::write_from_entries(&Vec::new(), &Vec::new(), &mut out, 7u8, options());
    let outcome = outcome.expect("a vector takes every write");
    assert_eq!(outcome.progress, 7);
    assert_eq!(out.len(), 12 + 60 + 1024 + 20);
    assert_eq!(&out[out.len() - 20..], outcome.multi_index_checksum.as_slice());
    assert_eq!(&out[out.len() - 20..], &sha1(&out[..out.len() - 20])[..]);
}

#[test]
fn a_flag_set_from_the_start_interrupts_every_run_with_paths() {
    let flag = AtomicBool::new(true);
    for n in 1..4usize {
        let paths: Vec<Vec<u8>> = (0..n).map(|k| format!("p{}", k).into_bytes()).collect();
        let indices: Vec<Opened> = (0..n).map(|k| index(None, &[(id(k as u8, 0), 1)])).collect();
        let mut out = Vec::new();
        let r = File::write_from_index_paths(paths, &indices, &mut out, (), &flag, options());
        assert!(matches!(r, Err(Error::Interrupted)));
        assert!(out.is_empty());
    }
    // An interruption goes before a failure to open.
    let mut out = Vec::new();
    let r = File::write_from_index_paths(vec![b"a".to_vec()], &vec![failed("gone")], &mut out, (), &flag, options());
    assert!(matches!(r, Err(Error::Interrupted)));
}
