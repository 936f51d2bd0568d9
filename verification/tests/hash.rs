use git_multi_index::hash::{Kind, ObjectId};

fn hex(bytes: &[u8]) -> String {
    let mut s = String::new();
    for b in bytes {
        s.push_str(&format!("{:02x}", b));
    }
    s
}

#[test]
fn sha1_of_known_content() {
    let id = ObjectId::of_content(Kind::Sha1, b"abc");
    assert_eq!(hex(id.as_slice()), "a9993e364706816aba3e25717850c26c9cd0d89d");
}

#[test]
fn sha1_of_no_content() {
    let id = ObjectId::of_content(Kind::Sha1, b"");
    assert_eq!(hex(id.as_slice()), "da39a3ee5e6b4b0d3255bfef95601890afd80709");
}

#[test]
fn kind_has_width_and_code() {
    assert_eq!(Kind::Sha1.len_in_bytes(), 20);
    assert_eq!(Kind::Sha1.code(), 1);
}

#[test]
fn object_id_gives_its_bytes() {
    let mut bytes = [0u8; 20];
    bytes[0] = 0xab;
    bytes[19] = 0x01;
    let id = ObjectId::new(bytes);
    assert_eq!(id.as_slice(), &bytes[..]);
    assert_eq!(id.first_byte(), 0xab);
    assert_eq!(id.kind(), Kind::Sha1);
}
