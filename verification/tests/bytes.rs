use git_multi_index::bytes::{lex_relation, put_bytes, put_u32, put_u64, Relation};

#[test]
fn big_endian_u32_is_most_significant_first() {
    let mut out = vec![0xaa];
    put_u32(&mut out, 0x0102_0304);
    assert_eq!(out, vec![0xaa, 1, 2, 3, 4]);
}

#[test]
fn big_endian_u64_is_most_significant_first() {
    let mut out = Vec::new();
    put_u64(&mut out, 0x0102_0304_0506_0708);
    assert_eq!(out, vec![1, 2, 3, 4, 5, 6, 7, 8]);
}

#[test]
fn lexicographic_order_on_bytes() {
    assert_eq!(lex_relation(b"abc", b"abd"), Relation::Before);
    assert_eq!(lex_relation(b"ab", b"abc"), Relation::Before);
    assert_eq!(lex_relation(b"abc", b"abc"), Relation::Same);
    assert_eq!(lex_relation(b"b", b"abc"), Relation::After);
    assert_eq!(lex_relation(b"", b"a"), Relation::Before);
    assert_eq!(lex_relation(b"a/b", b"a.b"), Relation::After);
    assert_eq!(lex_relation(b"x", b"x"), Relation::Same);
    assert_eq!(lex_relation(b"", b""), Relation::Same);
    assert_eq!(lex_relation(b"\xff", b"\x00\xff"), Relation::After);
}

#[test]
fn bytes_are_appended() {
    let mut out = vec![1];
    put_bytes(&mut out, b"ab");
    put_bytes(&mut out, b"");
    assert_eq!(out, vec![1, b'a', b'b']);
}
