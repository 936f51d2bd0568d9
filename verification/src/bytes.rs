//! Byte-level building blocks: lexicographic order on byte strings and
//! big-endian encoding of fixed-width integers.
use byteorder::{BigEndian, ByteOrder};
use vstd::prelude::*;

verus! {

/// The byte sequences that the given vectors hold.
pub open spec fn byte_views(s: Seq<Vec<u8>>) -> Seq<Seq<u8>> {
    Seq::new(s.len(), |i: int| s[i]@)
}

/// The first position from `from` on at which `p` holds, or the length of
/// `s` where it holds nowhere.
pub open spec fn first_where(s: Seq<u8>, from: int, p: spec_fn(u8) -> bool) -> int
    decreases s.len() - from,
{
    if from < 0 || from >= s.len() {
        s.len() as int
    } else if p(s[from]) {
        from
    } else {
        first_where(s, from + 1, p)
    }
}

/// A position before which `p` holds nowhere, and at which it holds or the
/// sequence ends, is the first at which it holds.
pub proof fn lemma_first_where(s: Seq<u8>, from: int, p: spec_fn(u8) -> bool, i: int)
    requires
        0 <= from <= i <= s.len(),
        forall|k: int| from <= k < i ==> !p(#[trigger] s[k]),
        i < s.len() ==> p(s[i]),
    ensures
        first_where(s, from, p) == i,
    decreases i - from,
{
    if from < i {
        lemma_first_where(s, from + 1, p, i);
    }
}

/// The first position at which `p` holds lies within the sequence or at its end.
pub proof fn lemma_first_where_bounds(s: Seq<u8>, from: int, p: spec_fn(u8) -> bool)
    requires
        0 <= from <= s.len(),
    ensures
        from <= first_where(s, from, p) <= s.len(),
    decreases s.len() - from,
{
    if from < s.len() && !p(s[from]) {
        lemma_first_where_bounds(s, from + 1, p);
    }
}

/// Copies the part of `bytes` from `from` to `to`.
pub fn copy_range(bytes: &[u8], from: usize, to: usize) -> (r: Vec<u8>)
    requires
        from <= to <= bytes.len(),
    ensures
        r@ == bytes@.subrange(from as int, to as int),
{
    let mut out: Vec<u8> = Vec::with_capacity(to - from);
    let mut k: usize = from;
    while k < to
        invariant
            from <= k <= to <= bytes.len(),
            out@ == bytes@.subrange(from as int, k as int),
        decreases to - k,
    {
        out.push(bytes[k]);
        k += 1;
        assert(out@ =~= bytes@.subrange(from as int, k as int));
    }
    out
}

/// Lexicographic "less than" on byte strings, deciding from position `i` on.
pub open spec fn lex_lt_from(a: Seq<u8>, b: Seq<u8>, i: int) -> bool
    decreases a.len() - i,
{
    if i < 0 || i >= b.len() {
        false
    } else if i >= a.len() {
        true
    } else if a[i] != b[i] {
        a[i] < b[i]
    } else {
        lex_lt_from(a, b, i + 1)
    }
}

/// Lexicographic "less than" on byte strings: at the first position where the
/// two differ the smaller byte decides; a proper prefix is less than its extension.
pub open spec fn lex_lt(a: Seq<u8>, b: Seq<u8>) -> bool {
    lex_lt_from(a, b, 0)
}

/// Lexicographic "less than or equal".
pub open spec fn lex_le(a: Seq<u8>, b: Seq<u8>) -> bool {
    a == b || lex_lt(a, b)
}

/// `a` and `b` hold the same bytes before position `i`.
pub open spec fn same_prefix(a: Seq<u8>, b: Seq<u8>, i: int) -> bool {
    &&& 0 <= i <= a.len()
    &&& i <= b.len()
    &&& forall|k: int| 0 <= k < i ==> a[k] == b[k]
}

/// Past a common prefix, the order is decided by what follows it.
pub proof fn lemma_lex_lt_skips_prefix(a: Seq<u8>, b: Seq<u8>, i: int)
    requires
        same_prefix(a, b, i),
    ensures
        lex_lt(a, b) == lex_lt_from(a, b, i),
    decreases i,
{
    if i > 0 {
        lemma_lex_lt_skips_prefix(a, b, i - 1);
    }
}

proof fn lemma_lex_irreflexive_from(a: Seq<u8>, i: int)
    requires
        0 <= i,
    ensures
        !lex_lt_from(a, a, i),
    decreases a.len() - i,
{
    if i < a.len() {
        lemma_lex_irreflexive_from(a, i + 1);
    }
}

/// No byte string is less than itself.
pub proof fn lemma_lex_irreflexive(a: Seq<u8>)
    ensures
        !lex_lt(a, a),
{
    lemma_lex_irreflexive_from(a, 0);
}

proof fn lemma_lex_transitive_from(a: Seq<u8>, b: Seq<u8>, c: Seq<u8>, i: int)
    requires
        0 <= i,
        lex_lt_from(a, b, i),
        lex_lt_from(b, c, i),
    ensures
        lex_lt_from(a, c, i),
    decreases b.len() - i,
{
    if i < a.len() && i < b.len() && i < c.len() && a[i] == b[i] && b[i] == c[i] {
        lemma_lex_transitive_from(a, b, c, i + 1);
    }
}

/// The order is transitive.
pub proof fn lemma_lex_transitive(a: Seq<u8>, b: Seq<u8>, c: Seq<u8>)
    requires
        lex_lt(a, b),
        lex_lt(b, c),
    ensures
        lex_lt(a, c),
{
    lemma_lex_transitive_from(a, b, c, 0);
}

proof fn lemma_lex_total_from(a: Seq<u8>, b: Seq<u8>, i: int)
    requires
        same_prefix(a, b, i),
    ensures
        lex_lt_from(a, b, i) || lex_lt_from(b, a, i) || a == b,
        !(lex_lt_from(a, b, i) && lex_lt_from(b, a, i)),
    decreases a.len() - i,
{
    if i < a.len() && i < b.len() {
        if a[i] == b[i] {
            lemma_lex_total_from(a, b, i + 1);
        }
    } else if i == a.len() && i == b.len() {
        assert(a =~= b);
    }
}

/// The order is total and asymmetric: of two byte strings exactly one of
/// "less", "equal", "greater" holds.
pub proof fn lemma_lex_total(a: Seq<u8>, b: Seq<u8>)
    ensures
        lex_lt(a, b) || lex_lt(b, a) || a == b,
        !(lex_lt(a, b) && lex_lt(b, a)),
        a == b ==> !lex_lt(a, b),
{
    lemma_lex_total_from(a, b, 0);
    lemma_lex_irreflexive(a);
}

/// How one value stands to another in an order.
#[derive(Clone, Copy, Debug, PartialEq, Eq, Structural)]
pub enum Relation {
    /// The first comes before the second.
    Before,
    /// The two are the same.
    Same,
    /// The first comes after the second.
    After,
}

/// Decides in one pass how two byte strings stand in the lexicographic order.
pub fn lex_relation(a: &[u8], b: &[u8]) -> (r: Relation)
    ensures
        (r == Relation::Before) == lex_lt(a@, b@),
        (r == Relation::Same) == (a@ == b@),
        (r == Relation::After) == lex_lt(b@, a@),
{
    let mut i: usize = 0;
    proof {
        lemma_lex_total(a@, b@);
    }
    while i < a.len() && i < b.len()
        invariant
            same_prefix(a@, b@, i as int),
            same_prefix(b@, a@, i as int),
        decreases a.len() - i,
    {
        if a[i] != b[i] {
            proof {
                lemma_lex_lt_skips_prefix(a@, b@, i as int);
                lemma_lex_lt_skips_prefix(b@, a@, i as int);
            }
            return if a[i] < b[i] {
                Relation::Before
            } else {
                Relation::After
            };
        }
        i += 1;
    }
    proof {
        lemma_lex_lt_skips_prefix(a@, b@, i as int);
        lemma_lex_lt_skips_prefix(b@, a@, i as int);
    }
    if i < b.len() {
        Relation::Before
    } else if i < a.len() {
        Relation::After
    } else {
        assert(a@ =~= b@);
        Relation::Same
    }
}

/// The four bytes of `n`, most significant first.
pub open spec fn be_u32(n: u32) -> Seq<u8> {
    seq![
        (n / 0x100_0000) as u8,
        (n / 0x1_0000 % 0x100) as u8,
        (n / 0x100 % 0x100) as u8,
        (n % 0x100) as u8,
    ]
}

/// The eight bytes of `n`, most significant first.
pub open spec fn be_u64(n: u64) -> Seq<u8> {
    seq![
        (n / 0x100_0000_0000_0000) as u8,
        (n / 0x1_0000_0000_0000 % 0x100) as u8,
        (n / 0x100_0000_0000 % 0x100) as u8,
        (n / 0x1_0000_0000 % 0x100) as u8,
        (n / 0x100_0000 % 0x100) as u8,
        (n / 0x1_0000 % 0x100) as u8,
        (n / 0x100 % 0x100) as u8,
        (n % 0x100) as u8,
    ]
}

/// The number that four big-endian bytes stand for.
pub open spec fn be_u32_value(b: Seq<u8>) -> int {
    b[0] * 0x100_0000 + b[1] * 0x1_0000 + b[2] * 0x100 + b[3]
}

/// The number that eight big-endian bytes stand for.
pub open spec fn be_u64_value(b: Seq<u8>) -> int {
    b[0] * 0x100_0000_0000_0000 + b[1] * 0x1_0000_0000_0000 + b[2] * 0x100_0000_0000 + b[3]
        * 0x1_0000_0000 + b[4] * 0x100_0000 + b[5] * 0x1_0000 + b[6] * 0x100 + b[7]
}

/// Encoding a 32-bit number and reading the bytes back gives the number.
pub proof fn lemma_be_u32_round_trip(n: u32)
    ensures
        be_u32(n).len() == 4,
        be_u32_value(be_u32(n)) == n,
{
}

/// Encoding a 64-bit number and reading the bytes back gives the number.
pub proof fn lemma_be_u64_round_trip(n: u64)
    ensures
        be_u64(n).len() == 8,
        be_u64_value(be_u64(n)) == n,
{
    let d1 = n / 0x100;
    let d2 = d1 / 0x100;
    let d3 = d2 / 0x100;
    let d4 = d3 / 0x100;
    let d5 = d4 / 0x100;
    let d6 = d5 / 0x100;
    let d7 = d6 / 0x100;
    assert(d2 == n / 0x1_0000);
    assert(d3 == n / 0x100_0000);
    assert(d4 == n / 0x1_0000_0000);
    assert(d5 == n / 0x100_0000_0000);
    assert(d6 == n / 0x1_0000_0000_0000);
    assert(d7 == n / 0x100_0000_0000_0000);
    assert(d7 < 0x100);
    let b = be_u64(n);
    assert(b[7] == n % 0x100);
    assert(b[6] == d1 % 0x100);
    assert(b[5] == d2 % 0x100);
    assert(b[4] == d3 % 0x100);
    assert(b[3] == d4 % 0x100);
    assert(b[2] == d5 % 0x100);
    assert(b[1] == d6 % 0x100);
    assert(b[0] == d7);
}

/// `byteorder::BigEndian::write_u32` on a buffer of four bytes: the buffer
/// then holds the number's bytes from the most significant to the least.
#[verifier::external_body]
pub(crate) fn be_bytes_u32(n: u32) -> (r: [u8; 4])
    ensures
        r@ == be_u32(n),
{
    let mut buf = [0u8; 4];
    BigEndian::write_u32(&mut buf, n);
    buf
}

/// `byteorder::BigEndian::write_u64` on a buffer of eight bytes: the buffer
/// then holds the number's bytes from the most significant to the least.
#[verifier::external_body]
pub(crate) fn be_bytes_u64(n: u64) -> (r: [u8; 8])
    ensures
        r@ == be_u64(n),
{
    let mut buf = [0u8; 8];
    BigEndian::write_u64(&mut buf, n);
    buf
}

/// Appends the big-endian bytes of a 32-bit number to `out`.
pub fn put_u32(out: &mut Vec<u8>, n: u32)
    ensures
        final(out)@ == old(out)@ + be_u32(n),
{
    let b = be_bytes_u32(n);
    let ghost before = out@;
    out.push(b[0]);
    out.push(b[1]);
    out.push(b[2]);
    out.push(b[3]);
    assert(out@ =~= before + be_u32(n));
}

/// Appends the big-endian bytes of a 64-bit number to `out`.
pub fn put_u64(out: &mut Vec<u8>, n: u64)
    ensures
        final(out)@ == old(out)@ + be_u64(n),
{
    let b = be_bytes_u64(n);
    let ghost before = out@;
    let mut i: usize = 0;
    while i < 8
        invariant
            i <= 8,
            b@ == be_u64(n),
            out@ == before + b@.subrange(0, i as int),
        decreases 8 - i,
    {
        out.push(b[i]);
        i += 1;
        assert(out@ =~= before + b@.subrange(0, i as int));
    }
    assert(b@.subrange(0, 8) =~= b@);
}

/// Appends a copy of `bytes` to `out`.
pub fn put_bytes(out: &mut Vec<u8>, bytes: &[u8])
    ensures
        final(out)@ == old(out)@ + bytes@,
{
    let ghost before = out@;
    let mut i: usize = 0;
    while i < bytes.len()
        invariant
            i <= bytes.len(),
            out@ == before + bytes@.subrange(0, i as int),
        decreases bytes.len() - i,
    {
        out.push(bytes[i]);
        i += 1;
        assert(out@ =~= before + bytes@.subrange(0, i as int));
    }
    assert(bytes@.subrange(0, bytes.len() as int) =~= bytes@);
}

} // verus!
