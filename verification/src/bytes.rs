//! Little-endian integers and byte-wise ordering.

use vstd::prelude::*;

verus! {

/// The four bytes of `v`, least significant first.
pub open spec fn le_u32(v: u32) -> Seq<u8> {
    seq![v as u8, (v >> 8) as u8, (v >> 16) as u8, (v >> 24) as u8]
}

/// The number whose four little-endian bytes are `b`.
pub open spec fn of_le_u32(b: Seq<u8>) -> u32 {
    (b[0] as u32) | ((b[1] as u32) << 8) | ((b[2] as u32) << 16) | ((b[3] as u32) << 24)
}

/// The eight bytes of `v`, least significant first.
pub open spec fn le_u64(v: u64) -> Seq<u8> {
    seq![
        v as u8,
        (v >> 8) as u8,
        (v >> 16) as u8,
        (v >> 24) as u8,
        (v >> 32) as u8,
        (v >> 40) as u8,
        (v >> 48) as u8,
        (v >> 56) as u8,
    ]
}

/// The number whose eight little-endian bytes are `b`.
pub open spec fn of_le_u64(b: Seq<u8>) -> u64 {
    (b[0] as u64) | ((b[1] as u64) << 8) | ((b[2] as u64) << 16) | ((b[3] as u64) << 24) | ((
    b[4] as u64) << 32) | ((b[5] as u64) << 40) | ((b[6] as u64) << 48) | ((b[7] as u64) << 56)
}

/// Reading back the bytes of a 32-bit number gives the number.
pub proof fn law_le_u32_round_trip(v: u32)
    ensures
        of_le_u32(le_u32(v)) == v,
{
    assert((v as u8) as u32 | (((v >> 8) as u8) as u32) << 8 | (((v >> 16) as u8) as u32) << 16
        | (((v >> 24) as u8) as u32) << 24 == v) by (bit_vector);
}

/// Reading back the bytes of a 64-bit number gives the number.
pub proof fn law_le_u64_round_trip(v: u64)
    ensures
        of_le_u64(le_u64(v)) == v,
{
    assert((v as u8) as u64 | (((v >> 8) as u8) as u64) << 8 | (((v >> 16) as u8) as u64) << 16
        | (((v >> 24) as u8) as u64) << 24 | (((v >> 32) as u8) as u64) << 32 | (((
    v >> 40) as u8) as u64) << 40 | (((v >> 48) as u8) as u64) << 48 | (((v >> 56) as u8) as u64)
        << 56 == v) by (bit_vector);
}

/// Two different 32-bit numbers have different bytes, and every four bytes are
/// the bytes of some number.
pub proof fn law_le_u32_onto(b: Seq<u8>)
    requires
        b.len() == 4,
    ensures
        le_u32(of_le_u32(b)) == b,
{
    let (a, c, d, e) = (b[0], b[1], b[2], b[3]);
    let v = of_le_u32(b);
    assert(v == (a as u32) | ((c as u32) << 8) | ((d as u32) << 16) | ((e as u32) << 24) ==> v as u8
        == a && (v >> 8) as u8 == c && (v >> 16) as u8 == d && (v >> 24) as u8 == e)
        by (bit_vector);
    assert(le_u32(v) =~= b);
}

/// Every eight bytes are the bytes of some number.
pub proof fn law_le_u64_onto(b: Seq<u8>)
    requires
        b.len() == 8,
    ensures
        le_u64(of_le_u64(b)) == b,
{
    let (a, c, d, e) = (b[0], b[1], b[2], b[3]);
    let (f, g, h, i) = (b[4], b[5], b[6], b[7]);
    let v = of_le_u64(b);
    assert(v == (a as u64) | ((c as u64) << 8) | ((d as u64) << 16) | ((e as u64) << 24) | ((
    f as u64) << 32) | ((g as u64) << 40) | ((h as u64) << 48) | ((i as u64) << 56) ==> v as u8 == a
        && (v >> 8) as u8 == c && (v >> 16) as u8 == d && (v >> 24) as u8 == e && (v >> 32) as u8
        == f && (v >> 40) as u8 == g && (v >> 48) as u8 == h && (v >> 56) as u8 == i)
        by (bit_vector);
    assert(le_u64(v) =~= b);
}

/// Append the four bytes of `v`.
pub fn put_u32(out: &mut Vec<u8>, v: u32)
    ensures
        final(out)@ == old(out)@ + le_u32(v),
{
    out.push(v as u8);
    out.push((v >> 8) as u8);
    out.push((v >> 16) as u8);
    out.push((v >> 24) as u8);
    assert(out@ =~= old(out)@ + le_u32(v));
}

/// Append the eight bytes of `v`.
pub fn put_u64(out: &mut Vec<u8>, v: u64)
    ensures
        final(out)@ == old(out)@ + le_u64(v),
{
    out.push(v as u8);
    out.push((v >> 8) as u8);
    out.push((v >> 16) as u8);
    out.push((v >> 24) as u8);
    out.push((v >> 32) as u8);
    out.push((v >> 40) as u8);
    out.push((v >> 48) as u8);
    out.push((v >> 56) as u8);
    assert(out@ =~= old(out)@ + le_u64(v));
}

/// The 32-bit number at `pos`.
pub fn get_u32(b: &[u8], pos: usize) -> (v: u32)
    requires
        pos + 4 <= b@.len(),
    ensures
        v == of_le_u32(b@.subrange(pos as int, pos + 4)),
{
    (b[pos] as u32) | ((b[pos + 1] as u32) << 8) | ((b[pos + 2] as u32) << 16) | ((b[pos
        + 3] as u32) << 24)
}

/// The 64-bit number at `pos`.
pub fn get_u64(b: &[u8], pos: usize) -> (v: u64)
    requires
        pos + 8 <= b@.len(),
    ensures
        v == of_le_u64(b@.subrange(pos as int, pos + 8)),
{
    (b[pos] as u64) | ((b[pos + 1] as u64) << 8) | ((b[pos + 2] as u64) << 16) | ((b[pos
        + 3] as u64) << 24) | ((b[pos + 4] as u64) << 32) | ((b[pos + 5] as u64) << 40) | ((b[pos
        + 6] as u64) << 48) | ((b[pos + 7] as u64) << 56)
}

/// Whether `a` comes strictly before `b`, comparing byte by byte from the
/// front, with a prefix before what it is a prefix of.
pub open spec fn lex_less(a: Seq<u8>, b: Seq<u8>) -> bool
    decreases a.len(),
{
    if b.len() == 0 {
        false
    } else if a.len() == 0 {
        true
    } else if a[0] != b[0] {
        a[0] < b[0]
    } else {
        lex_less(a.drop_first(), b.drop_first())
    }
}

/// Nothing comes before itself.
pub proof fn law_lex_irreflexive(a: Seq<u8>)
    ensures
        !lex_less(a, a),
    decreases a.len(),
{
    if a.len() > 0 {
        law_lex_irreflexive(a.drop_first());
    }
}

/// Two different byte strings are ordered one way or the other.
pub proof fn law_lex_total(a: Seq<u8>, b: Seq<u8>)
    ensures
        a == b || lex_less(a, b) || lex_less(b, a),
    decreases a.len(),
{
    if a.len() == 0 || b.len() == 0 {
        if a.len() == b.len() {
            assert(a =~= b);
        }
    } else if a[0] == b[0] {
        law_lex_total(a.drop_first(), b.drop_first());
        if a.drop_first() == b.drop_first() {
            assert(a =~= seq![a[0]] + a.drop_first());
            assert(b =~= seq![b[0]] + b.drop_first());
        }
    }
}

/// The byte order is transitive.
pub proof fn law_lex_transitive(a: Seq<u8>, b: Seq<u8>, c: Seq<u8>)
    requires
        lex_less(a, b),
        lex_less(b, c),
    ensures
        lex_less(a, c),
    decreases a.len(),
{
    if a.len() > 0 && a[0] == b[0] && b[0] == c[0] {
        law_lex_transitive(a.drop_first(), b.drop_first(), c.drop_first());
    }
}

proof fn lemma_lex_skip(a: Seq<u8>, b: Seq<u8>, k: int)
    requires
        0 <= k <= a.len(),
        k <= b.len(),
        forall|j: int| 0 <= j < k ==> a[j] == b[j],
    ensures
        lex_less(a, b) == lex_less(a.skip(k), b.skip(k)),
    decreases k,
{
    if k == 0 {
        assert(a.skip(0) =~= a);
        assert(b.skip(0) =~= b);
    } else {
        lemma_lex_skip(a, b, k - 1);
        let (x, y) = (a.skip(k - 1), b.skip(k - 1));
        assert(x[0] == y[0]);
        assert(x.drop_first() =~= a.skip(k));
        assert(y.drop_first() =~= b.skip(k));
    }
}

/// Compare two byte strings.
pub fn less_bytes(a: &[u8], b: &[u8]) -> (r: bool)
    ensures
        r == lex_less(a@, b@),
{
    let mut i: usize = 0;
    while i < a.len() && i < b.len()
        invariant
            i <= a@.len(),
            i <= b@.len(),
            forall|j: int| 0 <= j < i ==> a@[j] == b@[j],
        decreases a@.len() - i,
    {
        if a[i] != b[i] {
            proof {
                lemma_lex_skip(a@, b@, i as int);
            }
            return a[i] < b[i];
        }
        i += 1;
    }
    proof {
        lemma_lex_skip(a@, b@, i as int);
    }
    i < b.len()
}

/// Whether two byte strings are the same.
pub fn same_bytes(a: &[u8], b: &[u8]) -> (r: bool)
    ensures
        r == (a@ == b@),
{
    if a.len() != b.len() {
        return false;
    }
    let mut i: usize = 0;
    while i < a.len()
        invariant
            i <= a@.len(),
            a@.len() == b@.len(),
            forall|j: int| 0 <= j < i ==> a@[j] == b@[j],
        decreases a@.len() - i,
    {
        if a[i] != b[i] {
            return false;
        }
        i += 1;
    }
    assert(a@ =~= b@);
    true
}

/// A copy of `b[from..to]`.
pub fn copy_range(b: &[u8], from: usize, to: usize) -> (r: Vec<u8>)
    requires
        from <= to <= b@.len(),
    ensures
        r@ == b@.subrange(from as int, to as int),
{
    let mut out: Vec<u8> = Vec::new();
    out.extend_from_slice(&b[from..to]);
    assert(out@ =~= b@.subrange(from as int, to as int));
    out
}

} // verus!
