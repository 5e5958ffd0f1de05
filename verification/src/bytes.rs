//! Little-endian fields of a byte sequence.
use vstd::prelude::*;
use crate::scalar::{Real, Single};

verus! {

/// The unsigned 16-bit field at `at`.
pub open spec fn le16(s: Seq<u8>, at: int) -> u16 {
    (s[at] + 0x100 * s[at + 1]) as u16
}

/// The unsigned 32-bit field at `at`.
pub open spec fn le32(s: Seq<u8>, at: int) -> u32 {
    (le16(s, at) + 0x1_0000 * le16(s, at + 2)) as u32
}

/// The unsigned 64-bit field at `at`.
pub open spec fn le64(s: Seq<u8>, at: int) -> u64 {
    (le32(s, at) + 0x1_0000_0000 * le32(s, at + 4)) as u64
}

/// The two's complement 16-bit field at `at`.
pub open spec fn le16_signed(s: Seq<u8>, at: int) -> i16 {
    (if le16(s, at) < 0x8000 { le16(s, at) as int } else { le16(s, at) - 0x1_0000 }) as i16
}

/// The two's complement 32-bit field at `at`.
pub open spec fn le32_signed(s: Seq<u8>, at: int) -> i32 {
    (if le32(s, at) < 0x8000_0000 { le32(s, at) as int } else { le32(s, at) - 0x1_0000_0000 }) as i32
}

/// The binary64 field at `at`.
pub open spec fn real_at(s: Seq<u8>, at: int) -> Real {
    Real { bits: le64(s, at) }
}

/// The binary32 field at `at`.
pub open spec fn single_at(s: Seq<u8>, at: int) -> Single {
    Single { bits: le32(s, at) }
}

pub fn read_u16(data: &[u8], at: usize) -> (r: u16)
    requires
        at + 2 <= data@.len(),
    ensures
        r == le16(data@, at as int),
{
    data[at] as u16 + 0x100 * data[at + 1] as u16
}

pub fn read_u32(data: &[u8], at: usize) -> (r: u32)
    requires
        at + 4 <= data@.len(),
    ensures
        r == le32(data@, at as int),
{
    let n: usize = data.len();
    assert(at + 4 <= n);
    read_u16(data, at) as u32 + 0x1_0000 * read_u16(data, at + 2) as u32
}

pub fn read_u64(data: &[u8], at: usize) -> (r: u64)
    requires
        at + 8 <= data@.len(),
    ensures
        r == le64(data@, at as int),
{
    let n: usize = data.len();
    assert(at + 8 <= n);
    read_u32(data, at) as u64 + 0x1_0000_0000 * read_u32(data, at + 4) as u64
}

pub fn read_i16(data: &[u8], at: usize) -> (r: i16)
    requires
        at + 2 <= data@.len(),
    ensures
        r == le16_signed(data@, at as int),
{
    let u: u16 = read_u16(data, at);
    if u < 0x8000 {
        u as i16
    } else {
        (u as i32 - 0x1_0000) as i16
    }
}

pub fn read_i32(data: &[u8], at: usize) -> (r: i32)
    requires
        at + 4 <= data@.len(),
    ensures
        r == le32_signed(data@, at as int),
{
    let u: u32 = read_u32(data, at);
    if u < 0x8000_0000 {
        u as i32
    } else {
        (u as i64 - 0x1_0000_0000) as i32
    }
}

pub fn read_real(data: &[u8], at: usize) -> (r: Real)
    requires
        at + 8 <= data@.len(),
    ensures
        r == real_at(data@, at as int),
{
    Real { bits: read_u64(data, at) }
}

pub fn read_single(data: &[u8], at: usize) -> (r: Single)
    requires
        at + 4 <= data@.len(),
    ensures
        r == single_at(data@, at as int),
{
    Single { bits: read_u32(data, at) }
}

// ── Fields as they are written ───────────────────────────────────────────────

/// A 16-bit field: the low byte, then the high byte.
pub open spec fn put16(v: u16) -> Seq<u8> {
    seq![(v % 256) as u8, (v / 256) as u8]
}

/// A 32-bit field: the low half, then the high half.
pub open spec fn put32(v: u32) -> Seq<u8> {
    put16((v % 0x1_0000) as u16) + put16((v / 0x1_0000) as u16)
}

/// A 64-bit field: the low half, then the high half.
pub open spec fn put64(v: u64) -> Seq<u8> {
    put32((v % 0x1_0000_0000) as u32) + put32((v / 0x1_0000_0000) as u32)
}

/// A two's complement 16-bit field.
pub open spec fn put_i16(v: i16) -> Seq<u8> {
    put16((if v >= 0 { v as int } else { v + 0x1_0000 }) as u16)
}

/// A two's complement 32-bit field.
pub open spec fn put_i32(v: i32) -> Seq<u8> {
    put32((if v >= 0 { v as int } else { v + 0x1_0000_0000 }) as u32)
}

/// A binary64 field.
pub open spec fn put_real(v: Real) -> Seq<u8> {
    put64(v.bits)
}

/// A binary32 field.
pub open spec fn put_single(v: Single) -> Seq<u8> {
    put32(v.bits)
}

/// The bytes `b` stand in `s` from index `at` on.
pub open spec fn found(s: Seq<u8>, at: int, b: Seq<u8>) -> bool {
    0 <= at && at + b.len() <= s.len() && s.subrange(at, at + b.len()) == b
}

pub(crate) proof fn lemma_found_parts(s: Seq<u8>, at: int, a: Seq<u8>, b: Seq<u8>)
    requires
        found(s, at, a + b),
    ensures
        found(s, at, a),
        found(s, at + a.len(), b),
{
    let ab = a + b;
    let all = s.subrange(at, at + ab.len());
    assert(s.subrange(at, at + a.len()) =~= all.subrange(0, a.len() as int));
    assert(all.subrange(0, a.len() as int) =~= a);
    assert(s.subrange(at + a.len(), at + a.len() + b.len()) =~= all.subrange(a.len() as int, ab.len() as int));
    assert(all.subrange(a.len() as int, ab.len() as int) =~= b);
}

proof fn lemma_found_byte(s: Seq<u8>, at: int, b: Seq<u8>, i: int)
    requires
        found(s, at, b),
        0 <= i < b.len(),
    ensures
        s[at + i] == b[i],
{
    assert(s.subrange(at, at + b.len())[i] == b[i]);
}

/// A field is read back as it was written, least byte first.
pub proof fn fields_are_read_back(s: Seq<u8>, at: int, a: u16, b: u32, c: u64, x: i16, y: i32, r: Real, f: Single)
    ensures
        found(s, at, put16(a)) ==> le16(s, at) == a,
        found(s, at, put32(b)) ==> le32(s, at) == b,
        found(s, at, put64(c)) ==> le64(s, at) == c,
        found(s, at, put_i16(x)) ==> le16_signed(s, at) == x,
        found(s, at, put_i32(y)) ==> le32_signed(s, at) == y,
        found(s, at, put_real(r)) ==> real_at(s, at) == r,
        found(s, at, put_single(f)) ==> single_at(s, at) == f,
{
    lemma_put16(s, at, a);
    lemma_put32(s, at, b);
    lemma_put64(s, at, c);
    lemma_put16(s, at, (if x >= 0 { x as int } else { x + 0x1_0000 }) as u16);
    lemma_put32(s, at, (if y >= 0 { y as int } else { y + 0x1_0000_0000 }) as u32);
    lemma_put64(s, at, r.bits);
    lemma_put32(s, at, f.bits);
}

pub(crate) proof fn lemma_put16(s: Seq<u8>, at: int, v: u16)
    ensures
        put16(v).len() == 2,
        found(s, at, put16(v)) ==> le16(s, at) == v,
{
    if found(s, at, put16(v)) {
        lemma_found_byte(s, at, put16(v), 0);
        lemma_found_byte(s, at, put16(v), 1);
    }
}

pub(crate) proof fn lemma_put32(s: Seq<u8>, at: int, v: u32)
    ensures
        put32(v).len() == 4,
        found(s, at, put32(v)) ==> le32(s, at) == v,
{
    let lo = (v % 0x1_0000) as u16;
    let hi = (v / 0x1_0000) as u16;
    lemma_put16(s, at, lo);
    lemma_put16(s, at + 2, hi);
    if found(s, at, put32(v)) {
        lemma_found_parts(s, at, put16(lo), put16(hi));
    }
}

pub(crate) proof fn lemma_put64(s: Seq<u8>, at: int, v: u64)
    ensures
        put64(v).len() == 8,
        found(s, at, put64(v)) ==> le64(s, at) == v,
{
    let lo = (v % 0x1_0000_0000) as u32;
    let hi = (v / 0x1_0000_0000) as u32;
    lemma_put32(s, at, lo);
    lemma_put32(s, at + 4, hi);
    if found(s, at, put64(v)) {
        lemma_found_parts(s, at, put32(lo), put32(hi));
    }
}

/// Items written one after the other.
pub open spec fn put_all<T>(items: Seq<T>, put: spec_fn(T) -> Seq<u8>) -> Seq<u8>
    decreases items.len(),
{
    if items.len() == 0 {
        Seq::empty()
    } else {
        put(items[0]) + put_all(items.skip(1), put)
    }
}

pub(crate) proof fn lemma_put_all<T>(s: Seq<u8>, at: int, items: Seq<T>, put: spec_fn(T) -> Seq<u8>, width: int, i: int)
    requires
        forall|x: T| (#[trigger] put(x)).len() == width,
        width > 0,
    ensures
        put_all(items, put).len() == width * items.len(),
        found(s, at, put_all(items, put)) && 0 <= i < items.len() ==> found(s, at + width * i, put(items[i])),
    decreases items.len(),
{
    if items.len() > 0 {
        let rest = items.skip(1);
        lemma_put_all(s, at + width, rest, put, width, i - 1);
        assert(width * items.len() == width + width * rest.len()) by (nonlinear_arith)
            requires
                items.len() == rest.len() + 1,
        ;
        assert(put(items[0]).len() == width);
        if found(s, at, put_all(items, put)) && 0 <= i < items.len() {
            lemma_found_parts(s, at, put(items[0]), put_all(rest, put));
            if i > 0 {
                assert(rest[i - 1] == items[i]);
                assert(at + width + width * (i - 1) == at + width * i) by (nonlinear_arith);
            }
        }
    } else {
        assert(width * items.len() == 0) by (nonlinear_arith)
            requires
                items.len() == 0,
        ;
    }
}

} // verus!
