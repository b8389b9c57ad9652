//! Little-endian integers inside byte strings.

use vstd::prelude::*;

verus! {

/// The 16-bit little-endian value at index `i` of `b`.
pub open spec fn u16_at(b: Seq<u8>, i: int) -> u16 {
    (b[i] + 0x100 * b[i + 1]) as u16
}

/// The 32-bit little-endian value at index `i` of `b`.
pub open spec fn u32_at(b: Seq<u8>, i: int) -> u32 {
    (u16_at(b, i) + 0x1_0000 * u16_at(b, i + 2)) as u32
}

/// The 64-bit little-endian value at index `i` of `b`.
pub open spec fn u64_at(b: Seq<u8>, i: int) -> u64 {
    (u32_at(b, i) + 0x1_0000_0000 * u32_at(b, i + 4)) as u64
}

/// The two little-endian bytes of `v`.
pub open spec fn u16_bytes(v: u16) -> Seq<u8> {
    seq![(v % 0x100) as u8, (v / 0x100) as u8]
}

/// The four little-endian bytes of `v`.
pub open spec fn u32_bytes(v: u32) -> Seq<u8> {
    u16_bytes((v % 0x1_0000) as u16) + u16_bytes((v / 0x1_0000) as u16)
}

/// The eight little-endian bytes of `v`.
pub open spec fn u64_bytes(v: u64) -> Seq<u8> {
    u32_bytes((v % 0x1_0000_0000) as u32) + u32_bytes((v / 0x1_0000_0000) as u32)
}

/// `b` with the bytes from index `i` on replaced by `v`.
pub open spec fn patched(b: Seq<u8>, i: int, v: Seq<u8>) -> Seq<u8> {
    b.subrange(0, i) + v + b.subrange(i + v.len(), b.len() as int)
}

pub fn read_u16(buf: &[u8], at: usize) -> (v: u16)
    requires
        at + 2 <= buf.len(),
    ensures
        v == u16_at(buf@, at as int),
{
    buf[at] as u16 + 0x100 * (buf[at + 1] as u16)
}

pub fn read_u32(buf: &[u8], at: usize) -> (v: u32)
    requires
        at + 4 <= buf.len(),
    ensures
        v == u32_at(buf@, at as int),
{
    read_u16(buf, at) as u32 + 0x1_0000 * (read_u16(buf, at + 2) as u32)
}

pub fn read_u64(buf: &[u8], at: usize) -> (v: u64)
    requires
        at + 8 <= buf.len(),
    ensures
        v == u64_at(buf@, at as int),
{
    read_u32(buf, at) as u64 + 0x1_0000_0000 * (read_u32(buf, at + 4) as u64)
}

pub fn write_u16(buf: &mut [u8], at: usize, v: u16)
    requires
        at + 2 <= old(buf).len(),
    ensures
        final(buf)@ == patched(old(buf)@, at as int, u16_bytes(v)),
{
    buf[at] = (v % 0x100) as u8;
    buf[at + 1] = (v / 0x100) as u8;
    assert(buf@ =~= patched(old(buf)@, at as int, u16_bytes(v)));
}

pub fn write_u32(buf: &mut [u8], at: usize, v: u32)
    requires
        at + 4 <= old(buf).len(),
    ensures
        final(buf)@ == patched(old(buf)@, at as int, u32_bytes(v)),
{
    write_u16(buf, at, (v % 0x1_0000) as u16);
    write_u16(buf, at + 2, (v / 0x1_0000) as u16);
    assert(buf@ =~= patched(old(buf)@, at as int, u32_bytes(v)));
}

pub fn write_u64(buf: &mut [u8], at: usize, v: u64)
    requires
        at + 8 <= old(buf).len(),
    ensures
        final(buf)@ == patched(old(buf)@, at as int, u64_bytes(v)),
{
    write_u32(buf, at, (v % 0x1_0000_0000) as u32);
    write_u32(buf, at + 4, (v / 0x1_0000_0000) as u32);
    assert(buf@ =~= patched(old(buf)@, at as int, u64_bytes(v)));
}

/// Appends `bytes` to `out`.
pub fn push_bytes(out: &mut Vec<u8>, bytes: &[u8])
    ensures
        final(out)@ == old(out)@ + bytes@,
{
    out.extend_from_slice(bytes);
    assert(out@ =~= old(out)@ + bytes@);
}

pub fn push_u16(out: &mut Vec<u8>, v: u16)
    ensures
        final(out)@ == old(out)@ + u16_bytes(v),
{
    out.push((v % 0x100) as u8);
    out.push((v / 0x100) as u8);
    assert(out@ =~= old(out)@ + u16_bytes(v));
}

pub fn push_u32(out: &mut Vec<u8>, v: u32)
    ensures
        final(out)@ == old(out)@ + u32_bytes(v),
{
    push_u16(out, (v % 0x1_0000) as u16);
    push_u16(out, (v / 0x1_0000) as u16);
    assert(out@ =~= old(out)@ + u32_bytes(v));
}

pub fn push_u64(out: &mut Vec<u8>, v: u64)
    ensures
        final(out)@ == old(out)@ + u64_bytes(v),
{
    push_u32(out, (v % 0x1_0000_0000) as u32);
    push_u32(out, (v / 0x1_0000_0000) as u32);
    assert(out@ =~= old(out)@ + u64_bytes(v));
}

/// The 22 bytes of `b` from index `at` on.
pub fn array_22(b: &[u8], at: usize) -> (r: [u8; 22])
    requires
        at + 22 <= b.len(),
    ensures
        r@ == b@.subrange(at as int, at + 22),
{
    let mut r = [0u8;22];
    let mut i: usize = 0;
    while i < 22
        invariant
            i <= 22,
            at + 22 <= b.len(),
            forall|j: int| 0 <= j < i ==> r@[j] == b@[at + j],
        decreases 22 - i,
    {
        r[i] = b[at + i];
        i += 1;
    }
    assert(r@ =~= b@.subrange(at as int, at + 22));
    r
}

/// The 30 bytes of `b` from index `at` on.
pub fn array_30(b: &[u8], at: usize) -> (r: [u8; 30])
    requires
        at + 30 <= b.len(),
    ensures
        r@ == b@.subrange(at as int, at + 30),
{
    let mut r = [0u8;30];
    let mut i: usize = 0;
    while i < 30
        invariant
            i <= 30,
            at + 30 <= b.len(),
            forall|j: int| 0 <= j < i ==> r@[j] == b@[at + j],
        decreases 30 - i,
    {
        r[i] = b[at + i];
        i += 1;
    }
    assert(r@ =~= b@.subrange(at as int, at + 30));
    r
}

/// The 46 bytes of `b` from index `at` on.
pub fn array_46(b: &[u8], at: usize) -> (r: [u8; 46])
    requires
        at + 46 <= b.len(),
    ensures
        r@ == b@.subrange(at as int, at + 46),
{
    let mut r = [0u8;46];
    let mut i: usize = 0;
    while i < 46
        invariant
            i <= 46,
            at + 46 <= b.len(),
            forall|j: int| 0 <= j < i ==> r@[j] == b@[at + j],
        decreases 46 - i,
    {
        r[i] = b[at + i];
        i += 1;
    }
    assert(r@ =~= b@.subrange(at as int, at + 46));
    r
}

/// Reading what was written gives the value back, for each width.
pub proof fn law_read_back(a: u16, b: u32, c: u64)
    ensures
        u16_at(u16_bytes(a), 0) == a,
        u32_at(u32_bytes(b), 0) == b,
        u64_at(u64_bytes(c), 0) == c,
{
}

/// Writing what was read gives the bytes back.
pub proof fn law_write_back_u16(b: Seq<u8>, i: int)
    requires
        0 <= i,
        i + 2 <= b.len(),
    ensures
        u16_bytes(u16_at(b, i)) == b.subrange(i, i + 2),
{
    assert(u16_bytes(u16_at(b, i)) =~= b.subrange(i, i + 2));
}

/// Writing what was read gives the bytes back.
pub proof fn law_write_back_u32(b: Seq<u8>, i: int)
    requires
        0 <= i,
        i + 4 <= b.len(),
    ensures
        u32_bytes(u32_at(b, i)) == b.subrange(i, i + 4),
{
    law_write_back_u16(b, i);
    law_write_back_u16(b, i + 2);
    let v = u32_at(b, i);
    assert(v % 0x1_0000 == u16_at(b, i));
    assert(v / 0x1_0000 == u16_at(b, i + 2));
    assert(b.subrange(i, i + 2) + b.subrange(i + 2, i + 4) =~= b.subrange(i, i + 4));
}

/// Writing what was read gives the bytes back.
pub proof fn law_write_back_u64(b: Seq<u8>, i: int)
    requires
        0 <= i,
        i + 8 <= b.len(),
    ensures
        u64_bytes(u64_at(b, i)) == b.subrange(i, i + 8),
{
    law_write_back_u32(b, i);
    law_write_back_u32(b, i + 4);
    let v = u64_at(b, i);
    let low = u32_at(b, i);
    let high = u32_at(b, i + 4);
    assert(v == low + 0x1_0000_0000 * high);
    assert(v % 0x1_0000_0000 == low);
    assert(v / 0x1_0000_0000 == high);
    assert(b.subrange(i, i + 4) + b.subrange(i + 4, i + 8) =~= b.subrange(i, i + 8));
}

/// The bytes of a value are read as the value.
pub proof fn lemma_read_u16(b: Seq<u8>, i: int, v: u16)
    requires
        0 <= i,
        i + 2 <= b.len(),
        b.subrange(i, i + 2) == u16_bytes(v),
    ensures
        u16_at(b, i) == v,
{
    lemma_read_part(b, i, i + 2, 0);
    law_read_back(v, 0, 0);
}

/// The bytes of a value are read as the value.
pub proof fn lemma_read_u32(b: Seq<u8>, i: int, v: u32)
    requires
        0 <= i,
        i + 4 <= b.len(),
        b.subrange(i, i + 4) == u32_bytes(v),
    ensures
        u32_at(b, i) == v,
{
    lemma_read_part(b, i, i + 4, 0);
    law_read_back(0, v, 0);
}

/// The bytes of a value are read as the value.
pub proof fn lemma_read_u64(b: Seq<u8>, i: int, v: u64)
    requires
        0 <= i,
        i + 8 <= b.len(),
        b.subrange(i, i + 8) == u64_bytes(v),
    ensures
        u64_at(b, i) == v,
{
    lemma_read_part(b, i, i + 8, 0);
    law_read_back(0, 0, v);
}

/// A value that lies in a part of a byte string is the value read from that part.
pub proof fn lemma_read_part(b: Seq<u8>, from: int, to: int, i: int)
    requires
        0 <= from <= from + i,
        to <= b.len(),
        0 <= i,
    ensures
        from + i + 2 <= to ==> u16_at(b.subrange(from, to), i) == u16_at(b, from + i),
        from + i + 4 <= to ==> u32_at(b.subrange(from, to), i) == u32_at(b, from + i),
        from + i + 8 <= to ==> u64_at(b.subrange(from, to), i) == u64_at(b, from + i),
{
}

/// The lowest byte stands first.
pub proof fn law_little_endian(b: Seq<u8>, i: int)
    requires
        0 <= i,
        i + 8 <= b.len(),
    ensures
        u16_at(b, i) == b[i] + 0x100 * b[i + 1],
        u32_at(b, i) == b[i] + 0x100 * b[i + 1] + 0x1_0000 * b[i + 2] + 0x100_0000 * b[i + 3],
        u64_at(b, i) == b[i] + 0x100 * b[i + 1] + 0x1_0000 * b[i + 2] + 0x100_0000 * b[i + 3]
            + 0x1_0000_0000 * b[i + 4] + 0x100_0000_0000 * b[i + 5] + 0x1_0000_0000_0000 * b[i + 6]
            + 0x100_0000_0000_0000 * b[i + 7],
{
}

/// Replacing bytes leaves all others where they are.
pub proof fn law_patched(b: Seq<u8>, at: int, v: Seq<u8>, i: int)
    requires
        0 <= at,
        at + v.len() <= b.len(),
        0 <= i < b.len(),
    ensures
        patched(b, at, v).len() == b.len(),
        patched(b, at, v)[i] == if at <= i < at + v.len() {
            v[i - at]
        } else {
            b[i]
        },
{
}

} // verus!
