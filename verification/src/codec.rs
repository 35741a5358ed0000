//! Little-endian encoding and decoding of 16-bit and 32-bit integers over
//! the bytes of the volume image. The on-disk format is little-endian
//! regardless of the host.

use vstd::prelude::*;

verus! {

/// The 16-bit little-endian integer stored at byte offset `pos` of `s`.
pub open spec fn le16(s: Seq<u8>, pos: int) -> u16 {
    (s[pos] as u16) | ((s[pos + 1] as u16) << 8)
}

/// The 32-bit little-endian integer stored at byte offset `pos` of `s`.
pub open spec fn le32(s: Seq<u8>, pos: int) -> u32 {
    (s[pos] as u32) | ((s[pos + 1] as u32) << 8) | ((s[pos + 2] as u32) << 16) | ((s[pos
        + 3] as u32) << 24)
}

/// `s` with the 16-bit value `v` stored little-endian at byte offset `pos`.
pub open spec fn with_le16(s: Seq<u8>, pos: int, v: u16) -> Seq<u8> {
    s.update(pos, (v & 0xFF) as u8).update(pos + 1, ((v >> 8) & 0xFF) as u8)
}

/// `s` with the 32-bit value `v` stored little-endian at byte offset `pos`.
pub open spec fn with_le32(s: Seq<u8>, pos: int, v: u32) -> Seq<u8> {
    s.update(pos, (v & 0xFF) as u8)
        .update(pos + 1, ((v >> 8) & 0xFF) as u8)
        .update(pos + 2, ((v >> 16) & 0xFF) as u8)
        .update(pos + 3, ((v >> 24) & 0xFF) as u8)
}

/// Storing a 16-bit value and reading it back yields the value, and no byte
/// outside the two-byte field changes.
pub proof fn lemma_le16_roundtrip(s: Seq<u8>, pos: int, v: u16)
    requires
        0 <= pos,
        pos + 2 <= s.len(),
    ensures
        le16(with_le16(s, pos, v), pos) == v,
        with_le16(s, pos, v).len() == s.len(),
        forall|i: int|
            0 <= i < s.len() && i != pos && i != pos + 1 ==> with_le16(s, pos, v)[i] == s[i],
{
    assert(((v & 0xFF) as u8 as u16) | ((((v >> 8) & 0xFF) as u8 as u16) << 8) == v)
        by (bit_vector);
}

/// Storing a 32-bit value and reading it back yields the value, and no byte
/// outside the four-byte field changes.
pub proof fn lemma_le32_roundtrip(s: Seq<u8>, pos: int, v: u32)
    requires
        0 <= pos,
        pos + 4 <= s.len(),
    ensures
        le32(with_le32(s, pos, v), pos) == v,
        with_le32(s, pos, v).len() == s.len(),
        forall|i: int|
            0 <= i < s.len() && !(pos <= i < pos + 4) ==> with_le32(s, pos, v)[i] == s[i],
{
    assert(((v & 0xFF) as u8 as u32) | ((((v >> 8) & 0xFF) as u8 as u32) << 8) | ((((v >> 16)
        & 0xFF) as u8 as u32) << 16) | ((((v >> 24) & 0xFF) as u8 as u32) << 24) == v)
        by (bit_vector);
}

/// Reads the byte at `pos`.
pub fn get_u8(disk: &Vec<u8>, pos: usize) -> (r: u8)
    requires
        pos < disk.len(),
    ensures
        r == disk@[pos as int],
{
    disk[pos]
}

/// Overwrites the byte at `pos`.
pub fn set_u8(disk: &mut Vec<u8>, pos: usize, v: u8)
    requires
        pos < old(disk).len(),
    ensures
        final(disk)@ == old(disk)@.update(pos as int, v),
{
    disk.set(pos, v);
}

/// Reads the 16-bit little-endian integer at `pos`.
pub fn get_u16_le(disk: &Vec<u8>, pos: usize) -> (r: u16)
    requires
        pos + 2 <= disk.len(),
    ensures
        r == le16(disk@, pos as int),
{
    let lo = disk[pos];
    let hi = disk[pos + 1];
    (lo as u16) | ((hi as u16) << 8)
}

/// Stores the 16-bit integer `v` little-endian at `pos`.
pub fn set_u16_le(disk: &mut Vec<u8>, pos: usize, v: u16)
    requires
        pos + 2 <= old(disk).len(),
    ensures
        final(disk)@ == with_le16(old(disk)@, pos as int, v),
{
    disk.set(pos, (v & 0xFF) as u8);
    disk.set(pos + 1, ((v >> 8) & 0xFF) as u8);
}

/// Reads the 32-bit little-endian integer at `pos`.
pub fn get_u32_le(disk: &Vec<u8>, pos: usize) -> (r: u32)
    requires
        pos + 4 <= disk.len(),
    ensures
        r == le32(disk@, pos as int),
{
    let b0 = disk[pos];
    let b1 = disk[pos + 1];
    let b2 = disk[pos + 2];
    let b3 = disk[pos + 3];
    (b0 as u32) | ((b1 as u32) << 8) | ((b2 as u32) << 16) | ((b3 as u32) << 24)
}

/// Stores the 32-bit integer `v` little-endian at `pos`.
pub fn set_u32_le(disk: &mut Vec<u8>, pos: usize, v: u32)
    requires
        pos + 4 <= old(disk).len(),
    ensures
        final(disk)@ == with_le32(old(disk)@, pos as int, v),
{
    disk.set(pos, (v & 0xFF) as u8);
    disk.set(pos + 1, ((v >> 8) & 0xFF) as u8);
    disk.set(pos + 2, ((v >> 16) & 0xFF) as u8);
    disk.set(pos + 3, ((v >> 24) & 0xFF) as u8);
}

/// Reads `n` bytes starting at `pos`.
pub fn read_bytes_at(disk: &Vec<u8>, pos: usize, n: usize) -> (r: Vec<u8>)
    requires
        pos + n <= disk.len(),
    ensures
        r@ == disk@.subrange(pos as int, pos + n),
{
    let mut out: Vec<u8> = Vec::new();
    let mut i: usize = 0;
    while i < n
        invariant
            pos + n <= disk.len(),
            0 <= i <= n,
            out@ == disk@.subrange(pos as int, pos + i),
        decreases n - i,
    {
        out.push(disk[pos + i]);
        proof {
            assert(out@ =~= disk@.subrange(pos as int, pos + i + 1));
        }
        i = i + 1;
    }
    out
}

/// Overwrites the bytes starting at `pos` with `bytes`.
pub fn write_bytes_at(disk: &mut Vec<u8>, pos: usize, bytes: &Vec<u8>)
    requires
        pos + bytes.len() <= old(disk).len(),
    ensures
        final(disk)@.len() == old(disk)@.len(),
        forall|i: int| 0 <= i < bytes@.len() ==> final(disk)@[pos + i] == bytes@[i],
        forall|i: int|
            0 <= i < old(disk)@.len() && !(pos <= i < pos + bytes@.len()) ==> final(disk)@[i]
                == old(disk)@[i],
{
    let n = bytes.len();
    let mut i: usize = 0;
    while i < n
        invariant
            n == bytes@.len(),
            pos + n <= disk.len(),
            disk@.len() == old(disk)@.len(),
            0 <= i <= n,
            forall|j: int| 0 <= j < i ==> disk@[pos + j] == bytes@[j],
            forall|j: int|
                0 <= j < old(disk)@.len() && !(pos <= j < pos + i) ==> disk@[j] == old(disk)@[j],
        decreases n - i,
    {
        disk.set(pos + i, bytes[i]);
        i = i + 1;
    }
}

/// Overwrites `n` bytes starting at `pos` with zeroes.
pub fn zero_bytes_at(disk: &mut Vec<u8>, pos: usize, n: usize)
    requires
        pos + n <= old(disk).len(),
    ensures
        final(disk)@.len() == old(disk)@.len(),
        forall|i: int| pos <= i < pos + n ==> final(disk)@[i] == 0u8,
        forall|i: int|
            0 <= i < old(disk)@.len() && !(pos <= i < pos + n) ==> final(disk)@[i] == old(
                disk,
            )@[i],
{
    let mut i: usize = 0;
    while i < n
        invariant
            pos + n <= disk.len(),
            disk@.len() == old(disk)@.len(),
            0 <= i <= n,
            forall|j: int| pos <= j < pos + i ==> disk@[j] == 0u8,
            forall|j: int|
                0 <= j < old(disk)@.len() && !(pos <= j < pos + i) ==> disk@[j] == old(disk)@[j],
        decreases n - i,
    {
        disk.set(pos + i, 0);
        i = i + 1;
    }
}

/// Overwrites the bytes starting at `pos` with the first `n` bytes of
/// `bytes`.
pub fn write_prefix_at(disk: &mut Vec<u8>, pos: usize, bytes: &Vec<u8>, n: usize)
    requires
        n <= bytes.len(),
        pos + n <= old(disk).len(),
    ensures
        final(disk)@.len() == old(disk)@.len(),
        forall|i: int| 0 <= i < n ==> final(disk)@[pos + i] == bytes@[i],
        forall|i: int|
            0 <= i < old(disk)@.len() && !(pos <= i < pos + n) ==> final(disk)@[i] == old(
                disk,
            )@[i],
{
    let mut i: usize = 0;
    while i < n
        invariant
            n <= bytes@.len(),
            pos + n <= disk.len(),
            disk@.len() == old(disk)@.len(),
            0 <= i <= n,
            forall|j: int| 0 <= j < i ==> disk@[pos + j] == bytes@[j],
            forall|j: int|
                0 <= j < old(disk)@.len() && !(pos <= j < pos + i) ==> disk@[j] == old(disk)@[j],
        decreases n - i,
    {
        disk.set(pos + i, bytes[i]);
        i = i + 1;
    }
}

/// A vector of `n` copies of `v`.
pub fn make_bytes(n: usize, v: u8) -> (r: Vec<u8>)
    ensures
        r@.len() == n,
        forall|i: int| 0 <= i < n ==> r@[i] == v,
{
    let mut out: Vec<u8> = Vec::new();
    let mut i: usize = 0;
    while i < n
        invariant
            0 <= i <= n,
            out@.len() == i,
            forall|j: int| 0 <= j < i ==> out@[j] == v,
        decreases n - i,
    {
        out.push(v);
        i = i + 1;
    }
    out
}

} // verus!
