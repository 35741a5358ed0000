//! The File Allocation Table engine: encoding and decoding of cluster
//! entries for the 12-, 16- and 28-bit widths, the free-cluster scan,
//! cluster allocation, the status flags, and the chain walker used to
//! traverse, truncate and release cluster chains.

use vstd::arithmetic::div_mod::lemma_div_is_ordered;
use vstd::arithmetic::mul::lemma_mul_nonnegative;
use vstd::prelude::*;

use crate::codec::{get_u16_le, get_u32_le, le16, le32, set_u16_le, set_u32_le, with_le16,
    with_le32};
use crate::error::Error;
use crate::fs::{FatType, FileSystem, FsStatusFlags, Layout};

verus! {

/// A decoded FAT entry.
#[derive(Clone, Copy, Debug, PartialEq, Eq, Structural)]
pub enum FatValue {
    /// The cluster is unallocated.
    Free,
    /// The chain continues at the named cluster.
    Data(u32),
    /// The cluster is permanently unusable.
    Bad,
    /// The cluster is the last one of its chain.
    EndOfChain,
}

/// Entry `c` lies wholly inside the FAT region.
pub open spec fn fat_entry_in_range(l: Layout, c: int) -> bool {
    0 <= c && l.fat_entry_end(c) <= l.fat_len
}

/// The raw FAT entry of cluster `c`, masked to the entry width.
pub open spec fn fat_raw(disk: Seq<u8>, l: Layout, c: int) -> u32 {
    let p = l.fat_offset + l.fat_entry_pos(c);
    match l.fat_type {
        FatType::Fat12 => {
            let w = le16(disk, p);
            if c % 2 == 0 {
                (w & 0x0FFF) as u32
            } else {
                (w >> 4) as u32
            }
        },
        FatType::Fat16 => le16(disk, p) as u32,
        FatType::Fat32 => le32(disk, p) & 0x0FFF_FFFF,
    }
}

/// Decodes a masked raw entry according to the sentinel table of the
/// variant.
pub open spec fn value_of_raw(ft: FatType, raw: u32) -> FatValue {
    match ft {
        FatType::Fat12 => if raw == 0 {
            FatValue::Free
        } else if raw == 0xFF7 {
            FatValue::Bad
        } else if 0xFF8 <= raw <= 0xFFF {
            FatValue::EndOfChain
        } else {
            FatValue::Data(raw)
        },
        FatType::Fat16 => if raw == 0 {
            FatValue::Free
        } else if raw == 0xFFF7 {
            FatValue::Bad
        } else if 0xFFF8 <= raw <= 0xFFFF {
            FatValue::EndOfChain
        } else {
            FatValue::Data(raw)
        },
        FatType::Fat32 => if raw == 0 {
            FatValue::Free
        } else if raw == 0x0FFF_FFF7 {
            FatValue::Bad
        } else if 0x0FFF_FFF8 <= raw <= 0x0FFF_FFFF {
            FatValue::EndOfChain
        } else {
            FatValue::Data(raw)
        },
    }
}

/// The decoded FAT entry of cluster `c`.
pub open spec fn fat_entry(disk: Seq<u8>, l: Layout, c: int) -> FatValue {
    value_of_raw(l.fat_type, fat_raw(disk, l, c))
}

/// Values that `write_fat` encodes faithfully: a data pointer must be a
/// valid cluster number, below every sentinel of the variant.
pub open spec fn fat_value_writable(l: Layout, v: FatValue) -> bool {
    match v {
        FatValue::Data(n) => 2 <= n < l.max_cluster_limit(),
        _ => true,
    }
}

/// The canonical 12-bit encoding of a value.
pub open spec fn canonical_raw12(v: FatValue) -> u16 {
    match v {
        FatValue::Free => 0,
        FatValue::Bad => 0xFF7,
        FatValue::EndOfChain => 0xFFF,
        FatValue::Data(n) => n as u16,
    }
}

/// The canonical 16-bit encoding of a value.
pub open spec fn canonical_raw16(v: FatValue) -> u16 {
    match v {
        FatValue::Free => 0,
        FatValue::Bad => 0xFFF7,
        FatValue::EndOfChain => 0xFFFF,
        FatValue::Data(n) => n as u16,
    }
}

/// The canonical 28-bit encoding of a value.
pub open spec fn canonical_raw32(v: FatValue) -> u32 {
    match v {
        FatValue::Free => 0,
        FatValue::Bad => 0x0FFF_FFF7,
        FatValue::EndOfChain => 0x0FFF_FFFF,
        FatValue::Data(n) => n & 0x0FFF_FFFF,
    }
}

/// The volume image after `write_fat(c, v)`: the entry's bytes re-encoded,
/// reserved bits preserved, everything else untouched.
pub open spec fn fat_set_bytes(disk: Seq<u8>, l: Layout, c: int, v: FatValue) -> Seq<u8> {
    let p = l.fat_offset + l.fat_entry_pos(c);
    match l.fat_type {
        FatType::Fat12 => {
            let w = le16(disk, p);
            let raw = canonical_raw12(v);
            let packed = if c % 2 == 0 {
                (w & 0xF000) | raw
            } else {
                (w & 0x000F) | (raw << 4)
            };
            with_le16(disk, p, packed)
        },
        FatType::Fat16 => with_le16(disk, p, canonical_raw16(v)),
        FatType::Fat32 => with_le32(
            disk,
            p,
            (le32(disk, p) & 0xF000_0000) | canonical_raw32(v),
        ),
    }
}

/// Entry byte ranges are ordered with the cluster number, so every entry of
/// a valid cluster lies inside the FAT region.
pub proof fn lemma_entry_end_monotone(l: Layout, c1: int, c2: int)
    requires
        0 <= c1 <= c2,
    ensures
        l.fat_entry_end(c1) <= l.fat_entry_end(c2),
        l.fat_entry_pos(c1) + 2 <= l.fat_entry_end(c1),
{
    lemma_div_is_ordered(c1, c2, 2);
}

/// A valid cluster of a well-formed volume has its FAT entry in range.
pub proof fn lemma_cluster_entry_in_range(fs: FileSystem, c: u32)
    requires
        fs.wf(),
        0 <= c < fs.layout.spec_cluster_limit(),
    ensures
        fat_entry_in_range(fs.layout, c as int),
{
    lemma_entry_end_monotone(fs.layout, c as int, fs.layout.spec_cluster_limit() - 1);
}

/// Reads the raw entry of cluster `c`.
fn fat_get_raw_at(fs: &FileSystem, c: u32) -> (r: u32)
    requires
        fs.wf(),
        fat_entry_in_range(fs.layout, c as int),
    ensures
        r == fat_raw(fs.disk@, fs.layout, c as int),
{
    let l = fs.layout;
    proof {
        lemma_entry_end_monotone(l, c as int, c as int);
        lemma_mul_nonnegative(l.total_clusters as int, l.cluster_size as int);
    }
    match l.fat_type {
        FatType::Fat12 => {
            let pos = l.fat_offset + (c as usize) + (c as usize) / 2;
            let w = get_u16_le(&fs.disk, pos);
            if c % 2 == 0 {
                (w & 0x0FFF) as u32
            } else {
                (w >> 4) as u32
            }
        },
        FatType::Fat16 => {
            let pos = l.fat_offset + 2 * (c as usize);
            get_u16_le(&fs.disk, pos) as u32
        },
        FatType::Fat32 => {
            let pos = l.fat_offset + 4 * (c as usize);
            get_u32_le(&fs.disk, pos) & 0x0FFF_FFFF
        },
    }
}

/// Whether entry `c` lies inside the FAT region.
fn fat_entry_in_range_exec(fs: &FileSystem, c: u32) -> (r: bool)
    requires
        fs.wf(),
    ensures
        r == fat_entry_in_range(fs.layout, c as int),
{
    let l = fs.layout;
    let end: u64 = match l.fat_type {
        FatType::Fat12 => (c as u64) + (c as u64) / 2 + 2,
        FatType::Fat16 => 2 * (c as u64) + 2,
        FatType::Fat32 => 4 * (c as u64) + 4,
    };
    end <= (l.fat_len as u64)
}

/// Decodes a raw entry value.
fn value_of_raw_exec(ft: FatType, raw: u32) -> (r: FatValue)
    ensures
        r == value_of_raw(ft, raw),
{
    match ft {
        FatType::Fat12 => if raw == 0 {
            FatValue::Free
        } else if raw == 0xFF7 {
            FatValue::Bad
        } else if 0xFF8 <= raw && raw <= 0xFFF {
            FatValue::EndOfChain
        } else {
            FatValue::Data(raw)
        },
        FatType::Fat16 => if raw == 0 {
            FatValue::Free
        } else if raw == 0xFFF7 {
            FatValue::Bad
        } else if 0xFFF8 <= raw && raw <= 0xFFFF {
            FatValue::EndOfChain
        } else {
            FatValue::Data(raw)
        },
        FatType::Fat32 => if raw == 0 {
            FatValue::Free
        } else if raw == 0x0FFF_FFF7 {
            FatValue::Bad
        } else if 0x0FFF_FFF8 <= raw && raw <= 0x0FFF_FFFF {
            FatValue::EndOfChain
        } else {
            FatValue::Data(raw)
        },
    }
}

/// Reads the raw (masked) FAT entry of cluster `c`; used for the status
/// flags kept in entry 1.
pub fn read_fat_raw(fs: &FileSystem, c: u32) -> (r: Result<u32, Error>)
    requires
        fs.wf(),
    ensures
        match r {
            Ok(raw) => fat_entry_in_range(fs.layout, c as int) && raw == fat_raw(
                fs.disk@,
                fs.layout,
                c as int,
            ),
            Err(e) => !fat_entry_in_range(fs.layout, c as int) && e == Error::UnexpectedEof,
        },
{
    if !fat_entry_in_range_exec(fs, c) {
        return Err(Error::UnexpectedEof);
    }
    Ok(fat_get_raw_at(fs, c))
}

/// Decodes the FAT entry of cluster `c`.
pub fn read_fat(fs: &FileSystem, c: u32) -> (r: Result<FatValue, Error>)
    requires
        fs.wf(),
    ensures
        match r {
            Ok(v) => fat_entry_in_range(fs.layout, c as int) && v == fat_entry(
                fs.disk@,
                fs.layout,
                c as int,
            ),
            Err(e) => !fat_entry_in_range(fs.layout, c as int) && e == Error::UnexpectedEof,
        },
{
    let raw = read_fat_raw(fs, c)?;
    Ok(value_of_raw_exec(fs.layout.fat_type, raw))
}

/// The successor of `c` in its chain: the pointee of a `Data` entry, and
/// nothing otherwise.
pub open spec fn chain_next(disk: Seq<u8>, l: Layout, c: int) -> Option<u32> {
    match fat_entry(disk, l, c) {
        FatValue::Data(n) => Some(n),
        _ => None,
    }
}

/// Looks the successor of `c` up in the FAT.
pub fn get_next_cluster(fs: &FileSystem, c: u32) -> (r: Result<Option<u32>, Error>)
    requires
        fs.wf(),
    ensures
        match r {
            Ok(n) => fat_entry_in_range(fs.layout, c as int) && n == chain_next(
                fs.disk@,
                fs.layout,
                c as int,
            ),
            Err(e) => !fat_entry_in_range(fs.layout, c as int) && e == Error::UnexpectedEof,
        },
{
    let v = read_fat(fs, c)?;
    match v {
        FatValue::Data(n) => Ok(Some(n)),
        _ => Ok(None),
    }
}

/// Encodes `v` into the entry of cluster `c`, preserving the reserved bits
/// (the upper four bits of a 32-bit entry; the neighbouring entry's nibble
/// for FAT12), and leaves every other byte of the image untouched.
pub fn write_fat(fs: &mut FileSystem, c: u32, v: FatValue) -> (r: Result<(), Error>)
    requires
        old(fs).wf(),
        fat_value_writable(old(fs).layout, v),
    ensures
        final(fs).layout == old(fs).layout,
        final(fs).wf(),
        match r {
            Ok(()) => {
                &&& fat_entry_in_range(old(fs).layout, c as int)
                &&& final(fs).disk@ == fat_set_bytes(old(fs).disk@, old(fs).layout, c as int, v)
                &&& final(fs).disk@.len() == old(fs).disk@.len()
                &&& fat_entry(final(fs).disk@, final(fs).layout, c as int) == v
                &&& forall|c2: int|
                    fat_entry_in_range(old(fs).layout, c2) && c2 != c ==> fat_raw(
                        final(fs).disk@,
                        old(fs).layout,
                        c2,
                    ) == fat_raw(old(fs).disk@, old(fs).layout, c2)
                &&& forall|i: int|
                    0 <= i < old(fs).disk@.len() && !(old(fs).layout.fat_offset
                        + old(fs).layout.fat_entry_pos(c as int) <= i < old(fs).layout.fat_offset
                        + old(fs).layout.fat_entry_end(c as int)) ==> final(fs).disk@[i] == old(
                        fs,
                    ).disk@[i]
            },
            Err(e) => {
                &&& !fat_entry_in_range(old(fs).layout, c as int)
                &&& e == Error::UnexpectedEof
                &&& final(fs).disk@ == old(fs).disk@
            },
        },
{
    if !fat_entry_in_range_exec(fs, c) {
        return Err(Error::UnexpectedEof);
    }
    let ghost d0 = fs.disk@;
    let l = fs.layout;
    proof {
        lemma_entry_end_monotone(l, c as int, c as int);
        lemma_mul_nonnegative(l.total_clusters as int, l.cluster_size as int);
    }
    match l.fat_type {
        FatType::Fat12 => {
            let raw: u16 = match v {
                FatValue::Free => 0,
                FatValue::Bad => 0xFF7,
                FatValue::EndOfChain => 0xFFF,
                FatValue::Data(n) => n as u16,
            };
            let pos = l.fat_offset + (c as usize) + (c as usize) / 2;
            let old_packed = get_u16_le(&fs.disk, pos);
            let new_packed = if c % 2 == 0 {
                (old_packed & 0xF000) | raw
            } else {
                (old_packed & 0x000F) | (raw << 4)
            };
            set_u16_le(&mut fs.disk, pos, new_packed);
            proof {
                lemma_fat12_set(d0, l, c as int, v, raw, new_packed);
            }
        },
        FatType::Fat16 => {
            let raw: u16 = match v {
                FatValue::Free => 0,
                FatValue::Bad => 0xFFF7,
                FatValue::EndOfChain => 0xFFFF,
                FatValue::Data(n) => n as u16,
            };
            let pos = l.fat_offset + 2 * (c as usize);
            set_u16_le(&mut fs.disk, pos, raw);
            proof {
                lemma_fat16_set(d0, l, c as int, v);
            }
        },
        FatType::Fat32 => {
            let pos = l.fat_offset + 4 * (c as usize);
            let raw: u32 = match v {
                FatValue::Free => 0,
                FatValue::Bad => 0x0FFF_FFF7,
                FatValue::EndOfChain => 0x0FFF_FFFF,
                FatValue::Data(n) => n & 0x0FFF_FFFF,
            };
            let old_entry = get_u32_le(&fs.disk, pos);
            set_u32_le(&mut fs.disk, pos, (old_entry & 0xF000_0000) | raw);
            proof {
                lemma_fat32_set(d0, l, c as int, v);
            }
        },
    }
    Ok(())
}

/// What one FAT12 write does: the entry reads back, its neighbours keep
/// their raw values, and only the two bytes of the entry change.
proof fn lemma_fat12_set(d0: Seq<u8>, l: Layout, c: int, v: FatValue, raw: u16, packed: u16)
    requires
        l.fat_type is Fat12,
        fat_value_writable(l, v),
        fat_entry_in_range(l, c),
        l.fat_offset + l.fat_len <= d0.len(),
        raw == canonical_raw12(v),
        packed == if c % 2 == 0 {
            (le16(d0, l.fat_offset + l.fat_entry_pos(c)) & 0xF000) | raw
        } else {
            (le16(d0, l.fat_offset + l.fat_entry_pos(c)) & 0x000F) | (raw << 4)
        },
    ensures
        with_le16(d0, l.fat_offset + l.fat_entry_pos(c), packed) == fat_set_bytes(d0, l, c, v),
        fat_entry(fat_set_bytes(d0, l, c, v), l, c) == v,
        forall|c2: int|
            fat_entry_in_range(l, c2) && c2 != c ==> fat_raw(fat_set_bytes(d0, l, c, v), l, c2)
                == fat_raw(d0, l, c2),
{
    let p = l.fat_offset + l.fat_entry_pos(c);
    let d1 = fat_set_bytes(d0, l, c, v);
    crate::codec::lemma_le16_roundtrip(d0, p, packed);
    let w0: u16 = le16(d0, p);
    assert(raw <= 0xFFF) by {
        match v {
            FatValue::Data(n) => {
                assert(n as u16 <= 0xFFF) by (bit_vector)
                    requires
                        n < 0xFF7u32,
                ;
            },
            _ => {},
        }
    };
    // The entry reads back as the raw value that was encoded.
    assert(le16(d1, p) == packed);
    if c % 2 == 0 {
        assert(packed & 0x0FFF == raw) by (bit_vector)
            requires
                packed == (w0 & 0xF000) | raw,
                raw <= 0xFFFu16,
        ;
    } else {
        assert(packed >> 4 == raw) by (bit_vector)
            requires
                packed == (w0 & 0x000F) | (raw << 4),
                raw <= 0xFFFu16,
        ;
    }
    lemma_raw12_decodes(v, raw);
    // Neighbouring entries keep their raw values: entries two or more away
    // have disjoint bytes, and the adjacent entry that shares one byte keeps
    // its nibble of that byte through the read-modify-write.
    assert forall|c2: int| fat_entry_in_range(l, c2) && c2 != c implies fat_raw(d1, l, c2)
        == fat_raw(d0, l, c2) by {
        let p2 = l.fat_offset + l.fat_entry_pos(c2);
        lemma_entry_end_monotone(l, c2, c2);
        if c2 <= c - 2 || (c2 == c - 1 && c % 2 == 0) || (c2 == c + 1 && c % 2 == 1) || c2 >= c
            + 2 {
            // Disjoint byte ranges.
            assert(p2 + 2 <= p || p + 2 <= p2);
            assert(d1[p2] == d0[p2] && d1[p2 + 1] == d0[p2 + 1]);
            assert(le16(d1, p2) == le16(d0, p2));
        } else if c2 == c + 1 && c % 2 == 0 {
            // The odd successor's entry is the high nibbles of bytes p+1 and
            // p+2; the write preserved its nibble of byte p+1.
            assert(p2 == p + 1);
            let b0 = d0[p];
            let b1 = d0[p + 1];
            let b2 = d0[p + 2];
            let n1 = d1[p + 1];
            assert(n1 == ((packed >> 8) & 0xFF) as u8);
            assert(d1[p + 2] == b2);
            assert((((n1 as u16) | ((b2 as u16) << 8)) >> 4) == (((b1 as u16) | ((b2 as u16)
                << 8)) >> 4)) by (bit_vector)
                requires
                    n1 == ((packed >> 8) & 0xFF) as u8,
                    packed == (w0 & 0xF000) | raw,
                    w0 == (b0 as u16) | ((b1 as u16) << 8),
                    raw <= 0xFFFu16,
            ;
            assert(le16(d1, p2) == (n1 as u16) | ((b2 as u16) << 8));
            assert(le16(d0, p2) == (b1 as u16) | ((b2 as u16) << 8));
        } else {
            // The even predecessor's entry is the low bytes p-1 and the low
            // nibble of byte p; the write preserved that nibble.
            assert(c2 == c - 1 && c % 2 == 1);
            assert(p2 == p - 1);
            let b0 = d0[p - 1];
            let b1 = d0[p];
            let bh = d0[p + 1];
            let n1 = d1[p];
            assert(n1 == (packed & 0xFF) as u8);
            assert(d1[p - 1] == b0);
            assert((((b0 as u16) | ((n1 as u16) << 8)) & 0x0FFF) == (((b0 as u16) | ((b1 as u16)
                << 8)) & 0x0FFF)) by (bit_vector)
                requires
                    n1 == (packed & 0xFF) as u8,
                    packed == (w0 & 0x000F) | (raw << 4),
                    w0 == (b1 as u16) | ((bh as u16) << 8),
            ;
            assert(le16(d1, p2) == (b0 as u16) | ((n1 as u16) << 8));
            assert(le16(d0, p2) == (b0 as u16) | ((b1 as u16) << 8));
        }
    }
}

/// Decoding the canonical 12-bit encoding of a writable value yields the
/// value again.
proof fn lemma_raw12_decodes(v: FatValue, raw: u16)
    requires
        raw == canonical_raw12(v),
        match v {
            FatValue::Data(n) => 2 <= n < 0xFF7,
            _ => true,
        },
    ensures
        value_of_raw(FatType::Fat12, raw as u32) == v,
{
    match v {
        FatValue::Data(n) => {
            assert(n as u16 as u32 == n) by (bit_vector)
                requires
                    n < 0xFF7u32,
            ;
        },
        _ => {},
    }
}

/// What one FAT16 write does.
proof fn lemma_fat16_set(d0: Seq<u8>, l: Layout, c: int, v: FatValue)
    requires
        l.fat_type is Fat16,
        fat_value_writable(l, v),
        fat_entry_in_range(l, c),
        l.fat_offset + l.fat_len <= d0.len(),
    ensures
        fat_set_bytes(d0, l, c, v) == with_le16(
            d0,
            l.fat_offset + l.fat_entry_pos(c),
            canonical_raw16(v),
        ),
        fat_entry(fat_set_bytes(d0, l, c, v), l, c) == v,
        forall|c2: int|
            fat_entry_in_range(l, c2) && c2 != c ==> fat_raw(fat_set_bytes(d0, l, c, v), l, c2)
                == fat_raw(d0, l, c2),
{
    let p = l.fat_offset + l.fat_entry_pos(c);
    let raw = canonical_raw16(v);
    let d1 = fat_set_bytes(d0, l, c, v);
    crate::codec::lemma_le16_roundtrip(d0, p, raw);
    match v {
        FatValue::Data(n) => {
            assert(n as u16 as u32 == n && n as u16 != 0xFFF7u16 && !(0xFFF8u16 <= n as u16))
                by (bit_vector)
                requires
                    2 <= n < 0xFFF7u32,
            ;
        },
        _ => {},
    }
    assert forall|c2: int| fat_entry_in_range(l, c2) && c2 != c implies fat_raw(d1, l, c2)
        == fat_raw(d0, l, c2) by {
        let p2 = l.fat_offset + l.fat_entry_pos(c2);
        assert(d1[p2] == d0[p2] && d1[p2 + 1] == d0[p2 + 1]);
    }
}

/// What one FAT32 write does: the reserved upper four bits of the entry are
/// preserved, the rest re-encoded.
proof fn lemma_fat32_set(d0: Seq<u8>, l: Layout, c: int, v: FatValue)
    requires
        l.fat_type is Fat32,
        fat_value_writable(l, v),
        fat_entry_in_range(l, c),
        l.fat_offset + l.fat_len <= d0.len(),
    ensures
        fat_set_bytes(d0, l, c, v) == with_le32(
            d0,
            l.fat_offset + l.fat_entry_pos(c),
            (le32(d0, l.fat_offset + l.fat_entry_pos(c)) & 0xF000_0000) | canonical_raw32(v),
        ),
        fat_entry(fat_set_bytes(d0, l, c, v), l, c) == v,
        forall|c2: int|
            fat_entry_in_range(l, c2) && c2 != c ==> fat_raw(fat_set_bytes(d0, l, c, v), l, c2)
                == fat_raw(d0, l, c2),
{
    let p = l.fat_offset + l.fat_entry_pos(c);
    let raw = canonical_raw32(v);
    let w0 = le32(d0, p);
    let d1 = fat_set_bytes(d0, l, c, v);
    crate::codec::lemma_le32_roundtrip(d0, p, (w0 & 0xF000_0000) | raw);
    assert(raw <= 0x0FFF_FFFF) by {
        match v {
            FatValue::Data(n) => {
                assert(n & 0x0FFF_FFFF <= 0x0FFF_FFFF) by (bit_vector);
            },
            _ => {},
        }
    };
    assert(((w0 & 0xF000_0000) | raw) & 0x0FFF_FFFF == raw) by (bit_vector)
        requires
            raw <= 0x0FFF_FFFFu32,
    ;
    match v {
        FatValue::Data(n) => {
            assert(n & 0x0FFF_FFFF == n && n != 0) by (bit_vector)
                requires
                    2 <= n < 0x0FFF_FFF7u32,
            ;
        },
        _ => {},
    }
    assert forall|c2: int| fat_entry_in_range(l, c2) && c2 != c implies fat_raw(d1, l, c2)
        == fat_raw(d0, l, c2) by {
        let p2 = l.fat_offset + l.fat_entry_pos(c2);
        assert(d1[p2] == d0[p2] && d1[p2 + 1] == d0[p2 + 1] && d1[p2 + 2] == d0[p2 + 2] && d1[p2
            + 3] == d0[p2 + 3]);
    }
}

/// The volume is clean (FAT16: bit 15 of entry 1; FAT32: bit 27; FAT12 has
/// no flag and always reads clean).
pub open spec fn spec_fat_dirty(disk: Seq<u8>, l: Layout) -> bool {
    match l.fat_type {
        FatType::Fat12 => false,
        FatType::Fat16 => fat_raw(disk, l, 1) & 0x8000 == 0,
        FatType::Fat32 => fat_raw(disk, l, 1) & 0x0800_0000 == 0,
    }
}

/// A disk I/O error was recorded (FAT16: bit 14 of entry 1; FAT32: bit 26).
pub open spec fn spec_fat_io_error(disk: Seq<u8>, l: Layout) -> bool {
    match l.fat_type {
        FatType::Fat12 => false,
        FatType::Fat16 => fat_raw(disk, l, 1) & 0x4000 == 0,
        FatType::Fat32 => fat_raw(disk, l, 1) & 0x0400_0000 == 0,
    }
}

/// Reads the dirty and I/O-error bits from FAT entry 1. FAT12 has no such
/// bits and reports a clean volume.
pub fn read_fat_flags(fs: &FileSystem) -> (r: FsStatusFlags)
    requires
        fs.wf(),
    ensures
        r.dirty == spec_fat_dirty(fs.disk@, fs.layout),
        r.io_error == spec_fat_io_error(fs.disk@, fs.layout),
{
    proof {
        lemma_cluster_entry_in_range(*fs, 1);
    }
    match fs.layout.fat_type {
        FatType::Fat12 => FsStatusFlags { dirty: false, io_error: false },
        FatType::Fat16 => {
            let raw = fat_get_raw_at(fs, 1);
            FsStatusFlags { dirty: raw & 0x8000 == 0, io_error: raw & 0x4000 == 0 }
        },
        FatType::Fat32 => {
            let raw = fat_get_raw_at(fs, 1);
            FsStatusFlags { dirty: raw & 0x0800_0000 == 0, io_error: raw & 0x0400_0000 == 0 }
        },
    }
}

/// Scans the FAT linearly from `from` and returns the first free cluster,
/// or `NoSpace` when no entry up to the cluster-count bound is free.
pub fn find_free_cluster(fs: &FileSystem, from: u32) -> (r: Result<u32, Error>)
    requires
        fs.wf(),
        2 <= from,
    ensures
        match r {
            Ok(c) => {
                &&& from <= c < fs.layout.spec_cluster_limit()
                &&& fat_entry(fs.disk@, fs.layout, c as int) == FatValue::Free
                &&& forall|c2: int|
                    from <= c2 < c ==> fat_entry(fs.disk@, fs.layout, c2) != FatValue::Free
            },
            Err(e) => {
                &&& e == Error::NoSpace
                &&& forall|c2: int|
                    from <= c2 < fs.layout.spec_cluster_limit() ==> fat_entry(
                        fs.disk@,
                        fs.layout,
                        c2,
                    ) != FatValue::Free
            },
        },
{
    let limit = fs.cluster_limit();
    if from >= limit {
        return Err(Error::NoSpace);
    }
    let mut c = from;
    while c < limit
        invariant
            fs.wf(),
            limit == fs.layout.spec_cluster_limit(),
            from <= c <= limit,
            forall|c2: int|
                from <= c2 < c ==> fat_entry(fs.disk@, fs.layout, c2) != FatValue::Free,
        decreases limit - c,
    {
        proof {
            lemma_cluster_entry_in_range(*fs, c);
        }
        let raw = fat_get_raw_at(fs, c);
        if raw == 0 {
            return Ok(c);
        }
        c = c + 1;
    }
    Err(Error::NoSpace)
}

/// Allocates one cluster: finds the first free cluster, marks it
/// end-of-chain, and, when a predecessor is given, links the predecessor to
/// it. Only the two FAT entries involved change.
pub fn alloc_cluster(fs: &mut FileSystem, prev: Option<u32>) -> (r: Result<u32, Error>)
    requires
        old(fs).wf(),
        match prev {
            Some(p) => old(fs).layout.is_cluster(p) && fat_entry(
                old(fs).disk@,
                old(fs).layout,
                p as int,
            ) != FatValue::Free,
            None => true,
        },
    ensures
        final(fs).layout == old(fs).layout,
        final(fs).wf(),
        final(fs).disk@.len() == old(fs).disk@.len(),
        match r {
            Ok(n) => {
                &&& old(fs).layout.is_cluster(n)
                &&& fat_entry(old(fs).disk@, old(fs).layout, n as int) == FatValue::Free
                &&& forall|c2: int|
                    2 <= c2 < n ==> fat_entry(old(fs).disk@, old(fs).layout, c2)
                        != FatValue::Free
                &&& fat_entry(final(fs).disk@, final(fs).layout, n as int)
                    == FatValue::EndOfChain
                &&& match prev {
                    Some(p) => p != n && fat_entry(final(fs).disk@, final(fs).layout, p as int)
                        == FatValue::Data(n),
                    None => true,
                }
                &&& forall|c2: u32|
                    fat_entry_in_range(old(fs).layout, c2 as int) && c2 != n && Some(c2) != prev
                        ==> fat_raw(final(fs).disk@, old(fs).layout, c2 as int) == fat_raw(
                        old(fs).disk@,
                        old(fs).layout,
                        c2 as int,
                    )
                &&& forall|i: int|
                    0 <= i < old(fs).disk@.len() && !(old(fs).layout.fat_offset <= i < old(
                        fs,
                    ).layout.fat_offset + old(fs).layout.fat_len) ==> final(fs).disk@[i] == old(
                        fs,
                    ).disk@[i]
            },
            Err(e) => {
                &&& e == Error::NoSpace
                &&& final(fs).disk@ == old(fs).disk@
                &&& forall|c2: int|
                    2 <= c2 < old(fs).layout.spec_cluster_limit() ==> fat_entry(
                        old(fs).disk@,
                        old(fs).layout,
                        c2,
                    ) != FatValue::Free
            },
        },
{
    let l = fs.layout;
    let new_cluster = match find_free_cluster(fs, 2) {
        Ok(n) => n,
        Err(e) => {
            return Err(e);
        },
    };
    proof {
        lemma_cluster_entry_in_range(*fs, new_cluster);
        if prev is Some {
            lemma_cluster_entry_in_range(*fs, prev->0);
        }
        lemma_entry_end_monotone(l, new_cluster as int, new_cluster as int);
    }
    let r1 = write_fat(fs, new_cluster, FatValue::EndOfChain);
    proof {
        assert(r1 is Ok);
    }
    match prev {
        Some(p) => {
            let r2 = write_fat(fs, p, FatValue::Data(new_cluster));
            proof {
                assert(r2 is Ok);
                lemma_entry_end_monotone(l, p as int, p as int);
            }
        },
        None => {},
    }
    Ok(new_cluster)
}

/// The clusters visited when walking from `c0`: `c0` itself, then the chain
/// of `Data` links, stopping at the first non-`Data` entry or when the fuel
/// runs out.
pub open spec fn chain_seq(disk: Seq<u8>, l: Layout, c0: u32, fuel: nat) -> Seq<u32>
    decreases fuel,
{
    if fuel == 0 {
        seq![]
    } else {
        match chain_next(disk, l, c0 as int) {
            Some(n) => seq![c0] + chain_seq(disk, l, n, (fuel - 1) as nat),
            None => seq![c0],
        }
    }
}

/// The chain of `c0`, with enough fuel to visit every cluster of the
/// volume once.
pub open spec fn spec_chain(disk: Seq<u8>, l: Layout, c0: u32) -> Seq<u32> {
    chain_seq(disk, l, c0, (l.total_clusters + 1) as nat)
}

/// A well-formed chain: every visited cluster is a valid data cluster, the
/// walk terminates within the volume's cluster count, and it terminates
/// because the last entry is `EndOfChain` — so no `Free` or `Bad` entry
/// appears anywhere along the chain.
pub open spec fn chain_wf(disk: Seq<u8>, l: Layout, c0: u32) -> bool {
    let ch = spec_chain(disk, l, c0);
    &&& ch.len() <= l.total_clusters
    &&& forall|i: int| 0 <= i < ch.len() ==> l.is_cluster(#[trigger] ch[i])
    &&& fat_entry(disk, l, ch[ch.len() - 1] as int) == FatValue::EndOfChain
}

/// Shape of a chain walk: it starts at `c0`, each visited cluster points to
/// the next by a `Data` entry, and if the walk stopped before running out
/// of fuel, the last entry is not `Data`.
pub proof fn lemma_chain_shape(disk: Seq<u8>, l: Layout, c0: u32, fuel: nat)
    requires
        1 <= fuel,
    ensures
        1 <= chain_seq(disk, l, c0, fuel).len() <= fuel,
        chain_seq(disk, l, c0, fuel)[0] == c0,
        forall|i: int|
            0 <= i < chain_seq(disk, l, c0, fuel).len() - 1 ==> fat_entry(
                disk,
                l,
                #[trigger] chain_seq(disk, l, c0, fuel)[i] as int,
            ) == FatValue::Data(chain_seq(disk, l, c0, fuel)[i + 1]),
        chain_seq(disk, l, c0, fuel).len() < fuel ==> !(fat_entry(
            disk,
            l,
            chain_seq(disk, l, c0, fuel).last() as int,
        ) is Data),
    decreases fuel,
{
    let ch = chain_seq(disk, l, c0, fuel);
    match chain_next(disk, l, c0 as int) {
        Some(n) => {
            if fuel >= 2 {
                lemma_chain_shape(disk, l, n, (fuel - 1) as nat);
            }
        },
        None => {},
    }
}

/// A walk that stopped before running out of fuel is not changed by giving
/// it more fuel.
pub proof fn lemma_chain_fuel(disk: Seq<u8>, l: Layout, c0: u32, f1: nat, f2: nat)
    requires
        chain_seq(disk, l, c0, f1).len() < f1,
        f1 <= f2,
    ensures
        chain_seq(disk, l, c0, f2) == chain_seq(disk, l, c0, f1),
    decreases f1,
{
    match chain_next(disk, l, c0 as int) {
        Some(n) => {
            lemma_chain_fuel(disk, l, n, (f1 - 1) as nat, (f2 - 1) as nat);
        },
        None => {},
    }
}

/// Walking from the `k`-th visited cluster visits the rest of the chain.
pub proof fn lemma_chain_suffix(disk: Seq<u8>, l: Layout, c0: u32, fuel: nat, k: int)
    requires
        0 <= k < chain_seq(disk, l, c0, fuel).len(),
    ensures
        chain_seq(disk, l, chain_seq(disk, l, c0, fuel)[k], (fuel - k) as nat) == chain_seq(
            disk,
            l,
            c0,
            fuel,
        ).subrange(k, chain_seq(disk, l, c0, fuel).len() as int),
    decreases k,
{
    let ch = chain_seq(disk, l, c0, fuel);
    if k == 0 {
        assert(chain_seq(disk, l, ch[0], fuel) =~= ch.subrange(0, ch.len() as int));
    } else {
        match chain_next(disk, l, c0 as int) {
            Some(n) => {
                lemma_chain_suffix(disk, l, n, (fuel - 1) as nat, k - 1);
                let tail = chain_seq(disk, l, n, (fuel - 1) as nat);
                assert(ch == seq![c0] + tail);
                assert(ch[k] == tail[k - 1]);
                assert(tail.subrange(k - 1, tail.len() as int) =~= ch.subrange(
                    k,
                    ch.len() as int,
                ));
            },
            None => {},
        }
    }
}

/// A walk that terminates within the volume's cluster count never visits a
/// cluster twice.
pub proof fn lemma_chain_distinct(disk: Seq<u8>, l: Layout, c0: u32)
    requires
        spec_chain(disk, l, c0).len() <= l.total_clusters,
    ensures
        forall|i: int, j: int|
            0 <= i < j < spec_chain(disk, l, c0).len() ==> spec_chain(disk, l, c0)[i]
                != spec_chain(disk, l, c0)[j],
{
    let fuel = (l.total_clusters + 1) as nat;
    let ch = spec_chain(disk, l, c0);
    assert forall|i: int, j: int| 0 <= i < j < ch.len() implies ch[i] != ch[j] by {
        if ch[i] == ch[j] {
            lemma_chain_suffix(disk, l, c0, fuel, i);
            lemma_chain_suffix(disk, l, c0, fuel, j);
            let chi = chain_seq(disk, l, ch[i], (fuel - i) as nat);
            let chj = chain_seq(disk, l, ch[j], (fuel - j) as nat);
            assert(chi.len() == ch.len() - i);
            assert(chj.len() == ch.len() - j);
            assert(chi.len() < fuel - i);
            assert(chj.len() < fuel - j);
            lemma_chain_fuel(disk, l, ch[i], (fuel - i) as nat, fuel);
            lemma_chain_fuel(disk, l, ch[j], (fuel - j) as nat, fuel);
            assert(chain_seq(disk, l, ch[i], fuel) == chi);
            assert(chain_seq(disk, l, ch[j], fuel) == chj);
            assert(chi.len() == chj.len());
            assert(false);
        }
    }
}

/// Two images whose FAT entries agree on the clusters that the first
/// image's walk visits produce the same walk.
pub proof fn lemma_chain_congruent(d1: Seq<u8>, d2: Seq<u8>, l: Layout, c0: u32, fuel: nat)
    requires
        forall|i: int|
            0 <= i < chain_seq(d1, l, c0, fuel).len() ==> fat_entry(
                d2,
                l,
                #[trigger] chain_seq(d1, l, c0, fuel)[i] as int,
            ) == fat_entry(d1, l, chain_seq(d1, l, c0, fuel)[i] as int),
    ensures
        chain_seq(d2, l, c0, fuel) == chain_seq(d1, l, c0, fuel),
    decreases fuel,
{
    if fuel > 0 {
        let ch1 = chain_seq(d1, l, c0, fuel);
        assert(ch1[0] == c0);
        match chain_next(d1, l, c0 as int) {
            Some(n) => {
                let tail1 = chain_seq(d1, l, n, (fuel - 1) as nat);
                assert(ch1 == seq![c0] + tail1);
                assert(forall|i: int|
                    0 <= i < tail1.len() ==> #[trigger] tail1[i] == ch1[i + 1]);
                lemma_chain_congruent(d1, d2, l, n, (fuel - 1) as nat);
            },
            None => {},
        }
    }
}

/// A stateful walker over one cluster chain, able to read the FAT to
/// advance and to write it to truncate or release the chain.
pub struct ClusterIterator {
    /// The cluster whose entry the next step reads, if the walk has not
    /// ended.
    pub cluster: Option<u32>,
    /// Latched after an error; further steps return nothing.
    pub err: bool,
}

impl ClusterIterator {
    /// Starts a walk at `cluster`.
    pub fn new(cluster: u32) -> (r: ClusterIterator)
        ensures
            r.cluster == Some(cluster),
            !r.err,
    {
        ClusterIterator { cluster: Some(cluster), err: false }
    }

    /// One step: reads the entry of the current cluster and advances to its
    /// successor, yielding the successor; yields nothing at the end of the
    /// chain, and latches after an entry outside the FAT region.
    pub fn next(&mut self, fs: &FileSystem) -> (r: Option<Result<u32, Error>>)
        requires
            fs.wf(),
        ensures
            old(self).err ==> r is None && *final(self) == *old(self),
            !old(self).err ==> match old(self).cluster {
                None => r is None && *final(self) == *old(self),
                Some(c) => {
                    if !fat_entry_in_range(fs.layout, c as int) {
                        &&& r == Some(Result::<u32, Error>::Err(Error::UnexpectedEof))
                        &&& final(self).err
                        &&& final(self).cluster == Some(c)
                    } else {
                        match chain_next(fs.disk@, fs.layout, c as int) {
                            Some(n) => {
                                &&& r == Some(Result::<u32, Error>::Ok(n))
                                &&& final(self).cluster == Some(n)
                                &&& !final(self).err
                            },
                            None => {
                                &&& r is None
                                &&& final(self).cluster is None
                                &&& !final(self).err
                            },
                        }
                    }
                },
            },
    {
        if self.err {
            return None;
        }
        match self.cluster {
            Some(current) => {
                match get_next_cluster(fs, current) {
                    Ok(next) => {
                        self.cluster = next;
                    },
                    Err(e) => {
                        self.err = true;
                        return Some(Err(e));
                    },
                }
            },
            None => {},
        }
        match self.cluster {
            Some(n) => Some(Ok(n)),
            None => None,
        }
    }

    /// Walks to the end of the chain, writing `Free` to every visited
    /// cluster, the starting cluster included.
    pub fn free(&mut self, fs: &mut FileSystem) -> (r: Result<(), Error>)
        requires
            old(fs).wf(),
            !old(self).err,
            match old(self).cluster {
                Some(c0) => old(fs).layout.is_cluster(c0) && chain_wf(
                    old(fs).disk@,
                    old(fs).layout,
                    c0,
                ),
                None => true,
            },
        ensures
            final(fs).layout == old(fs).layout,
            final(fs).wf(),
            final(fs).disk@.len() == old(fs).disk@.len(),
            r is Ok,
            final(self).cluster is None,
            !final(self).err,
            match old(self).cluster {
                Some(c0) => {
                    let ch = spec_chain(old(fs).disk@, old(fs).layout, c0);
                    &&& forall|i: int|
                        0 <= i < ch.len() ==> fat_entry(
                            final(fs).disk@,
                            old(fs).layout,
                            #[trigger] ch[i] as int,
                        ) == FatValue::Free
                    &&& forall|c2: u32|
                        fat_entry_in_range(old(fs).layout, c2 as int) && !ch.contains(c2)
                            ==> fat_raw(final(fs).disk@, old(fs).layout, c2 as int) == fat_raw(
                            old(fs).disk@,
                            old(fs).layout,
                            c2 as int,
                        )
                    &&& forall|i: int|
                        0 <= i < old(fs).disk@.len() && !(old(fs).layout.fat_offset <= i < old(
                            fs,
                        ).layout.fat_offset + old(fs).layout.fat_len) ==> final(fs).disk@[i]
                            == old(fs).disk@[i]
                },
                None => final(fs).disk@ == old(fs).disk@,
            },
    {
        let ghost d0 = fs.disk@;
        let ghost l = fs.layout;
        let ghost ch = match old(self).cluster {
            Some(c0) => spec_chain(d0, l, c0),
            None => Seq::<u32>::empty(),
        };
        let ghost mut k: int = 0;
        proof {
            if old(self).cluster is Some {
                let c0 = old(self).cluster->0;
                lemma_chain_shape(d0, l, c0, (l.total_clusters + 1) as nat);
                lemma_chain_distinct(d0, l, c0);
            }
        }
        loop
            invariant
                fs.wf(),
                fs.layout == l,
                fs.disk@.len() == d0.len(),
                !self.err,
                0 <= k <= ch.len(),
                k < ch.len() ==> self.cluster == Some(ch[k]),
                k == ch.len() ==> self.cluster is None,
                old(self).cluster is None ==> ch.len() == 0 && fs.disk@ == d0,
                old(self).cluster is Some ==> {
                    &&& ch == spec_chain(d0, l, old(self).cluster->0)
                    &&& chain_wf(d0, l, old(self).cluster->0)
                    &&& ch.len() >= 1
                    &&& forall|i: int| 0 <= i < ch.len() ==> l.is_cluster(#[trigger] ch[i])
                    &&& forall|i: int, j: int| 0 <= i < j < ch.len() ==> ch[i] != ch[j]
                    &&& forall|i: int|
                        0 <= i < ch.len() - 1 ==> fat_entry(d0, l, #[trigger] ch[i] as int)
                            == FatValue::Data(ch[i + 1])
                    &&& fat_entry(d0, l, ch[ch.len() - 1] as int) == FatValue::EndOfChain
                    &&& forall|i: int|
                        0 <= i < k ==> fat_entry(fs.disk@, l, #[trigger] ch[i] as int)
                            == FatValue::Free
                    &&& forall|c2: u32|
                        fat_entry_in_range(l, c2 as int) && !ch.subrange(0, k).contains(c2)
                            ==> fat_raw(fs.disk@, l, c2 as int) == fat_raw(d0, l, c2 as int)
                    &&& forall|i: int|
                        0 <= i < d0.len() && !(l.fat_offset <= i < l.fat_offset + l.fat_len)
                            ==> fs.disk@[i] == d0[i]
                },
            ensures
                self.cluster is None,
                !self.err,
                k == ch.len(),
                fs.wf(),
                fs.layout == l,
                fs.disk@.len() == d0.len(),
                old(self).cluster is None ==> fs.disk@ == d0,
                old(self).cluster is Some ==> {
                    &&& forall|i: int|
                        0 <= i < ch.len() ==> fat_entry(fs.disk@, l, #[trigger] ch[i] as int)
                            == FatValue::Free
                    &&& forall|c2: u32|
                        fat_entry_in_range(l, c2 as int) && !ch.subrange(
                            0,
                            ch.len() as int,
                        ).contains(c2) ==> fat_raw(fs.disk@, l, c2 as int) == fat_raw(
                            d0,
                            l,
                            c2 as int,
                        )
                    &&& forall|i: int|
                        0 <= i < d0.len() && !(l.fat_offset <= i < l.fat_offset + l.fat_len)
                            ==> fs.disk@[i] == d0[i]
                },
            decreases ch.len() - k,
        {
            let n = match self.cluster {
                Some(n) => n,
                None => {
                    break ;
                },
            };
            proof {
                assert(n == ch[k]);
                lemma_cluster_entry_in_range(*fs, n);
                // The walk in the current image still reads this cluster's
                // entry unchanged.
                assert(!ch.subrange(0, k).contains(n));
                assert(fat_raw(fs.disk@, l, n as int) == fat_raw(d0, l, n as int));
            }
            let step = self.next(fs);
            proof {
                if k < ch.len() - 1 {
                    assert(fat_entry(d0, l, n as int) == FatValue::Data(ch[k + 1]));
                    assert(self.cluster == Some(ch[k + 1]));
                } else {
                    assert(fat_entry(d0, l, n as int) == FatValue::EndOfChain);
                    assert(self.cluster is None);
                }
            }
            let ghost dpre = fs.disk@;
            let wr = write_fat(fs, n, FatValue::Free);
            proof {
                assert(wr is Ok);
                k = k + 1;
                assert forall|c2: u32|
                    fat_entry_in_range(l, c2 as int) && !ch.subrange(0, k).contains(
                        c2,
                    ) implies fat_raw(fs.disk@, l, c2 as int) == fat_raw(d0, l, c2 as int) by {
                    assert(ch.subrange(0, k - 1) =~= ch.subrange(0, k).subrange(0, k - 1));
                    assert(forall|i: int|
                        0 <= i < k - 1 ==> ch.subrange(0, k - 1)[i] == #[trigger] ch.subrange(
                            0,
                            k,
                        )[i]);
                    assert(!ch.subrange(0, k - 1).contains(c2));
                    assert(ch.subrange(0, k)[k - 1] == n);
                    assert(c2 != n);
                }
                assert forall|i: int| 0 <= i < k implies fat_entry(
                    fs.disk@,
                    l,
                    #[trigger] ch[i] as int,
                ) == FatValue::Free by {
                    if i < k - 1 {
                        assert(fat_entry(dpre, l, ch[i] as int) == FatValue::Free);
                        assert(ch[i] != n);
                        lemma_cluster_entry_in_range(*fs, ch[i]);
                    }
                }
            }
        }
        proof {
            if old(self).cluster is Some {
                assert(ch.subrange(0, ch.len() as int) =~= ch);
            }
        }
        Ok(())
    }

    /// Cuts the chain after the current cluster: advances once, writes
    /// `EndOfChain` at the cluster the walk stood on, and releases the
    /// remainder of the chain.
    pub fn truncate(&mut self, fs: &mut FileSystem) -> (r: Result<(), Error>)
        requires
            old(fs).wf(),
            !old(self).err,
            match old(self).cluster {
                Some(c0) => old(fs).layout.is_cluster(c0) && chain_wf(
                    old(fs).disk@,
                    old(fs).layout,
                    c0,
                ),
                None => true,
            },
        ensures
            final(fs).layout == old(fs).layout,
            final(fs).wf(),
            final(fs).disk@.len() == old(fs).disk@.len(),
            r is Ok,
            final(self).cluster is None,
            !final(self).err,
            match old(self).cluster {
                Some(c0) => {
                    let ch = spec_chain(old(fs).disk@, old(fs).layout, c0);
                    &&& fat_entry(final(fs).disk@, old(fs).layout, c0 as int)
                        == FatValue::EndOfChain
                    &&& forall|i: int|
                        1 <= i < ch.len() ==> fat_entry(
                            final(fs).disk@,
                            old(fs).layout,
                            #[trigger] ch[i] as int,
                        ) == FatValue::Free
                    &&& forall|c2: u32|
                        fat_entry_in_range(old(fs).layout, c2 as int) && !ch.contains(c2)
                            ==> fat_raw(final(fs).disk@, old(fs).layout, c2 as int) == fat_raw(
                            old(fs).disk@,
                            old(fs).layout,
                            c2 as int,
                        )
                    &&& forall|i: int|
                        0 <= i < old(fs).disk@.len() && !(old(fs).layout.fat_offset <= i < old(
                            fs,
                        ).layout.fat_offset + old(fs).layout.fat_len) ==> final(fs).disk@[i]
                            == old(fs).disk@[i]
                },
                None => final(fs).disk@ == old(fs).disk@,
            },
    {
        let ghost d0 = fs.disk@;
        let ghost l = fs.layout;
        let n = match self.cluster {
            Some(n) => n,
            None => {
                return Ok(());
            },
        };
        let ghost ch = spec_chain(d0, l, n);
        proof {
            lemma_chain_shape(d0, l, n, (l.total_clusters + 1) as nat);
            lemma_chain_distinct(d0, l, n);
            lemma_cluster_entry_in_range(*fs, n);
        }
        let step = self.next(fs);
        let wr = write_fat(fs, n, FatValue::EndOfChain);
        proof {
            assert(wr is Ok);
        }
        let ghost d1 = fs.disk@;
        if self.cluster.is_some() {
            proof {
                assert(ch.len() > 1);
                // The rest of the chain is untouched by the end-of-chain
                // write, so it is still a well-formed chain from its head.
                assert(self.cluster == Some(ch[1]));
                lemma_chain_suffix(d0, l, n, (l.total_clusters + 1) as nat, 1);
                let tail0 = chain_seq(d0, l, ch[1], l.total_clusters as nat);
                assert(tail0 =~= ch.subrange(1, ch.len() as int));
                assert(tail0.len() < l.total_clusters as nat);
                lemma_chain_fuel(d0, l, ch[1], l.total_clusters as nat, (l.total_clusters
                    + 1) as nat);
                assert(spec_chain(d0, l, ch[1]) == tail0);
                assert forall|i: int| 0 <= i < tail0.len() implies fat_entry(
                    d1,
                    l,
                    #[trigger] tail0[i] as int,
                ) == fat_entry(d0, l, tail0[i] as int) by {
                    assert(tail0[i] == ch[i + 1]);
                    assert(ch[i + 1] != n);
                    lemma_cluster_entry_in_range(FileSystem { disk: fs.disk, layout: l }, ch[i
                        + 1]);
                }
                lemma_chain_congruent(d0, d1, l, ch[1], (l.total_clusters + 1) as nat);
                assert(spec_chain(d1, l, ch[1]) == tail0);
                assert(chain_wf(d1, l, ch[1]));
            }
            let r = self.free(fs);
            proof {
                let tail0 = spec_chain(d1, l, ch[1]);
                assert forall|i: int| 1 <= i < ch.len() implies fat_entry(
                    fs.disk@,
                    l,
                    #[trigger] ch[i] as int,
                ) == FatValue::Free by {
                    assert(tail0[i - 1] == ch[i]);
                }
                assert forall|c2: u32|
                    fat_entry_in_range(l, c2 as int) && !ch.contains(c2) implies fat_raw(
                    fs.disk@,
                    l,
                    c2 as int,
                ) == fat_raw(d0, l, c2 as int) by {
                    assert(!tail0.contains(c2)) by {
                        if tail0.contains(c2) {
                            let i = choose|i: int| 0 <= i < tail0.len() && tail0[i] == c2;
                            assert(ch[i + 1] == c2);
                        }
                    }
                    assert(c2 != n);
                }
                assert(fat_entry(fs.disk@, l, n as int) == FatValue::EndOfChain) by {
                    assert(!tail0.contains(n)) by {
                        if tail0.contains(n) {
                            let i = choose|i: int| 0 <= i < tail0.len() && tail0[i] == n;
                            assert(ch[i + 1] == n && ch[0] == n);
                        }
                    }
                    lemma_cluster_entry_in_range(FileSystem { disk: fs.disk, layout: l }, n);
                }
            }
            r
        } else {
            proof {
                assert(ch.len() == 1);
            }
            Ok(())
        }
    }
}

/// A chain of distinct valid clusters, avoiding one more valid cluster,
/// leaves room for that cluster within the volume's cluster count.
pub proof fn lemma_chain_capacity(l: Layout, ch: Seq<u32>, new: u32)
    requires
        forall|i: int, j: int| 0 <= i < j < ch.len() ==> ch[i] != ch[j],
        forall|i: int| 0 <= i < ch.len() ==> l.is_cluster(#[trigger] ch[i]),
        l.is_cluster(new),
        !ch.contains(new),
    ensures
        ch.len() + 1 <= l.total_clusters,
{
    let chi = ch.map_values(|c: u32| c as int);
    assert(chi.no_duplicates()) by {
        assert forall|i: int, j: int|
            0 <= i < chi.len() && 0 <= j < chi.len() && i != j implies chi[i] != chi[j] by {
            assert(chi[i] == ch[i] as int && chi[j] == ch[j] as int);
        }
    }
    chi.unique_seq_to_set();
    let range = vstd::set_lib::set_int_range(2, l.spec_cluster_limit());
    vstd::set_lib::lemma_int_range(2, l.spec_cluster_limit());
    assert(chi.to_set().subset_of(range)) by {
        assert forall|x: int| chi.to_set().contains(x) implies range.contains(x) by {
            let i = choose|i: int| 0 <= i < chi.len() && chi[i] == x;
            assert(chi[i] == ch[i] as int);
        }
    }
    vstd::set_lib::lemma_len_subset(chi.to_set(), range);
    let st = chi.to_set().insert(new as int);
    assert(!chi.to_set().contains(new as int)) by {
        if chi.to_set().contains(new as int) {
            let i = choose|i: int| 0 <= i < chi.len() && chi[i] == new as int;
            assert(chi[i] == ch[i] as int);
            assert(ch[i] == new);
        }
    }
    assert(st.subset_of(range));
    vstd::set_lib::lemma_len_subset(st, range);
    assert(st.len() == chi.to_set().len() + 1);
}

/// Linking a fresh end-of-chain cluster after the last cluster of a
/// well-formed chain extends the walk by exactly that cluster.
pub proof fn lemma_chain_extend(
    d0: Seq<u8>,
    d1: Seq<u8>,
    l: Layout,
    c0: u32,
    fuel: nat,
    new: u32,
)
    requires
        1 <= chain_seq(d0, l, c0, fuel).len(),
        chain_seq(d0, l, c0, fuel).len() + 2 <= fuel,
        fat_entry(d0, l, chain_seq(d0, l, c0, fuel).last() as int) == FatValue::EndOfChain,
        forall|i: int|
            0 <= i < chain_seq(d0, l, c0, fuel).len() - 1 ==> fat_entry(
                d1,
                l,
                #[trigger] chain_seq(d0, l, c0, fuel)[i] as int,
            ) == fat_entry(d0, l, chain_seq(d0, l, c0, fuel)[i] as int),
        fat_entry(d1, l, chain_seq(d0, l, c0, fuel).last() as int) == FatValue::Data(new),
        fat_entry(d1, l, new as int) == FatValue::EndOfChain,
        !chain_seq(d0, l, c0, fuel).contains(new),
    ensures
        chain_seq(d1, l, c0, fuel) == chain_seq(d0, l, c0, fuel) + seq![new],
    decreases fuel,
{
    let ch0 = chain_seq(d0, l, c0, fuel);
    lemma_chain_shape(d0, l, c0, fuel);
    if ch0.len() == 1 {
        assert(ch0.last() == c0);
        assert(chain_next(d0, l, c0 as int) is None);
        assert(chain_next(d1, l, c0 as int) == Some(new));
        assert(chain_seq(d1, l, new, (fuel - 1) as nat) == seq![new]) by {
            assert(chain_next(d1, l, new as int) is None);
        }
        assert(chain_seq(d1, l, c0, fuel) =~= ch0 + seq![new]);
    } else {
        let c1 = ch0[1];
        assert(chain_next(d0, l, c0 as int) == Some(c1));
        let tail0 = chain_seq(d0, l, c1, (fuel - 1) as nat);
        assert(ch0 == seq![c0] + tail0);
        assert(forall|i: int| 0 <= i < tail0.len() ==> #[trigger] tail0[i] == ch0[i + 1]);
        assert(tail0.last() == ch0.last());
        assert(!tail0.contains(new)) by {
            if tail0.contains(new) {
                let i = choose|i: int| 0 <= i < tail0.len() && tail0[i] == new;
                assert(ch0[i + 1] == new);
            }
        }
        lemma_chain_extend(d0, d1, l, c1, (fuel - 1) as nat, new);
        assert(fat_entry(d1, l, c0 as int) == fat_entry(d0, l, c0 as int)) by {
            assert(ch0[0] == c0);
        }
        assert(chain_next(d1, l, c0 as int) == Some(c1));
        assert(chain_seq(d1, l, c0, fuel) =~= ch0 + seq![new]);
    }
}

/// An image change that leaves the FAT region's bytes alone leaves every
/// FAT entry alone.
pub proof fn lemma_fat_region_unchanged(d0: Seq<u8>, d1: Seq<u8>, l: Layout)
    requires
        d1.len() == d0.len(),
        l.fat_offset + l.fat_len <= d0.len(),
        forall|i: int| l.fat_offset <= i < l.fat_offset + l.fat_len ==> d1[i] == d0[i],
    ensures
        forall|c: int|
            fat_entry_in_range(l, c) ==> fat_raw(d1, l, c) == fat_raw(d0, l, c) && fat_entry(
                d1,
                l,
                c,
            ) == fat_entry(d0, l, c),
{
    assert forall|c: int| fat_entry_in_range(l, c) implies fat_raw(d1, l, c) == fat_raw(
        d0,
        l,
        c,
    ) by {
        lemma_entry_end_monotone(l, c, c);
        let p = l.fat_offset + l.fat_entry_pos(c);
        assert(d1[p] == d0[p] && d1[p + 1] == d0[p + 1]);
        if l.fat_type is Fat32 {
            assert(d1[p + 2] == d0[p + 2] && d1[p + 3] == d0[p + 3]);
        }
    }
}

/// A well-formed chain survives any image change that leaves every FAT
/// entry alone.
pub proof fn lemma_chain_wf_congruent(d1: Seq<u8>, d2: Seq<u8>, l: Layout, c0: u32)
    requires
        l.wf(d1.len() as int),
        l.is_cluster(c0),
        chain_wf(d1, l, c0),
        forall|c: int| fat_entry_in_range(l, c) ==> fat_entry(d2, l, c) == fat_entry(d1, l, c),
    ensures
        spec_chain(d2, l, c0) == spec_chain(d1, l, c0),
        chain_wf(d2, l, c0),
{
    let fuel = (l.total_clusters + 1) as nat;
    let ch = spec_chain(d1, l, c0);
    assert forall|i: int| 0 <= i < ch.len() implies fat_entry(d2, l, #[trigger] ch[i] as int)
        == fat_entry(d1, l, ch[i] as int) by {
        lemma_entry_end_monotone(l, ch[i] as int, l.spec_cluster_limit() - 1);
        assert(fat_entry_in_range(l, ch[i] as int));
    }
    lemma_chain_congruent(d1, d2, l, c0, fuel);
}

/// Re-terminating a chain at the cluster in position `idx` cuts the walk
/// to exactly the first `idx + 1` clusters.
pub proof fn lemma_chain_cut(d0: Seq<u8>, d1: Seq<u8>, l: Layout, c0: u32, fuel: nat, idx: int)
    requires
        0 <= idx < chain_seq(d0, l, c0, fuel).len(),
        forall|i: int|
            0 <= i < idx ==> fat_entry(d1, l, #[trigger] chain_seq(d0, l, c0, fuel)[i] as int)
                == fat_entry(d0, l, chain_seq(d0, l, c0, fuel)[i] as int),
        fat_entry(d1, l, chain_seq(d0, l, c0, fuel)[idx] as int) == FatValue::EndOfChain,
    ensures
        chain_seq(d1, l, c0, fuel) == chain_seq(d0, l, c0, fuel).subrange(0, idx + 1),
    decreases idx,
{
    let ch0 = chain_seq(d0, l, c0, fuel);
    lemma_chain_shape(d0, l, c0, fuel);
    if idx == 0 {
        assert(fat_entry(d1, l, c0 as int) == FatValue::EndOfChain);
        assert(chain_next(d1, l, c0 as int) is None);
        assert(chain_seq(d1, l, c0, fuel) =~= ch0.subrange(0, 1));
    } else {
        let c1 = ch0[1];
        assert(fat_entry(d1, l, c0 as int) == fat_entry(d0, l, c0 as int)) by {
            assert(ch0[0] == c0);
        }
        assert(fat_entry(d0, l, c0 as int) == FatValue::Data(c1));
        let tail0 = chain_seq(d0, l, c1, (fuel - 1) as nat);
        assert(ch0 == seq![c0] + tail0);
        assert(forall|i: int| 0 <= i < tail0.len() ==> #[trigger] tail0[i] == ch0[i + 1]);
        lemma_chain_cut(d0, d1, l, c1, (fuel - 1) as nat, idx - 1);
        assert(chain_seq(d1, l, c0, fuel) =~= ch0.subrange(0, idx + 1));
    }
}

/// Writing any representable value into any cluster's entry and decoding
/// the entry again yields the value, while every other entry of the FAT
/// keeps its raw value.
pub proof fn lemma_fat_write_roundtrip(d: Seq<u8>, l: Layout, c: int, v: FatValue)
    requires
        fat_entry_in_range(l, c),
        fat_value_writable(l, v),
        l.fat_offset + l.fat_len <= d.len(),
    ensures
        fat_entry(fat_set_bytes(d, l, c, v), l, c) == v,
        forall|c2: int|
            fat_entry_in_range(l, c2) && c2 != c ==> fat_raw(fat_set_bytes(d, l, c, v), l, c2)
                == fat_raw(d, l, c2),
{
    let p = l.fat_offset + l.fat_entry_pos(c);
    match l.fat_type {
        FatType::Fat12 => {
            let raw = canonical_raw12(v);
            let w = le16(d, p);
            let packed = if c % 2 == 0 {
                (w & 0xF000) | raw
            } else {
                (w & 0x000F) | (raw << 4)
            };
            lemma_fat12_set(d, l, c, v, raw, packed);
        },
        FatType::Fat16 => {
            lemma_fat16_set(d, l, c, v);
        },
        FatType::Fat32 => {
            lemma_fat32_set(d, l, c, v);
        },
    }
}

} // verus!
