//! The 32-byte directory record: the regular (short-name) and long-file-name
//! shapes, their bit-exact little-endian codec, DOS dates and times, decoded
//! short names, and the editor through which an open file rewrites its own
//! record on disk.

use vstd::prelude::*;

use crate::codec::le16;
use crate::error::Error;
use crate::fs::{FatType, FileSystem};

verus! {

/// Size of one directory record in bytes.
pub const DIR_ENTRY_SIZE: usize = 32;

/// First-byte marker of a freed record.
pub const DIR_ENTRY_FREE_FLAG: u8 = 0xE5;

/// Attribute bit: the file may not be written.
pub const ATTR_READ_ONLY: u8 = 0x01;

/// Attribute bit: hidden entry.
pub const ATTR_HIDDEN: u8 = 0x02;

/// Attribute bit: operating-system file.
pub const ATTR_SYSTEM: u8 = 0x04;

/// Attribute bit: the record names the volume, not a file.
pub const ATTR_VOLUME_ID: u8 = 0x08;

/// Attribute bit: the entry is a directory.
pub const ATTR_DIRECTORY: u8 = 0x10;

/// Attribute bit: the file was modified since the last archive.
pub const ATTR_ARCHIVE: u8 = 0x20;

/// The attribute combination that marks a long-file-name record.
pub const ATTR_LFN: u8 = 0x0F;

/// All defined attribute bits.
pub const ATTR_MASK: u8 = 0x3F;

/// FAT file attributes: a thin wrapper over the defined attribute bits.
#[derive(Clone, Copy, Debug, PartialEq, Eq, Structural)]
pub struct FileAttributes {
    pub bits: u8,
}

impl FileAttributes {
    /// Keeps only the defined attribute bits.
    pub fn from_bits_truncate(bits: u8) -> (r: FileAttributes)
        ensures
            r.bits == bits & ATTR_MASK,
    {
        FileAttributes { bits: bits & ATTR_MASK }
    }

    /// The raw attribute byte.
    pub fn bits(&self) -> (r: u8)
        ensures
            r == self.bits,
    {
        self.bits
    }

    /// Whether every bit of `mask` is set.
    pub fn contains(&self, mask: u8) -> (r: bool)
        ensures
            r == (self.bits & mask == mask),
    {
        self.bits & mask == mask
    }
}

/// The two bytes of `v`, little-endian.
pub open spec fn le16_bytes(v: u16) -> Seq<u8> {
    seq![(v & 0xFF) as u8, ((v >> 8) & 0xFF) as u8]
}

/// The four bytes of `v`, little-endian.
pub open spec fn le32_bytes(v: u32) -> Seq<u8> {
    seq![
        (v & 0xFF) as u8,
        ((v >> 8) & 0xFF) as u8,
        ((v >> 16) & 0xFF) as u8,
        ((v >> 24) & 0xFF) as u8,
    ]
}

/// The byte at offset 11 marks a long-file-name record when its low nibble
/// holds all four of read-only, hidden, system and volume-id.
pub open spec fn is_lfn_attr_byte(b: u8) -> bool {
    b & 0x0F == 0x0F
}

/// DOS-encoded calendar date.
#[derive(Clone, Copy, Debug, PartialEq, Eq, Structural)]
pub struct Date {
    pub year: u16,
    pub month: u16,
    pub day: u16,
}

impl Date {
    /// Decodes `(year - 1980) << 9 | month << 5 | day`.
    pub fn from_u16(dos_date: u16) -> (r: Date)
        ensures
            r.year == (dos_date >> 9) + 1980,
            r.month == (dos_date >> 5) & 0xF,
            r.day == dos_date & 0x1F,
    {
        proof {
            assert(dos_date >> 9 <= 0x7F) by (bit_vector);
        }
        Date {
            year: (dos_date >> 9) + 1980,
            month: (dos_date >> 5) & 0xF,
            day: dos_date & 0x1F,
        }
    }

    /// A date representable in the packed fields.
    pub open spec fn encodable(self) -> bool {
        &&& 1980 <= self.year < 1980 + 128
        &&& self.month < 16
        &&& self.day < 32
    }

    /// Encodes `(year - 1980) << 9 | month << 5 | day`.
    pub fn to_u16(&self) -> (r: u16)
        requires
            self.encodable(),
        ensures
            r == (((self.year - 1980) as u16) << 9) | (self.month << 5) | self.day,
    {
        proof {
            let y = (self.year - 1980) as u16;
            let m = self.month;
            assert(y << 9 <= 0xFE00 && (m << 5) <= 0x1E0) by (bit_vector)
                requires
                    y < 128,
                    m < 16,
            ;
        }
        (((self.year - 1980) as u16) << 9) | (self.month << 5) | self.day
    }
}

/// DOS-encoded time of day, with two-second resolution.
#[derive(Clone, Copy, Debug, PartialEq, Eq, Structural)]
pub struct Time {
    pub hour: u16,
    pub min: u16,
    pub sec: u16,
}

impl Time {
    /// Decodes `hour << 11 | min << 5 | sec / 2`.
    pub fn from_u16(dos_time: u16) -> (r: Time)
        ensures
            r.hour == dos_time >> 11,
            r.min == (dos_time >> 5) & 0x3F,
            r.sec == (dos_time & 0x1F) * 2,
    {
        proof {
            assert(dos_time >> 11 <= 0x1F && (dos_time & 0x1F) <= 0x1F) by (bit_vector);
        }
        Time { hour: dos_time >> 11, min: (dos_time >> 5) & 0x3F, sec: (dos_time & 0x1F) * 2 }
    }

    /// A time representable in the packed fields.
    pub open spec fn encodable(self) -> bool {
        &&& self.hour < 32
        &&& self.min < 64
        &&& self.sec < 64
    }

    /// Encodes `hour << 11 | min << 5 | sec / 2`.
    pub fn to_u16(&self) -> (r: u16)
        requires
            self.encodable(),
        ensures
            r == (self.hour << 11) | (self.min << 5) | (self.sec / 2),
    {
        proof {
            let h = self.hour;
            let m = self.min;
            assert(h << 11 <= 0xF800 && m << 5 <= 0x7E0) by (bit_vector)
                requires
                    h < 32,
                    m < 64,
            ;
        }
        (self.hour << 11) | (self.min << 5) | (self.sec / 2)
    }
}

/// A DOS date and time together.
#[derive(Clone, Copy, Debug, PartialEq, Eq, Structural)]
pub struct DateTime {
    pub date: Date,
    pub time: Time,
}

impl DateTime {
    /// Decodes a date and a time word.
    pub fn from_u16(dos_date: u16, dos_time: u16) -> (r: DateTime)
        ensures
            r.date == Date::from_u16_spec(dos_date),
            r.time == Time::from_u16_spec(dos_time),
    {
        DateTime { date: Date::from_u16(dos_date), time: Time::from_u16(dos_time) }
    }
}

impl Date {
    /// The decoding of a date word.
    pub open spec fn from_u16_spec(dos_date: u16) -> Date {
        Date {
            year: ((dos_date >> 9) + 1980) as u16,
            month: (dos_date >> 5) & 0xF,
            day: dos_date & 0x1F,
        }
    }
}

impl Time {
    /// The decoding of a time word.
    pub open spec fn from_u16_spec(dos_time: u16) -> Time {
        Time {
            hour: dos_time >> 11,
            min: (dos_time >> 5) & 0x3F,
            sec: ((dos_time & 0x1F) * 2) as u16,
        }
    }
}

/// The regular (short-name) directory record.
#[derive(Clone, Copy, Debug)]
pub struct DirFileEntryData {
    pub name: [u8; 11],
    pub attrs: u8,
    pub reserved_0: u8,
    pub create_time_0: u8,
    pub create_time_1: u16,
    pub create_date: u16,
    pub access_date: u16,
    pub first_cluster_hi: u16,
    pub modify_time: u16,
    pub modify_date: u16,
    pub first_cluster_lo: u16,
    pub size: u32,
}

/// The 32 bytes of a regular record, in on-disk order.
pub open spec fn file_record_bytes(r: DirFileEntryData) -> Seq<u8> {
    r.name@ + seq![r.attrs, r.reserved_0, r.create_time_0] + le16_bytes(r.create_time_1)
        + le16_bytes(r.create_date) + le16_bytes(r.access_date) + le16_bytes(r.first_cluster_hi)
        + le16_bytes(r.modify_time) + le16_bytes(r.modify_date) + le16_bytes(r.first_cluster_lo)
        + le32_bytes(r.size)
}

/// The field equations a regular record satisfies against the 32 bytes it
/// was parsed from.
pub open spec fn file_record_parses(b: Seq<u8>, r: DirFileEntryData) -> bool {
    &&& r.name@ == b.subrange(0, 11)
    &&& r.attrs == b[11] & ATTR_MASK
    &&& r.reserved_0 == b[12]
    &&& r.create_time_0 == b[13]
    &&& r.create_time_1 == le16(b, 14)
    &&& r.create_date == le16(b, 16)
    &&& r.access_date == le16(b, 18)
    &&& r.first_cluster_hi == le16(b, 20)
    &&& r.modify_time == le16(b, 22)
    &&& r.modify_date == le16(b, 24)
    &&& r.first_cluster_lo == le16(b, 26)
    &&& r.size == crate::codec::le32(b, 28)
}

/// The cluster number stored in a record: the 16-bit low half, extended by
/// the high half on FAT32 only; zero stands for "no cluster".
pub open spec fn spec_first_cluster(r: DirFileEntryData, ft: FatType) -> Option<u32> {
    let hi: u32 = if ft is Fat32 {
        r.first_cluster_hi as u32
    } else {
        0
    };
    let n = (hi << 16) | (r.first_cluster_lo as u32);
    if n == 0 {
        None
    } else {
        Some(n)
    }
}

impl DirFileEntryData {
    /// A fresh record with the given raw name and attributes; every other
    /// field is zero.
    pub fn new(name: [u8; 11], attrs: FileAttributes) -> (r: DirFileEntryData)
        ensures
            r.name@ == name@,
            r.attrs == attrs.bits,
            r.reserved_0 == 0 && r.create_time_0 == 0 && r.create_time_1 == 0,
            r.create_date == 0 && r.access_date == 0 && r.first_cluster_hi == 0,
            r.modify_time == 0 && r.modify_date == 0 && r.first_cluster_lo == 0,
            r.size == 0,
    {
        DirFileEntryData {
            name,
            attrs: attrs.bits,
            reserved_0: 0,
            create_time_0: 0,
            create_time_1: 0,
            create_date: 0,
            access_date: 0,
            first_cluster_hi: 0,
            modify_time: 0,
            modify_date: 0,
            first_cluster_lo: 0,
            size: 0,
        }
    }

    /// The raw 11-byte name.
    pub fn name(&self) -> (r: &[u8; 11])
        ensures
            r@ == self.name@,
    {
        &self.name
    }

    /// The first cluster of the entry's chain, or `None` for an empty file.
    pub fn first_cluster(&self, fat_type: FatType) -> (r: Option<u32>)
        ensures
            r == spec_first_cluster(*self, fat_type),
    {
        let hi: u32 = if matches!(fat_type, FatType::Fat32) {
            self.first_cluster_hi as u32
        } else {
            0
        };
        proof {
            let h = hi;
            assert(h << 16 <= 0xFFFF_0000) by (bit_vector)
                requires
                    h <= 0xFFFFu32,
            ;
        }
        let n = (hi << 16) | (self.first_cluster_lo as u32);
        if n == 0 {
            None
        } else {
            Some(n)
        }
    }

    /// Stores a first cluster; the high half carries data on FAT32 only
    /// and is forced to zero on the other widths.
    pub fn set_first_cluster(&mut self, cluster: Option<u32>, fat_type: FatType)
        ensures
            *final(self) == (DirFileEntryData {
                first_cluster_hi: if fat_type is Fat32 {
                    ((cluster.unwrap_or(0) >> 16) & 0xFFFF) as u16
                } else {
                    0
                },
                first_cluster_lo: (cluster.unwrap_or(0) & 0xFFFF) as u16,
                ..*old(self)
            }),
    {
        let n = match cluster {
            Some(n) => n,
            None => 0,
        };
        if matches!(fat_type, FatType::Fat32) {
            self.first_cluster_hi = ((n >> 16) & 0xFFFF) as u16;
        } else {
            self.first_cluster_hi = 0;
        }
        self.first_cluster_lo = (n & 0xFFFF) as u16;
    }

    /// The stored size for a regular file; directories carry no size.
    pub fn size(&self) -> (r: Option<u32>)
        ensures
            r == if self.attrs & ATTR_DIRECTORY == 0 {
                Some(self.size)
            } else {
                None::<u32>
            },
    {
        if self.is_file() {
            Some(self.size)
        } else {
            None
        }
    }

    /// Overwrites the stored size.
    pub fn set_size(&mut self, size: u32)
        ensures
            *final(self) == (DirFileEntryData { size, ..*old(self) }),
    {
        self.size = size;
    }

    /// Whether the directory attribute bit is set.
    pub fn is_dir(&self) -> (r: bool)
        ensures
            r == (self.attrs & ATTR_DIRECTORY != 0),
    {
        self.attrs & ATTR_DIRECTORY != 0
    }

    /// Whether the record names a regular file.
    pub fn is_file(&self) -> (r: bool)
        ensures
            r == (self.attrs & ATTR_DIRECTORY == 0),
    {
        !self.is_dir()
    }

    /// The creation stamp.
    pub fn created(&self) -> (r: DateTime)
        ensures
            r.date == Date::from_u16_spec(self.create_date),
            r.time == Time::from_u16_spec(self.create_time_1),
    {
        DateTime::from_u16(self.create_date, self.create_time_1)
    }

    /// The last-access date.
    pub fn accessed(&self) -> (r: Date)
        ensures
            r == Date::from_u16_spec(self.access_date),
    {
        Date::from_u16(self.access_date)
    }

    /// The last-modification stamp.
    pub fn modified(&self) -> (r: DateTime)
        ensures
            r.date == Date::from_u16_spec(self.modify_date),
            r.time == Time::from_u16_spec(self.modify_time),
    {
        DateTime::from_u16(self.modify_date, self.modify_time)
    }

    /// Stores a creation stamp.
    pub fn set_created(&mut self, date_time: DateTime)
        requires
            date_time.date.encodable(),
            date_time.time.encodable(),
        ensures
            *final(self) == (DirFileEntryData {
                create_date: (((date_time.date.year - 1980) as u16) << 9) | (date_time.date.month
                    << 5) | date_time.date.day,
                create_time_1: (date_time.time.hour << 11) | (date_time.time.min << 5) | (
                date_time.time.sec / 2),
                ..*old(self)
            }),
    {
        self.create_date = date_time.date.to_u16();
        self.create_time_1 = date_time.time.to_u16();
    }

    /// Stores a last-access date.
    pub fn set_accessed(&mut self, date: Date)
        requires
            date.encodable(),
        ensures
            *final(self) == (DirFileEntryData {
                access_date: (((date.year - 1980) as u16) << 9) | (date.month << 5) | date.day,
                ..*old(self)
            }),
    {
        self.access_date = date.to_u16();
    }

    /// Stores a modification stamp.
    pub fn set_modified(&mut self, date_time: DateTime)
        requires
            date_time.date.encodable(),
            date_time.time.encodable(),
        ensures
            *final(self) == (DirFileEntryData {
                modify_date: (((date_time.date.year - 1980) as u16) << 9) | (date_time.date.month
                    << 5) | date_time.date.day,
                modify_time: (date_time.time.hour << 11) | (date_time.time.min << 5) | (
                date_time.time.sec / 2),
                ..*old(self)
            }),
    {
        self.modify_date = date_time.date.to_u16();
        self.modify_time = date_time.time.to_u16();
    }

    /// The caller controls timestamps; creating a record stamps nothing.
    pub fn reset_created(&mut self)
        ensures
            *final(self) == *old(self),
    {
    }

    /// The caller controls timestamps; access stamps nothing.
    pub fn reset_accessed(&mut self) -> (r: bool)
        ensures
            *final(self) == *old(self),
            r == false,
    {
        false
    }

    /// The caller controls timestamps; modification stamps nothing.
    pub fn reset_modified(&mut self)
        ensures
            *final(self) == *old(self),
    {
    }

    /// The 32 on-disk bytes of the record.
    pub fn serialize(&self) -> (r: Vec<u8>)
        ensures
            r@ == file_record_bytes(*self),
    {
        let mut out: Vec<u8> = Vec::new();
        let mut i: usize = 0;
        while i < 11
            invariant
                0 <= i <= 11,
                out@ == self.name@.subrange(0, i as int),
            decreases 11 - i,
        {
            out.push(self.name[i]);
            proof {
                assert(out@ =~= self.name@.subrange(0, i + 1));
            }
            i = i + 1;
        }
        out.push(self.attrs);
        out.push(self.reserved_0);
        out.push(self.create_time_0);
        push_u16_le(&mut out, self.create_time_1);
        push_u16_le(&mut out, self.create_date);
        push_u16_le(&mut out, self.access_date);
        push_u16_le(&mut out, self.first_cluster_hi);
        push_u16_le(&mut out, self.modify_time);
        push_u16_le(&mut out, self.modify_date);
        push_u16_le(&mut out, self.first_cluster_lo);
        push_u32_le(&mut out, self.size);
        proof {
            assert(self.name@.subrange(0, 11) =~= self.name@);
            assert(out@ =~= file_record_bytes(*self));
        }
        out
    }

    /// Whether the record was freed.
    pub fn is_free(&self) -> (r: bool)
        ensures
            r == (self.name@[0] == DIR_ENTRY_FREE_FLAG),
    {
        self.name[0] == DIR_ENTRY_FREE_FLAG
    }

    /// Marks the record freed.
    pub fn set_free(&mut self)
        ensures
            final(self).name@ == old(self).name@.update(0, DIR_ENTRY_FREE_FLAG),
            *final(self) == (DirFileEntryData { name: final(self).name, ..*old(self) }),
    {
        self.name[0] = DIR_ENTRY_FREE_FLAG;
    }

    /// Whether the record marks the end of the directory.
    pub fn is_end(&self) -> (r: bool)
        ensures
            r == (self.name@[0] == 0),
    {
        self.name[0] == 0
    }

    /// Whether the record names the volume.
    pub fn is_volume(&self) -> (r: bool)
        ensures
            r == (self.attrs & ATTR_VOLUME_ID != 0),
    {
        self.attrs & ATTR_VOLUME_ID != 0
    }
}

/// Appends the two little-endian bytes of `v`.
fn push_u16_le(out: &mut Vec<u8>, v: u16)
    ensures
        final(out)@ == old(out)@ + le16_bytes(v),
{
    out.push((v & 0xFF) as u8);
    out.push(((v >> 8) & 0xFF) as u8);
    proof {
        assert(final(out)@ =~= old(out)@ + le16_bytes(v));
    }
}

/// Appends the four little-endian bytes of `v`.
fn push_u32_le(out: &mut Vec<u8>, v: u32)
    ensures
        final(out)@ == old(out)@ + le32_bytes(v),
{
    out.push((v & 0xFF) as u8);
    out.push(((v >> 8) & 0xFF) as u8);
    out.push(((v >> 16) & 0xFF) as u8);
    out.push(((v >> 24) & 0xFF) as u8);
    proof {
        assert(final(out)@ =~= old(out)@ + le32_bytes(v));
    }
}


impl DirFileEntryData {
    /// The decoded creation stamp.
    pub open spec fn created_spec(self) -> DateTime {
        DateTime {
            date: Date::from_u16_spec(self.create_date),
            time: Time::from_u16_spec(self.create_time_1),
        }
    }

    /// The decoded access date.
    pub open spec fn accessed_spec(self) -> Date {
        Date::from_u16_spec(self.access_date)
    }

    /// The decoded modification stamp.
    pub open spec fn modified_spec(self) -> DateTime {
        DateTime {
            date: Date::from_u16_spec(self.modify_date),
            time: Time::from_u16_spec(self.modify_time),
        }
    }
}

/// The long-file-name directory record.
#[derive(Clone, Copy, Debug)]
pub struct DirLfnEntryData {
    pub order: u8,
    pub name_0: [u16; 5],
    pub attrs: u8,
    pub entry_type: u8,
    pub checksum: u8,
    pub name_1: [u16; 6],
    pub reserved_0: u16,
    pub name_2: [u16; 2],
}

/// The 32 bytes of a long-file-name record, in on-disk order.
pub open spec fn lfn_record_bytes(r: DirLfnEntryData) -> Seq<u8> {
    seq![r.order] + le16_bytes(r.name_0@[0]) + le16_bytes(r.name_0@[1]) + le16_bytes(
        r.name_0@[2],
    ) + le16_bytes(r.name_0@[3]) + le16_bytes(r.name_0@[4]) + seq![
        r.attrs,
        r.entry_type,
        r.checksum,
    ] + le16_bytes(r.name_1@[0]) + le16_bytes(r.name_1@[1]) + le16_bytes(r.name_1@[2])
        + le16_bytes(r.name_1@[3]) + le16_bytes(r.name_1@[4]) + le16_bytes(r.name_1@[5])
        + le16_bytes(r.reserved_0) + le16_bytes(r.name_2@[0]) + le16_bytes(r.name_2@[1])
}

/// The field equations a long-file-name record satisfies against the 32
/// bytes it was parsed from.
pub open spec fn lfn_record_parses(b: Seq<u8>, r: DirLfnEntryData) -> bool {
    &&& r.order == b[0]
    &&& forall|i: int| 0 <= i < 5 ==> #[trigger] r.name_0@[i] == le16(b, 1 + 2 * i)
    &&& r.attrs == b[11] & ATTR_MASK
    &&& r.entry_type == b[12]
    &&& r.checksum == b[13]
    &&& forall|i: int| 0 <= i < 6 ==> #[trigger] r.name_1@[i] == le16(b, 14 + 2 * i)
    &&& r.reserved_0 == le16(b, 26)
    &&& forall|i: int| 0 <= i < 2 ==> #[trigger] r.name_2@[i] == le16(b, 28 + 2 * i)
}

impl DirLfnEntryData {
    /// The 32 on-disk bytes of the record.
    pub fn serialize(&self) -> (r: Vec<u8>)
        ensures
            r@ == lfn_record_bytes(*self),
    {
        let mut out: Vec<u8> = Vec::new();
        out.push(self.order);
        push_u16_le(&mut out, self.name_0[0]);
        push_u16_le(&mut out, self.name_0[1]);
        push_u16_le(&mut out, self.name_0[2]);
        push_u16_le(&mut out, self.name_0[3]);
        push_u16_le(&mut out, self.name_0[4]);
        out.push(self.attrs);
        out.push(self.entry_type);
        out.push(self.checksum);
        push_u16_le(&mut out, self.name_1[0]);
        push_u16_le(&mut out, self.name_1[1]);
        push_u16_le(&mut out, self.name_1[2]);
        push_u16_le(&mut out, self.name_1[3]);
        push_u16_le(&mut out, self.name_1[4]);
        push_u16_le(&mut out, self.name_1[5]);
        push_u16_le(&mut out, self.reserved_0);
        push_u16_le(&mut out, self.name_2[0]);
        push_u16_le(&mut out, self.name_2[1]);
        proof {
            assert(out@ =~= lfn_record_bytes(*self));
        }
        out
    }

    /// Whether the record was freed.
    pub fn is_free(&self) -> (r: bool)
        ensures
            r == (self.order == DIR_ENTRY_FREE_FLAG),
    {
        self.order == DIR_ENTRY_FREE_FLAG
    }

    /// Marks the record freed.
    pub fn set_free(&mut self)
        ensures
            *final(self) == (DirLfnEntryData { order: DIR_ENTRY_FREE_FLAG, ..*old(self) }),
    {
        self.order = DIR_ENTRY_FREE_FLAG;
    }

    /// Whether the record marks the end of the directory.
    pub fn is_end(&self) -> (r: bool)
        ensures
            r == (self.order == 0),
    {
        self.order == 0
    }
}

/// One directory record of either shape, told apart by the attribute byte.
#[derive(Clone, Copy, Debug)]
pub enum DirEntryData {
    File(DirFileEntryData),
    Lfn(DirLfnEntryData),
}

impl DirEntryData {
    /// The 32 on-disk bytes of the record.
    pub fn serialize(&self) -> (r: Vec<u8>)
        ensures
            r@ == match *self {
                DirEntryData::File(f) => file_record_bytes(f),
                DirEntryData::Lfn(l) => lfn_record_bytes(l),
            },
    {
        match self {
            DirEntryData::File(f) => f.serialize(),
            DirEntryData::Lfn(l) => l.serialize(),
        }
    }

    /// Parses one 32-byte record: a long-file-name record when the low
    /// nibble of the attribute byte is the long-file-name mask, a regular
    /// record otherwise.
    pub fn deserialize(b: &Vec<u8>) -> (r: DirEntryData)
        requires
            b@.len() == 32,
        ensures
            is_lfn_attr_byte(b@[11]) ==> r is Lfn && lfn_record_parses(b@, r->Lfn_0),
            !is_lfn_attr_byte(b@[11]) ==> r is File && file_record_parses(b@, r->File_0),
    {
        let attr_byte = b[11];
        if attr_byte & 0x0F == 0x0F {
            let mut name_0 = [0u16; 5];
            let mut name_1 = [0u16; 6];
            let mut name_2 = [0u16; 2];
            let mut i: usize = 0;
            while i < 5
                invariant
                    b@.len() == 32,
                    0 <= i <= 5,
                    forall|j: int| 0 <= j < i ==> #[trigger] name_0@[j] == le16(b@, 1 + 2 * j),
                decreases 5 - i,
            {
                name_0[i] = crate::codec::get_u16_le(b, 1 + 2 * i);
                i = i + 1;
            }
            let mut i: usize = 0;
            while i < 6
                invariant
                    b@.len() == 32,
                    0 <= i <= 6,
                    forall|j: int| 0 <= j < i ==> #[trigger] name_1@[j] == le16(b@, 14 + 2 * j),
                decreases 6 - i,
            {
                name_1[i] = crate::codec::get_u16_le(b, 14 + 2 * i);
                i = i + 1;
            }
            let mut i: usize = 0;
            while i < 2
                invariant
                    b@.len() == 32,
                    0 <= i <= 2,
                    forall|j: int| 0 <= j < i ==> #[trigger] name_2@[j] == le16(b@, 28 + 2 * j),
                decreases 2 - i,
            {
                name_2[i] = crate::codec::get_u16_le(b, 28 + 2 * i);
                i = i + 1;
            }
            DirEntryData::Lfn(
                DirLfnEntryData {
                    order: b[0],
                    name_0,
                    attrs: attr_byte & ATTR_MASK,
                    entry_type: b[12],
                    checksum: b[13],
                    name_1,
                    reserved_0: crate::codec::get_u16_le(b, 26),
                    name_2,
                },
            )
        } else {
            let mut name = [0u8; 11];
            let mut i: usize = 0;
            while i < 11
                invariant
                    b@.len() == 32,
                    0 <= i <= 11,
                    forall|j: int| 0 <= j < i ==> #[trigger] name@[j] == b@[j],
                decreases 11 - i,
            {
                name[i] = b[i];
                i = i + 1;
            }
            proof {
                assert(name@ =~= b@.subrange(0, 11));
            }
            DirEntryData::File(
                DirFileEntryData {
                    name,
                    attrs: attr_byte & ATTR_MASK,
                    reserved_0: b[12],
                    create_time_0: b[13],
                    create_time_1: crate::codec::get_u16_le(b, 14),
                    create_date: crate::codec::get_u16_le(b, 16),
                    access_date: crate::codec::get_u16_le(b, 18),
                    first_cluster_hi: crate::codec::get_u16_le(b, 20),
                    modify_time: crate::codec::get_u16_le(b, 22),
                    modify_date: crate::codec::get_u16_le(b, 24),
                    first_cluster_lo: crate::codec::get_u16_le(b, 26),
                    size: crate::codec::get_u32_le(b, 28),
                },
            )
        }
    }

    /// Whether the record was freed.
    pub fn is_free(&self) -> (r: bool)
        ensures
            r == match *self {
                DirEntryData::File(f) => f.name@[0] == DIR_ENTRY_FREE_FLAG,
                DirEntryData::Lfn(l) => l.order == DIR_ENTRY_FREE_FLAG,
            },
    {
        match self {
            DirEntryData::File(f) => f.is_free(),
            DirEntryData::Lfn(l) => l.is_free(),
        }
    }

    /// Marks the record freed.
    pub fn set_free(&mut self)
        ensures
            match *old(self) {
                DirEntryData::File(f) => {
                    &&& *final(self) is File
                    &&& final(self)->File_0 == (DirFileEntryData {
                        name: final(self)->File_0.name,
                        ..f
                    })
                    &&& final(self)->File_0.name@ == f.name@.update(0, DIR_ENTRY_FREE_FLAG)
                },
                DirEntryData::Lfn(l) => *final(self) == DirEntryData::Lfn(
                    DirLfnEntryData { order: DIR_ENTRY_FREE_FLAG, ..l },
                ),
            },
    {
        match self {
            DirEntryData::File(f) => f.set_free(),
            DirEntryData::Lfn(l) => l.set_free(),
        }
    }

    /// Whether the record marks the end of the directory.
    pub fn is_end(&self) -> (r: bool)
        ensures
            r == match *self {
                DirEntryData::File(f) => f.name@[0] == 0,
                DirEntryData::Lfn(l) => l.order == 0,
            },
    {
        match self {
            DirEntryData::File(f) => f.is_end(),
            DirEntryData::Lfn(l) => l.is_end(),
        }
    }
}

/// Reading back the two little-endian bytes of `v` yields `v`.
proof fn lemma_le16_bytes_decode(v: u16)
    ensures
        (((v & 0xFF) as u8) as u16) | (((((v >> 8) & 0xFF) as u8) as u16) << 8) == v,
{
    assert((((v & 0xFF) as u8) as u16) | (((((v >> 8) & 0xFF) as u8) as u16) << 8) == v)
        by (bit_vector);
}

/// Reading back the four little-endian bytes of `v` yields `v`.
proof fn lemma_le32_bytes_decode(v: u32)
    ensures
        (((v & 0xFF) as u8) as u32) | (((((v >> 8) & 0xFF) as u8) as u32) << 8) | (((((v >> 16)
            & 0xFF) as u8) as u32) << 16) | (((((v >> 24) & 0xFF) as u8) as u32) << 24) == v,
{
    assert((((v & 0xFF) as u8) as u32) | (((((v >> 8) & 0xFF) as u8) as u32) << 8) | (((((v
        >> 16) & 0xFF) as u8) as u32) << 16) | (((((v >> 24) & 0xFF) as u8) as u32) << 24) == v)
        by (bit_vector);
}

/// Serializing a regular record and parsing the bytes again yields the very
/// same record, and no other record parses from those bytes.
pub proof fn lemma_file_record_roundtrip(r: DirFileEntryData)
    requires
        r.attrs & ATTR_MASK == r.attrs,
        !is_lfn_attr_byte(r.attrs),
    ensures
        file_record_bytes(r).len() == 32,
        !is_lfn_attr_byte(file_record_bytes(r)[11]),
        file_record_parses(file_record_bytes(r), r),
        forall|r2: DirFileEntryData|
            file_record_parses(file_record_bytes(r), r2) ==> r2 == r,
{
    broadcast use vstd::array::group_array_axioms;

    let b = file_record_bytes(r);
    assert(b.subrange(0, 11) =~= r.name@);
    lemma_le16_bytes_decode(r.create_time_1);
    lemma_le16_bytes_decode(r.create_date);
    lemma_le16_bytes_decode(r.access_date);
    lemma_le16_bytes_decode(r.first_cluster_hi);
    lemma_le16_bytes_decode(r.modify_time);
    lemma_le16_bytes_decode(r.modify_date);
    lemma_le16_bytes_decode(r.first_cluster_lo);
    lemma_le32_bytes_decode(r.size);
    assert(file_record_parses(b, r));
    assert forall|r2: DirFileEntryData| file_record_parses(b, r2) implies r2 == r by {
        assert(r2.name@ =~= r.name@);
        assert(r2.name == r.name);
    }
}

/// Serializing a long-file-name record and parsing the bytes again yields
/// the very same record, and no other record parses from those bytes.
pub proof fn lemma_lfn_record_roundtrip(r: DirLfnEntryData)
    requires
        r.attrs & ATTR_MASK == r.attrs,
        is_lfn_attr_byte(r.attrs),
    ensures
        lfn_record_bytes(r).len() == 32,
        is_lfn_attr_byte(lfn_record_bytes(r)[11]),
        lfn_record_parses(lfn_record_bytes(r), r),
        forall|r2: DirLfnEntryData| lfn_record_parses(lfn_record_bytes(r), r2) ==> r2 == r,
{
    broadcast use vstd::array::group_array_axioms;

    let b = lfn_record_bytes(r);
    lemma_le16_bytes_decode(r.name_0@[0]);
    lemma_le16_bytes_decode(r.name_0@[1]);
    lemma_le16_bytes_decode(r.name_0@[2]);
    lemma_le16_bytes_decode(r.name_0@[3]);
    lemma_le16_bytes_decode(r.name_0@[4]);
    lemma_le16_bytes_decode(r.name_1@[0]);
    lemma_le16_bytes_decode(r.name_1@[1]);
    lemma_le16_bytes_decode(r.name_1@[2]);
    lemma_le16_bytes_decode(r.name_1@[3]);
    lemma_le16_bytes_decode(r.name_1@[4]);
    lemma_le16_bytes_decode(r.name_1@[5]);
    lemma_le16_bytes_decode(r.reserved_0);
    lemma_le16_bytes_decode(r.name_2@[0]);
    lemma_le16_bytes_decode(r.name_2@[1]);
    assert forall|i: int| 0 <= i < 5 implies #[trigger] r.name_0@[i] == le16(b, 1 + 2 * i) by {
        assert(b[1 + 2 * i] == le16_bytes(r.name_0@[i])[0]);
        assert(b[2 + 2 * i] == le16_bytes(r.name_0@[i])[1]);
    }
    assert forall|i: int| 0 <= i < 6 implies #[trigger] r.name_1@[i] == le16(b, 14 + 2 * i) by {
        assert(b[14 + 2 * i] == le16_bytes(r.name_1@[i])[0]);
        assert(b[15 + 2 * i] == le16_bytes(r.name_1@[i])[1]);
    }
    assert forall|i: int| 0 <= i < 2 implies #[trigger] r.name_2@[i] == le16(b, 28 + 2 * i) by {
        assert(b[28 + 2 * i] == le16_bytes(r.name_2@[i])[0]);
        assert(b[29 + 2 * i] == le16_bytes(r.name_2@[i])[1]);
    }
    assert(lfn_record_parses(b, r));
    assert forall|r2: DirLfnEntryData| lfn_record_parses(b, r2) implies r2 == r by {
        assert(r2.name_0@ =~= r.name_0@);
        assert(r2.name_1@ =~= r.name_1@);
        assert(r2.name_2@ =~= r.name_2@);
        assert(r2.name_0 == r.name_0 && r2.name_1 == r.name_1 && r2.name_2 == r.name_2);
    }
}

/// The number of leading bytes of `s` before the first space-padding byte.
pub open spec fn until_space(s: Seq<u8>) -> int
    decreases s.len(),
{
    if s.len() == 0 {
        0
    } else if s[0] == 0x20 {
        0
    } else {
        1 + until_space(s.drop_first())
    }
}

/// `until_space` names the first space of `s`, or its whole length.
pub proof fn lemma_until_space(s: Seq<u8>)
    ensures
        0 <= until_space(s) <= s.len(),
        forall|j: int| 0 <= j < until_space(s) ==> s[j] != 0x20,
        until_space(s) < s.len() ==> s[until_space(s)] == 0x20,
    decreases s.len(),
{
    if s.len() > 0 && s[0] != 0x20 {
        lemma_until_space(s.drop_first());
        assert forall|j: int| 0 <= j < until_space(s) implies s[j] != 0x20 by {
            if j > 0 {
                assert(s.drop_first()[j - 1] == s[j]);
                assert(s.drop_first()[j - 1] != 0x20);
            }
        }
        if until_space(s) < s.len() {
            assert(s.drop_first()[until_space(s) - 1] == s[until_space(s)]);
        }
    }
}

/// Replaces a byte outside the ASCII range with `?`.
pub open spec fn ascii_clean(b: u8) -> u8 {
    if b >= 0x80 {
        0x3F
    } else {
        b
    }
}

/// The presentation form of a raw 11-byte name: the base up to its space
/// padding, a dot and the extension when one is present, all bytes outside
/// the ASCII range replaced with `?`.
pub open spec fn decoded_short_name(raw: Seq<u8>) -> Seq<u8> {
    let nl = until_space(raw.subrange(0, 8));
    let el = until_space(raw.subrange(8, 11));
    let base = raw.subrange(0, nl).map_values(|b: u8| ascii_clean(b));
    if el > 0 {
        base + seq![0x2Eu8] + raw.subrange(8, 8 + el).map_values(|b: u8| ascii_clean(b))
    } else {
        base
    }
}

/// A decoded short file name: up to eight base bytes, a dot and up to three
/// extension bytes, ASCII only.
#[derive(Clone, Copy, Debug)]
pub struct ShortName {
    pub name: [u8; 12],
    pub len: u8,
}

impl ShortName {
    /// The bytes of the decoded name.
    pub open spec fn spec_str_bytes(self) -> Seq<u8> {
        self.name@.subrange(0, self.len as int)
    }

    /// Decodes a raw 11-byte name for presentation.
    pub fn new(raw_name: &[u8; 11]) -> (r: ShortName)
        ensures
            r.len <= 12,
            r.spec_str_bytes() == decoded_short_name(raw_name@),
    {
        proof {
            lemma_until_space(raw_name@.subrange(0, 8));
            lemma_until_space(raw_name@.subrange(8, 11));
        }
        let mut name = [0x20u8; 12];
        // Length of the base name: up to the first space of the first eight
        // bytes.
        let mut name_len: usize = 8;
        let mut i: usize = 0;
        while i < 8
            invariant
                0 <= i <= 8,
                name_len <= 8,
                name_len == 8 ==> forall|j: int| 0 <= j < i ==> raw_name@[j] != 0x20,
                name_len < 8 ==> name_len < i && raw_name@[name_len as int] == 0x20
                    && forall|j: int| 0 <= j < name_len ==> raw_name@[j] != 0x20,
            decreases 8 - i,
        {
            if raw_name[i] == 0x20 && name_len == 8 {
                name_len = i;
            }
            i = i + 1;
        }
        proof {
            let sub = raw_name@.subrange(0, 8);
            let us = until_space(sub);
            assert(forall|j: int| 0 <= j < 8 ==> sub[j] == raw_name@[j]);
            if name_len < 8 {
                if us < name_len {
                    assert(sub[us] == 0x20);
                    assert(false);
                }
                if us > name_len {
                    assert(sub[name_len as int] != 0x20);
                    assert(false);
                }
            } else {
                if us < 8 {
                    assert(sub[us] == 0x20);
                    assert(sub[us] == raw_name@[us]);
                    assert(raw_name@[us] != 0x20);
                    assert(false);
                }
            }
            assert(name_len == us);
        }
        let mut ext_len: usize = 3;
        let mut i: usize = 0;
        while i < 3
            invariant
                0 <= i <= 3,
                ext_len <= 3,
                ext_len == 3 ==> forall|j: int|
                    0 <= j < i ==> #[trigger] raw_name@[8 + j] != 0x20,
                ext_len < 3 ==> ext_len < i && raw_name@[8 + ext_len] == 0x20 && forall|j: int|
                    0 <= j < ext_len ==> #[trigger] raw_name@[8 + j] != 0x20,
            decreases 3 - i,
        {
            if raw_name[8 + i] == 0x20 && ext_len == 3 {
                ext_len = i;
            }
            i = i + 1;
        }
        proof {
            let sub = raw_name@.subrange(8, 11);
            let us = until_space(sub);
            assert(forall|j: int| 0 <= j < 3 ==> sub[j] == raw_name@[8 + j]);
            if ext_len < 3 {
                if us < ext_len {
                    assert(sub[us] == 0x20);
                    assert(false);
                }
                if us > ext_len {
                    assert(sub[ext_len as int] != 0x20);
                    assert(false);
                }
            } else {
                if us < 3 {
                    assert(sub[us] == 0x20);
                    assert(false);
                }
            }
            assert(ext_len == us);
        }
        let mut i: usize = 0;
        while i < name_len
            invariant
                0 <= i <= name_len <= 8,
                forall|j: int|
                    0 <= j < i ==> #[trigger] name@[j] == ascii_clean(raw_name@[j]),
            decreases name_len - i,
        {
            name[i] = clean_byte(raw_name[i]);
            i = i + 1;
        }
        let total_len: usize = if ext_len > 0 {
            name[name_len] = 0x2E;
            let mut i: usize = 0;
            while i < ext_len
                invariant
                    0 <= i <= ext_len <= 3,
                    name_len <= 8,
                    forall|j: int|
                        0 <= j < name_len ==> #[trigger] name@[j] == ascii_clean(raw_name@[j]),
                    name@[name_len as int] == 0x2E,
                    forall|j: int|
                        0 <= j < i ==> #[trigger] name@[name_len + 1 + j] == ascii_clean(
                            raw_name@[8 + j],
                        ),
                decreases ext_len - i,
            {
                name[name_len + 1 + i] = clean_byte(raw_name[8 + i]);
                i = i + 1;
            }
            name_len + 1 + ext_len
        } else {
            name_len
        };
        let r = ShortName { name, len: total_len as u8 };
        proof {
            let dec = decoded_short_name(raw_name@);
            let nl = name_len as int;
            let el = ext_len as int;
            assert(dec.len() == if el > 0 {
                nl + 1 + el
            } else {
                nl
            });
            assert forall|i: int| 0 <= i < dec.len() implies r.name@[i] == dec[i] by {
                if el > 0 {
                    if i < nl {
                        assert(dec[i] == ascii_clean(raw_name@.subrange(0, nl)[i]));
                        assert(name@[i] == ascii_clean(raw_name@[i]));
                    } else if i == nl {
                        assert(dec[i] == 0x2E);
                        assert(name@[nl] == 0x2E);
                    } else {
                        let j = i - nl - 1;
                        assert(dec[i] == ascii_clean(raw_name@.subrange(8, 8 + el)[j]));
                        assert(name@[name_len + 1 + j] == ascii_clean(raw_name@[8 + j]));
                    }
                } else {
                    assert(dec[i] == ascii_clean(raw_name@.subrange(0, nl)[i]));
                    assert(name@[i] == ascii_clean(raw_name@[i]));
                }
            }
            assert(r.spec_str_bytes() =~= dec);
        }
        r
    }

    /// The decoded name as a string.
    pub fn to_string(&self) -> (r: String)
        requires
            self.len <= 12,
        ensures
            r@.len() == self.spec_str_bytes().len(),
            forall|i: int|
                0 <= i < r@.len() ==> r@[i] == #[trigger] self.spec_str_bytes()[i] as char,
    {
        let mut out = String::new();
        let n = self.len as usize;
        let mut i: usize = 0;
        while i < n
            invariant
                n == self.len as int,
                self.len <= 12,
                0 <= i <= n,
                out@.len() == i,
                forall|j: int|
                    0 <= j < i ==> out@[j] == #[trigger] self.name@.subrange(0, n as int)[j]
                        as char,
            decreases n - i,
        {
            out.push(self.name[i] as char);
            i = i + 1;
        }
        out
    }
}

/// Relies on String::push: appends exactly the one character to the end of
/// the string.
pub assume_specification[ String::push ](s: &mut String, ch: char)
    ensures
        final(s)@ == old(s)@.push(ch),
;

/// Replaces a byte outside the ASCII range with `?`.
fn clean_byte(b: u8) -> (r: u8)
    ensures
        r == ascii_clean(b),
{
    if b >= 0x80 {
        0x3F
    } else {
        b
    }
}

/// A by-value copy of a file's directory record together with its absolute
/// position on the volume; an open file mutates the copy and flushes it
/// back as one 32-byte write.
#[derive(Clone, Copy, Debug)]
pub struct DirEntryEditor {
    pub data: DirFileEntryData,
    pub pos: usize,
    pub dirty: bool,
}

impl DirEntryEditor {
    /// An editor over the record at absolute byte position `pos`.
    pub fn new(data: DirFileEntryData, pos: usize) -> (r: DirEntryEditor)
        ensures
            r.data == data,
            r.pos == pos,
            !r.dirty,
    {
        DirEntryEditor { data, pos, dirty: false }
    }

    /// The record as currently cached.
    pub fn inner(&self) -> (r: &DirFileEntryData)
        ensures
            *r == self.data,
    {
        &self.data
    }

    /// Updates the cached first cluster, marking the editor dirty only on a
    /// change.
    pub fn set_first_cluster(&mut self, first_cluster: Option<u32>, fat_type: FatType)
        requires
            match first_cluster {
                Some(n) => n != 0 && (fat_type is Fat32 || n <= 0xFFFF),
                None => true,
            },
        ensures
            spec_first_cluster(final(self).data, fat_type) == first_cluster,
            final(self).pos == old(self).pos,
            final(self).data == (DirFileEntryData {
                first_cluster_hi: final(self).data.first_cluster_hi,
                first_cluster_lo: final(self).data.first_cluster_lo,
                ..old(self).data
            }),
            final(self).dirty == (old(self).dirty || spec_first_cluster(
                old(self).data,
                fat_type,
            ) != first_cluster),
    {
        let current = self.data.first_cluster(fat_type);
        let same = match (first_cluster, current) {
            (Some(a), Some(b)) => a == b,
            (None, None) => true,
            _ => false,
        };
        if !same {
            self.data.set_first_cluster(first_cluster, fat_type);
            self.dirty = true;
            proof {
                let n = first_cluster.unwrap_or(0);
                assert(((n >> 16) & 0xFFFF) << 16 | (n & 0xFFFF) == n && ((n & 0xFFFF) as u16
                    as u32) == n & 0xFFFF && (((n >> 16) & 0xFFFF) as u16 as u32) == (n >> 16)
                    & 0xFFFF) by (bit_vector);
                if !(fat_type is Fat32) {
                    assert((0u32 << 16) | (n & 0xFFFF) == n) by (bit_vector)
                        requires
                            n <= 0xFFFFu32,
                    ;
                }
            }
        }
    }

    /// Updates the cached size of a regular file, marking the editor dirty
    /// only on a change; directories carry no size and are left alone.
    pub fn set_size(&mut self, size: u32)
        ensures
            final(self).pos == old(self).pos,
            if old(self).data.attrs & ATTR_DIRECTORY == 0 && size != old(self).data.size {
                &&& final(self).data == (DirFileEntryData { size, ..old(self).data })
                &&& final(self).dirty
            } else {
                *final(self) == *old(self)
            },
    {
        match self.data.size() {
            Some(n) => {
                if size != n {
                    self.data.set_size(size);
                    self.dirty = true;
                }
            },
            None => {},
        }
    }

    /// Updates the cached creation stamp, marking the editor dirty only on
    /// a change.
    pub fn set_created(&mut self, date_time: DateTime)
        requires
            date_time.date.encodable(),
            date_time.time.encodable(),
        ensures
            final(self).pos == old(self).pos,
            final(self).data == (DirFileEntryData {
                create_date: final(self).data.create_date,
                create_time_1: final(self).data.create_time_1,
                ..old(self).data
            }),
            old(self).data.created_spec() == date_time ==> *final(self) == *old(self),
            old(self).data.created_spec() != date_time ==> {
                &&& final(self).dirty
                &&& final(self).data.create_date == ((((date_time.date.year - 1980) as u16) << 9)
                    | (date_time.date.month << 5) | date_time.date.day)
                &&& final(self).data.create_time_1 == ((date_time.time.hour << 11) | (
                date_time.time.min << 5) | (date_time.time.sec / 2))
            },
    {
        let current = self.data.created();
        if !(date_time == current) {
            self.data.set_created(date_time);
            self.dirty = true;
        }
    }

    /// Updates the cached access date, marking the editor dirty only on a
    /// change.
    pub fn set_accessed(&mut self, date: Date)
        requires
            date.encodable(),
        ensures
            final(self).pos == old(self).pos,
            final(self).data == (DirFileEntryData {
                access_date: final(self).data.access_date,
                ..old(self).data
            }),
            old(self).data.accessed_spec() == date ==> *final(self) == *old(self),
            old(self).data.accessed_spec() != date ==> {
                &&& final(self).dirty
                &&& final(self).data.access_date == ((((date.year - 1980) as u16) << 9) | (
                date.month << 5) | date.day)
            },
    {
        let current = self.data.accessed();
        if !(date == current) {
            self.data.set_accessed(date);
            self.dirty = true;
        }
    }

    /// Updates the cached modification stamp, marking the editor dirty only
    /// on a change.
    pub fn set_modified(&mut self, date_time: DateTime)
        requires
            date_time.date.encodable(),
            date_time.time.encodable(),
        ensures
            final(self).pos == old(self).pos,
            final(self).data == (DirFileEntryData {
                modify_date: final(self).data.modify_date,
                modify_time: final(self).data.modify_time,
                ..old(self).data
            }),
            old(self).data.modified_spec() == date_time ==> *final(self) == *old(self),
            old(self).data.modified_spec() != date_time ==> {
                &&& final(self).dirty
                &&& final(self).data.modify_date == ((((date_time.date.year - 1980) as u16) << 9)
                    | (date_time.date.month << 5) | date_time.date.day)
                &&& final(self).data.modify_time == ((date_time.time.hour << 11) | (
                date_time.time.min << 5) | (date_time.time.sec / 2))
            },
    {
        let current = self.data.modified();
        if !(date_time == current) {
            self.data.set_modified(date_time);
            self.dirty = true;
        }
    }

    /// Marks the editor dirty so that the record is rewritten on the next
    /// flush; the caller controls the stamps themselves.
    pub fn reset_modified(&mut self)
        ensures
            final(self).data == old(self).data,
            final(self).pos == old(self).pos,
            final(self).dirty,
    {
        self.data.reset_modified();
        self.dirty = true;
    }

    /// Rewrites the record on disk if the cached copy changed.
    pub fn flush(&mut self, fs: &mut FileSystem) -> (r: Result<(), Error>)
        requires
            old(fs).wf(),
            old(self).pos + 32 <= old(fs).disk@.len(),
        ensures
            r is Ok,
            final(fs).layout == old(fs).layout,
            final(fs).wf(),
            final(fs).disk@.len() == old(fs).disk@.len(),
            final(self).data == old(self).data,
            final(self).pos == old(self).pos,
            !final(self).dirty,
            old(self).dirty ==> {
                &&& forall|i: int|
                    0 <= i < 32 ==> final(fs).disk@[old(self).pos + i] == file_record_bytes(
                        old(self).data,
                    )[i]
                &&& forall|i: int|
                    0 <= i < old(fs).disk@.len() && !(old(self).pos <= i < old(self).pos + 32)
                        ==> final(fs).disk@[i] == old(fs).disk@[i]
            },
            !old(self).dirty ==> final(fs).disk@ == old(fs).disk@,
    {
        if self.dirty {
            self.write(fs);
            self.dirty = false;
        }
        Ok(())
    }

    /// Writes the 32 record bytes at the editor's position.
    fn write(&self, fs: &mut FileSystem)
        requires
            old(fs).wf(),
            self.pos + 32 <= old(fs).disk@.len(),
        ensures
            final(fs).layout == old(fs).layout,
            final(fs).wf(),
            final(fs).disk@.len() == old(fs).disk@.len(),
            forall|i: int|
                0 <= i < 32 ==> final(fs).disk@[self.pos + i] == file_record_bytes(self.data)[i],
            forall|i: int|
                0 <= i < old(fs).disk@.len() && !(self.pos <= i < self.pos + 32)
                    ==> final(fs).disk@[i] == old(fs).disk@[i],
    {
        let bytes = self.data.serialize();
        proof {
            assert(file_record_bytes(self.data).len() == 32);
        }
        crate::codec::write_bytes_at(&mut fs.disk, self.pos, &bytes);
    }
}

/// The time as the two-second resolution of the stored field keeps it.
pub open spec fn stored_time(t: Time) -> Time {
    Time { hour: t.hour, min: t.min, sec: ((t.sec / 2) * 2) as u16 }
}

/// The stamp as the record's fields keep it.
pub open spec fn stored_datetime(dt: DateTime) -> DateTime {
    DateTime { date: dt.date, time: stored_time(dt.time) }
}

/// Encoding an encodable date and decoding the word yields the date again.
pub proof fn lemma_date_roundtrip(d: Date)
    requires
        d.encodable(),
    ensures
        Date::from_u16_spec((((d.year - 1980) as u16) << 9) | (d.month << 5) | d.day) == d,
{
    let y = (d.year - 1980) as u16;
    let m = d.month;
    let dd = d.day;
    assert((((y << 9) | (m << 5) | dd) >> 9) == y && ((((y << 9) | (m << 5) | dd) >> 5) & 0xF)
        == m && (((y << 9) | (m << 5) | dd) & 0x1F) == dd) by (bit_vector)
        requires
            y < 128u16,
            m < 16u16,
            dd < 32u16,
    ;
}

/// Encoding an encodable time and decoding the word yields the time at the
/// two-second resolution of the field.
pub proof fn lemma_time_roundtrip(t: Time)
    requires
        t.encodable(),
    ensures
        Time::from_u16_spec((t.hour << 11) | (t.min << 5) | (t.sec / 2)) == stored_time(t),
{
    let h = t.hour;
    let m = t.min;
    let s = t.sec;
    assert((((h << 11) | (m << 5) | (s / 2)) >> 11) == h && ((((h << 11) | (m << 5) | (s / 2))
        >> 5) & 0x3F) == m && ((((h << 11) | (m << 5) | (s / 2)) & 0x1F)) == s / 2)
        by (bit_vector)
        requires
            h < 32u16,
            m < 64u16,
            s < 64u16,
    ;
    assert(((s / 2) * 2) as u16 == (s / 2) * 2) by (bit_vector)
        requires
            s < 64u16,
    ;
}

/// A logical directory entry: the parsed record, its decoded short name,
/// the record's absolute position on the volume, and the byte range the
/// record (with any leading long-name records) occupies in its directory's
/// stream.
#[derive(Clone, Copy, Debug)]
pub struct DirEntry {
    pub data: DirFileEntryData,
    pub short_name: ShortName,
    pub entry_pos: usize,
    pub offset_range: (u64, u64),
}

/// The entry's record position lies on the volume past the FAT, and
/// whatever chain it points to is well formed: what a consistent volume
/// guarantees of every entry.
pub open spec fn entry_wf(e: DirEntry, fs: FileSystem) -> bool {
    &&& e.entry_pos + 32 <= fs.disk@.len()
    &&& fs.layout.fat_offset + fs.layout.fat_len <= e.entry_pos
    &&& e.short_name.len <= 12
    &&& match spec_first_cluster(e.data, fs.layout.fat_type) {
        Some(fc) => fs.layout.is_cluster(fc) && crate::table::chain_wf(
            fs.disk@,
            fs.layout,
            fc,
        ),
        None => true,
    }
    &&& (e.data.attrs & ATTR_DIRECTORY == 0 ==> {
        &&& (spec_first_cluster(e.data, fs.layout.fat_type) is None <==> e.data.size == 0)
        &&& match spec_first_cluster(e.data, fs.layout.fat_type) {
            Some(fc) => e.data.size <= crate::table::spec_chain(fs.disk@, fs.layout, fc).len()
                * fs.layout.cluster_size,
            None => true,
        }
    })
}

impl DirEntry {
    /// The decoded short name.
    pub fn short_file_name(&self) -> (r: String)
        requires
            self.short_name.len <= 12,
        ensures
            r@.len() == self.short_name.spec_str_bytes().len(),
            forall|i: int|
                0 <= i < r@.len() ==> r@[i] == #[trigger] self.short_name.spec_str_bytes()[i]
                    as char,
    {
        self.short_name.to_string()
    }

    /// The file's name; only the short name is stored.
    pub fn file_name(&self) -> (r: String)
        requires
            self.short_name.len <= 12,
        ensures
            r@.len() == self.short_name.spec_str_bytes().len(),
            forall|i: int|
                0 <= i < r@.len() ==> r@[i] == #[trigger] self.short_name.spec_str_bytes()[i]
                    as char,
    {
        self.short_file_name()
    }

    /// The entry's attribute bits.
    pub fn attributes(&self) -> (r: FileAttributes)
        ensures
            r.bits == self.data.attrs,
    {
        FileAttributes { bits: self.data.attrs }
    }

    /// Whether the entry names a directory.
    pub fn is_dir(&self) -> (r: bool)
        ensures
            r == (self.data.attrs & ATTR_DIRECTORY != 0),
    {
        self.data.is_dir()
    }

    /// Whether the entry names a regular file.
    pub fn is_file(&self) -> (r: bool)
        ensures
            r == (self.data.attrs & ATTR_DIRECTORY == 0),
    {
        self.data.is_file()
    }

    /// The first cluster of the entry's chain.
    pub fn first_cluster(&self, fat_type: FatType) -> (r: Option<u32>)
        ensures
            r == spec_first_cluster(self.data, fat_type),
    {
        self.data.first_cluster(fat_type)
    }

    /// An editor over this entry's on-disk record.
    pub fn editor(&self) -> (r: DirEntryEditor)
        ensures
            r.data == self.data,
            r.pos == self.entry_pos,
            !r.dirty,
    {
        DirEntryEditor::new(self.data, self.entry_pos)
    }

    /// Opens the entry as a file stream positioned at 0.
    pub fn to_file(&self, fs: &FileSystem) -> (r: crate::file::File)
        requires
            self.data.attrs & ATTR_DIRECTORY == 0,
        ensures
            r.first_cluster == spec_first_cluster(self.data, fs.layout.fat_type),
            r.offset == 0,
            r.current_cluster is None,
            r.entry == Some(self.editor_spec()),
            fs.wf() && entry_wf(*self, *fs) ==> r.wf(*fs),
    {
        crate::file::File::new(
            self.data.first_cluster(fs.layout.fat_type),
            Some(self.editor()),
        )
    }

    /// The editor `to_file` and `to_dir` embed.
    pub open spec fn editor_spec(&self) -> DirEntryEditor {
        DirEntryEditor { data: self.data, pos: self.entry_pos, dirty: false }
    }

    /// Opens the entry as a directory; one whose first cluster is absent
    /// denotes the root directory.
    pub fn to_dir(&self, fs: &FileSystem) -> (r: crate::dir::Dir)
        requires
            self.data.attrs & ATTR_DIRECTORY != 0,
            fs.wf(),
        ensures
            match spec_first_cluster(self.data, fs.layout.fat_type) {
                Some(_) => fs.wf() && entry_wf(*self, *fs) ==> r.wf(*fs),
                None => fs.wf() && fs.root_wf() ==> r.wf(*fs),
            },
            match spec_first_cluster(self.data, fs.layout.fat_type) {
                Some(n) => r.stream is File && r.stream->File_0.first_cluster == Some(n)
                    && r.stream->File_0.offset == 0 && r.stream->File_0.entry == Some(
                    self.editor_spec(),
                ),
                None => r == fs.spec_root_dir(),
            },
    {
        match self.data.first_cluster(fs.layout.fat_type) {
            Some(n) => {
                let file = crate::file::File::new(Some(n), Some(self.editor()));
                crate::dir::Dir::new(crate::dir::DirRawStream::File(file))
            },
            None => fs.root_dir(),
        }
    }

    /// The stored size; 0 for directories.
    pub fn len(&self) -> (r: u64)
        ensures
            r == self.data.size,
    {
        self.data.size as u64
    }

    /// The creation stamp.
    pub fn created(&self) -> (r: DateTime)
        ensures
            r == self.data.created_spec(),
    {
        self.data.created()
    }

    /// The last-access date.
    pub fn accessed(&self) -> (r: Date)
        ensures
            r == self.data.accessed_spec(),
    {
        self.data.accessed()
    }

    /// The modification stamp.
    pub fn modified(&self) -> (r: DateTime)
        ensures
            r == self.data.modified_spec(),
    {
        self.data.modified()
    }
}

} // verus!
