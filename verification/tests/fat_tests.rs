//! Tests of the FAT entry codec, the little-endian codec, dates and times,
//! short names and path splitting.

use fatfs::codec::{get_u16_le, get_u32_le, set_u16_le, set_u32_le};
use fatfs::dir::{generate_short_name, split_path, validate_long_name};
use fatfs::dir_entry::{Date, DateTime, DirEntryData, DirFileEntryData, FileAttributes,
    ShortName, Time};
use fatfs::table::{read_fat, read_fat_flags, write_fat, FatValue};
use fatfs::{Error, FatType, FileSystem, Geometry};

fn geometry(fat_type: FatType, sectors_per_cluster: u8, root_dir_entries: u16) -> Geometry {
    Geometry {
        fat_type,
        bytes_per_sector: 512,
        sectors_per_cluster,
        reserved_sectors: 1,
        num_fats: 1,
        sectors_per_fat: 1,
        total_clusters: 16,
        root_dir_entries,
        root_dir_cluster: if matches!(fat_type, FatType::Fat32) { 2 } else { 0 },
    }
}

fn blank_volume(fat_type: FatType, sectors_per_cluster: u8, root_dir_entries: u16) -> FileSystem {
    let g = geometry(fat_type, sectors_per_cluster, root_dir_entries);
    let cluster = 512usize * sectors_per_cluster as usize;
    let root_bytes = ((root_dir_entries as usize * 32) + 511) / 512 * 512;
    let len = 512 + 512 + root_bytes + 16 * cluster;
    let mut disk = vec![0u8; len];
    if matches!(fat_type, FatType::Fat32) {
        // The root chain: cluster 2 is a one-cluster chain.
        disk[512 + 8] = 0xFF;
        disk[512 + 9] = 0xFF;
        disk[512 + 10] = 0xFF;
        disk[512 + 11] = 0x0F;
    }
    FileSystem::mount(disk, g).expect("mount")
}

#[test]
fn le_codec_roundtrip() {
    let mut v = vec![0u8; 8];
    set_u16_le(&mut v, 1, 0xBEEF);
    assert_eq!(v[1], 0xEF);
    assert_eq!(v[2], 0xBE);
    assert_eq!(get_u16_le(&v, 1), 0xBEEF);
    set_u32_le(&mut v, 4, 0xDEAD_BEEF);
    assert_eq!(v[4], 0xEF);
    assert_eq!(v[5], 0xBE);
    assert_eq!(v[6], 0xAD);
    assert_eq!(v[7], 0xDE);
    assert_eq!(get_u32_le(&v, 4), 0xDEAD_BEEF);
}

#[test]
fn fat12_even_odd_packing() {
    let mut fs = blank_volume(FatType::Fat12, 1, 16);
    write_fat(&mut fs, 3, FatValue::Data(0x123)).unwrap();
    write_fat(&mut fs, 4, FatValue::Data(0x456)).unwrap();
    assert!(matches!(read_fat(&fs, 3).unwrap(), FatValue::Data(0x123)));
    assert!(matches!(read_fat(&fs, 4).unwrap(), FatValue::Data(0x456)));
    // Entry 3 sits at FAT offset 3 + 3/2 = 4 and, as an odd cluster, takes
    // the high 12 bits of its word; entry 4 takes the low 12 bits of the
    // word at offset 6.
    let fat_offset = fs.layout.fat_offset;
    assert_eq!(fs.disk[fat_offset + 4], 0x30);
    assert_eq!(fs.disk[fat_offset + 5], 0x12);
    assert_eq!(fs.disk[fat_offset + 6], 0x56);
    assert_eq!(fs.disk[fat_offset + 7], 0x04);
}

#[test]
fn fat_roundtrip_all_widths() {
    for ft in [FatType::Fat12, FatType::Fat16, FatType::Fat32] {
        let mut fs = blank_volume(ft, 1, if matches!(ft, FatType::Fat32) { 0 } else { 16 });
        // Neighbours first, so the write in the middle must preserve them.
        write_fat(&mut fs, 5, FatValue::Data(7)).unwrap();
        write_fat(&mut fs, 7, FatValue::EndOfChain).unwrap();
        for v in [
            FatValue::Free,
            FatValue::Bad,
            FatValue::EndOfChain,
            FatValue::Data(2),
            FatValue::Data(9),
        ] {
            write_fat(&mut fs, 6, v).unwrap();
            assert_eq!(format!("{:?}", read_fat(&fs, 6).unwrap()), format!("{:?}", v));
            assert!(matches!(read_fat(&fs, 5).unwrap(), FatValue::Data(7)));
            assert!(matches!(read_fat(&fs, 7).unwrap(), FatValue::EndOfChain));
        }
    }
}

#[test]
fn fat_status_flags() {
    let mut fs = blank_volume(FatType::Fat16, 1, 16);
    // All bits set in entry 1: clean, no error recorded.
    let fat_offset = fs.layout.fat_offset;
    fs.disk[fat_offset + 2] = 0xFF;
    fs.disk[fat_offset + 3] = 0xFF;
    let flags = read_fat_flags(&fs);
    assert!(!flags.dirty);
    assert!(!flags.io_error);
    // Clearing bit 15 marks the volume dirty; clearing bit 14 records an
    // I/O error.
    fs.disk[fat_offset + 3] = 0x3F;
    let flags = read_fat_flags(&fs);
    assert!(flags.dirty);
    assert!(flags.io_error);
    let fs12 = blank_volume(FatType::Fat12, 1, 16);
    let flags12 = read_fat_flags(&fs12);
    assert!(!flags12.dirty);
    assert!(!flags12.io_error);
}

#[test]
fn no_space_when_fat_full() {
    let mut fs = blank_volume(FatType::Fat16, 1, 16);
    for c in 2..18 {
        write_fat(&mut fs, c, FatValue::EndOfChain).unwrap();
    }
    let r = fatfs::table::find_free_cluster(&fs, 2);
    assert!(matches!(r, Err(Error::NoSpace)));
}

#[test]
fn date_time_codec() {
    // 2017-05-09 13:23:46 per the packed formulas.
    let d = Date { year: 2017, month: 5, day: 9 };
    let packed = ((2017u16 - 1980) << 9) | (5 << 5) | 9;
    let d2 = Date::from_u16(packed);
    assert_eq!(d2, d);
    let t = Time { hour: 13, min: 23, sec: 46 };
    let tp = (13u16 << 11) | (23 << 5) | 23;
    let t2 = Time::from_u16(tp);
    assert_eq!(t2, t);
    // Odd seconds are stored at two-second resolution.
    let tp3 = (1u16 << 11) | (2 << 5) | 1;
    assert_eq!(Time::from_u16(tp3), Time { hour: 1, min: 2, sec: 2 });
    let dt = DateTime::from_u16(packed, tp);
    assert_eq!(dt.date, d);
    assert_eq!(dt.time, t);
}

#[test]
fn record_serialize_deserialize_roundtrip() {
    let mut rec = DirFileEntryData::new(*b"FOO     BAR", FileAttributes::from_bits_truncate(0x20));
    rec.set_first_cluster(Some(0x1234), FatType::Fat32);
    rec.set_size(4096);
    let bytes = rec.serialize();
    assert_eq!(bytes.len(), 32);
    let parsed = DirEntryData::deserialize(&bytes);
    match parsed {
        DirEntryData::File(p) => {
            let again = p.serialize();
            assert_eq!(bytes, again);
            assert_eq!(p.first_cluster(FatType::Fat32), Some(0x1234));
            assert_eq!(p.size(), Some(4096));
        },
        DirEntryData::Lfn(_) => panic!("parsed as long-name record"),
    }
}

#[test]
fn lfn_record_roundtrip() {
    let mut bytes = vec![0u8; 32];
    bytes[0] = 0x43;
    bytes[11] = 0x0F;
    bytes[13] = 0xA7;
    bytes[1] = b'h';
    bytes[3] = b'i';
    let parsed = DirEntryData::deserialize(&bytes);
    match parsed {
        DirEntryData::Lfn(l) => {
            let again = l.serialize();
            assert_eq!(bytes, again);
        },
        DirEntryData::File(_) => panic!("parsed as regular record"),
    }
}

#[test]
fn short_name_decoding() {
    let sn = ShortName::new(b"FOO     BAR");
    assert_eq!(sn.to_string(), "FOO.BAR");
    let sn2 = ShortName::new(b"HELLO      ");
    assert_eq!(sn2.to_string(), "HELLO");
    let sn3 = ShortName::new(b".          ");
    assert_eq!(sn3.to_string(), ".");
    // A byte outside ASCII decodes as a question mark.
    let mut raw = *b"AB         ";
    raw[1] = 0xC4;
    let sn4 = ShortName::new(&raw);
    assert_eq!(sn4.to_string(), "A?");
}

#[test]
fn short_name_generation() {
    assert_eq!(&generate_short_name("Foo.Bar"), b"FOO     BAR");
    assert_eq!(&generate_short_name("."), b".          ");
    assert_eq!(&generate_short_name(".."), b"..         ");
    assert_eq!(&generate_short_name("readme"), b"README     ");
    assert_eq!(&generate_short_name("a+b=c.txt"), b"A?B?C   TXT");
    assert_eq!(&generate_short_name("verylongname.json"), b"VERYLONGJSO");
}

#[test]
fn long_name_validation() {
    assert!(validate_long_name("foobar.txt").is_ok());
    assert!(validate_long_name("name with spaces.txt").is_ok());
    assert!(matches!(validate_long_name(""), Err(Error::InvalidInput)));
    assert!(matches!(validate_long_name("bad\"quote"), Err(Error::InvalidInput)));
    assert!(matches!(validate_long_name("bad*star"), Err(Error::InvalidInput)));
    let long = "x".repeat(256);
    assert!(matches!(validate_long_name(&long), Err(Error::InvalidInput)));
}

#[test]
fn path_splitting() {
    assert_eq!(split_path("foo"), ("foo", None));
    assert_eq!(split_path("/foo/"), ("foo", None));
    assert_eq!(split_path("foo/bar"), ("foo", Some("bar")));
    assert_eq!(split_path("/a/b/c/"), ("a", Some("b/c")));
    assert_eq!(split_path("///"), ("", None));
}
