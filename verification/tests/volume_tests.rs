//! End-to-end scenarios over freshly built volume images: file and
//! directory creation, reading and writing across clusters, truncation,
//! removal, seeking and enumeration.

use fatfs::table::{read_fat, FatValue};
use fatfs::{Error, FatType, FileSystem, Geometry, SeekFrom};

fn fat32_geometry(sectors_per_cluster: u8, total_clusters: u32) -> Geometry {
    Geometry {
        fat_type: FatType::Fat32,
        bytes_per_sector: 512,
        sectors_per_cluster,
        reserved_sectors: 1,
        num_fats: 1,
        sectors_per_fat: 1,
        total_clusters,
        root_dir_entries: 0,
        root_dir_cluster: 2,
    }
}

/// A fresh FAT32 volume with an empty root directory of one cluster.
fn fresh_fat32(sectors_per_cluster: u8, total_clusters: u32) -> FileSystem {
    let g = fat32_geometry(sectors_per_cluster, total_clusters);
    let cluster = 512usize * sectors_per_cluster as usize;
    let len = 1024 + total_clusters as usize * cluster;
    let mut disk = vec![0u8; len];
    disk[512 + 8] = 0xFF;
    disk[512 + 9] = 0xFF;
    disk[512 + 10] = 0xFF;
    disk[512 + 11] = 0x0F;
    FileSystem::mount(disk, g).expect("mount")
}

fn write_all(f: &mut fatfs::File, fs: &mut FileSystem, data: &[u8]) {
    let mut written = 0;
    while written < data.len() {
        let n = f.write(fs, &data[written..].to_vec()).expect("write");
        assert!(n > 0);
        // A single call writes at most one cluster's worth.
        assert!(n as u32 <= fs.layout.cluster_size);
        written += n;
    }
}

fn read_all(f: &mut fatfs::File, fs: &FileSystem, max: usize) -> Vec<u8> {
    let mut out = Vec::new();
    loop {
        let mut buf = vec![0u8; 1024];
        let n = f.read(fs, &mut buf).expect("read");
        assert!(n <= 1024);
        if n == 0 {
            break;
        }
        out.extend_from_slice(&buf[..n]);
        if out.len() > max {
            panic!("read past expected size");
        }
    }
    out
}

#[test]
fn mount_rejects_bad_geometry() {
    let g = fat32_geometry(1, 1000);
    let disk = vec![0u8; 1024];
    assert!(matches!(FileSystem::mount(disk, g), Err(Error::InvalidInput)));
}

#[test]
fn create_file_lists_one_entry() {
    let mut fs = fresh_fat32(1, 16);
    let root = fs.root_dir();
    let _f = root.create_file(&mut fs, "foobar.txt").expect("create");
    let mut it = root.iter();
    let e = it.next(&fs).expect("one entry");
    assert_eq!(e.file_name(), "FOOBAR.TXT");
    assert!(e.is_file());
    assert_eq!(e.len(), 0);
    assert_eq!(e.first_cluster(FatType::Fat32), None);
    assert!(it.next(&fs).is_none());
    // The same file opens again, case-insensitively, instead of a second
    // entry appearing.
    let _again = root.create_file(&mut fs, "FooBar.TXT").expect("reopen");
    let mut it2 = root.iter();
    assert!(it2.next(&fs).is_some());
    assert!(it2.next(&fs).is_none());
}

#[test]
fn create_dir_holds_dot_entries() {
    let mut fs = fresh_fat32(1, 16);
    let root = fs.root_dir();
    let _sub = root.create_dir(&mut fs, "sub").expect("create dir");
    let sub = root.open_dir(&fs, "sub").expect("open dir");
    let mut it = sub.iter();
    let dot = it.next(&fs).expect("dot");
    assert_eq!(dot.file_name(), ".");
    assert!(dot.is_dir());
    let dotdot = it.next(&fs).expect("dot dot");
    assert_eq!(dotdot.file_name(), "..");
    assert!(dotdot.is_dir());
    assert!(it.next(&fs).is_none());
    // `.` names the new directory's own first cluster; `..` the parent's
    // (none, for the root of a FAT32 volume is named by cluster 0 here).
    let sub_entry = root.find_entry(&fs, "sub").expect("entry");
    assert_eq!(dot.first_cluster(FatType::Fat32), sub_entry.first_cluster(FatType::Fat32));
    assert_eq!(dotdot.first_cluster(FatType::Fat32), Some(2));
}

#[test]
fn write_reopen_read_across_clusters() {
    // cluster_size = 4096; 5000 bytes span two clusters.
    let mut fs = fresh_fat32(8, 16);
    let root = fs.root_dir();
    let mut f = root.create_file(&mut fs, "a").expect("create");
    let data = vec![0x41u8; 5000];
    write_all(&mut f, &mut fs, &data);
    f.flush(&mut fs).expect("flush");
    let entry = root.find_entry(&fs, "a").expect("entry");
    assert_eq!(entry.len(), 5000);
    let mut f2 = root.open_file(&fs, "a").expect("open");
    let back = read_all(&mut f2, &fs, 5000);
    assert_eq!(back.len(), 5000);
    assert!(back.iter().all(|b| *b == 0x41));
    // The chain holds exactly two clusters.
    let c1 = f2.first_cluster().expect("first");
    let c2 = match read_fat(&fs, c1).unwrap() {
        FatValue::Data(n) => n,
        other => panic!("first entry was {:?}", other),
    };
    assert!(matches!(read_fat(&fs, c2).unwrap(), FatValue::EndOfChain));
}

#[test]
fn truncate_at_zero_frees_chain() {
    let mut fs = fresh_fat32(8, 16);
    let root = fs.root_dir();
    let mut f = root.create_file(&mut fs, "a").expect("create");
    write_all(&mut f, &mut fs, &vec![0x41u8; 5000]);
    let c1 = f.first_cluster().expect("first");
    let c2 = match read_fat(&fs, c1).unwrap() {
        FatValue::Data(n) => n,
        other => panic!("first entry was {:?}", other),
    };
    let pos = f.seek(&fs, SeekFrom::Start(0)).expect("seek");
    assert_eq!(pos, 0);
    assert!(f.current_cluster.is_none());
    f.truncate(&mut fs).expect("truncate");
    f.flush(&mut fs).expect("flush");
    assert_eq!(f.first_cluster(), None);
    let entry = root.find_entry(&fs, "a").expect("entry");
    assert_eq!(entry.len(), 0);
    assert_eq!(entry.first_cluster(FatType::Fat32), None);
    assert!(matches!(read_fat(&fs, c1).unwrap(), FatValue::Free));
    assert!(matches!(read_fat(&fs, c2).unwrap(), FatValue::Free));
    // A read at the truncated position yields nothing.
    let mut buf = vec![0u8; 16];
    assert_eq!(f.read(&fs, &mut buf).unwrap(), 0);
}

#[test]
fn truncate_mid_file_cuts_chain() {
    let mut fs = fresh_fat32(8, 16);
    let root = fs.root_dir();
    let mut f = root.create_file(&mut fs, "a").expect("create");
    write_all(&mut f, &mut fs, &vec![0x42u8; 5000]);
    let c1 = f.first_cluster().expect("first");
    let c2 = match read_fat(&fs, c1).unwrap() {
        FatValue::Data(n) => n,
        other => panic!("first entry was {:?}", other),
    };
    // Truncate at 100: one cluster's worth of chain survives.
    f.seek(&fs, SeekFrom::Start(100)).expect("seek");
    f.truncate(&mut fs).expect("truncate");
    f.flush(&mut fs).expect("flush");
    assert!(matches!(read_fat(&fs, c1).unwrap(), FatValue::EndOfChain));
    assert!(matches!(read_fat(&fs, c2).unwrap(), FatValue::Free));
    let entry = root.find_entry(&fs, "a").expect("entry");
    assert_eq!(entry.len(), 100);
}

#[test]
fn remove_rejects_nonempty_then_succeeds() {
    let mut fs = fresh_fat32(1, 16);
    let root = fs.root_dir();
    root.create_dir(&mut fs, "d").expect("create dir");
    root.create_file(&mut fs, "d/f").expect("create inner");
    assert!(matches!(root.remove(&mut fs, "d"), Err(Error::DirectoryNotEmpty)));
    root.remove(&mut fs, "d/f").expect("remove file");
    root.remove(&mut fs, "d").expect("remove dir");
    assert!(matches!(root.find_entry(&fs, "d"), Err(Error::NotFound)));
    let mut it = root.iter();
    assert!(it.next(&fs).is_none());
}

#[test]
fn removed_entry_slots_are_freed() {
    let mut fs = fresh_fat32(1, 16);
    let root = fs.root_dir();
    root.create_file(&mut fs, "gone.txt").expect("create");
    let e = root.find_entry(&fs, "gone.txt").expect("entry");
    let pos = e.entry_pos;
    root.remove(&mut fs, "gone.txt").expect("remove");
    assert_eq!(fs.disk[pos], 0xE5);
    assert!(matches!(root.find_entry(&fs, "gone.txt"), Err(Error::NotFound)));
}

#[test]
fn seek_clamps_and_resets() {
    let mut fs = fresh_fat32(1, 16);
    let root = fs.root_dir();
    let mut f = root.create_file(&mut fs, "a").expect("create");
    write_all(&mut f, &mut fs, &vec![7u8; 100]);
    // Past the end of a file of known size: clamped to the size.
    assert_eq!(f.seek(&fs, SeekFrom::Start(1000)).unwrap(), 100);
    // Negative target: rejected.
    assert!(matches!(f.seek(&fs, SeekFrom::Current(-200)), Err(Error::InvalidInput)));
    // From the end.
    assert_eq!(f.seek(&fs, SeekFrom::End(-40)).unwrap(), 60);
    // To zero: the cursor's cluster resets.
    assert_eq!(f.seek(&fs, SeekFrom::Start(0)).unwrap(), 0);
    assert!(f.current_cluster.is_none());
    f.flush(&mut fs).expect("flush");
}

#[test]
fn seek_from_end_needs_known_size() {
    let mut fs = fresh_fat32(1, 16);
    let root = fs.root_dir();
    // The root directory stream has no known size.
    let mut stream = match root.stream {
        fatfs::DirRawStream::File(f) => f,
        _ => panic!("fat32 root is chain-backed"),
    };
    assert!(matches!(stream.seek(&fs, SeekFrom::End(0)), Err(Error::InvalidInput)));
}

#[test]
fn single_write_stays_in_one_cluster() {
    let mut fs = fresh_fat32(1, 16);
    let root = fs.root_dir();
    let mut f = root.create_file(&mut fs, "a").expect("create");
    let n = f.write(&mut fs, &vec![9u8; 5000]).expect("write");
    assert_eq!(n, 512);
    let mut back = vec![0u8; 5000];
    f.seek(&fs, SeekFrom::Start(0)).expect("seek");
    let m = f.read(&fs, &mut back).expect("read");
    assert_eq!(m, 512);
    f.flush(&mut fs).expect("flush");
}

#[test]
fn full_directory_cluster_terminates_iteration() {
    // cluster_size 512 holds exactly 16 records; fill the root cluster.
    let mut fs = fresh_fat32(1, 64);
    let root = fs.root_dir();
    for i in 0..16 {
        let name = format!("f{}", i);
        root.create_file(&mut fs, &name).expect("create");
    }
    let mut it = root.iter();
    let mut count = 0;
    while let Some(e) = it.next(&fs) {
        assert!(e.is_file());
        count += 1;
        assert!(count <= 16);
    }
    assert_eq!(count, 16);
}

#[test]
fn write_without_space_fails() {
    // One data cluster only, taken by the root directory.
    let mut fs = fresh_fat32(1, 1);
    let root = fs.root_dir();
    let mut f = root.create_file(&mut fs, "a").expect("create");
    assert!(matches!(f.write(&mut fs, &vec![1u8; 10]), Err(Error::NoSpace)));
}

#[test]
fn fixed_root_region_cannot_grow() {
    // A FAT12 volume whose fixed root region holds one record.
    let g = Geometry {
        fat_type: FatType::Fat12,
        bytes_per_sector: 512,
        sectors_per_cluster: 1,
        reserved_sectors: 1,
        num_fats: 1,
        sectors_per_fat: 1,
        total_clusters: 16,
        root_dir_entries: 16,
        root_dir_cluster: 0,
    };
    let len = 512 + 512 + 512 + 16 * 512;
    let disk = vec![0u8; len];
    let mut fs = FileSystem::mount(disk, g).expect("mount");
    let root = fs.root_dir();
    // The region holds sixteen records exactly.
    for i in 0..16 {
        let name = format!("f{}", i);
        root.create_file(&mut fs, &name).expect("create");
    }
    assert!(matches!(root.create_file(&mut fs, "extra"), Err(Error::UnexpectedEof)));
}

#[test]
fn open_missing_is_not_found() {
    let mut fs = fresh_fat32(1, 16);
    let root = fs.root_dir();
    assert!(matches!(root.open_file(&fs, "nope"), Err(Error::NotFound)));
    assert!(matches!(root.open_dir(&fs, "nope"), Err(Error::NotFound)));
    assert!(matches!(root.create_file(&mut fs, "bad*name"), Err(Error::InvalidInput)));
}

#[test]
fn empty_file_handle_invariant() {
    let mut fs = fresh_fat32(1, 16);
    let root = fs.root_dir();
    let mut f = root.create_file(&mut fs, "a").expect("create");
    // Empty file: no chain, offset 0.
    assert_eq!(f.first_cluster(), None);
    assert_eq!(f.offset, 0);
    // After a write the chain exists and the offset moved.
    f.write(&mut fs, &vec![1u8; 4]).expect("write");
    assert!(f.first_cluster().is_some());
    assert_eq!(f.offset, 4);
    f.flush(&mut fs).expect("flush");
}

#[test]
fn timestamps_stored_and_read_back() {
    let mut fs = fresh_fat32(1, 16);
    let root = fs.root_dir();
    let mut f = root.create_file(&mut fs, "a").expect("create");
    let dt = fatfs::DateTime {
        date: fatfs::Date { year: 2017, month: 5, day: 9 },
        time: fatfs::Time { hour: 13, min: 23, sec: 46 },
    };
    f.set_created(dt);
    f.set_modified(dt);
    f.set_accessed(fatfs::Date { year: 2018, month: 1, day: 2 });
    f.flush(&mut fs).expect("flush");
    let e = root.find_entry(&fs, "a").expect("entry");
    assert_eq!(e.created(), dt);
    assert_eq!(e.modified(), dt);
    assert_eq!(e.accessed(), fatfs::Date { year: 2018, month: 1, day: 2 });
}
