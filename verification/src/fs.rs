//! The filesystem facade: volume geometry, the mounted volume with its
//! in-memory image, and the cluster-to-byte arithmetic every other
//! component builds on.
//!
//! A volume image is a `Vec<u8>`; mounting consumes the image together with
//! the geometry that a boot-sector parser extracted beforehand. The mounted
//! `FileSystem` exclusively owns the image for the lifetime of the mount.

use vstd::arithmetic::div_mod::lemma_div_is_ordered_by_denominator;
use vstd::arithmetic::div_mod::lemma_fundamental_div_mod;
use vstd::arithmetic::div_mod::lemma_mod_bound;
use vstd::arithmetic::div_mod::lemma_mod_multiples_basic;
use vstd::arithmetic::mul::lemma_mul_inequality;
use vstd::arithmetic::mul::lemma_mul_nonnegative;
use vstd::arithmetic::mul::lemma_mul_upper_bound;
use vstd::prelude::*;

use crate::error::Error;

verus! {

/// A position to seek to, as the stream operations take it.
#[derive(Clone, Copy, Debug, PartialEq, Eq, Structural)]
pub enum SeekFrom {
    /// Absolute byte position.
    Start(u64),
    /// Relative to the known size of the stream.
    End(i64),
    /// Relative to the current position.
    Current(i64),
}

/// The three FAT variants, named after the width of a FAT entry.
#[derive(Clone, Copy, Debug, PartialEq, Eq, Structural)]
pub enum FatType {
    Fat12,
    Fat16,
    Fat32,
}

/// The status bits kept in FAT entry 1 (FAT16 and FAT32 only).
#[derive(Clone, Copy, Debug, PartialEq, Eq, Structural)]
pub struct FsStatusFlags {
    /// The volume was not cleanly unmounted.
    pub dirty: bool,
    /// A disk I/O error was recorded on a previous mount.
    pub io_error: bool,
}

/// Mount-time geometry, as a boot-sector parser yields it.
#[derive(Clone, Copy, Debug, PartialEq, Eq, Structural)]
pub struct Geometry {
    pub fat_type: FatType,
    pub bytes_per_sector: u16,
    pub sectors_per_cluster: u8,
    pub reserved_sectors: u16,
    pub num_fats: u8,
    pub sectors_per_fat: u32,
    /// The number of data clusters; valid cluster numbers are
    /// `2 .. 2 + total_clusters`.
    pub total_clusters: u32,
    /// FAT12/16: the fixed number of root-directory entries. Must be 0 for
    /// FAT32.
    pub root_dir_entries: u16,
    /// FAT32: the first cluster of the root-directory chain. Ignored for
    /// FAT12/16.
    pub root_dir_cluster: u32,
}

/// Byte-level layout of a mounted volume, derived from its [`Geometry`].
#[derive(Clone, Copy, Debug, PartialEq, Eq, Structural)]
pub struct Layout {
    pub fat_type: FatType,
    /// Bytes per cluster.
    pub cluster_size: u32,
    /// Byte offset of the primary FAT.
    pub fat_offset: usize,
    /// Byte length of one FAT copy.
    pub fat_len: usize,
    /// FAT12/16: byte offset of the fixed root-directory region.
    pub root_offset: usize,
    /// FAT12/16: byte length of the fixed root-directory region.
    pub root_len: usize,
    /// FAT32: first cluster of the root-directory chain (0 otherwise).
    pub root_cluster: u32,
    /// Byte offset of cluster 2, the first data cluster.
    pub data_offset: usize,
    /// Number of data clusters.
    pub total_clusters: u32,
}

impl Layout {
    /// One past the highest valid cluster number.
    pub open spec fn spec_cluster_limit(self) -> int {
        2 + self.total_clusters
    }

    /// Exclusive upper bound that `spec_cluster_limit` must stay under so
    /// that every data cluster number is distinct from the bad-cluster and
    /// end-of-chain sentinels of the FAT variant.
    pub open spec fn max_cluster_limit(self) -> u32 {
        match self.fat_type {
            FatType::Fat12 => 0xFF7,
            FatType::Fat16 => 0xFFF7,
            FatType::Fat32 => 0x0FFF_FFF7,
        }
    }

    /// Byte offset, within the FAT, of the first byte of entry `c`.
    pub open spec fn fat_entry_pos(self, c: int) -> int {
        match self.fat_type {
            FatType::Fat12 => c + c / 2,
            FatType::Fat16 => 2 * c,
            FatType::Fat32 => 4 * c,
        }
    }

    /// Byte offset, within the FAT, just past entry `c`.
    pub open spec fn fat_entry_end(self, c: int) -> int {
        match self.fat_type {
            FatType::Fat12 => c + c / 2 + 2,
            FatType::Fat16 => 2 * c + 2,
            FatType::Fat32 => 4 * c + 4,
        }
    }

    /// Byte offset of cluster `c` in the volume image.
    pub open spec fn spec_cluster_pos(self, c: int) -> int {
        self.data_offset + (c - 2) * self.cluster_size
    }

    /// `c` is a valid data-cluster number of this volume.
    pub open spec fn is_cluster(self, c: u32) -> bool {
        2 <= c < self.spec_cluster_limit()
    }

    /// Internal consistency of the layout against an image of `disk_len`
    /// bytes: regions are in bounds and do not overlap, every FAT entry of a
    /// valid cluster lies inside the FAT, and cluster numbers stay clear of
    /// the FAT sentinels.
    pub open spec fn wf(self, disk_len: int) -> bool {
        &&& 1 <= self.cluster_size
        &&& self.cluster_size % 32 == 0
        &&& 1 <= self.total_clusters
        &&& self.spec_cluster_limit() <= self.max_cluster_limit()
        &&& self.fat_entry_end(self.spec_cluster_limit() - 1) <= self.fat_len
        &&& self.fat_offset + self.fat_len <= self.root_offset
        &&& self.root_offset + self.root_len <= self.data_offset
        &&& self.root_len % 32 == 0
        &&& self.data_offset + self.total_clusters * self.cluster_size <= disk_len
        &&& self.total_clusters * self.cluster_size <= 0xFFFF_FFFF
        &&& match self.fat_type {
            FatType::Fat32 => self.root_len == 0 && self.is_cluster(self.root_cluster),
            _ => self.root_cluster == 0,
        }
    }
}

/// A mounted FAT volume: the image and its derived layout.
pub struct FileSystem {
    pub disk: Vec<u8>,
    pub layout: Layout,
}

impl FileSystem {
    /// The volume is well formed: its layout is consistent with the image.
    pub open spec fn wf(self) -> bool {
        &&& self.layout.wf(self.disk@.len() as int)
        &&& self.disk@.len() <= usize::MAX
    }

    /// The layout that `mount` derives from `g` over an image of `disk_len`
    /// bytes, when `g` is acceptable for that image.
    pub open spec fn spec_layout(g: Geometry, disk_len: int) -> Option<Layout> {
        let cluster_size = g.bytes_per_sector * g.sectors_per_cluster;
        let fat_offset = g.reserved_sectors * g.bytes_per_sector;
        let fat_len = g.sectors_per_fat * g.bytes_per_sector;
        let root_offset = fat_offset + g.num_fats * fat_len;
        let root_len = g.root_dir_entries * 32;
        let root_sectors = if g.bytes_per_sector == 0 {
            0int
        } else {
            (root_len + g.bytes_per_sector - 1) / (g.bytes_per_sector as int)
        };
        let data_offset = root_offset + root_sectors * g.bytes_per_sector;
        let limit = 2 + g.total_clusters;
        let max_limit: int = match g.fat_type {
            FatType::Fat12 => 0xFF7,
            FatType::Fat16 => 0xFFF7,
            FatType::Fat32 => 0x0FFF_FFF7,
        };
        let entry_end: int = match g.fat_type {
            FatType::Fat12 => (limit - 1) + (limit - 1) / 2 + 2,
            FatType::Fat16 => 2 * (limit - 1) + 2,
            FatType::Fat32 => 4 * (limit - 1) + 4,
        };
        if {
            &&& 1 <= g.bytes_per_sector
            &&& 1 <= g.sectors_per_cluster
            &&& 1 <= g.num_fats
            &&& 1 <= g.total_clusters
            &&& limit <= max_limit
            &&& entry_end <= fat_len
            &&& data_offset + g.total_clusters * cluster_size <= disk_len
            &&& g.total_clusters * cluster_size <= 0xFFFF_FFFF
            &&& cluster_size % 32 == 0
            &&& (g.fat_type is Fat32 ==> g.root_dir_entries == 0 && 2 <= g.root_dir_cluster
                < limit)
        } {
            Some(
                Layout {
                    fat_type: g.fat_type,
                    cluster_size: cluster_size as u32,
                    fat_offset: fat_offset as usize,
                    fat_len: fat_len as usize,
                    root_offset: root_offset as usize,
                    root_len: root_len as usize,
                    root_cluster: if g.fat_type is Fat32 {
                        g.root_dir_cluster
                    } else {
                        0
                    },
                    data_offset: data_offset as usize,
                    total_clusters: g.total_clusters,
                },
            )
        } else {
            None
        }
    }

    /// Mounts a volume image under the given geometry.
    ///
    /// Succeeds exactly when the geometry is consistent with the image, and
    /// then hands back a well-formed filesystem over the unchanged image.
    pub fn mount(disk: Vec<u8>, g: Geometry) -> (r: Result<FileSystem, Error>)
        ensures
            match r {
                Ok(fs) => {
                    &&& Self::spec_layout(g, disk@.len() as int) == Some(fs.layout)
                    &&& fs.disk@ == disk@
                    &&& fs.wf()
                },
                Err(e) => {
                    &&& Self::spec_layout(g, disk@.len() as int) is None
                    &&& e == Error::InvalidInput
                },
            },
    {
        let disk_len = disk.len() as u64;
        let bps = g.bytes_per_sector as u64;
        let spc = g.sectors_per_cluster as u64;
        let nf = g.num_fats as u64;
        let spf = g.sectors_per_fat as u64;
        proof {
            lemma_mul_upper_bound(bps as int, 0xFFFF, spc as int, 0xFF);
            lemma_mul_upper_bound(g.reserved_sectors as int, 0xFFFF, bps as int, 0xFFFF);
            lemma_mul_upper_bound(spf as int, 0xFFFF_FFFF, bps as int, 0xFFFF);
            lemma_mul_upper_bound(nf as int, 0xFF, spf * bps, 0xFFFF_FFFF as int * 0xFFFF);
        }
        let cluster_size = bps * spc;
        let fat_offset = (g.reserved_sectors as u64) * bps;
        let fat_len = spf * bps;
        let root_offset = fat_offset + nf * fat_len;
        let root_len = (g.root_dir_entries as u64) * 32;
        let root_sectors = if bps == 0 {
            0
        } else {
            proof {
                lemma_div_is_ordered_by_denominator(root_len + bps - 1, 1, bps as int);
            }
            (root_len + bps - 1) / bps
        };
        proof {
            lemma_mul_upper_bound(root_sectors as int, 0x30_FFFF, bps as int, 0xFFFF);
            lemma_mul_upper_bound(
                g.total_clusters as int,
                0xFFFF_FFFF,
                cluster_size as int,
                0xFFFF as int * 0xFF,
            );
        }
        let data_offset = root_offset + root_sectors * bps;
        let limit = 2 + (g.total_clusters as u64);
        let max_limit: u64 = match g.fat_type {
            FatType::Fat12 => 0xFF7,
            FatType::Fat16 => 0xFFF7,
            FatType::Fat32 => 0x0FFF_FFF7,
        };
        let entry_end: u64 = match g.fat_type {
            FatType::Fat12 => (limit - 1) + (limit - 1) / 2 + 2,
            FatType::Fat16 => 2 * (limit - 1) + 2,
            FatType::Fat32 => 4 * (limit - 1) + 4,
        };
        let data_bytes = (g.total_clusters as u64) * cluster_size;
        let ok = {
            &&& 1 <= g.bytes_per_sector
            &&& 1 <= g.sectors_per_cluster
            &&& 1 <= g.num_fats
            &&& 1 <= g.total_clusters
            &&& limit <= max_limit
            &&& entry_end <= fat_len
            &&& data_offset <= u64::MAX - data_bytes && data_offset + data_bytes <= disk_len
            &&& data_bytes <= 0xFFFF_FFFF
            &&& cluster_size % 32 == 0
            &&& match g.fat_type {
                FatType::Fat32 => g.root_dir_entries == 0 && 2 <= g.root_dir_cluster
                    && (g.root_dir_cluster as u64) < limit,
                _ => true,
            }
        };
        if !ok {
            return Err(Error::InvalidInput);
        }
        proof {
            lemma_mul_inequality(1, nf as int, fat_len as int);
            lemma_fundamental_div_mod(root_len + bps - 1, bps as int);
            lemma_mod_bound(root_len + bps - 1, bps as int);
            lemma_mul_inequality(1, g.sectors_per_cluster as int, bps as int);
            lemma_mod_multiples_basic(g.root_dir_entries as int, 32);
            lemma_mul_inequality(1, g.total_clusters as int, cluster_size as int);
            lemma_mul_nonnegative(nf as int, fat_len as int);
            lemma_mul_nonnegative(root_sectors as int, bps as int);
            lemma_mul_nonnegative(g.total_clusters as int, cluster_size as int);
        }
        let layout = Layout {
            fat_type: g.fat_type,
            cluster_size: cluster_size as u32,
            fat_offset: fat_offset as usize,
            fat_len: fat_len as usize,
            root_offset: root_offset as usize,
            root_len: root_len as usize,
            root_cluster: if matches!(g.fat_type, FatType::Fat32) {
                g.root_dir_cluster
            } else {
                0
            },
            data_offset: data_offset as usize,
            total_clusters: g.total_clusters,
        };
        Ok(FileSystem { disk, layout })
    }

    /// The FAT variant of the mounted volume.
    pub fn fat_type(&self) -> (r: FatType)
        ensures
            r == self.layout.fat_type,
    {
        self.layout.fat_type
    }

    /// Bytes per cluster.
    pub fn cluster_size(&self) -> (r: u32)
        ensures
            r == self.layout.cluster_size,
    {
        self.layout.cluster_size
    }

    /// One past the highest valid cluster number.
    pub fn cluster_limit(&self) -> (r: u32)
        requires
            self.wf(),
        ensures
            r == self.layout.spec_cluster_limit(),
    {
        2 + self.layout.total_clusters
    }

    /// Byte offset of cluster `c` in the volume image.
    pub fn offset_from_cluster(&self, c: u32) -> (r: usize)
        requires
            self.wf(),
            self.layout.is_cluster(c),
        ensures
            r == self.layout.spec_cluster_pos(c as int),
            r + self.layout.cluster_size <= self.disk.len(),
    {
        proof {
            let cs = self.layout.cluster_size as int;
            let t = self.layout.total_clusters as int;
            lemma_mul_inequality(c - 2, t - 1, cs);
            lemma_mul_nonnegative(c - 2, cs);
            assert((t - 1) * cs + cs == t * cs) by (nonlinear_arith);
        }
        self.layout.data_offset + ((c - 2) as usize) * (self.layout.cluster_size as usize)
    }
}

} // verus!
