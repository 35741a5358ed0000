//! The cluster-chain stream: a logically contiguous byte stream over a
//! chain of fixed-size clusters, with read, write (allocating on demand),
//! seek and truncate. A regular file's stream is bounded by the size field
//! of its directory record; a directory's stream has no known size.

use vstd::arithmetic::div_mod::{lemma_fundamental_div_mod, lemma_fundamental_div_mod_converse};
use vstd::arithmetic::mul::{lemma_mul_inequality, lemma_mul_nonnegative};
use vstd::prelude::*;

use crate::dir_entry::{lemma_date_roundtrip, lemma_time_roundtrip, spec_first_cluster,
    stored_datetime, Date, DateTime, DirEntryEditor, ATTR_DIRECTORY};
use crate::error::Error;
use crate::fs::{FileSystem, Layout, SeekFrom};
use crate::table::{chain_next, chain_seq, chain_wf, fat_entry, fat_entry_in_range, spec_chain,
    FatValue};

verus! {

/// An open stream over a cluster chain: a regular file, a directory's
/// record stream, or the FAT32 root directory.
#[derive(Clone, Copy, Debug)]
pub struct File {
    /// First cluster of the chain; `None` for an empty file.
    pub first_cluster: Option<u32>,
    /// The cluster covering the byte before `offset`; `None` at offset 0.
    pub current_cluster: Option<u32>,
    /// Current byte position.
    pub offset: u32,
    /// Editor of the owning directory record; `None` for the FAT32 root.
    pub entry: Option<DirEntryEditor>,
}

impl File {
    /// The known size of the stream: the record's size field for a regular
    /// file, unknown for directories and the root.
    pub open spec fn spec_size(self) -> Option<u32> {
        match self.entry {
            Some(e) => if e.data.attrs & ATTR_DIRECTORY == 0 {
                Some(e.data.size)
            } else {
                None
            },
            None => None,
        }
    }

    /// The chain of the stream, from its first cluster.
    pub open spec fn chain(self, fs: FileSystem) -> Seq<u32> {
        spec_chain(fs.disk@, fs.layout, self.first_cluster->0)
    }

    /// The index within the chain of the cluster covering byte `offset - 1`.
    pub open spec fn cluster_index_of(offset: int, cluster_size: int) -> int {
        (offset - 1) / cluster_size
    }

    /// Well-formedness of a stream against the volume it runs over: the
    /// chain is well formed, the cursor sits on the chain cluster covering
    /// the current offset, an empty file has offset 0, a regular file's
    /// offset stays within its size and its size within its chain, and the
    /// handle agrees with its directory record about the first cluster.
    pub open spec fn wf(self, fs: FileSystem) -> bool {
        let l = fs.layout;
        &&& match self.first_cluster {
            Some(fc) => {
                &&& l.is_cluster(fc)
                &&& chain_wf(fs.disk@, l, fc)
            },
            None => self.offset == 0 && self.current_cluster is None,
        }
        &&& match self.current_cluster {
            Some(cc) => {
                &&& self.offset > 0
                &&& self.first_cluster is Some
                &&& Self::cluster_index_of(self.offset as int, l.cluster_size as int) < self.chain(
                    fs,
                ).len()
                &&& cc == self.chain(fs)[Self::cluster_index_of(
                    self.offset as int,
                    l.cluster_size as int,
                )]
            },
            None => self.offset == 0,
        }
        &&& match self.entry {
            Some(e) => {
                &&& e.pos + 32 <= fs.disk@.len()
                &&& l.fat_offset + l.fat_len <= e.pos
                &&& spec_first_cluster(e.data, l.fat_type) == self.first_cluster
            },
            None => true,
        }
        &&& match self.spec_size() {
            Some(sz) => {
                &&& self.offset <= sz
                &&& (self.first_cluster is None <==> sz == 0)
                &&& (self.first_cluster is Some ==> sz <= self.chain(fs).len() * l.cluster_size)
            },
            None => true,
        }
    }

    /// A fresh stream at offset 0.
    pub fn new(first_cluster: Option<u32>, entry: Option<DirEntryEditor>) -> (r: File)
        ensures
            r.first_cluster == first_cluster,
            r.current_cluster is None,
            r.offset == 0,
            r.entry == entry,
    {
        File { first_cluster, current_cluster: None, offset: 0, entry }
    }

    /// The first cluster of the stream's chain.
    pub fn first_cluster(&self) -> (r: Option<u32>)
        ensures
            r == self.first_cluster,
    {
        self.first_cluster
    }

    /// The absolute position on the volume of the byte the cursor stands
    /// on; between clusters this is the position just past the previous
    /// cluster, and `None` at offset 0.
    pub fn abs_pos(&self, fs: &FileSystem) -> (r: Option<u64>)
        requires
            fs.wf(),
            self.wf(*fs),
        ensures
            match self.current_cluster {
                Some(n) => r == Some(
                    (fs.layout.spec_cluster_pos(n as int) + (self.offset as int) % (
                    fs.layout.cluster_size as int)) as u64,
                ),
                None => r is None,
            },
    {
        match self.current_cluster {
            Some(n) => {
                proof {
                    self.lemma_chain_cluster_valid(*fs);
                }
                let cluster_size = fs.cluster_size();
                let offset_in_cluster = self.offset % cluster_size;
                let pos = fs.offset_from_cluster(n) + (offset_in_cluster as usize);
                Some(pos as u64)
            },
            None => None,
        }
    }

    /// Every cluster on a well-formed stream's chain is a valid cluster of
    /// the volume, so the cursor's cluster is too.
    pub proof fn lemma_chain_cluster_valid(self, fs: FileSystem)
        requires
            fs.wf(),
            self.wf(fs),
            self.current_cluster is Some,
        ensures
            fs.layout.is_cluster(self.current_cluster->0),
            fs.layout.spec_cluster_pos(self.current_cluster->0 as int) + fs.layout.cluster_size
                <= fs.disk@.len(),
    {
        let l = fs.layout;
        let cc = self.current_cluster->0;
        let cs = l.cluster_size as int;
        let t = l.total_clusters as int;
        assert(l.is_cluster(cc));
        lemma_mul_inequality(cc - 2, t - 1, cs);
        assert((t - 1) * cs + cs == t * cs) by (nonlinear_arith);
    }

    /// Bytes left before the known end of a regular file.
    pub fn bytes_left_in_file(&self) -> (r: Option<usize>)
        requires
            self.wf_size_bounds(),
        ensures
            r == match self.spec_size() {
                Some(sz) => Some((sz - self.offset) as usize),
                None => None::<usize>,
            },
    {
        match &self.entry {
            Some(e) => {
                match e.inner().size() {
                    Some(s) => Some((s - self.offset) as usize),
                    None => None,
                }
            },
            None => None,
        }
    }

    /// The offset never passes a known size.
    pub open spec fn wf_size_bounds(self) -> bool {
        match self.spec_size() {
            Some(sz) => self.offset <= sz,
            None => true,
        }
    }
}

/// Offsets one past the same cluster's bytes share the cluster index.
pub proof fn lemma_index_same_block(offset: int, n: int, cs: int)
    requires
        cs >= 1,
        offset >= 1,
        offset % cs != 0,
        1 <= n <= cs - offset % cs,
    ensures
        (offset + n - 1) / cs == (offset - 1) / cs,
        (offset - 1) / cs == offset / cs,
{
    let q = offset / cs;
    let r = offset % cs;
    lemma_fundamental_div_mod(offset, cs);
    lemma_fundamental_div_mod_converse(offset - 1, cs, q, r - 1);
    lemma_fundamental_div_mod_converse(offset + n - 1, cs, q, r + n - 1);
}

/// From a cluster boundary, the next `cs` bytes lie in the following
/// cluster.
pub proof fn lemma_index_next_block(offset: int, n: int, cs: int)
    requires
        cs >= 1,
        offset >= 0,
        offset % cs == 0,
        1 <= n <= cs,
    ensures
        (offset + n - 1) / cs == offset / cs,
        offset >= 1 ==> offset / cs == (offset - 1) / cs + 1,
{
    let q = offset / cs;
    lemma_fundamental_div_mod(offset, cs);
    lemma_fundamental_div_mod_converse(offset + n - 1, cs, q, n - 1);
    if offset >= 1 {
        assert((q - 1) * cs == q * cs - cs) by (nonlinear_arith);
        lemma_fundamental_div_mod_converse(offset - 1, cs, q - 1, cs - 1);
    }
}

impl File {
    /// The cluster a read or write at the current offset works in: on a
    /// cluster boundary the chain continues (or starts); within a cluster
    /// the cursor's cluster serves.
    pub open spec fn advanced_cluster(self, fs: FileSystem) -> Option<u32> {
        if self.offset % fs.layout.cluster_size == 0 {
            match self.current_cluster {
                None => self.first_cluster,
                Some(c) => chain_next(fs.disk@, fs.layout, c as int),
            }
        } else {
            self.current_cluster
        }
    }

    /// How many bytes a read at the current offset returns, for a caller
    /// buffer of `buf_len` bytes: bounded by the buffer, by the bytes left
    /// in the cluster, and by the bytes left before a known size.
    pub open spec fn spec_read_len(self, fs: FileSystem, buf_len: int) -> int {
        let cs = fs.layout.cluster_size as int;
        let left_cluster = cs - (self.offset as int) % cs;
        let left_file = match self.spec_size() {
            Some(sz) => sz - self.offset,
            None => left_cluster,
        };
        vstd::math::min(vstd::math::min(buf_len, left_cluster), left_file)
    }

    /// After the boundary advance, the cluster worked in covers the bytes
    /// about to be transferred, and it is a valid cluster of the chain.
    pub proof fn lemma_advance(self, fs: FileSystem, n: int)
        requires
            fs.wf(),
            self.wf(fs),
            self.advanced_cluster(fs) is Some,
            1 <= n <= fs.layout.cluster_size as int - (self.offset as int) % (
            fs.layout.cluster_size as int),
        ensures
            fs.layout.is_cluster(self.advanced_cluster(fs)->0),
            self.first_cluster is Some,
            Self::cluster_index_of(self.offset + n, fs.layout.cluster_size as int) < self.chain(
                fs,
            ).len(),
            self.advanced_cluster(fs)->0 == self.chain(fs)[Self::cluster_index_of(
                self.offset + n,
                fs.layout.cluster_size as int,
            )],
            fs.layout.spec_cluster_pos(self.advanced_cluster(fs)->0 as int)
                + fs.layout.cluster_size <= fs.disk@.len(),
            (self.offset as int) % (fs.layout.cluster_size as int) == self.offset as int - (
            Self::cluster_index_of(self.offset + n, fs.layout.cluster_size as int)) * (
            fs.layout.cluster_size as int),
            self.offset + n <= self.chain(fs).len() * fs.layout.cluster_size,
    {
        let l = fs.layout;
        let cs = l.cluster_size as int;
        let off = self.offset as int;
        let c = self.advanced_cluster(fs)->0;
        let fuel = (l.total_clusters + 1) as nat;
        lemma_fundamental_div_mod(off, cs);
        if off % cs == 0 {
            match self.current_cluster {
                None => {
                    assert(self.offset == 0);
                    assert(c == self.first_cluster->0);
                    crate::table::lemma_chain_shape(fs.disk@, l, self.first_cluster->0, fuel);
                    lemma_index_next_block(0, n, cs);
                    assert(Self::cluster_index_of(n, cs) == 0);
                },
                Some(cc) => {
                    let ch = self.chain(fs);
                    let idx = Self::cluster_index_of(off, cs);
                    crate::table::lemma_chain_shape(fs.disk@, l, self.first_cluster->0, fuel);
                    lemma_index_next_block(off, n, cs);
                    // The successor read from the FAT is the next chain
                    // element.
                    if idx == ch.len() - 1 {
                        assert(fat_entry(fs.disk@, l, cc as int) == FatValue::EndOfChain);
                        assert(chain_next(fs.disk@, l, cc as int) is None);
                        assert(false);
                    }
                    assert(fat_entry(fs.disk@, l, cc as int) == FatValue::Data(ch[idx + 1]));
                    assert(c == ch[idx + 1]);
                    assert(Self::cluster_index_of(off + n, cs) == idx + 1);
                },
            }
        } else {
            let idx = Self::cluster_index_of(off, cs);
            lemma_index_same_block(off, n, cs);
            assert(Self::cluster_index_of(off + n, cs) == idx);
        }
        // The cluster's bytes lie within the volume image.
        let t = l.total_clusters as int;
        lemma_mul_inequality(c - 2, t - 1, cs);
        assert((t - 1) * cs + cs == t * cs) by (nonlinear_arith);
        // The offset within the cluster restates the division, and the
        // transfer stays within the chain's bytes.
        let idx2 = Self::cluster_index_of(off + n, cs);
        let q = off / cs;
        lemma_fundamental_div_mod(off, cs);
        assert(q * cs == cs * q) by (nonlinear_arith);
        if off % cs == 0 {
            lemma_index_next_block(off, n, cs);
            assert(idx2 == q);
            assert(off % cs == off - idx2 * cs);
        } else {
            lemma_index_same_block(off, n, cs);
            assert(idx2 == q);
            assert(off % cs == off - idx2 * cs);
        }
        // Bytes written stay within the chain: offset + n <= len * cs.
        let len = self.chain(fs).len() as int;
        assert(idx2 < len);
        lemma_fundamental_div_mod(off + n - 1, cs);
        assert(idx2 * cs == cs * idx2) by (nonlinear_arith);
        assert(off + n <= (idx2 + 1) * cs) by (nonlinear_arith)
            requires
                off + n - 1 == idx2 * cs + (off + n - 1) % cs,
                0 <= (off + n - 1) % cs < cs,
        ;
        lemma_mul_inequality(idx2 + 1, len, cs);
        assert(off + n <= len * cs);
    }

    /// Reads at most one cluster's worth of bytes at the current offset
    /// into the front of `buf`, and advances. Returns 0 at the end of the
    /// chain or of a known size, and when the buffer is empty.
    pub fn read(&mut self, fs: &FileSystem, buf: &mut Vec<u8>) -> (r: Result<usize, Error>)
        requires
            fs.wf(),
            old(self).wf(*fs),
        ensures
            r is Ok,
            final(self).wf(*fs),
            final(self).first_cluster == old(self).first_cluster,
            final(self).entry == old(self).entry,
            final(buf)@.len() == old(buf)@.len(),
            match old(self).advanced_cluster(*fs) {
                None => {
                    &&& r == Ok::<usize, Error>(0)
                    &&& *final(self) == *old(self)
                    &&& final(buf)@ == old(buf)@
                },
                Some(c) => {
                    let n = old(self).spec_read_len(*fs, old(buf)@.len() as int);
                    let start = fs.layout.spec_cluster_pos(c as int) + (old(self).offset as int)
                        % (fs.layout.cluster_size as int);
                    &&& r == Ok::<usize, Error>(n as usize)
                    &&& n == 0 ==> *final(self) == *old(self) && final(buf)@ == old(buf)@
                    &&& n > 0 ==> {
                        &&& final(self).offset == old(self).offset + n
                        &&& final(self).current_cluster == Some(c)
                        &&& forall|i: int|
                            0 <= i < n ==> final(buf)@[i] == fs.disk@[start + i]
                        &&& forall|i: int|
                            n <= i < old(buf)@.len() ==> final(buf)@[i] == old(buf)@[i]
                    }
                },
            },
    {
        let cluster_size = fs.cluster_size();
        let current_cluster_opt = if self.offset % cluster_size == 0 {
            match self.current_cluster {
                None => self.first_cluster,
                Some(n) => {
                    proof {
                        crate::table::lemma_cluster_entry_in_range(*fs, n);
                    }
                    match crate::table::get_next_cluster(fs, n) {
                        Ok(next) => next,
                        Err(e) => {
                            proof {
                                assert(false);
                            }
                            return Err(e);
                        },
                    }
                },
            }
        } else {
            self.current_cluster
        };
        let current = match current_cluster_opt {
            Some(n) => n,
            None => {
                return Ok(0);
            },
        };
        let offset_in_cluster = self.offset % cluster_size;
        let bytes_left_in_cluster = (cluster_size - offset_in_cluster) as usize;
        let bytes_left_in_file = match self.bytes_left_in_file() {
            Some(n) => n,
            None => bytes_left_in_cluster,
        };
        let mut read_size = buf.len();
        if bytes_left_in_cluster < read_size {
            read_size = bytes_left_in_cluster;
        }
        if bytes_left_in_file < read_size {
            read_size = bytes_left_in_file;
        }
        if read_size == 0 {
            return Ok(0);
        }
        proof {
            self.lemma_advance(*fs, read_size as int);
        }
        let pos = fs.offset_from_cluster(current) + (offset_in_cluster as usize);
        let mut i: usize = 0;
        while i < read_size
            invariant
                0 <= i <= read_size,
                read_size <= buf@.len(),
                pos + read_size <= fs.disk@.len(),
                pos + read_size <= fs.disk.len(),
                buf@.len() == old(buf)@.len(),
                forall|j: int| 0 <= j < i ==> buf@[j] == fs.disk@[pos + j],
                forall|j: int| i <= j < buf@.len() ==> buf@[j] == old(buf)@[j],
            decreases read_size - i,
        {
            let b = crate::codec::get_u8(&fs.disk, pos + i);
            buf.set(i, b);
            i = i + 1;
        }
        proof {
            lemma_mul_inequality(
                self.chain(*fs).len() as int,
                fs.layout.total_clusters as int,
                fs.layout.cluster_size as int,
            );
        }
        self.offset = self.offset + (read_size as u32);
        self.current_cluster = Some(current);
        Ok(read_size)
    }
}

impl File {
    /// How many bytes a write at the current offset accepts: bounded by the
    /// buffer and by the bytes left in the cluster.
    pub open spec fn spec_write_len(self, fs: FileSystem, buf_len: int) -> int {
        let cs = fs.layout.cluster_size as int;
        vstd::math::min(buf_len, cs - (self.offset as int) % cs)
    }

    /// Sets the first cluster of the stream, in the handle and in its
    /// directory record.
    fn set_first_cluster(&mut self, cluster: u32, fs: &FileSystem)
        requires
            fs.wf(),
            fs.layout.is_cluster(cluster),
        ensures
            final(self).first_cluster == Some(cluster),
            final(self).current_cluster == old(self).current_cluster,
            final(self).offset == old(self).offset,
            match (old(self).entry, final(self).entry) {
                (Some(e0), Some(e1)) => {
                    &&& e1.pos == e0.pos
                    &&& spec_first_cluster(e1.data, fs.layout.fat_type) == Some(cluster)
                    &&& e1.data == (crate::dir_entry::DirFileEntryData {
                        first_cluster_hi: e1.data.first_cluster_hi,
                        first_cluster_lo: e1.data.first_cluster_lo,
                        ..e0.data
                    })
                    &&& e1.dirty == (e0.dirty || spec_first_cluster(e0.data, fs.layout.fat_type)
                        != Some(cluster))
                },
                (None, None) => true,
                _ => false,
            },
    {
        self.first_cluster = Some(cluster);
        match self.entry {
            Some(e) => {
                let mut e2 = e;
                e2.set_first_cluster(Some(cluster), fs.layout.fat_type);
                self.entry = Some(e2);
            },
            None => {},
        }
    }

    /// After a write, grows a regular file's recorded size to the new
    /// offset and marks the record for rewriting.
    fn update_size(&mut self)
        ensures
            final(self).first_cluster == old(self).first_cluster,
            final(self).current_cluster == old(self).current_cluster,
            final(self).offset == old(self).offset,
            match (old(self).entry, final(self).entry) {
                (Some(e0), Some(e1)) => {
                    &&& e1.pos == e0.pos
                    &&& e1.dirty
                    &&& e1.data == (crate::dir_entry::DirFileEntryData {
                        size: if e0.data.attrs & ATTR_DIRECTORY == 0 && old(self).offset
                            > e0.data.size {
                            old(self).offset
                        } else {
                            e0.data.size
                        },
                        ..e0.data
                    })
                },
                (None, None) => true,
                _ => false,
            },
    {
        let offset = self.offset;
        match self.entry {
            Some(e) => {
                let mut e2 = e;
                e2.reset_modified();
                let grow = match e2.inner().size() {
                    Some(s) => offset > s,
                    None => false,
                };
                if grow {
                    e2.set_size(offset);
                }
                self.entry = Some(e2);
            },
            None => {},
        }
    }

    /// Writes at most one cluster's worth of bytes at the current offset,
    /// allocating and linking a fresh cluster when the chain ends (and
    /// zero-filling it first for a stream of unknown size), and advances.
    /// Fails with `NoSpace` exactly when a cluster is needed and no free
    /// cluster exists.
    #[verifier::rlimit(100)]
    pub fn write(&mut self, fs: &mut FileSystem, buf: &Vec<u8>) -> (r: Result<usize, Error>)
        requires
            old(fs).wf(),
            old(self).wf(*old(fs)),
        ensures
            final(fs).layout == old(fs).layout,
            final(fs).wf(),
            final(fs).disk@.len() == old(fs).disk@.len(),
            final(self).wf(*final(fs)),
            match r {
                Ok(n) => {
                    let l = old(fs).layout;
                    let cs = l.cluster_size as int;
                    let off = old(self).offset as int;
                    &&& n == old(self).spec_write_len(*old(fs), buf@.len() as int)
                    &&& (n == 0 ==> *final(self) == *old(self) && final(fs).disk@ == old(
                        fs,
                    ).disk@)
                    &&& (n > 0 ==> {
                        let c = final(self).current_cluster->0;
                        let start = l.spec_cluster_pos(c as int) + off % cs;
                        &&& final(self).current_cluster is Some
                        &&& l.is_cluster(c)
                        &&& final(self).offset == off + n
                        &&& forall|i: int|
                            0 <= i < n ==> final(fs).disk@[start + i] == buf@[i]
                        &&& match old(self).advanced_cluster(*old(fs)) {
                            Some(c0) => {
                                &&& c == c0
                                &&& final(self).first_cluster == old(self).first_cluster
                                &&& final(self).chain(*final(fs)) == old(self).chain(*old(fs))
                                &&& forall|i: int|
                                    0 <= i < old(fs).disk@.len() && !(start <= i < start + n)
                                        ==> final(fs).disk@[i] == old(fs).disk@[i]
                            },
                            None => {
                                &&& off % cs == 0
                                &&& fat_entry(final(fs).disk@, l, c as int)
                                    == FatValue::EndOfChain
                                &&& fat_entry(old(fs).disk@, l, c as int) == FatValue::Free
                                &&& match old(self).first_cluster {
                                    None => final(self).first_cluster == Some(c)
                                        && final(self).chain(*final(fs)) == seq![c],
                                    Some(fc) => {
                                        &&& final(self).first_cluster == Some(fc)
                                        &&& final(self).chain(*final(fs)) == old(self).chain(
                                            *old(fs),
                                        ) + seq![c]
                                        &&& fat_entry(
                                            final(fs).disk@,
                                            l,
                                            old(self).current_cluster->0 as int,
                                        ) == FatValue::Data(c)
                                    },
                                }
                                &&& (old(self).spec_size() is None ==> forall|i: int|
                                    start + n <= i < start + cs ==> final(fs).disk@[i] == 0u8)
                                &&& (old(self).spec_size() is Some ==> forall|i: int|
                                    start + n <= i < start + cs ==> final(fs).disk@[i] == old(
                                        fs,
                                    ).disk@[i])
                                &&& forall|i: int|
                                    0 <= i < old(fs).disk@.len() && !(start <= i < start + cs)
                                        && !(l.fat_offset <= i < l.fat_offset + l.fat_len)
                                        ==> final(fs).disk@[i] == old(fs).disk@[i]
                                &&& forall|c2: u32|
                                    fat_entry_in_range(l, c2 as int) && c2 != c && Some(c2)
                                        != old(self).current_cluster ==> crate::table::fat_raw(
                                        final(fs).disk@,
                                        l,
                                        c2 as int,
                                    ) == crate::table::fat_raw(old(fs).disk@, l, c2 as int)
                            },
                        }
                        &&& match (old(self).entry, final(self).entry) {
                            (Some(e0), Some(e1)) => {
                                &&& e1.pos == e0.pos
                                &&& e1.dirty
                                &&& spec_first_cluster(e1.data, l.fat_type)
                                    == final(self).first_cluster
                                &&& e1.data.attrs == e0.data.attrs
                                &&& (e0.data.attrs & ATTR_DIRECTORY == 0 ==> e1.data.size == if
                                    off + n > e0.data.size {
                                    (off + n) as u32
                                } else {
                                    e0.data.size
                                })
                            },
                            (None, None) => true,
                            _ => false,
                        }
                    })
                },
                Err(e) => {
                    &&& e == Error::NoSpace
                    &&& old(self).advanced_cluster(*old(fs)) is None
                    &&& buf@.len() > 0
                    &&& forall|c2: int|
                        2 <= c2 < old(fs).layout.spec_cluster_limit() ==> fat_entry(
                            old(fs).disk@,
                            old(fs).layout,
                            c2,
                        ) != FatValue::Free
                    &&& final(fs).disk@ == old(fs).disk@
                    &&& *final(self) == *old(self)
                },
            },
    {
        let ghost l = fs.layout;
        let ghost d0 = fs.disk@;
        let cluster_size = fs.cluster_size();
        let offset_in_cluster = self.offset % cluster_size;
        let bytes_left_in_cluster = (cluster_size - offset_in_cluster) as usize;
        let mut write_size = buf.len();
        if bytes_left_in_cluster < write_size {
            write_size = bytes_left_in_cluster;
        }
        if write_size == 0 {
            return Ok(0);
        }
        let current_cluster = if self.offset % cluster_size == 0 {
            let next_cluster = match self.current_cluster {
                None => self.first_cluster,
                Some(n) => {
                    proof {
                        crate::table::lemma_cluster_entry_in_range(*fs, n);
                    }
                    match crate::table::get_next_cluster(fs, n) {
                        Ok(next) => next,
                        Err(e) => {
                            proof {
                                assert(false);
                            }
                            return Err(e);
                        },
                    }
                },
            };
            match next_cluster {
                Some(n) => n,
                None => {
                    // The chain ends here: allocate a cluster and link it.
                    proof {
                        if self.current_cluster is Some {
                            self.lemma_at_chain_end(*fs);
                        }
                    }
                    let new_cluster = match crate::table::alloc_cluster(
                        fs,
                        self.current_cluster,
                    ) {
                        Ok(n) => n,
                        Err(e) => {
                            return Err(e);
                        },
                    };
                    proof {
                        self.lemma_after_alloc(*old(fs), *fs, new_cluster);
                    }
                    let ghost d_alloc = fs.disk@;
                    if self.first_cluster.is_none() {
                        self.set_first_cluster(new_cluster, fs);
                    }
                    let zero_fill = match &self.entry {
                        Some(e) => {
                            match e.inner().size() {
                                Some(_) => false,
                                None => true,
                            }
                        },
                        None => true,
                    };
                    if zero_fill {
                        // A fresh directory cluster must read as empty
                        // records.
                        let pos = fs.offset_from_cluster(new_cluster);
                        crate::codec::zero_bytes_at(&mut fs.disk, pos, cluster_size as usize);
                        proof {
                            crate::table::lemma_fat_region_unchanged(d_alloc, fs.disk@, l);
                        }
                    }
                    proof {
                        // The chain, as the allocation left it, carries over
                        // the zero-fill untouched.
                        let fc = self.first_cluster->0;
                        if old(self).first_cluster is None {
                            assert(fc == new_cluster);
                            assert(chain_wf(d_alloc, l, fc) && spec_chain(d_alloc, l, fc)
                                == seq![new_cluster]);
                        } else {
                            assert(chain_wf(d_alloc, l, fc) && spec_chain(d_alloc, l, fc)
                                == spec_chain(d0, l, fc) + seq![new_cluster]);
                        }
                        crate::table::lemma_chain_wf_congruent(d_alloc, fs.disk@, l, fc);
                        crate::table::lemma_cluster_entry_in_range(
                            FileSystem { disk: fs.disk, layout: l },
                            new_cluster,
                        );
                        if old(self).current_cluster is Some {
                            crate::table::lemma_cluster_entry_in_range(
                                FileSystem { disk: fs.disk, layout: l },
                                old(self).current_cluster->0,
                            );
                        }
                    }
                    new_cluster
                },
            }
        } else {
            match self.current_cluster {
                Some(n) => n,
                None => {
                    proof {
                        assert(cluster_size >= 1);
                        assert(self.offset == 0);
                        assert(self.offset % cluster_size == 0) by (nonlinear_arith)
                            requires
                                self.offset == 0u32,
                                cluster_size >= 1u32,
                        ;
                        assert(false);
                    }
                    return Err(Error::UnexpectedEof);
                },
            }
        };
        let ghost d_mid = fs.disk@;
        proof {
            // Uniform pre-write facts: the target cluster is the chain
            // element covering the bytes about to be written.
            let cs = l.cluster_size as int;
            let off = old(self).offset as int;
            let n = write_size as int;
            assert(self.first_cluster is Some);
            let fc = self.first_cluster->0;
            let ch = spec_chain(d_mid, l, fc);
            let idx2 = Self::cluster_index_of(off + n, cs);
            match old(self).advanced_cluster(*old(fs)) {
                Some(c0) => {
                    assert(current_cluster == c0);
                    assert(d_mid == d0);
                    old(self).lemma_advance(*old(fs), n);
                },
                None => {
                    assert(off % cs == 0);
                    lemma_index_next_block(off, n, cs);
                    match old(self).current_cluster {
                        None => {
                            assert(off == 0);
                            assert(ch == seq![current_cluster]);
                            assert(idx2 == 0);
                            assert(off + n <= 1 * cs);
                        },
                        Some(p) => {
                            let ch0 = spec_chain(d0, l, fc);
                            old(self).lemma_at_chain_end(*old(fs));
                            let len0 = ch0.len() as int;
                            assert(ch == ch0 + seq![current_cluster]);
                            // The boundary offset equals the byte count of
                            // the old chain.
                            lemma_fundamental_div_mod(off, cs);
                            assert((off - 1) / cs == len0 - 1);
                            assert(off / cs == (off - 1) / cs + 1);
                            assert(off == (off / cs) * cs && (off / cs) * cs == cs * (off
                                / cs)) by (nonlinear_arith)
                                requires
                                    off == cs * (off / cs),
                            ;
                            assert(idx2 == off / cs);
                            assert(idx2 == len0);
                            assert(ch[idx2] == current_cluster);
                            assert(off + n <= (len0 + 1) * cs) by (nonlinear_arith)
                                requires
                                    off == len0 * cs,
                                    n <= cs,
                            ;
                        },
                    }
                    assert(idx2 < ch.len());
                    assert(ch[idx2] == current_cluster);
                    assert(off + n <= ch.len() * cs) by (nonlinear_arith)
                        requires
                            off + n <= (idx2 + 1) * cs,
                            idx2 + 1 <= ch.len(),
                            cs >= 0,
                    ;
                },
            }
            // The new offset fits the 32-bit position type.
            assert(ch.len() <= l.total_clusters);
            lemma_mul_inequality(ch.len() as int, l.total_clusters as int, cs);
            assert(off + n <= 0xFFFF_FFFF);
        }
        let pos = fs.offset_from_cluster(current_cluster) + (offset_in_cluster as usize);
        crate::codec::write_prefix_at(&mut fs.disk, pos, buf, write_size);
        proof {
            crate::table::lemma_fat_region_unchanged(d_mid, fs.disk@, l);
            match self.first_cluster {
                Some(fc) => {
                    crate::table::lemma_chain_wf_congruent(d_mid, fs.disk@, l, fc);
                },
                None => {},
            }
        }
        self.offset = self.offset + (write_size as u32);
        self.current_cluster = Some(current_cluster);
        self.update_size();
        proof {
            let cs = l.cluster_size as int;
            let off = old(self).offset as int;
            let n = write_size as int;
            let fc = self.first_cluster->0;
            let ch = spec_chain(fs.disk@, l, fc);
            let idx2 = Self::cluster_index_of(off + n, cs);
            assert(ch == spec_chain(d_mid, l, fc));
            assert(idx2 < ch.len() && ch[idx2] == current_cluster);
            // The chain's bytes bound the new offset and any known size.
            lemma_mul_inequality(ch.len() as int, l.total_clusters as int, cs);
            assert(off + n <= ch.len() * cs);
            match self.spec_size() {
                Some(sz) => {
                    assert(old(self).spec_size() is Some);
                    let sz0 = old(self).spec_size()->0;
                    assert(sz == if off + n > sz0 {
                        (off + n) as u32
                    } else {
                        sz0
                    });
                    if old(self).first_cluster is Some {
                        assert(sz0 <= spec_chain(d0, l, fc) .len() * cs);
                        if old(self).advanced_cluster(*old(fs)) is None {
                            assert(spec_chain(d0, l, fc).len() + 1 == ch.len());
                            assert(spec_chain(d0, l, fc).len() * cs <= ch.len() * cs) by {
                                lemma_mul_inequality(
                                    spec_chain(d0, l, fc).len() as int,
                                    ch.len() as int,
                                    cs,
                                );
                            }
                        }
                    }
                },
                None => {},
            }
            // The cluster written to lies in the data region, past the FAT.
            crate::table::lemma_cluster_entry_in_range(
                FileSystem { disk: fs.disk, layout: l },
                current_cluster,
            );
            if old(self).advanced_cluster(*old(fs)) is None {
                if old(self).current_cluster is Some {
                    crate::table::lemma_cluster_entry_in_range(
                        FileSystem { disk: fs.disk, layout: l },
                        old(self).current_cluster->0,
                    );
                }
            }
        }
        Ok(write_size)
    }

    /// When the boundary advance finds no successor, the cursor stands on
    /// the last cluster of the chain, whose entry is `EndOfChain`.
    pub proof fn lemma_at_chain_end(self, fs: FileSystem)
        requires
            fs.wf(),
            self.wf(fs),
            self.current_cluster is Some,
            self.offset as int % (fs.layout.cluster_size as int) == 0,
            chain_next(fs.disk@, fs.layout, self.current_cluster->0 as int) is None,
        ensures
            fat_entry(fs.disk@, fs.layout, self.current_cluster->0 as int)
                == FatValue::EndOfChain,
            self.current_cluster->0 == self.chain(fs).last(),
            Self::cluster_index_of(self.offset as int, fs.layout.cluster_size as int)
                == self.chain(fs).len() - 1,
            fs.layout.is_cluster(self.current_cluster->0),
    {
        let l = fs.layout;
        let ch = self.chain(fs);
        let idx = Self::cluster_index_of(self.offset as int, l.cluster_size as int);
        crate::table::lemma_chain_shape(fs.disk@, l, self.first_cluster->0, (l.total_clusters
            + 1) as nat);
        if idx < ch.len() - 1 {
            assert(fat_entry(fs.disk@, l, ch[idx] as int) == FatValue::Data(ch[idx + 1]));
            assert(false);
        }
        assert(fat_entry(fs.disk@, l, ch[ch.len() - 1] as int) == FatValue::EndOfChain);
    }

    /// What the allocation step leaves behind: the stream's chain grown by
    /// exactly the fresh cluster, still well formed.
    proof fn lemma_after_alloc(self, fs0: FileSystem, fs1: FileSystem, new: u32)
        requires
            fs0.wf(),
            fs1.wf(),
            self.wf(fs0),
            fs1.layout == fs0.layout,
            fs1.disk@.len() == fs0.disk@.len(),
            self.offset as int % (fs0.layout.cluster_size as int) == 0,
            self.current_cluster is Some ==> chain_next(
                fs0.disk@,
                fs0.layout,
                self.current_cluster->0 as int,
            ) is None,
            self.current_cluster is None ==> self.first_cluster is None,
            fs0.layout.is_cluster(new),
            fat_entry(fs0.disk@, fs0.layout, new as int) == FatValue::Free,
            fat_entry(fs1.disk@, fs1.layout, new as int) == FatValue::EndOfChain,
            match self.current_cluster {
                Some(p) => p != new && fat_entry(fs1.disk@, fs1.layout, p as int)
                    == FatValue::Data(new),
                None => true,
            },
            forall|c2: u32|
                fat_entry_in_range(fs0.layout, c2 as int) && c2 != new && Some(c2)
                    != self.current_cluster ==> crate::table::fat_raw(
                    fs1.disk@,
                    fs0.layout,
                    c2 as int,
                ) == crate::table::fat_raw(fs0.disk@, fs0.layout, c2 as int),
        ensures
            match self.first_cluster {
                None => spec_chain(fs1.disk@, fs1.layout, new) == seq![new] && chain_wf(
                    fs1.disk@,
                    fs1.layout,
                    new,
                ),
                Some(fc) => {
                    &&& spec_chain(fs1.disk@, fs1.layout, fc) == spec_chain(
                        fs0.disk@,
                        fs0.layout,
                        fc,
                    ) + seq![new]
                    &&& chain_wf(fs1.disk@, fs1.layout, fc)
                },
            },
    {
        let l = fs0.layout;
        let fuel = (l.total_clusters + 1) as nat;
        match self.first_cluster {
            None => {
                assert(chain_next(fs1.disk@, l, new as int) is None);
                assert(spec_chain(fs1.disk@, l, new) =~= seq![new]);
            },
            Some(fc) => {
                let ch0 = spec_chain(fs0.disk@, l, fc);
                let p = self.current_cluster->0;
                self.lemma_at_chain_end(fs0);
                crate::table::lemma_chain_shape(fs0.disk@, l, fc, fuel);
                crate::table::lemma_chain_distinct(fs0.disk@, l, fc);
                assert(!ch0.contains(new)) by {
                    if ch0.contains(new) {
                        let i = choose|i: int| 0 <= i < ch0.len() && ch0[i] == new;
                        if i < ch0.len() - 1 {
                            assert(fat_entry(fs0.disk@, l, ch0[i] as int) == FatValue::Data(
                                ch0[i + 1],
                            ));
                        } else {
                            assert(fat_entry(fs0.disk@, l, ch0[i] as int)
                                == FatValue::EndOfChain);
                        }
                    }
                }
                crate::table::lemma_chain_capacity(l, ch0, new);
                assert forall|i: int| 0 <= i < ch0.len() - 1 implies fat_entry(
                    fs1.disk@,
                    l,
                    #[trigger] ch0[i] as int,
                ) == fat_entry(fs0.disk@, l, ch0[i] as int) by {
                    assert(ch0[i] != ch0[ch0.len() - 1]);
                    assert(ch0[i] != new);
                    crate::table::lemma_cluster_entry_in_range(fs0, ch0[i]);
                }
                assert(ch0.last() == p);
                crate::table::lemma_chain_extend(fs0.disk@, fs1.disk@, l, fc, fuel, new);
            },
        }
    }
}

impl File {
    /// The raw target of a seek, before sign and size checks.
    pub open spec fn spec_seek_raw(self, pos: SeekFrom) -> int {
        match pos {
            SeekFrom::Start(x) => x as int,
            SeekFrom::Current(x) => self.offset + x,
            SeekFrom::End(x) => self.spec_size()->0 + x,
        }
    }

    /// The target of a seek after clamping to a known size.
    pub open spec fn spec_seek_clamped(self, pos: SeekFrom) -> int {
        let raw = self.spec_seek_raw(pos);
        match self.spec_size() {
            Some(sz) => if raw > sz {
                sz as int
            } else {
                raw
            },
            None => raw,
        }
    }

    /// Moves the cursor. A negative target, or an end-relative seek on a
    /// stream of unknown size, is rejected with `InvalidInput`; a target
    /// past a known size is clamped to the size; a target past the end of
    /// the chain is clamped to the last chain cluster's end; a target of 0
    /// clears the cursor's cluster.
    #[verifier::rlimit(100)]
    pub fn seek(&mut self, fs: &FileSystem, pos: SeekFrom) -> (r: Result<u64, Error>)
        requires
            fs.wf(),
            old(self).wf(*fs),
        ensures
            final(self).wf(*fs),
            final(self).first_cluster == old(self).first_cluster,
            final(self).entry == old(self).entry,
            ({
                let cs = fs.layout.cluster_size as int;
                let raw = old(self).spec_seek_raw(pos);
                let clamped = old(self).spec_seek_clamped(pos);
                let ch = old(self).chain(*fs);
                let tgt = Self::cluster_index_of(clamped, cs);
                if pos is End && old(self).spec_size() is None {
                    &&& r == Err::<u64, Error>(Error::InvalidInput)
                    &&& *final(self) == *old(self)
                } else if raw < 0 {
                    &&& r == Err::<u64, Error>(Error::InvalidInput)
                    &&& *final(self) == *old(self)
                } else {
                    &&& r == Ok::<u64, Error>(final(self).offset as u64)
                    &&& if clamped == old(self).offset {
                        *final(self) == *old(self)
                    } else if clamped == 0 {
                        final(self).offset == 0 && final(self).current_cluster is None
                    } else if tgt == Self::cluster_index_of(old(self).offset as int, cs) {
                        final(self).offset == clamped && final(self).current_cluster == old(
                            self,
                        ).current_cluster
                    } else if old(self).first_cluster is None {
                        final(self).offset == 0 && final(self).current_cluster is None
                    } else if tgt < ch.len() {
                        final(self).offset == clamped && final(self).current_cluster == Some(
                            ch[tgt],
                        )
                    } else {
                        final(self).offset == ch.len() * cs && final(self).current_cluster
                            == Some(ch.last())
                    }
                }
            }),
    {
        let cluster_size = fs.cluster_size();
        let ghost l = fs.layout;
        let ghost cs = l.cluster_size as int;
        let raw: i128 = match pos {
            SeekFrom::Start(x) => x as i128,
            SeekFrom::Current(x) => (self.offset as i128) + (x as i128),
            SeekFrom::End(x) => {
                let sz = match self.bytes_left_in_file() {
                    Some(_) => {
                        match &self.entry {
                            Some(e) => {
                                match e.inner().size() {
                                    Some(s) => s,
                                    None => {
                                        proof {
                                            assert(false);
                                        }
                                        return Err(Error::InvalidInput);
                                    },
                                }
                            },
                            None => {
                                proof {
                                    assert(false);
                                }
                                return Err(Error::InvalidInput);
                            },
                        }
                    },
                    None => {
                        return Err(Error::InvalidInput);
                    },
                };
                (sz as i128) + (x as i128)
            },
        };
        if raw < 0 {
            return Err(Error::InvalidInput);
        }
        let clamped: i128 = match &self.entry {
            Some(e) => {
                match e.inner().size() {
                    Some(s) => if raw > (s as i128) {
                        s as i128
                    } else {
                        raw
                    },
                    None => raw,
                }
            },
            None => raw,
        };
        proof {
            assert(clamped == self.spec_seek_clamped(pos));
        }
        if clamped == (self.offset as i128) {
            return Ok(self.offset as u64);
        }
        if clamped == 0 {
            self.offset = 0;
            self.current_cluster = None;
            return Ok(0);
        }
        let tgt: i128 = (clamped - 1) / (cluster_size as i128);
        let old_idx: i128 = if self.offset == 0 {
            -1
        } else {
            ((self.offset - 1) as i128) / (cluster_size as i128)
        };
        proof {
            assert(tgt == Self::cluster_index_of(clamped as int, cs));
            if self.offset == 0 {
                lemma_fundamental_div_mod_converse(-1, cs, -1, cs - 1);
            }
            assert(old_idx == Self::cluster_index_of(self.offset as int, cs));
        }
        if tgt == old_idx {
            proof {
                // The cursor's cluster already covers the target offset.
                assert(self.offset > 0);
                assert(self.current_cluster is Some);
                lemma_mul_inequality(
                    self.chain(*fs).len() as int,
                    l.total_clusters as int,
                    cs,
                );
                assert(clamped <= self.chain(*fs).len() * cs) by {
                    lemma_fundamental_div_mod(clamped as int - 1, cs);
                    assert((tgt as int) * cs == cs * (tgt as int)) by (nonlinear_arith);
                    assert(clamped <= (tgt as int + 1) * cs) by (nonlinear_arith)
                        requires
                            clamped as int - 1 == (tgt as int) * cs + (clamped as int - 1) % cs,
                            0 <= (clamped as int - 1) % cs < cs,
                    ;
                    lemma_mul_inequality(tgt as int + 1, self.chain(*fs).len() as int, cs);
                }
            }
            self.offset = clamped as u32;
            return Ok(self.offset as u64);
        }
        let first = match self.first_cluster {
            Some(n) => n,
            None => {
                self.offset = 0;
                self.current_cluster = None;
                return Ok(0);
            },
        };
        let ghost ch = self.chain(*fs);
        proof {
            crate::table::lemma_chain_shape(fs.disk@, l, first, (l.total_clusters + 1) as nat);
        }
        let mut cluster = first;
        let mut i: u64 = 0;
        let mut hit_end = false;
        while !hit_end && (i as i128) < tgt
            invariant
                fs.wf(),
                l == fs.layout,
                cs == l.cluster_size as int,
                ch == spec_chain(fs.disk@, l, first),
                1 <= ch.len() <= l.total_clusters + 1,
                forall|k: int|
                    0 <= k < ch.len() - 1 ==> fat_entry(fs.disk@, l, #[trigger] ch[k] as int)
                        == FatValue::Data(ch[k + 1]),
                fat_entry(fs.disk@, l, ch[ch.len() - 1] as int) == FatValue::EndOfChain,
                forall|k: int| 0 <= k < ch.len() ==> l.is_cluster(#[trigger] ch[k]),
                0 <= i < ch.len(),
                cluster == ch[i as int],
                !hit_end ==> i as i128 <= tgt,
                hit_end ==> i == ch.len() - 1 && (i as i128) < tgt,
                0 <= tgt,
            decreases (if hit_end {
                0int
            } else {
                1int
            }), tgt - i,
        {
            proof {
                crate::table::lemma_cluster_entry_in_range(*fs, cluster);
            }
            match crate::table::get_next_cluster(fs, cluster) {
                Ok(Some(n)) => {
                    proof {
                        if i as int == ch.len() - 1 {
                            assert(false);
                        }
                    }
                    cluster = n;
                    i = i + 1;
                },
                Ok(None) => {
                    proof {
                        if (i as int) < ch.len() - 1 {
                            assert(false);
                        }
                    }
                    hit_end = true;
                },
                Err(e) => {
                    proof {
                        assert(false);
                    }
                    return Err(e);
                },
            }
        }
        proof {
            lemma_mul_inequality(ch.len() as int, l.total_clusters as int, cs);
            lemma_mul_nonnegative(ch.len() as int, cs);
        }
        if hit_end {
            // The chain ends before the target: stop at the end of its
            // last cluster.
            proof {
                assert(i as int + 1 == ch.len());
                assert((i as int + 1) * cs == ch.len() * cs);
                let e = ch.len() as int * cs;
                assert((ch.len() as int - 1) * cs == ch.len() as int * cs - cs)
                    by (nonlinear_arith);
                lemma_fundamental_div_mod_converse(e - 1, cs, ch.len() as int - 1, cs - 1);
                assert(Self::cluster_index_of(e, cs) == ch.len() - 1);
                match self.spec_size() {
                    Some(sz) => {
                        // A bounded file's size keeps the clamped target on
                        // the chain, so its walk cannot run out.
                        assert(clamped <= sz);
                        assert(tgt < ch.len()) by {
                            lemma_fundamental_div_mod(clamped as int - 1, cs);
                            assert(false) by (nonlinear_arith)
                                requires
                                    clamped as int - 1 == (tgt as int) * cs + (clamped as int
                                        - 1) % cs,
                                    0 <= (clamped as int - 1) % cs < cs,
                                    clamped <= ch.len() as int * cs,
                                    tgt as int >= ch.len() as int,
                                    cs >= 1,
                            ;
                        }
                        assert(false);
                    },
                    None => {},
                }
            }
            self.offset = ((i + 1) as u32) * cluster_size;
            self.current_cluster = Some(cluster);
            return Ok(self.offset as u64);
        }
        proof {
            assert(i as i128 == tgt);
            assert(tgt < ch.len());
            assert(clamped <= ch.len() as int * cs) by {
                lemma_fundamental_div_mod(clamped as int - 1, cs);
                assert((tgt as int) * cs == cs * (tgt as int)) by (nonlinear_arith);
                assert(clamped <= (tgt as int + 1) * cs) by (nonlinear_arith)
                    requires
                        clamped as int - 1 == (tgt as int) * cs + (clamped as int - 1) % cs,
                        0 <= (clamped as int - 1) % cs < cs,
                ;
                lemma_mul_inequality(tgt as int + 1, ch.len() as int, cs);
            }
        }
        self.offset = clamped as u32;
        self.current_cluster = Some(cluster);
        Ok(self.offset as u64)
    }
}

impl File {
    /// Truncates the stream at the current position: the record's size
    /// becomes the current offset; the chain is cut after the cursor's
    /// cluster and the remainder released, or released whole at offset 0.
    /// The surviving on-disk chain holds exactly one cluster per started
    /// cluster's worth of the new size.
    #[verifier::rlimit(100)]
    #[verifier::spinoff_prover]
    pub fn truncate(&mut self, fs: &mut FileSystem) -> (r: Result<(), Error>)
        requires
            old(fs).wf(),
            old(self).wf(*old(fs)),
        ensures
            final(fs).layout == old(fs).layout,
            final(fs).wf(),
            final(fs).disk@.len() == old(fs).disk@.len(),
            final(self).wf(*final(fs)),
            r is Ok,
            final(self).offset == old(self).offset,
            match (old(self).entry, final(self).entry) {
                (Some(e0), Some(e1)) => {
                    &&& e1.pos == e0.pos
                    &&& (e0.data.attrs & ATTR_DIRECTORY == 0 ==> e1.data.size == old(
                        self,
                    ).offset)
                    &&& spec_first_cluster(e1.data, old(fs).layout.fat_type)
                        == final(self).first_cluster
                    &&& e1.data.attrs == e0.data.attrs
                },
                (None, None) => true,
                _ => false,
            },
            ({
                let l = old(fs).layout;
                let cs = l.cluster_size as int;
                if old(self).offset == 0 {
                    &&& final(self).first_cluster is None
                    &&& final(self).current_cluster is None
                    &&& match old(self).first_cluster {
                        Some(fc) => {
                            let ch = spec_chain(old(fs).disk@, l, fc);
                            &&& forall|i: int|
                                0 <= i < ch.len() ==> fat_entry(
                                    final(fs).disk@,
                                    l,
                                    #[trigger] ch[i] as int,
                                ) == FatValue::Free
                            &&& forall|i: int|
                                0 <= i < old(fs).disk@.len() && !(l.fat_offset <= i
                                    < l.fat_offset + l.fat_len) ==> final(fs).disk@[i] == old(
                                    fs,
                                ).disk@[i]
                        },
                        None => final(fs).disk@ == old(fs).disk@,
                    }
                } else {
                    let fc = old(self).first_cluster->0;
                    let ch = spec_chain(old(fs).disk@, l, fc);
                    let idx = Self::cluster_index_of(old(self).offset as int, cs);
                    &&& final(self).first_cluster == old(self).first_cluster
                    &&& final(self).current_cluster == old(self).current_cluster
                    &&& spec_chain(final(fs).disk@, l, fc) == ch.subrange(0, idx + 1)
                    &&& spec_chain(final(fs).disk@, l, fc).len() == (old(self).offset + cs - 1)
                        / cs
                    &&& fat_entry(final(fs).disk@, l, ch[idx] as int) == FatValue::EndOfChain
                    &&& forall|i: int|
                        idx + 1 <= i < ch.len() ==> fat_entry(
                            final(fs).disk@,
                            l,
                            #[trigger] ch[i] as int,
                        ) == FatValue::Free
                    &&& forall|i: int|
                        0 <= i < old(fs).disk@.len() && !(l.fat_offset <= i < l.fat_offset
                            + l.fat_len) ==> final(fs).disk@[i] == old(fs).disk@[i]
                }
            }),
    {
        let ghost l = fs.layout;
        let ghost d0 = fs.disk@;
        let ghost cs = l.cluster_size as int;
        match self.entry {
            Some(e) => {
                let mut e2 = e;
                e2.set_size(self.offset);
                if self.offset == 0 {
                    e2.set_first_cluster(None, fs.fat_type());
                }
                self.entry = Some(e2);
            },
            None => {},
        }
        if self.offset > 0 {
            let cc = match self.current_cluster {
                Some(n) => n,
                None => {
                    proof {
                        assert(false);
                    }
                    return Err(Error::UnexpectedEof);
                },
            };
            let ghost fc = self.first_cluster->0;
            let ghost ch = spec_chain(d0, l, fc);
            let ghost idx = Self::cluster_index_of(self.offset as int, cs);
            let ghost fuel = (l.total_clusters + 1) as nat;
            proof {
                // The walk from the cursor's cluster is the suffix of the
                // stream's chain, itself a well-formed chain.
                crate::table::lemma_chain_shape(d0, l, fc, fuel);
                crate::table::lemma_chain_distinct(d0, l, fc);
                crate::table::lemma_chain_suffix(d0, l, fc, fuel, idx);
                let suffix = chain_seq(d0, l, cc, (fuel - idx) as nat);
                assert(suffix =~= ch.subrange(idx, ch.len() as int));
                crate::table::lemma_chain_fuel(d0, l, cc, (fuel - idx) as nat, fuel);
                assert(spec_chain(d0, l, cc) == suffix);
                assert(chain_wf(d0, l, cc)) by {
                    assert(suffix[suffix.len() - 1] == ch[ch.len() - 1]);
                }
            }
            let mut iter = crate::table::ClusterIterator::new(cc);
            let res = iter.truncate(fs);
            proof {
                assert(res is Ok);
                let suffix = spec_chain(d0, l, cc);
                // The prefix of the chain kept its entries: its clusters
                // are distinct from the released suffix.
                assert forall|i: int| 0 <= i < idx implies fat_entry(
                    fs.disk@,
                    l,
                    #[trigger] ch[i] as int,
                ) == fat_entry(d0, l, ch[i] as int) by {
                    assert(!suffix.contains(ch[i])) by {
                        if suffix.contains(ch[i]) {
                            let j = choose|j: int|
                                0 <= j < suffix.len() && suffix[j] == ch[i];
                            assert(suffix[j] == ch[idx + j]);
                        }
                    }
                    assert(ch[i] != cc) by {
                        assert(suffix[0] == cc);
                    }
                    crate::table::lemma_cluster_entry_in_range(
                        FileSystem { disk: fs.disk, layout: l },
                        ch[i],
                    );
                }
                crate::table::lemma_chain_cut(d0, fs.disk@, l, fc, fuel, idx);
                assert(spec_chain(fs.disk@, l, fc) =~= ch.subrange(0, idx + 1));
                // One cluster per started cluster's worth of bytes.
                let off = self.offset as int;
                lemma_fundamental_div_mod(off - 1, cs);
                assert(idx * cs == cs * idx) by (nonlinear_arith);
                assert((idx + 1) * cs == idx * cs + cs) by (nonlinear_arith);
                lemma_fundamental_div_mod_converse(off + cs - 1, cs, idx + 1, (off - 1) % cs);
                assert((off + cs - 1) / cs == idx + 1);
                // The released clusters are the suffix entries.
                assert forall|i: int| idx + 1 <= i < ch.len() implies fat_entry(
                    fs.disk@,
                    l,
                    #[trigger] ch[i] as int,
                ) == FatValue::Free by {
                    assert(suffix[i - idx] == ch[i]);
                }
                // The cut chain still covers the offset, and any known size.
                assert(chain_wf(fs.disk@, l, fc)) by {
                    assert(ch.subrange(0, idx + 1)[idx] == ch[idx]);
                }
                match self.spec_size() {
                    Some(sz) => {
                        assert(sz == self.offset);
                        assert(off <= (idx + 1) * cs);
                        lemma_mul_inequality(idx + 1, idx + 1, cs);
                    },
                    None => {},
                }
                assert(ch.subrange(0, idx + 1)[idx] == ch[idx]);
            }
            res
        } else {
            match self.first_cluster {
                Some(n) => {
                    proof {
                        assert(self.current_cluster is None);
                    }
                    let mut iter = crate::table::ClusterIterator::new(n);
                    let res = iter.free(fs);
                    proof {
                        assert(res is Ok);
                    }
                    match res {
                        Ok(()) => {},
                        Err(e) => {
                            return Err(e);
                        },
                    }
                },
                None => {},
            }
            self.first_cluster = None;
            Ok(())
        }
    }

    /// Rewrites the directory record if any cached change is pending.
    pub fn flush_dir_entry(&mut self, fs: &mut FileSystem) -> (r: Result<(), Error>)
        requires
            old(fs).wf(),
            old(self).wf(*old(fs)),
        ensures
            r is Ok,
            final(fs).layout == old(fs).layout,
            final(fs).wf(),
            final(fs).disk@.len() == old(fs).disk@.len(),
            final(self).wf(*final(fs)),
            final(self).first_cluster == old(self).first_cluster,
            final(self).current_cluster == old(self).current_cluster,
            final(self).offset == old(self).offset,
            match (old(self).entry, final(self).entry) {
                (Some(e0), Some(e1)) => {
                    &&& e1.data == e0.data
                    &&& e1.pos == e0.pos
                    &&& !e1.dirty
                    &&& (e0.dirty ==> {
                        &&& forall|i: int|
                            0 <= i < 32 ==> final(fs).disk@[e0.pos + i]
                                == crate::dir_entry::file_record_bytes(e0.data)[i]
                        &&& forall|i: int|
                            0 <= i < old(fs).disk@.len() && !(e0.pos <= i < e0.pos + 32)
                                ==> final(fs).disk@[i] == old(fs).disk@[i]
                    })
                    &&& (!e0.dirty ==> final(fs).disk@ == old(fs).disk@)
                },
                (None, None) => final(fs).disk@ == old(fs).disk@,
                _ => false,
            },
    {
        let ghost l = fs.layout;
        let ghost d0 = fs.disk@;
        match self.entry {
            Some(e) => {
                let mut e2 = e;
                let res = e2.flush(fs);
                self.entry = Some(e2);
                proof {
                    assert(res is Ok);
                    // The record lies outside the FAT, so the chain is
                    // untouched.
                    crate::table::lemma_fat_region_unchanged(d0, fs.disk@, l);
                    match self.first_cluster {
                        Some(fc) => {
                            crate::table::lemma_chain_wf_congruent(d0, fs.disk@, l, fc);
                        },
                        None => {},
                    }
                }
                Ok(())
            },
            None => Ok(()),
        }
    }

    /// Flushes the pending directory-record change; the image itself needs
    /// no further flushing.
    pub fn flush(&mut self, fs: &mut FileSystem) -> (r: Result<(), Error>)
        requires
            old(fs).wf(),
            old(self).wf(*old(fs)),
        ensures
            r is Ok,
            final(fs).layout == old(fs).layout,
            final(fs).wf(),
            final(fs).disk@.len() == old(fs).disk@.len(),
            final(self).wf(*final(fs)),
            final(self).first_cluster == old(self).first_cluster,
            final(self).offset == old(self).offset,
            match (old(self).entry, final(self).entry) {
                (Some(e0), Some(e1)) => {
                    &&& e1.data == e0.data
                    &&& !e1.dirty
                    &&& (e0.dirty ==> forall|i: int|
                        0 <= i < 32 ==> final(fs).disk@[e0.pos + i]
                            == crate::dir_entry::file_record_bytes(e0.data)[i])
                    &&& (!e0.dirty ==> final(fs).disk@ == old(fs).disk@)
                },
                (None, None) => final(fs).disk@ == old(fs).disk@,
                _ => false,
            },
    {
        self.flush_dir_entry(fs)
    }

    /// Stores a creation stamp in the directory record.
    pub fn set_created(&mut self, date_time: DateTime)
        requires
            date_time.date.encodable(),
            date_time.time.encodable(),
        ensures
            final(self).first_cluster == old(self).first_cluster,
            final(self).current_cluster == old(self).current_cluster,
            final(self).offset == old(self).offset,
            match (old(self).entry, final(self).entry) {
                (Some(e0), Some(e1)) => e1.pos == e0.pos && e1.data.created_spec()
                    == stored_datetime(date_time),
                (None, None) => true,
                _ => false,
            },
    {
        proof {
            lemma_date_roundtrip(date_time.date);
            lemma_time_roundtrip(date_time.time);
            match old(self).entry {
                Some(e0) => {
                    // A stamp equal to the stored one is already at the
                    // field's two-second resolution.
                    let w = e0.data.create_time_1;
                    let k = w & 0x1F;
                    assert(k <= 0x1F) by (bit_vector)
                        requires
                            k == w & 0x1F,
                    ;
                    assert((((k * 2) / 2) * 2) == k * 2);
                },
                None => {},
            }
        }
        match self.entry {
            Some(e) => {
                let mut e2 = e;
                e2.set_created(date_time);
                self.entry = Some(e2);
            },
            None => {},
        }
    }

    /// Stores a last-access date in the directory record.
    pub fn set_accessed(&mut self, date: Date)
        requires
            date.encodable(),
        ensures
            final(self).first_cluster == old(self).first_cluster,
            final(self).current_cluster == old(self).current_cluster,
            final(self).offset == old(self).offset,
            match (old(self).entry, final(self).entry) {
                (Some(e0), Some(e1)) => e1.pos == e0.pos && e1.data.accessed_spec() == date,
                (None, None) => true,
                _ => false,
            },
    {
        proof {
            lemma_date_roundtrip(date);
        }
        match self.entry {
            Some(e) => {
                let mut e2 = e;
                e2.set_accessed(date);
                self.entry = Some(e2);
            },
            None => {},
        }
    }

    /// Stores a modification stamp in the directory record.
    pub fn set_modified(&mut self, date_time: DateTime)
        requires
            date_time.date.encodable(),
            date_time.time.encodable(),
        ensures
            final(self).first_cluster == old(self).first_cluster,
            final(self).current_cluster == old(self).current_cluster,
            final(self).offset == old(self).offset,
            match (old(self).entry, final(self).entry) {
                (Some(e0), Some(e1)) => e1.pos == e0.pos && e1.data.modified_spec()
                    == stored_datetime(date_time),
                (None, None) => true,
                _ => false,
            },
    {
        proof {
            lemma_date_roundtrip(date_time.date);
            lemma_time_roundtrip(date_time.time);
            match old(self).entry {
                Some(e0) => {
                    // A stamp equal to the stored one is already at the
                    // field's two-second resolution.
                    let w = e0.data.modify_time;
                    let k = w & 0x1F;
                    assert(k <= 0x1F) by (bit_vector)
                        requires
                            k == w & 0x1F,
                    ;
                    assert((((k * 2) / 2) * 2) == k * 2);
                },
                None => {},
            }
        }
        match self.entry {
            Some(e) => {
                let mut e2 = e;
                e2.set_modified(date_time);
                self.entry = Some(e2);
            },
            None => {},
        }
    }
}

/// A valid cluster's byte region lies within the volume image.
pub proof fn lemma_cluster_pos_bounds(fs: FileSystem, c: u32)
    requires
        fs.wf(),
        fs.layout.is_cluster(c),
    ensures
        fs.layout.data_offset <= fs.layout.spec_cluster_pos(c as int),
        fs.layout.spec_cluster_pos(c as int) + fs.layout.cluster_size <= fs.disk@.len(),
{
    let l = fs.layout;
    let cs = l.cluster_size as int;
    let t = l.total_clusters as int;
    lemma_mul_inequality(c - 2, t - 1, cs);
    lemma_mul_nonnegative(c - 2, cs);
    assert((t - 1) * cs + cs == t * cs) by (nonlinear_arith);
}

/// Every cluster reached by walking a stream's chain is backed by an
/// allocated FAT entry: each one points to the next with a `Data` entry
/// and the last carries `EndOfChain`, so no `Free` or `Bad` entry appears
/// anywhere along the chain.
pub proof fn lemma_chain_entries_allocated(fs: FileSystem, f: File)
    requires
        fs.wf(),
        f.wf(fs),
        f.first_cluster is Some,
    ensures
        forall|i: int|
            0 <= i < f.chain(fs).len() ==> fat_entry(
                fs.disk@,
                fs.layout,
                #[trigger] f.chain(fs)[i] as int,
            ) == (if i < f.chain(fs).len() - 1 {
                FatValue::Data(f.chain(fs)[i + 1])
            } else {
                FatValue::EndOfChain
            }),
{
    crate::table::lemma_chain_shape(
        fs.disk@,
        fs.layout,
        f.first_cluster->0,
        (fs.layout.total_clusters + 1) as nat,
    );
}

/// A bounded stream is empty exactly when it has no chain: the handle's
/// first cluster is absent precisely when the cursor stands at 0 and the
/// recorded size is 0.
pub proof fn lemma_empty_file_invariant(fs: FileSystem, f: File)
    requires
        fs.wf(),
        f.wf(fs),
        f.spec_size() is Some,
    ensures
        f.first_cluster is None <==> (f.offset == 0 && f.spec_size()->0 == 0),
{
}

} // verus!
