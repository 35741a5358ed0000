//! The directory engine: the raw record stream over either the fixed
//! FAT12/16 root region or a cluster-chain file, record enumeration,
//! name lookup, slot allocation, creation and removal of entries, and the
//! path resolver.

use vstd::arithmetic::div_mod::{lemma_fundamental_div_mod, lemma_fundamental_div_mod_converse,
    lemma_mod_breakdown, lemma_mod_multiples_basic};
use vstd::arithmetic::mul::{lemma_mul_inequality, lemma_mul_nonnegative};
use vstd::prelude::*;
use vstd::string::StringSliceAdditionalSpecFns;

use crate::dir_entry::{DirEntryData, FileAttributes, ShortName, ATTR_DIRECTORY,
    ATTR_VOLUME_ID, DIR_ENTRY_FREE_FLAG};
use crate::error::Error;
use crate::file::File;
use crate::fs::{FileSystem, Layout, SeekFrom};
use crate::table::{chain_wf, spec_chain};

verus! {

/// A bounded cursor over a fixed byte region of the volume: the FAT12/16
/// root directory. Reads and writes clamp to the region.
#[derive(Clone, Copy, Debug)]
pub struct DiskSlice {
    /// Absolute byte offset of the region.
    pub begin: usize,
    /// Byte length of the region.
    pub size: usize,
    /// Cursor within the region.
    pub pos: usize,
}

impl DiskSlice {
    /// The slice lies within the image, past the FAT, and holds whole
    /// records.
    pub open spec fn wf(self, fs: FileSystem) -> bool {
        &&& self.begin + self.size <= fs.disk@.len()
        &&& fs.layout.fat_offset + fs.layout.fat_len <= self.begin
        &&& self.begin + self.size <= fs.layout.data_offset
        &&& self.pos <= self.size
        &&& self.size % 32 == 0
    }

    /// A cursor at the start of the region.
    pub fn new(begin: usize, size: usize) -> (r: DiskSlice)
        ensures
            r.begin == begin,
            r.size == size,
            r.pos == 0,
    {
        DiskSlice { begin, size, pos: 0 }
    }

    /// Absolute position of the cursor on the volume.
    pub fn abs_pos(&self) -> (r: usize)
        requires
            self.begin + self.pos <= usize::MAX,
        ensures
            r == self.begin + self.pos,
    {
        self.begin + self.pos
    }
}

/// The record stream of a directory: the fixed root region of a FAT12/16
/// volume, or a cluster-chain file for every other directory.
#[derive(Clone, Copy, Debug)]
pub enum DirRawStream {
    File(File),
    Root(DiskSlice),
}

/// The bytes of a cluster chain, in chain order.
pub open spec fn chain_content(disk: Seq<u8>, l: Layout, ch: Seq<u32>) -> Seq<u8> {
    Seq::new(
        (ch.len() * l.cluster_size) as nat,
        |i: int|
            disk[l.spec_cluster_pos(ch[i / (l.cluster_size as int)] as int) + i % (
            l.cluster_size as int)],
    )
}

/// The whole byte content a directory stream ranges over.
pub open spec fn stream_content(s: DirRawStream, fs: FileSystem) -> Seq<u8> {
    match s {
        DirRawStream::File(f) => match f.first_cluster {
            Some(fc) => chain_content(
                fs.disk@,
                fs.layout,
                spec_chain(fs.disk@, fs.layout, fc),
            ),
            None => Seq::empty(),
        },
        DirRawStream::Root(sl) => fs.disk@.subrange(sl.begin as int, sl.begin + sl.size),
    }
}

/// The first cluster of a directory stream's chain, if it has one.
pub open spec fn stream_first_cluster(s: DirRawStream) -> Option<u32> {
    match s {
        DirRawStream::File(f) => f.first_cluster,
        DirRawStream::Root(_) => None,
    }
}

/// The cursor position of a directory stream.
pub open spec fn stream_pos(s: DirRawStream) -> int {
    match s {
        DirRawStream::File(f) => f.offset as int,
        DirRawStream::Root(sl) => sl.pos as int,
    }
}

impl DirRawStream {
    /// Well-formedness of the stream over the volume: the underlying file
    /// or slice is well formed, and a file-backed directory stream has no
    /// size bound.
    pub open spec fn wf(self, fs: FileSystem) -> bool {
        match self {
            DirRawStream::File(f) => f.wf(fs) && f.spec_size() is None,
            DirRawStream::Root(sl) => sl.wf(fs),
        }
    }

    /// Absolute position of the byte the cursor stands on, when known.
    pub fn abs_pos(&self, fs: &FileSystem) -> (r: Option<u64>)
        requires
            fs.wf(),
            self.wf(*fs),
        ensures
            match self {
                DirRawStream::File(f) => r == match f.current_cluster {
                    Some(n) => Some(
                        (fs.layout.spec_cluster_pos(n as int) + (f.offset as int) % (
                        fs.layout.cluster_size as int)) as u64,
                    ),
                    None => None::<u64>,
                },
                DirRawStream::Root(sl) => r == Some((sl.begin + sl.pos) as u64),
            },
    {
        match self {
            DirRawStream::File(f) => f.abs_pos(fs),
            DirRawStream::Root(sl) => Some(sl.abs_pos() as u64),
        }
    }

    /// The first cluster of the directory's chain; the FAT12/16 root has
    /// none.
    pub fn first_cluster(&self) -> (r: Option<u32>)
        ensures
            r == match self {
                DirRawStream::File(f) => f.first_cluster,
                DirRawStream::Root(_) => None::<u32>,
            },
    {
        match self {
            DirRawStream::File(f) => f.first_cluster(),
            DirRawStream::Root(_) => None,
        }
    }
}

/// A position that holds whole records before it stays within one cluster
/// for one more record.
proof fn lemma_record_fits(off: int, cs: int)
    requires
        cs >= 32,
        cs % 32 == 0,
        off >= 0,
        off % 32 == 0,
    ensures
        off % cs % 32 == 0,
        cs - off % cs >= 32,
{
    lemma_mod_breakdown(off, 32, cs / 32);
    assert(32 * (cs / 32) == cs) by {
        lemma_fundamental_div_mod(cs, 32);
    }
    lemma_fundamental_div_mod(off, cs);
    lemma_mod_multiples_basic((off / 32) % (cs / 32), 32);
    assert(off % cs == 32 * ((off / 32) % (cs / 32)) + off % 32);
    assert(off % cs % 32 == 0) by {
        lemma_mod_multiples_basic((off / 32) % (cs / 32), 32);
    }
    let m = off % cs;
    assert(0 <= m < cs);
    if cs - m < 32 {
        assert(m % 32 == 0 && cs % 32 == 0);
        assert((cs - m) % 32 == 0) by (nonlinear_arith)
            requires
                m % 32 == 0,
                cs % 32 == 0,
        ;
        assert(0 < cs - m < 32);
        lemma_fundamental_div_mod(cs - m, 32);
        assert(false);
    }
}

/// Within one cluster's worth of bytes past `off`, the cluster index and
/// in-cluster offset move together.
pub proof fn lemma_same_cluster_block(off: int, i: int, cs: int)
    requires
        cs >= 1,
        off >= 0,
        0 <= i,
        off % cs + i < cs,
    ensures
        (off + i) / cs == off / cs,
        (off + i) % cs == off % cs + i,
{
    lemma_fundamental_div_mod(off, cs);
    assert(off + i == (off / cs) * cs + (off % cs + i)) by (nonlinear_arith)
        requires
            off == cs * (off / cs) + off % cs,
    ;
    lemma_fundamental_div_mod_converse(off + i, cs, off / cs, off % cs + i);
}

impl DirRawStream {
    /// Reads the 32-byte record at the cursor and advances past it;
    /// nothing is left at the end of the region or chain.
    pub fn read_record(&mut self, fs: &FileSystem) -> (r: Option<Vec<u8>>)
        requires
            fs.wf(),
            old(self).wf(*fs),
            stream_pos(*old(self)) % 32 == 0,
        ensures
            final(self).wf(*fs),
            stream_first_cluster(*final(self)) == stream_first_cluster(*old(self)),
            stream_content(*final(self), *fs) == stream_content(*old(self), *fs),
            (*final(self)) is File <==> (*old(self)) is File,
            ((*final(self)) is File && (*old(self)) is File)
                ==> final(self)->File_0.entry == old(self)->File_0.entry,
            (*final(self)) is Root ==> old(self)->Root_0.begin == final(self)->Root_0.begin
                && old(self)->Root_0.size == final(self)->Root_0.size,
            match r {
                Some(b) => {
                    &&& stream_pos(*old(self)) + 32 <= stream_content(*old(self), *fs).len()
                    &&& b@ == stream_content(*old(self), *fs).subrange(
                        stream_pos(*old(self)),
                        stream_pos(*old(self)) + 32,
                    )
                    &&& stream_pos(*final(self)) == stream_pos(*old(self)) + 32
                },
                None => {
                    &&& stream_pos(*old(self)) == stream_content(*old(self), *fs).len()
                    &&& *final(self) == *old(self)
                },
            },
    {
        let s = *self;
        match s {
            DirRawStream::Root(mut sl) => {
                if sl.size - sl.pos >= 32 {
                    let b = crate::codec::read_bytes_at(&fs.disk, sl.begin + sl.pos, 32);
                    let ghost p = sl.pos as int;
                    sl.pos = sl.pos + 32;
                    *self = DirRawStream::Root(sl);
                    proof {
                        assert(b@ =~= stream_content(s, *fs).subrange(p, p + 32));
                    }
                    Some(b)
                } else {
                    proof {
                        // A whole number of records fits the region, so a
                        // cursor short of its end leaves room for one more.
                        if sl.pos < sl.size {
                            assert((sl.size - sl.pos) % 32 == 0) by (nonlinear_arith)
                                requires
                                    sl.pos % 32 == 0,
                                    sl.size % 32 == 0,
                            ;
                            lemma_fundamental_div_mod(sl.size - sl.pos, 32);
                            assert(false);
                        }
                    }
                    None
                }
            },
            DirRawStream::File(mut f) => {
                let mut buf = crate::codec::make_bytes(32, 0);
                let ghost f0 = f;
                let res = f.read(fs, &mut buf);
                *self = DirRawStream::File(f);
                let n = match res {
                    Ok(n) => n,
                    Err(e) => {
                        proof {
                            assert(false);
                        }
                        return None;
                    },
                };
                if n == 0 {
                    proof {
                        // The advance found no cluster: the cursor stands at
                        // the very end of the chain's bytes.
                        let l = fs.layout;
                        let cs = l.cluster_size as int;
                        match f0.advanced_cluster(*fs) {
                            Some(c) => {
                                lemma_record_fits(f0.offset as int, cs);
                                assert(false);
                            },
                            None => {
                                match f0.current_cluster {
                                    Some(cc) => {
                                        f0.lemma_at_chain_end(*fs);
                                        let ch = f0.chain(*fs);
                                        let off = f0.offset as int;
                                        lemma_fundamental_div_mod(off, cs);
                                        assert((off - 1) / cs == ch.len() - 1);
                                        lemma_index_next_block_pub(off, cs);
                                        assert(off == ch.len() * cs) by (nonlinear_arith)
                                            requires
                                                off == cs * (off / cs),
                                                off / cs == ch.len() as int,
                                        ;
                                    },
                                    None => {
                                        assert(f0.offset == 0);
                                        assert(f0.offset as int % cs == 0) by (nonlinear_arith)
                                            requires
                                                f0.offset == 0u32,
                                                cs >= 1,
                                        ;
                                        assert(f0.first_cluster is None);
                                    },
                                }
                            },
                        }
                    }
                    None
                } else {
                    proof {
                        let l = fs.layout;
                        let cs = l.cluster_size as int;
                        let off = f0.offset as int;
                        lemma_record_fits(off, cs);
                        assert(n == 32);
                        let c = f0.advanced_cluster(*fs)->0;
                        f0.lemma_advance(*fs, 32);
                        let ch = f0.chain(*fs);
                        let idx2 = File::cluster_index_of(off + 32, cs);
                        let content = stream_content(s, *fs);
                        assert forall|i: int| 0 <= i < 32 implies content[off + i] == buf@[i] by {
                            if off % cs == 0 {
                                lemma_same_cluster_block(off, i, cs);
                            } else {
                                lemma_same_cluster_block(off, i, cs);
                            }
                            assert((off + i) / cs == idx2) by {
                                lemma_fundamental_div_mod(off, cs);
                                if off % cs == 0 {
                                    lemma_index_next_block_pub(off, cs);
                                } else {
                                    crate::file::lemma_index_same_block(off, 32, cs);
                                    crate::file::lemma_index_same_block(off, i + 1, cs);
                                }
                            }
                            assert(content[off + i] == fs.disk@[l.spec_cluster_pos(
                                ch[idx2] as int,
                            ) + off % cs + i]);
                        }
                        assert(buf@ =~= content.subrange(off, off + 32));
                    }
                    Some(buf)
                }
            },
        }
    }
}

/// On a cluster boundary, the index formulas for the block starting at
/// `off` agree.
pub proof fn lemma_index_next_block_pub(off: int, cs: int)
    requires
        cs >= 1,
        off >= 0,
        off % cs == 0,
    ensures
        off >= 1 ==> off / cs == (off - 1) / cs + 1,
        forall|n: int| 1 <= n <= cs ==> #[trigger] ((off + n - 1) / cs) == off / cs,
{
    assert forall|n: int| 1 <= n <= cs implies #[trigger] ((off + n - 1) / cs) == off / cs by {
        crate::file::lemma_index_next_block(off, n, cs);
    }
    if off >= 1 {
        crate::file::lemma_index_next_block(off, 1, cs);
    }
}

/// Distinct valid clusters occupy disjoint byte regions of the data area,
/// itself past the FAT.
pub proof fn lemma_cluster_regions_disjoint(l: Layout, c1: u32, c2: u32)
    requires
        l.is_cluster(c1),
        l.is_cluster(c2),
        c1 != c2,
        1 <= l.cluster_size,
        l.fat_offset + l.fat_len <= l.data_offset,
    ensures
        l.spec_cluster_pos(c1 as int) + l.cluster_size <= l.spec_cluster_pos(c2 as int)
            || l.spec_cluster_pos(c2 as int) + l.cluster_size <= l.spec_cluster_pos(c1 as int),
        l.fat_offset + l.fat_len <= l.spec_cluster_pos(c1 as int),
{
    let cs = l.cluster_size as int;
    if c1 < c2 {
        lemma_mul_inequality(c1 - 2 + 1, c2 - 2, cs);
        assert((c1 - 2 + 1) * cs == (c1 - 2) * cs + cs) by (nonlinear_arith);
    } else {
        lemma_mul_inequality(c2 - 2 + 1, c1 - 2, cs);
        assert((c2 - 2 + 1) * cs == (c2 - 2) * cs + cs) by (nonlinear_arith);
    }
    lemma_mul_nonnegative(c1 - 2, cs);
}

/// How the bytes of a chain change when one of its clusters is rewritten
/// and the rest of the data area is untouched.
pub proof fn lemma_chain_content_update(
    d0: Seq<u8>,
    d1: Seq<u8>,
    l: Layout,
    ch: Seq<u32>,
    k: int,
)
    requires
        d1.len() == d0.len(),
        1 <= l.cluster_size,
        forall|i: int, j: int| 0 <= i < j < ch.len() ==> ch[i] != ch[j],
        forall|i: int| 0 <= i < ch.len() ==> l.is_cluster(#[trigger] ch[i]),
        forall|i: int| 0 <= i < ch.len() ==> l.spec_cluster_pos(#[trigger] ch[i] as int)
            + l.cluster_size <= d0.len(),
        l.fat_offset + l.fat_len <= l.data_offset,
        0 <= k < ch.len(),
        forall|i: int|
            0 <= i < d0.len() && !(l.spec_cluster_pos(ch[k] as int) <= i < l.spec_cluster_pos(
                ch[k] as int,
            ) + l.cluster_size) ==> d1[i] == d0[i],
    ensures
        forall|i: int|
            0 <= i < chain_content(d0, l, ch).len() && i / (l.cluster_size as int) != k
                ==> chain_content(d1, l, ch)[i] == chain_content(d0, l, ch)[i],
{
    let cs = l.cluster_size as int;
    assert forall|i: int|
        0 <= i < chain_content(d0, l, ch).len() && i / cs != k implies chain_content(
        d1,
        l,
        ch,
    )[i] == chain_content(d0, l, ch)[i] by {
        let q = i / cs;
        lemma_fundamental_div_mod(i, cs);
        assert(0 <= q < ch.len()) by {
            lemma_mul_nonnegative(ch.len() as int, cs);
            if q < 0 {
                assert(cs * q + i % cs < 0) by (nonlinear_arith)
                    requires
                        q <= -1,
                        0 <= i % cs < cs,
                        cs >= 1,
                ;
            }
            if q >= ch.len() {
                assert(cs * q + i % cs >= ch.len() * cs) by (nonlinear_arith)
                    requires
                        q >= ch.len() as int,
                        0 <= i % cs,
                        cs >= 1,
                ;
            }
        }
        lemma_cluster_regions_disjoint(l, ch[q], ch[k]);
        assert(d1[l.spec_cluster_pos(ch[q] as int) + i % cs] == d0[l.spec_cluster_pos(
            ch[q] as int,
        ) + i % cs]);
    }
}


/// Byte `i` of the volume belongs to the stream's own storage: its fixed
/// root window, or some cluster of its chain.
pub open spec fn stream_owns(s: DirRawStream, fs: FileSystem, i: int) -> bool {
    match s {
        DirRawStream::Root(sl) => sl.begin <= i < sl.begin + sl.size,
        DirRawStream::File(f) => match f.first_cluster {
            Some(fc) => exists|k: int|
                0 <= k < spec_chain(fs.disk@, fs.layout, fc).len()
                    && fs.layout.spec_cluster_pos(
                    #[trigger] spec_chain(fs.disk@, fs.layout, fc)[k] as int,
                ) <= i < fs.layout.spec_cluster_pos(
                    spec_chain(fs.disk@, fs.layout, fc)[k] as int,
                ) + fs.layout.cluster_size,
            None => false,
        },
    }
}

impl DirRawStream {
    /// Overwrites the 32-byte record at the cursor and advances past it,
    /// allocating and zero-filling a fresh cluster when a chain-backed
    /// stream ends exactly at the cursor. The fixed root region cannot
    /// grow; at its end the write is refused.
    #[verifier::rlimit(100)]
    #[verifier::spinoff_prover]
    pub fn write_record(&mut self, fs: &mut FileSystem, bytes: &Vec<u8>) -> (r: Result<
        (),
        Error,
    >)
        requires
            old(fs).wf(),
            old(self).wf(*old(fs)),
            stream_pos(*old(self)) % 32 == 0,
            bytes@.len() == 32,
        ensures
            final(fs).layout == old(fs).layout,
            final(fs).wf(),
            final(fs).disk@.len() == old(fs).disk@.len(),
            final(self).wf(*final(fs)),
            (*final(self)) is File <==> (*old(self)) is File,
            stream_first_cluster(*old(self)) is Some ==> stream_first_cluster(*final(self))
                == stream_first_cluster(*old(self)),
            (*final(self)) is Root ==> old(self)->Root_0.begin == final(self)->Root_0.begin
                && old(self)->Root_0.size == final(self)->Root_0.size,
            match r {
                Ok(()) => {
                    let c0 = stream_content(*old(self), *old(fs));
                    let c1 = stream_content(*final(self), *final(fs));
                    let p = stream_pos(*old(self));
                    &&& stream_pos(*final(self)) == p + 32
                    &&& p + 32 <= c1.len()
                    &&& c1.subrange(p, p + 32) == bytes@
                    &&& forall|i: int| 0 <= i < p ==> c1[i] == c0[i]
                    &&& forall|i: int| p + 32 <= i < c0.len() ==> c1[i] == c0[i]
                    &&& (c1.len() == c0.len() || (p == c0.len() && c1.len() == c0.len()
                        + old(fs).layout.cluster_size && forall|i: int|
                        p + 32 <= i < c1.len() ==> c1[i] == 0u8))
                    &&& (c1.len() == c0.len() ==> forall|i: int|
                        old(fs).layout.fat_offset <= i < old(fs).layout.fat_offset + old(
                            fs,
                        ).layout.fat_len ==> final(fs).disk@[i] == old(fs).disk@[i])
                    &&& forall|i: int|
                        0 <= i < old(fs).disk@.len() && !(old(fs).layout.fat_offset <= i < old(
                            fs,
                        ).layout.fat_offset + old(fs).layout.fat_len) && !stream_owns(
                            *final(self),
                            *final(fs),
                            i,
                        ) ==> final(fs).disk@[i] == old(fs).disk@[i]
                    &&& ((*old(self)) is File && old(self)->File_0.first_cluster is Some
                        ==> {
                        let ch0 = spec_chain(
                            old(fs).disk@,
                            old(fs).layout,
                            old(self)->File_0.first_cluster->0,
                        );
                        let ch1 = spec_chain(
                            final(fs).disk@,
                            old(fs).layout,
                            final(self)->File_0.first_cluster->0,
                        );
                        ch1 == ch0 || {
                            &&& ch1 == ch0 + seq![ch1.last()]
                            &&& crate::table::fat_entry(
                                old(fs).disk@,
                                old(fs).layout,
                                ch1.last() as int,
                            ) == crate::table::FatValue::Free
                            &&& forall|c2: u32|
                                crate::table::fat_entry_in_range(old(fs).layout, c2 as int)
                                    && c2 != ch1.last() && crate::table::fat_entry(
                                    old(fs).disk@,
                                    old(fs).layout,
                                    c2 as int,
                                ) == crate::table::FatValue::Free
                                    ==> crate::table::fat_entry(
                                    final(fs).disk@,
                                    old(fs).layout,
                                    c2 as int,
                                ) == crate::table::FatValue::Free
                            &&& forall|c2: u32|
                                crate::table::fat_entry_in_range(old(fs).layout, c2 as int)
                                    && !ch0.contains(c2) && c2 != ch1.last()
                                    ==> crate::table::fat_raw(
                                    final(fs).disk@,
                                    old(fs).layout,
                                    c2 as int,
                                ) == crate::table::fat_raw(old(fs).disk@, old(fs).layout, c2 as int)
                        }
                    })
                    &&& ((*old(self)) is Root ==> final(fs).disk@.len() == old(fs).disk@.len()
                        && forall|c2: u32|
                        crate::table::fat_entry_in_range(old(fs).layout, c2 as int)
                            ==> crate::table::fat_entry(final(fs).disk@, old(fs).layout, c2 as int)
                            == crate::table::fat_entry(old(fs).disk@, old(fs).layout, c2 as int))
                },
                Err(e) => {
                    &&& stream_pos(*old(self)) == stream_content(*old(self), *old(fs)).len()
                    &&& ((*old(self)) is Root ==> e == Error::UnexpectedEof && final(fs).disk@
                        == old(fs).disk@ && *final(self) == *old(self))
                    &&& ((*old(self)) is File ==> e == Error::NoSpace && final(fs).disk@ == old(
                        fs,
                    ).disk@ && (forall|c2: int|
                        2 <= c2 < old(fs).layout.spec_cluster_limit()
                            ==> crate::table::fat_entry(old(fs).disk@, old(fs).layout, c2)
                            != crate::table::FatValue::Free))
                },
            },
    {
        let ghost l = fs.layout;
        let ghost d0 = fs.disk@;
        let ghost fsa = *fs;
        let s = *self;
        match s {
            DirRawStream::Root(mut sl) => {
                if sl.size - sl.pos >= 32 {
                    let ghost p = sl.pos as int;
                    crate::codec::write_bytes_at(&mut fs.disk, sl.begin + sl.pos, bytes);
                    sl.pos = sl.pos + 32;
                    *self = DirRawStream::Root(sl);
                    proof {
                        crate::table::lemma_fat_region_unchanged(d0, fs.disk@, l);
                        let c0 = stream_content(s, FileSystem { disk: fs.disk, layout: l });
                        assert(stream_content(*self, *fs).subrange(p, p + 32) =~= bytes@);
                    }
                    Ok(())
                } else {
                    proof {
                        if sl.pos < sl.size {
                            assert((sl.size - sl.pos) % 32 == 0) by (nonlinear_arith)
                                requires
                                    sl.pos % 32 == 0,
                                    sl.size % 32 == 0,
                            ;
                            lemma_fundamental_div_mod(sl.size - sl.pos, 32);
                            assert(false);
                        }
                    }
                    Err(Error::UnexpectedEof)
                }
            },
            DirRawStream::File(mut f) => {
                let ghost f0 = f;
                proof {
                    if f0.offset as int % (l.cluster_size as int) != 0 {
                        lemma_record_fits(f0.offset as int, l.cluster_size as int);
                    }
                }
                let res = f.write(fs, bytes);
                *self = DirRawStream::File(f);
                match res {
                    Ok(n) => {
                        proof {
                            let cs = l.cluster_size as int;
                            let off = f0.offset as int;
                            let fs0 = fsa;
                            let fs1 = FileSystem { disk: fs.disk, layout: l };
                            lemma_record_fits(off, cs);
                            assert(n == 32);
                            let c = f.current_cluster->0;
                            let fc = f.first_cluster->0;
                            let ch1 = spec_chain(fs.disk@, l, fc);
                            let idx2 = File::cluster_index_of(off + 32, cs);
                            let c0 = stream_content(s, fs0);
                            let c1 = stream_content(*self, fs1);
                            let start = l.spec_cluster_pos(c as int) + off % cs;
                            // The cursor's cluster is the chain element the
                            // written bytes landed in.
                            assert(idx2 < ch1.len() && ch1[idx2] == c);
                            crate::table::lemma_chain_shape(fs.disk@, l, fc, (l.total_clusters
                                + 1) as nat);
                            crate::table::lemma_chain_distinct(fs.disk@, l, fc);
                            assert forall|i: int| 0 <= i < ch1.len() implies l.spec_cluster_pos(
                                #[trigger] ch1[i] as int,
                            ) + l.cluster_size <= d0.len() by {
                                crate::file::lemma_cluster_pos_bounds(fs1, ch1[i]);
                            }
                            assert(c1.len() == ch1.len() * cs);
                            assert(off + 32 <= c1.len()) by {
                                lemma_fundamental_div_mod(off + 31, cs);
                                assert(cs * idx2 == idx2 * cs) by (nonlinear_arith);
                                assert(off + 32 <= (idx2 + 1) * cs) by (nonlinear_arith)
                                    requires
                                        off + 31 == idx2 * cs + (off + 31) % cs,
                                        0 <= (off + 31) % cs < cs,
                                ;
                                lemma_mul_inequality(idx2 + 1, ch1.len() as int, cs);
                            }
                            // The written record reads back from the content.
                            assert forall|i: int| 0 <= i < 32 implies c1[off + i] == bytes@[i] by {
                                lemma_same_cluster_block(off, i, cs);
                                assert((off + i) / cs == idx2) by {
                                    if off % cs == 0 {
                                        lemma_index_next_block_pub(off, cs);
                                    } else {
                                        crate::file::lemma_index_same_block(off, 32, cs);
                                        crate::file::lemma_index_same_block(off, i + 1, cs);
                                    }
                                }
                            }
                            assert(c1.subrange(off, off + 32) =~= bytes@);
                            match f0.advanced_cluster(fs0) {
                                Some(cadv) => {
                                    // Same chain; only the 32 bytes changed.
                                    let ch0 = spec_chain(d0, l, fc);
                                    assert(ch1 == ch0);
                                    assert(c0.len() == c1.len());
                                    assert forall|i: int|
                                        0 <= i < c0.len() && !(off <= i < off + 32) implies c1[i]
                                        == c0[i] by {
                                        let q = i / cs;
                                        lemma_fundamental_div_mod(i, cs);
                                        assert(0 <= q < ch1.len()) by {
                                            lemma_mul_nonnegative(ch1.len() as int, cs);
                                            if q < 0 {
                                                assert(cs * q + i % cs < 0) by (nonlinear_arith)
                                                    requires
                                                        q <= -1,
                                                        0 <= i % cs < cs,
                                                        cs >= 1,
                                                ;
                                            }
                                            if q >= ch1.len() {
                                                assert(cs * q + i % cs >= ch1.len() * cs)
                                                    by (nonlinear_arith)
                                                    requires
                                                        q >= ch1.len() as int,
                                                        0 <= i % cs,
                                                        cs >= 1,
                                                ;
                                            }
                                        }
                                        if q != idx2 {
                                            lemma_cluster_regions_disjoint(l, ch1[q], ch1[idx2]);
                                        } else {
                                            // Same cluster, outside the
                                            // written 32 bytes.
                                            lemma_fundamental_div_mod(off, cs);
                                            if off % cs == 0 {
                                                lemma_index_next_block_pub(off, cs);
                                                assert(i % cs == i - cs * q);
                                                assert(off == cs * (off / cs));
                                                assert(!(off % cs <= i % cs < off % cs + 32));
                                            } else {
                                                crate::file::lemma_index_same_block(off, 32, cs);
                                                assert(i % cs == i - cs * q);
                                                assert(!(off % cs <= i % cs < off % cs + 32));
                                            }
                                        }
                                    }
                                },
                                None => {
                                    // The chain grew by one zero-filled
                                    // cluster holding the record.
                                    assert(off % cs == 0);
                                    let ch0 = spec_chain(d0, l, fc);
                                    match f0.first_cluster {
                                        None => {
                                            assert(f0.offset == 0);
                                            assert(ch1 == seq![c]);
                                            assert(c0.len() == 0);
                                            assert(idx2 == 0);
                                        },
                                        Some(fc0) => {
                                            assert(fc0 == fc);
                                            assert(ch1 == ch0 + seq![c]);
                                            f0.lemma_at_chain_end(fs0);
                                            lemma_fundamental_div_mod(off, cs);
                                            assert((off - 1) / cs == ch0.len() - 1);
                                            lemma_index_next_block_pub(off, cs);
                                            assert(off == ch0.len() * cs) by (nonlinear_arith)
                                                requires
                                                    off == cs * (off / cs),
                                                    off / cs == ch0.len() as int,
                                            ;
                                            assert(idx2 == ch0.len());
                                            // The old content is untouched:
                                            // its clusters are distinct from
                                            // the fresh one and from the FAT.
                                            assert forall|i: int|
                                                0 <= i < c0.len() implies c1[i] == c0[i] by {
                                                let q = i / cs;
                                                lemma_fundamental_div_mod(i, cs);
                                                assert(0 <= q < ch0.len()) by {
                                                    lemma_mul_nonnegative(ch0.len() as int, cs);
                                                    if q < 0 {
                                                        assert(cs * q + i % cs < 0)
                                                            by (nonlinear_arith)
                                                            requires
                                                                q <= -1,
                                                                0 <= i % cs < cs,
                                                                cs >= 1,
                                                        ;
                                                    }
                                                    if q >= ch0.len() {
                                                        assert(cs * q + i % cs >= ch0.len() * cs)
                                                            by (nonlinear_arith)
                                                            requires
                                                                q >= ch0.len() as int,
                                                                0 <= i % cs,
                                                                cs >= 1,
                                                        ;
                                                    }
                                                }
                                                assert(ch1[q] == ch0[q]);
                                                lemma_cluster_regions_disjoint(l, ch1[q], c);
                                            }
                                        },
                                    }
                                    assert(c0.len() == off);
                                    assert(c1.len() == c0.len() + cs) by (nonlinear_arith)
                                        requires
                                            c1.len() == ch1.len() * cs,
                                            c0.len() == (ch1.len() - 1) * cs,
                                    ;
                                    // Beyond the record the fresh cluster is
                                    // zero.
                                    assert forall|i: int|
                                        off + 32 <= i < c1.len() implies c1[i] == 0u8 by {
                                        lemma_same_cluster_block(off, i - off, cs);
                                        assert(i / cs == idx2 && i % cs == i - off) by {
                                            lemma_index_next_block_pub(off, cs);
                                            lemma_fundamental_div_mod(off, cs);
                                        }
                                    }
                                },
                            }
                            // How the chain and the volume's free entries
                            // evolved, for callers that track them.
                            if f0.first_cluster is Some {
                                let ch0 = spec_chain(d0, l, f0.first_cluster->0);
                                match f0.advanced_cluster(fsa) {
                                    Some(_) => {
                                        assert(ch1 == ch0);
                                    },
                                    None => {
                                        assert(ch1 =~= ch0.push(c));
                                        assert(crate::table::fat_entry(d0, l, c as int)
                                            == crate::table::FatValue::Free);
                                        assert forall|c2: u32|
                                            crate::table::fat_entry_in_range(l, c2 as int)
                                                && c2 != c && crate::table::fat_entry(
                                                d0,
                                                l,
                                                c2 as int,
                                            ) == crate::table::FatValue::Free implies crate::table::fat_entry(
                                            fs.disk@,
                                            l,
                                            c2 as int,
                                        ) == crate::table::FatValue::Free by {
                                            if Some(c2) != f0.current_cluster {
                                                assert(crate::table::fat_raw(
                                                    fs.disk@,
                                                    l,
                                                    c2 as int,
                                                ) == crate::table::fat_raw(d0, l, c2 as int));
                                            }
                                        }
                                        assert(ch1 == ch0 + seq![c] && crate::table::fat_entry(
                                            d0,
                                            l,
                                            c as int,
                                        ) == crate::table::FatValue::Free);
                                    },
                                }
                            }
                        }
                        Ok(())
                    },
                    Err(e) => {
                        proof {
                            assert(f0.advanced_cluster(fsa) is None);
                            let cs = l.cluster_size as int;
                            let off = f0.offset as int;
                            match f0.current_cluster {
                                Some(cc) => {
                                    f0.lemma_at_chain_end(fsa);
                                    let ch = f0.chain(fsa);
                                    lemma_fundamental_div_mod(off, cs);
                                    assert((off - 1) / cs == ch.len() - 1);
                                    lemma_index_next_block_pub(off, cs);
                                    assert(off == ch.len() * cs) by (nonlinear_arith)
                                        requires
                                            off == cs * (off / cs),
                                            off / cs == ch.len() as int,
                                    ;
                                    assert(stream_content(s, fsa).len() == ch.len() * cs);
                                },
                                None => {
                                    assert(f0.offset == 0);
                                    assert(f0.offset as int % cs == 0) by (nonlinear_arith)
                                        requires
                                            f0.offset == 0u32,
                                            cs >= 1,
                                    ;
                                    assert(f0.first_cluster is None);
                                    assert(stream_content(s, fsa).len() == 0);
                                },
                            }
                        }
                        Err(e)
                    },
                }
            },
        }
    }
}

/// The absolute volume position of the stream byte at `p`.
pub open spec fn record_disk_pos(s: DirRawStream, fs: FileSystem, p: int) -> int {
    match s {
        DirRawStream::Root(sl) => sl.begin + p,
        DirRawStream::File(f) => {
            let cs = fs.layout.cluster_size as int;
            let ch = spec_chain(fs.disk@, fs.layout, f.first_cluster->0);
            fs.layout.spec_cluster_pos(ch[p / cs] as int) + p % cs
        },
    }
}

impl DirRawStream {
    /// Repositions the cursor on a record boundary within the stream's
    /// content.
    pub fn seek_to(&mut self, fs: &FileSystem, target: u64) -> (r: Result<(), Error>)
        requires
            fs.wf(),
            old(self).wf(*fs),
            target % 32 == 0,
            target <= stream_content(*old(self), *fs).len(),
        ensures
            r is Ok,
            final(self).wf(*fs),
            stream_pos(*final(self)) == target,
            stream_first_cluster(*final(self)) == stream_first_cluster(*old(self)),
            stream_content(*final(self), *fs) == stream_content(*old(self), *fs),
            (*final(self)) is File <==> (*old(self)) is File,
            ((*final(self)) is File && (*old(self)) is File)
                ==> final(self)->File_0.entry == old(self)->File_0.entry,
            (*final(self)) is Root ==> old(self)->Root_0.begin == final(self)->Root_0.begin
                && old(self)->Root_0.size == final(self)->Root_0.size,
    {
        let s = *self;
        match s {
            DirRawStream::Root(mut sl) => {
                sl.pos = target as usize;
                *self = DirRawStream::Root(sl);
                Ok(())
            },
            DirRawStream::File(mut f) => {
                let ghost ch = spec_chain(fs.disk@, fs.layout, f.first_cluster->0);
                let ghost cs = fs.layout.cluster_size as int;
                proof {
                    if f.first_cluster is Some && target >= 1 {
                        // The target stays on the chain.
                        let tgt = File::cluster_index_of(target as int, cs);
                        lemma_fundamental_div_mod(target as int - 1, cs);
                        assert(cs * tgt == tgt * cs) by (nonlinear_arith);
                        if tgt >= ch.len() {
                            assert(target as int - 1 >= ch.len() * cs) by (nonlinear_arith)
                                requires
                                    target as int - 1 == tgt * cs + (target as int - 1) % cs,
                                    0 <= (target as int - 1) % cs,
                                    tgt >= ch.len() as int,
                                    cs >= 1,
                            ;
                            assert(false);
                        }
                    }
                }
                let res = f.seek(fs, SeekFrom::Start(target));
                *self = DirRawStream::File(f);
                proof {
                    assert(res is Ok);
                    assert(f.offset == target);
                }
                Ok(())
            },
        }
    }

    /// Absolute volume position of the record that ends at the cursor.
    pub fn last_record_abs_pos(&self, fs: &FileSystem) -> (r: usize)
        requires
            fs.wf(),
            self.wf(*fs),
            stream_pos(*self) % 32 == 0,
            32 <= stream_pos(*self) <= stream_content(*self, *fs).len(),
        ensures
            r == record_disk_pos(*self, *fs, stream_pos(*self) - 32),
            r + 32 <= fs.disk@.len(),
            fs.layout.fat_offset + fs.layout.fat_len <= r,
    {
        match self {
            DirRawStream::Root(sl) => sl.begin + sl.pos - 32,
            DirRawStream::File(f) => {
                let cluster_size = fs.cluster_size();
                proof {
                    let cs = cluster_size as int;
                    let off = f.offset as int;
                    // A positive record-aligned offset has its last record
                    // wholly inside the cursor's cluster.
                    lemma_record_fits(off - 32, cs);
                    lemma_same_cluster_block(off - 32, 31, cs);
                    assert(f.current_cluster is Some);
                    assert((off - 1) / cs == (off - 32) / cs);
                    f.lemma_chain_cluster_valid(*fs);
                }
                let offset_in_cluster = ((self.stream_offset_exec()) - 32) % (
                cluster_size as u64);
                let c = match f.current_cluster {
                    Some(c) => c,
                    None => {
                        proof {
                            assert(false);
                        }
                        0
                    },
                };
                fs.offset_from_cluster(c) + ((offset_in_cluster as u32) as usize)
            },
        }
    }

    /// The cursor position as an executable value.
    pub fn stream_offset_exec(&self) -> (r: u64)
        ensures
            r == stream_pos(*self),
    {
        match self {
            DirRawStream::File(f) => f.offset as u64,
            DirRawStream::Root(sl) => sl.pos as u64,
        }
    }
}

/// An open directory.
#[derive(Clone, Copy, Debug)]
pub struct Dir {
    pub stream: DirRawStream,
}

impl Dir {
    /// A directory over the given record stream.
    pub fn new(stream: DirRawStream) -> (r: Dir)
        ensures
            r.stream == stream,
    {
        Dir { stream }
    }

    /// The directory's stream is well formed and stands at a record
    /// boundary; a chain-backed directory always has a chain.
    pub open spec fn wf(self, fs: FileSystem) -> bool {
        &&& self.stream.wf(fs)
        &&& stream_pos(self.stream) % 32 == 0
        &&& (self.stream is File ==> self.stream->File_0.first_cluster is Some)
    }

    /// An iterator over the directory's logical entries.
    pub fn iter(&self) -> (r: DirIter)
        ensures
            r.stream == self.stream,
            !r.err,
    {
        DirIter { stream: self.stream, err: false }
    }
}

/// A lazy enumerator of a directory's logical entries.
#[derive(Clone, Copy, Debug)]
pub struct DirIter {
    pub stream: DirRawStream,
    pub err: bool,
}

impl FileSystem {
    /// The root directory the volume's layout names.
    pub open spec fn spec_root_dir(self) -> Dir {
        match self.layout.fat_type {
            crate::fs::FatType::Fat32 => Dir {
                stream: DirRawStream::File(
                    crate::file::File {
                        first_cluster: Some(self.layout.root_cluster),
                        current_cluster: None,
                        offset: 0,
                        entry: None,
                    },
                ),
            },
            _ => Dir {
                stream: DirRawStream::Root(
                    DiskSlice {
                        begin: self.layout.root_offset,
                        size: self.layout.root_len,
                        pos: 0,
                    },
                ),
            },
        }
    }

    /// The root directory's chain, when it has one, is well formed: part of
    /// what a consistent volume guarantees.
    pub open spec fn root_wf(self) -> bool {
        self.layout.fat_type is Fat32 ==> chain_wf(
            self.disk@,
            self.layout,
            self.layout.root_cluster,
        )
    }

    /// Opens the root directory.
    pub fn root_dir(&self) -> (r: Dir)
        requires
            self.wf(),
        ensures
            r == self.spec_root_dir(),
            self.root_wf() ==> r.wf(*self),
    {
        match self.layout.fat_type {
            crate::fs::FatType::Fat32 => {
                let file = crate::file::File::new(Some(self.layout.root_cluster), None);
                Dir::new(DirRawStream::File(file))
            },
            _ => {
                proof {
                    crate::table::lemma_entry_end_monotone(
                        self.layout,
                        0,
                        self.layout.spec_cluster_limit() - 1,
                    );
                }
                Dir::new(
                    DirRawStream::Root(
                        DiskSlice::new(self.layout.root_offset, self.layout.root_len),
                    ),
                )
            },
        }
    }
}

/// One step outcome of scanning a directory's records from slot `k` with a
/// pending range begun at slot `begin`: the slots of the next logical
/// entry's range and short-name record, or nothing at the end of the
/// directory. Free records and volume labels are skipped and reset the
/// range; long-name records are consumed into the range.
pub open spec fn spec_scan(s: Seq<u8>, k: int, begin: int) -> Option<(int, int)>
    decreases s.len() - 32 * k,
{
    if k < 0 || 32 * (k + 1) > s.len() {
        None
    } else if crate::dir_entry::is_lfn_attr_byte(s[32 * k + 11]) {
        if s[32 * k] == DIR_ENTRY_FREE_FLAG {
            spec_scan(s, k + 1, k + 1)
        } else {
            spec_scan(s, k + 1, begin)
        }
    } else if s[32 * k] == 0 {
        None
    } else if s[32 * k] == DIR_ENTRY_FREE_FLAG || s[32 * k + 11] & ATTR_VOLUME_ID != 0 {
        spec_scan(s, k + 1, k + 1)
    } else {
        Some((begin, k))
    }
}

/// The slots a scan names stay within the directory and in order.
pub proof fn lemma_scan_bounds(s: Seq<u8>, k: int, begin: int)
    requires
        0 <= begin <= k,
        spec_scan(s, k, begin) is Some,
    ensures
        begin <= (spec_scan(s, k, begin)->0).0 <= (spec_scan(s, k, begin)->0).1,
        k <= (spec_scan(s, k, begin)->0).1,
        32 * ((spec_scan(s, k, begin)->0).1 + 1) <= s.len(),
    decreases s.len() - 32 * k,
{
    if k < 0 || 32 * (k + 1) > s.len() {
    } else if crate::dir_entry::is_lfn_attr_byte(s[32 * k + 11]) {
        if s[32 * k] == DIR_ENTRY_FREE_FLAG {
            lemma_scan_bounds(s, k + 1, k + 1);
        } else {
            lemma_scan_bounds(s, k + 1, begin);
        }
    } else if s[32 * k] == 0 {
    } else if s[32 * k] == DIR_ENTRY_FREE_FLAG || s[32 * k + 11] & ATTR_VOLUME_ID != 0 {
        lemma_scan_bounds(s, k + 1, k + 1);
    } else {
    }
}


/// The cursor of a well-formed stream never passes the end of its content.
pub proof fn lemma_stream_pos_in_content(s: DirRawStream, fs: FileSystem)
    requires
        fs.wf(),
        s.wf(fs),
    ensures
        0 <= stream_pos(s) <= stream_content(s, fs).len(),
{
    match s {
        DirRawStream::Root(sl) => {},
        DirRawStream::File(f) => {
            let cs = fs.layout.cluster_size as int;
            let off = f.offset as int;
            match f.current_cluster {
                None => {},
                Some(_) => {
                    let ch = f.chain(fs);
                    let idx = File::cluster_index_of(off, cs);
                    lemma_fundamental_div_mod(off - 1, cs);
                    assert(cs * idx == idx * cs) by (nonlinear_arith);
                    assert(off <= (idx + 1) * cs) by (nonlinear_arith)
                        requires
                            off - 1 == idx * cs + (off - 1) % cs,
                            0 <= (off - 1) % cs < cs,
                    ;
                    lemma_mul_inequality(idx + 1, ch.len() as int, cs);
                },
            }
        },
    }
}

impl DirIter {
    /// Scans forward to the next logical entry: skips free records and
    /// volume labels, consumes long-name records into the entry's range,
    /// and stops with nothing at the end of the directory.
    pub fn read_dir_entry(&mut self, fs: &FileSystem) -> (r: Option<crate::dir_entry::DirEntry>)
        requires
            fs.wf(),
            old(self).stream.wf(*fs),
            stream_pos(old(self).stream) % 32 == 0,
            !old(self).err,
        ensures
            final(self).stream.wf(*fs),
            !final(self).err,
            stream_pos(final(self).stream) % 32 == 0,
            stream_first_cluster(final(self).stream) == stream_first_cluster(old(self).stream),
            stream_content(final(self).stream, *fs) == stream_content(old(self).stream, *fs),
            match spec_scan(
                stream_content(old(self).stream, *fs),
                stream_pos(old(self).stream) / 32,
                stream_pos(old(self).stream) / 32,
            ) {
                None => r is None,
                Some((b, k)) => {
                    &&& r is Some
                    &&& crate::dir_entry::file_record_parses(
                        stream_content(old(self).stream, *fs).subrange(32 * k, 32 * k + 32),
                        r->0.data,
                    )
                    &&& r->0.short_name.len <= 12
                    &&& r->0.short_name.spec_str_bytes() == crate::dir_entry::decoded_short_name(
                        r->0.data.name@,
                    )
                    &&& r->0.offset_range == ((32 * b) as u64, (32 * (k + 1)) as u64)
                    &&& r->0.entry_pos == record_disk_pos(final(self).stream, *fs, 32 * k)
                    &&& r->0.entry_pos + 32 <= fs.disk@.len()
                    &&& fs.layout.fat_offset + fs.layout.fat_len <= r->0.entry_pos
                    &&& stream_pos(final(self).stream) == 32 * (k + 1)
                },
            },
    {
        let ghost content = stream_content(old(self).stream, *fs);
        let ghost k0 = stream_pos(old(self).stream) / 32;
        let mut begin_offset: u64 = self.stream.stream_offset_exec();
        proof {
            lemma_fundamental_div_mod(stream_pos(old(self).stream), 32);
            lemma_stream_pos_in_content(self.stream, *fs);
        }
        loop
            invariant
                fs.wf(),
                self.stream.wf(*fs),
                !self.err,
                stream_pos(self.stream) % 32 == 0,
                stream_first_cluster(self.stream) == stream_first_cluster(old(self).stream),
                stream_content(self.stream, *fs) == content,
                content == stream_content(old(self).stream, *fs),
                k0 == stream_pos(old(self).stream) / 32,
                spec_scan(content, k0, k0) == spec_scan(
                    stream_content(old(self).stream, *fs),
                    stream_pos(old(self).stream) / 32,
                    stream_pos(old(self).stream) / 32,
                ),
                begin_offset % 32 == 0,
                0 <= begin_offset <= stream_pos(self.stream),
                32 * k0 <= stream_pos(self.stream),
                spec_scan(content, stream_pos(self.stream) / 32, begin_offset as int / 32)
                    == spec_scan(content, k0, k0),
                stream_pos(self.stream) <= content.len(),
            decreases content.len() - stream_pos(self.stream),
        {
            let ghost k = stream_pos(self.stream) / 32;
            let ghost p = stream_pos(self.stream);
            proof {
                lemma_fundamental_div_mod(p, 32);
                assert(32 * k == p);
            }
            let rec = self.stream.read_record(fs);
            let b = match rec {
                Some(b) => b,
                None => {
                    proof {
                        assert(32 * (k + 1) > content.len());
                        assert(spec_scan(content, k, begin_offset as int / 32) is None);
                    }
                    return None;
                },
            };
            proof {
                assert(forall|j: int| 0 <= j < 32 ==> b@[j] == content[32 * k + j]);
                lemma_fundamental_div_mod_converse(32 * (k + 1), 32, k + 1, 0);
            }
            let attr = b[11];
            let first = b[0];
            if attr & 0x0F == 0x0F {
                // A long-name record: part of the coming entry's range
                // unless it was freed.
                proof {
                    assert(crate::dir_entry::is_lfn_attr_byte(content[32 * k + 11]));
                }
                if first == DIR_ENTRY_FREE_FLAG {
                    begin_offset = self.stream.stream_offset_exec();
                    proof {
                        assert(spec_scan(content, k, k) == spec_scan(content, k + 1, k + 1));
                    }
                } else {
                    proof {
                        assert(spec_scan(content, k, begin_offset as int / 32) == spec_scan(
                            content,
                            k + 1,
                            begin_offset as int / 32,
                        ));
                    }
                }
            } else if first == 0 {
                proof {
                    assert(content[32 * k] == 0);
                    assert(spec_scan(content, k, begin_offset as int / 32) is None);
                }
                return None;
            } else if first == DIR_ENTRY_FREE_FLAG || attr & ATTR_VOLUME_ID != 0 {
                proof {
                    assert(spec_scan(content, k, begin_offset as int / 32) == spec_scan(
                        content,
                        k + 1,
                        k + 1,
                    ));
                }
                begin_offset = self.stream.stream_offset_exec();
            } else {
                proof {
                    assert(spec_scan(content, k, begin_offset as int / 32) == Some(
                        ((begin_offset as int / 32), k),
                    ));
                }
                let data = match crate::dir_entry::DirEntryData::deserialize(&b) {
                    DirEntryData::File(d) => d,
                    DirEntryData::Lfn(_) => {
                        proof {
                            assert(false);
                        }
                        return None;
                    },
                };
                let short_name = ShortName::new(data.name());
                let entry_pos = self.stream.last_record_abs_pos(fs);
                let end_offset = self.stream.stream_offset_exec();
                proof {
                    lemma_fundamental_div_mod(begin_offset as int, 32);
                    assert(32 * (begin_offset as int / 32) == begin_offset);
                }
                return Some(
                    crate::dir_entry::DirEntry {
                        data,
                        short_name,
                        entry_pos,
                        offset_range: (begin_offset, end_offset),
                    },
                );
            }
        }
    }

    /// Yields the next logical entry, or nothing at the end of the
    /// directory; a latched iterator yields nothing.
    pub fn next(&mut self, fs: &FileSystem) -> (r: Option<crate::dir_entry::DirEntry>)
        requires
            fs.wf(),
            old(self).stream.wf(*fs),
            stream_pos(old(self).stream) % 32 == 0,
        ensures
            final(self).stream.wf(*fs),
            final(self).err == old(self).err,
            stream_pos(final(self).stream) % 32 == 0,
            stream_first_cluster(final(self).stream) == stream_first_cluster(old(self).stream),
            stream_content(final(self).stream, *fs) == stream_content(old(self).stream, *fs),
            old(self).err ==> r is None && *final(self) == *old(self),
            !old(self).err ==> match spec_scan(
                stream_content(old(self).stream, *fs),
                stream_pos(old(self).stream) / 32,
                stream_pos(old(self).stream) / 32,
            ) {
                None => r is None,
                Some((b, k)) => {
                    &&& r is Some
                    &&& crate::dir_entry::file_record_parses(
                        stream_content(old(self).stream, *fs).subrange(32 * k, 32 * k + 32),
                        r->0.data,
                    )
                    &&& r->0.short_name.len <= 12
                    &&& r->0.short_name.spec_str_bytes() == crate::dir_entry::decoded_short_name(
                        r->0.data.name@,
                    )
                    &&& r->0.offset_range == ((32 * b) as u64, (32 * (k + 1)) as u64)
                    &&& r->0.entry_pos == record_disk_pos(final(self).stream, *fs, 32 * k)
                    &&& r->0.entry_pos + 32 <= fs.disk@.len()
                    &&& fs.layout.fat_offset + fs.layout.fat_len <= r->0.entry_pos
                    &&& stream_pos(final(self).stream) == 32 * (k + 1)
                },
            },
    {
        if self.err {
            return None;
        }
        self.read_dir_entry(fs)
    }
}

/// Walks the chain that starts at `c0` and confirms that it is well
/// formed: every visited cluster valid, terminated by `EndOfChain` within
/// the volume's cluster count. A `true` answer certifies the chain; the
/// walk answers `false` on any volume whose chain is broken or cyclic.
pub fn check_chain(fs: &FileSystem, c0: u32) -> (r: Option<u32>)
    requires
        fs.wf(),
    ensures
        r is Some <==> fs.layout.is_cluster(c0) && chain_wf(fs.disk@, fs.layout, c0),
        r is Some ==> spec_chain(fs.disk@, fs.layout, c0).len() == r->0,
{
    let ghost l = fs.layout;
    let ghost fuel = (l.total_clusters + 1) as nat;
    let limit = fs.cluster_limit();
    if !(2 <= c0 && c0 < limit) {
        return None;
    }
    proof {
        crate::table::lemma_chain_shape(
            fs.disk@,
            fs.layout,
            c0,
            (fs.layout.total_clusters + 1) as nat,
        );
    }
    let ghost ch = spec_chain(fs.disk@, l, c0);
    proof {
        crate::table::lemma_chain_shape(fs.disk@, l, c0, fuel);
    }
    let mut c = c0;
    let mut i: u32 = 0;
    loop
        invariant
            fs.wf(),
            l == fs.layout,
            fuel == (l.total_clusters + 1) as nat,
            l.is_cluster(c0),
            ch == spec_chain(fs.disk@, l, c0),
            0 <= i < ch.len(),
            i < l.total_clusters,
            c == ch[i as int],
            2 <= c < l.spec_cluster_limit(),
            forall|j: int| 0 <= j <= i ==> l.is_cluster(#[trigger] ch[j]),
            limit == l.spec_cluster_limit(),
        decreases ch.len() - i,
    {
        proof {
            crate::table::lemma_cluster_entry_in_range(*fs, c);
        }
        let entry = match crate::table::read_fat(fs, c) {
            Ok(v) => v,
            Err(_) => {
                proof {
                    assert(false);
                }
                return None;
            },
        };
        match entry {
            crate::table::FatValue::EndOfChain => {
                proof {
                    // The walk visited the whole chain: it ends here.
                    assert(i as int == ch.len() - 1) by {
                        if (i as int) < ch.len() - 1 {
                            crate::table::lemma_chain_shape(fs.disk@, l, c0, fuel);
                            assert(crate::table::fat_entry(fs.disk@, l, ch[i as int] as int)
                                == crate::table::FatValue::Data(ch[i as int + 1]));
                        }
                    }
                    assert(ch.len() == i + 1);
                    assert(ch.len() <= l.total_clusters);
                    assert(forall|j: int| 0 <= j < ch.len() ==> l.is_cluster(#[trigger] ch[j]));
                    assert(crate::table::fat_entry(fs.disk@, l, ch[ch.len() - 1] as int)
                        == crate::table::FatValue::EndOfChain);
                }
                return Some(i + 1);
            },
            crate::table::FatValue::Data(n) => {
                proof {
                    crate::table::lemma_chain_shape(fs.disk@, l, c0, fuel);
                    assert((i as int) < ch.len() - 1) by {
                        if i as int == ch.len() - 1 {
                            if ch.len() < fuel {
                                assert(!(crate::table::fat_entry(
                                    fs.disk@,
                                    l,
                                    ch[ch.len() - 1] as int,
                                ) is Data));
                            }
                        }
                    }
                    assert(ch[i as int + 1] == n);
                }
                if !(2 <= n && n < limit) {
                    // The successor is no valid cluster, so the chain is
                    // not well formed.
                    proof {
                        assert(ch[i as int + 1] == n);
                        assert(!chain_wf(fs.disk@, l, c0));
                    }
                    return None;
                }
                if i + 1 >= fs.layout.total_clusters {
                    // A well-formed chain never uses every cluster and
                    // more: give the volume up as corrupt.
                    proof {
                        assert(ch.len() >= i + 2);
                        assert(!chain_wf(fs.disk@, l, c0));
                    }
                    return None;
                }
                c = n;
                i = i + 1;
                proof {
                    if i as int >= ch.len() {
                        assert(false);
                    }
                }
            },
            _ => {
                // A free or bad entry mid-walk: the chain ends here without
                // an end-of-chain mark, so it is not well formed.
                proof {
                    crate::table::lemma_chain_shape(fs.disk@, l, c0, fuel);
                    if (i as int) < ch.len() - 1 {
                        assert(crate::table::fat_entry(fs.disk@, l, ch[i as int] as int)
                            is Data);
                        assert(false);
                    }
                    assert(!chain_wf(fs.disk@, l, c0));
                }
                return None;
            },
        }
    }
}

/// How a long-name character lands in the 11-byte short name: punctuation
/// that a short name cannot hold and anything outside ASCII become `?`;
/// letters are uppercased.
pub open spec fn spec_short_char(c: char) -> u8 {
    let u = c as u32;
    if u == 0x2E || u == 0x20 || u == 0x2B || u == 0x2C || u == 0x3B || u == 0x3D || u == 0x5B
        || u == 0x5D {
        0x3F
    } else if u >= 0x80 {
        0x3F
    } else if 0x61 <= u <= 0x7A {
        (u - 0x20) as u8
    } else {
        u as u8
    }
}

/// `src` mapped into a space-padded field of `n` bytes.
pub open spec fn padded_part(src: Seq<char>, n: int) -> Seq<u8> {
    Seq::new(
        n as nat,
        |i: int|
            if i < src.len() {
                spec_short_char(src[i])
            } else {
                0x20u8
            },
    )
}

/// The position of the last dot of `s`, if any.
pub open spec fn last_dot(s: Seq<char>) -> Option<int>
    decreases s.len(),
{
    if s.len() == 0 {
        None
    } else if s[s.len() - 1] == '.' {
        Some(s.len() - 1)
    } else {
        last_dot(s.drop_last())
    }
}

/// `last_dot` names the last dot of `s`, or nothing when `s` has none.
pub proof fn lemma_last_dot(s: Seq<char>)
    ensures
        match last_dot(s) {
            Some(d) => 0 <= d < s.len() && s[d] == '.' && forall|j: int|
                d < j < s.len() ==> s[j] != '.',
            None => forall|j: int| 0 <= j < s.len() ==> s[j] != '.',
        },
    decreases s.len(),
{
    if s.len() > 0 && s[s.len() - 1] != '.' {
        lemma_last_dot(s.drop_last());
        assert(forall|j: int| 0 <= j < s.len() - 1 ==> s.drop_last()[j] == s[j]);
    }
}

/// The 11-byte short name synthesized from a long name: eight base bytes
/// and three extension bytes taken around the last dot, space-padded. The
/// directory links `.` and `..` keep their dots verbatim.
pub open spec fn spec_generate_short_name(name: Seq<char>) -> Seq<u8> {
    if name =~= seq!['.'] {
        seq![0x2Eu8] + padded_part(Seq::empty(), 10)
    } else if name =~= seq!['.', '.'] {
        seq![0x2Eu8, 0x2Eu8] + padded_part(Seq::empty(), 9)
    } else {
        spec_generate_short_name_plain(name)
    }
}

/// The synthesis rule for ordinary names.
pub open spec fn spec_generate_short_name_plain(name: Seq<char>) -> Seq<u8> {
    match last_dot(name) {
        Some(d) => padded_part(name.subrange(0, d), 8) + padded_part(
            name.subrange(d + 1, name.len() as int),
            3,
        ),
        None => padded_part(name, 8) + padded_part(Seq::empty(), 3),
    }
}

/// Maps one long-name character into the short name.
fn short_char(c: char) -> (r: u8)
    ensures
        r == spec_short_char(c),
{
    let u = c as u32;
    if u == 0x2E || u == 0x20 || u == 0x2B || u == 0x2C || u == 0x3B || u == 0x3D || u == 0x5B
        || u == 0x5D {
        0x3F
    } else if u >= 0x80 {
        0x3F
    } else if 0x61 <= u && u <= 0x7A {
        (u - 0x20) as u8
    } else {
        u as u8
    }
}

/// Fills `dst[lo..hi]` from the characters of `src` starting at
/// `src_from`, mapping each through the short-name character rules and
/// stopping at the end of either side; untouched bytes keep their padding.
fn copy_short_name_part(
    dst: &mut [u8; 11],
    lo: usize,
    hi: usize,
    src: &str,
    src_from: usize,
    src_to: usize,
)
    requires
        lo <= hi <= 11,
        src_from <= src_to <= src@.len(),
    ensures
        forall|k: int|
            lo <= k < hi ==> final(dst)@[k] == (if k - lo < src_to - src_from {
                spec_short_char(src@[src_from + (k - lo)])
            } else {
                old(dst)@[k]
            }),
        forall|k: int| 0 <= k < 11 && !(lo <= k < hi) ==> final(dst)@[k] == old(dst)@[k],
{
    let mut j: usize = 0;
    while lo + j < hi && src_from + j < src_to
        invariant
            lo <= hi <= 11,
            src_from <= src_to <= src@.len(),
            j <= hi - lo,
            forall|k: int|
                lo <= k < lo + j ==> dst@[k] == spec_short_char(src@[src_from + (k - lo)]),
            forall|k: int| 0 <= k < 11 && !(lo <= k < lo + j) ==> dst@[k] == old(dst)@[k],
            src_from + j <= src_to,
        decreases hi - lo - j,
    {
        let c = src.get_char(src_from + j);
        dst[lo + j] = short_char(c);
        j = j + 1;
    }
    proof {
        assert(forall|k: int|
            lo + j <= k < hi ==> (k - lo >= src_to - src_from) && dst@[k] == old(dst)@[k]);
    }
}

/// Synthesizes the space-padded 11-byte short name from a long name.
pub fn generate_short_name(name: &str) -> (r: [u8; 11])
    ensures
        r@ == spec_generate_short_name(name@),
{
    proof {
        lemma_last_dot(name@);
    }
    let n = name.unicode_len();
    if n == 1 && name.get_char(0) == '.' {
        let mut r = [0x20u8; 11];
        r[0] = 0x2E;
        proof {
            assert(name@ =~= seq!['.']);
            assert(r@ =~= seq![0x2Eu8] + padded_part(Seq::empty(), 10));
        }
        return r;
    }
    if n == 2 && name.get_char(0) == '.' && name.get_char(1) == '.' {
        let mut r = [0x20u8; 11];
        r[0] = 0x2E;
        r[1] = 0x2E;
        proof {
            assert(name@ =~= seq!['.', '.']);
            assert(r@ =~= seq![0x2Eu8, 0x2Eu8] + padded_part(Seq::empty(), 9));
        }
        return r;
    }
    proof {
        if name@ =~= seq!['.'] {
            assert(name@.len() == 1 && name@[0] == '.');
            assert(false);
        }
        if name@ =~= seq!['.', '.'] {
            assert(false);
        }
    }
    // Find the last dot.
    let mut dot: usize = n;
    let mut i: usize = n;
    while i > 0
        invariant
            0 <= i <= n,
            n == name@.len(),
            dot <= n,
            dot == n ==> forall|j: int| i <= j < n ==> name@[j] != '.',
            dot < n ==> i <= dot && name@[dot as int] == '.' && forall|j: int|
                dot < j < n ==> name@[j] != '.',
        decreases i,
    {
        i = i - 1;
        if dot == n {
            let c = name.get_char(i);
            if c == '.' {
                dot = i;
            }
        }
    }
    proof {
        lemma_last_dot(name@);
        match last_dot(name@) {
            Some(d) => {
                if dot != d {
                    if dot == n {
                        assert(name@[d] == '.');
                        assert(false);
                    } else if dot < d {
                        assert(d < n);
                        assert(name@[d] != '.');
                        assert(false);
                    } else {
                        assert(d < dot < n);
                        assert(name@[dot as int] == '.');
                        assert(name@[dot as int] != '.');
                        assert(false);
                    }
                }
            },
            None => {
                if dot < n {
                    assert(name@[dot as int] == '.');
                    assert(name@[dot as int] != '.');
                    assert(false);
                }
            },
        }
    }
    let mut short_name = [0x20u8; 11];
    if dot < n {
        copy_short_name_part(&mut short_name, 0, 8, name, 0, dot);
        copy_short_name_part(&mut short_name, 8, 11, name, dot + 1, n);
    } else {
        copy_short_name_part(&mut short_name, 0, 8, name, 0, n);
    }
    proof {
        assert(short_name@ =~= spec_generate_short_name_plain(name@));
    }
    short_name
}

/// A character a long name may hold: letters, digits, anything outside
/// ASCII up to the basic plane, and a fixed set of punctuation.
pub open spec fn valid_long_name_char(c: char) -> bool {
    let u = c as u32;
    ||| 0x61 <= u <= 0x7A
    ||| 0x41 <= u <= 0x5A
    ||| 0x30 <= u <= 0x39
    ||| 0x80 <= u <= 0xFFFF
    ||| u == 0x24 || u == 0x25 || u == 0x27 || u == 0x2D || u == 0x5F || u == 0x40 || u == 0x7E
        || u == 0x60 || u == 0x21 || u == 0x28 || u == 0x29 || u == 0x7B || u == 0x7D || u
        == 0x2E || u == 0x20 || u == 0x2B || u == 0x2C || u == 0x3B || u == 0x3D || u == 0x5B
        || u == 0x5D
}

/// A legal long name: one to 255 bytes, every character from the accepted
/// set.
pub open spec fn spec_valid_long_name(name: Seq<char>, byte_len: int) -> bool {
    &&& 1 <= byte_len <= 255
    &&& forall|i: int| 0 <= i < name.len() ==> valid_long_name_char(#[trigger] name[i])
}

/// Accepts exactly the legal long names, rejecting the rest with
/// `InvalidInput`.
pub fn validate_long_name(name: &str) -> (r: Result<(), Error>)
    ensures
        r is Ok <==> spec_valid_long_name(name@, name.len() as int),
        r is Err ==> r->Err_0 == Error::InvalidInput,
{
    if name.len() == 0 {
        return Err(Error::InvalidInput);
    }
    if name.len() > 255 {
        return Err(Error::InvalidInput);
    }
    let n = name.unicode_len();
    let mut i: usize = 0;
    while i < n
        invariant
            0 <= i <= n,
            n == name@.len(),
            forall|j: int| 0 <= j < i ==> valid_long_name_char(#[trigger] name@[j]),
        decreases n - i,
    {
        let c = name.get_char(i);
        let u = c as u32;
        let ok = (0x61 <= u && u <= 0x7A) || (0x41 <= u && u <= 0x5A) || (0x30 <= u && u
            <= 0x39) || (0x80 <= u && u <= 0xFFFF) || u == 0x24 || u == 0x25 || u == 0x27 || u
            == 0x2D || u == 0x5F || u == 0x40 || u == 0x7E || u == 0x60 || u == 0x21 || u == 0x28
            || u == 0x29 || u == 0x7B || u == 0x7D || u == 0x2E || u == 0x20 || u == 0x2B || u
            == 0x2C || u == 0x3B || u == 0x3D || u == 0x5B || u == 0x5D;
        if !ok {
            return Err(Error::InvalidInput);
        }
        i = i + 1;
    }
    Ok(())
}

/// Folds an ASCII letter to upper case; other bytes pass through.
pub open spec fn ascii_fold(b: u8) -> u8 {
    if 0x61 <= b <= 0x7A {
        (b - 0x20) as u8
    } else {
        b
    }
}

/// Two byte strings name the same file: equal up to ASCII case.
pub open spec fn names_match(a: Seq<u8>, b: Seq<u8>) -> bool {
    a.len() == b.len() && forall|i: int|
        0 <= i < a.len() ==> ascii_fold(#[trigger] a[i]) == ascii_fold(b[i])
}

/// Whether the decoded short name equals `name`, ignoring ASCII case.
pub fn name_matches(sn: &ShortName, name: &str) -> (r: bool)
    requires
        sn.len <= 12,
    ensures
        r == names_match(sn.spec_str_bytes(), name.spec_bytes()),
{
    let nb = name.as_bytes();
    let n = sn.len as usize;
    if nb.len() != n {
        return false;
    }
    let mut i: usize = 0;
    while i < n
        invariant
            n == sn.len as int,
            sn.len <= 12,
            nb@ == name.spec_bytes(),
            nb@.len() == n,
            0 <= i <= n,
            forall|j: int|
                0 <= j < i ==> ascii_fold(#[trigger] sn.spec_str_bytes()[j]) == ascii_fold(
                    nb@[j],
                ),
        decreases n - i,
    {
        let a = sn.name[i];
        let b = *vstd::slice::slice_index_get(nb, i);
        let fa = if 0x61 <= a && a <= 0x7A {
            a - 0x20
        } else {
            a
        };
        let fb = if 0x61 <= b && b <= 0x7A {
            b - 0x20
        } else {
            b
        };
        if fa != fb {
            proof {
                assert(sn.spec_str_bytes()[i as int] == sn.name@[i as int]);
                assert(ascii_fold(sn.spec_str_bytes()[i as int]) != ascii_fold(nb@[i as int]));
            }
            return false;
        }
        i = i + 1;
    }
    true
}

/// The number of leading slashes of `s`.
pub open spec fn leading_slashes(s: Seq<char>) -> int
    decreases s.len(),
{
    if s.len() == 0 || s[0] != '/' {
        0
    } else {
        1 + leading_slashes(s.drop_first())
    }
}

/// The number of trailing slashes of `s`.
pub open spec fn trailing_slashes(s: Seq<char>) -> int
    decreases s.len(),
{
    if s.len() == 0 || s[s.len() - 1] != '/' {
        0
    } else {
        1 + trailing_slashes(s.drop_last())
    }
}

/// `s` with its leading and trailing slashes removed.
pub open spec fn spec_trimmed(s: Seq<char>) -> Seq<char> {
    if leading_slashes(s) == s.len() {
        Seq::empty()
    } else {
        s.subrange(leading_slashes(s), s.len() - trailing_slashes(s))
    }
}

/// The position of the first slash of `s`, if any.
pub open spec fn first_slash(s: Seq<char>) -> Option<int>
    decreases s.len(),
{
    if s.len() == 0 {
        None
    } else if s[0] == '/' {
        Some(0)
    } else {
        match first_slash(s.drop_first()) {
            Some(i) => Some(i + 1),
            None => None,
        }
    }
}

/// What `split_path` yields: the topmost component of the trimmed path,
/// and the rest after the first inner slash, if one remains.
pub open spec fn spec_split_path(path: Seq<char>) -> (Seq<char>, Option<Seq<char>>) {
    let t = spec_trimmed(path);
    match first_slash(t) {
        None => (t, None),
        Some(i) => (t.subrange(0, i), Some(t.subrange(i + 1, t.len() as int))),
    }
}

/// `leading_slashes` counts an all-slash prefix.
proof fn lemma_leading_slashes(s: Seq<char>)
    ensures
        0 <= leading_slashes(s) <= s.len(),
        forall|j: int| 0 <= j < leading_slashes(s) ==> s[j] == '/',
        leading_slashes(s) < s.len() ==> s[leading_slashes(s)] != '/',
    decreases s.len(),
{
    if s.len() > 0 && s[0] == '/' {
        lemma_leading_slashes(s.drop_first());
        assert forall|j: int| 0 <= j < leading_slashes(s) implies s[j] == '/' by {
            if j > 0 {
                assert(s.drop_first()[j - 1] == s[j]);
            }
        }
        if leading_slashes(s) < s.len() {
            assert(s.drop_first()[leading_slashes(s) - 1] == s[leading_slashes(s)]);
        }
    }
}

/// `trailing_slashes` counts an all-slash suffix.
proof fn lemma_trailing_slashes(s: Seq<char>)
    ensures
        0 <= trailing_slashes(s) <= s.len(),
        forall|j: int| s.len() - trailing_slashes(s) <= j < s.len() ==> s[j] == '/',
        trailing_slashes(s) < s.len() ==> s[s.len() - trailing_slashes(s) - 1] != '/',
    decreases s.len(),
{
    if s.len() > 0 && s[s.len() - 1] == '/' {
        lemma_trailing_slashes(s.drop_last());
        assert(forall|j: int| 0 <= j < s.len() - 1 ==> s.drop_last()[j] == s[j]);
    }
}

/// `first_slash` names the first slash of `s`, or nothing.
proof fn lemma_first_slash(s: Seq<char>)
    ensures
        match first_slash(s) {
            Some(i) => 0 <= i < s.len() && s[i] == '/' && forall|j: int|
                0 <= j < i ==> s[j] != '/',
            None => forall|j: int| 0 <= j < s.len() ==> s[j] != '/',
        },
    decreases s.len(),
{
    if s.len() > 0 && s[0] != '/' {
        lemma_first_slash(s.drop_first());
        match first_slash(s.drop_first()) {
            Some(i) => {
                assert(s.drop_first()[i] == s[i + 1]);
                assert forall|j: int| 0 <= j < i + 1 implies s[j] != '/' by {
                    if j > 0 {
                        assert(s.drop_first()[j - 1] == s[j]);
                    }
                }
            },
            None => {
                assert forall|j: int| 0 <= j < s.len() implies s[j] != '/' by {
                    if j > 0 {
                        assert(s.drop_first()[j - 1] == s[j]);
                    }
                }
            },
        }
    }
}

/// Splits a path into its topmost component and the rest: leading and
/// trailing slashes are dropped, then the path splits once on the first
/// remaining slash.
pub fn split_path<'a>(path: &'a str) -> (r: (&'a str, Option<&'a str>))
    ensures
        r.0@ == spec_split_path(path@).0,
        match (r.1, spec_split_path(path@).1) {
            (Some(a), Some(b)) => a@ == b && a@.len() < path@.len(),
            (None, None) => true,
            _ => false,
        },
{
    proof {
        lemma_leading_slashes(path@);
        lemma_trailing_slashes(path@);
    }
    let n = path.unicode_len();
    let mut lead: usize = 0;
    while lead < n && path.get_char(lead) == '/'
        invariant
            n == path@.len(),
            0 <= lead <= n,
            forall|j: int| 0 <= j < lead ==> path@[j] == '/',
        decreases n - lead,
    {
        lead = lead + 1;
    }
    proof {
        let ls = leading_slashes(path@);
        if lead < ls {
            assert(path@[lead as int] == '/');
            assert(false);
        }
        if ls < lead {
            assert(path@[ls] == '/');
            assert(false);
        }
    }
    if lead == n {
        proof {
            assert(spec_trimmed(path@) =~= Seq::<char>::empty());
            lemma_first_slash(spec_trimmed(path@));
        }
        let empty = path.substring_char(n, n);
        proof {
            assert(empty@ =~= spec_split_path(path@).0);
        }
        return (empty, None);
    }
    let mut trail: usize = 0;
    while trail < n && path.get_char(n - 1 - trail) == '/'
        invariant
            n == path@.len(),
            0 <= trail <= n,
            forall|j: int| n - trail <= j < n ==> path@[j] == '/',
        decreases n - trail,
    {
        trail = trail + 1;
    }
    proof {
        let ts = trailing_slashes(path@);
        if trail < ts {
            assert(path@[n - 1 - trail] == '/');
            assert(false);
        }
        if ts < trail {
            assert(path@[n - ts - 1] == '/');
            assert(false);
        }
        assert(lead < n - trail) by {
            if lead >= n - trail {
                assert(path@[lead as int] == '/');
            }
        }
    }
    let trimmed = path.substring_char(lead, n - trail);
    let ghost t = spec_trimmed(path@);
    proof {
        assert(trimmed@ =~= t);
        lemma_first_slash(t);
    }
    let tn = n - trail - lead;
    let mut i: usize = 0;
    while i < tn && trimmed.get_char(i) != '/'
        invariant
            tn == trimmed@.len(),
            trimmed@ == t,
            0 <= i <= tn,
            forall|j: int| 0 <= j < i ==> trimmed@[j] != '/',
        decreases tn - i,
    {
        i = i + 1;
    }
    if i == tn {
        proof {
            if first_slash(t) is Some {
                let fi = first_slash(t)->0;
                assert(t[fi] != '/');
                assert(false);
            }
        }
        (trimmed, None)
    } else {
        proof {
            let fi = first_slash(t);
            if fi is None {
                assert(t[i as int] != '/');
                assert(false);
            }
            if fi->0 < i {
                assert(t[fi->0] != '/');
                assert(false);
            }
            if fi->0 > i {
                assert(t[i as int] != '/');
                assert(false);
            }
        }
        let head = trimmed.substring_char(0, i);
        let rest = trimmed.substring_char(i + 1, tn);
        proof {
            assert(head@ =~= spec_split_path(path@).0);
            assert(rest@ =~= spec_split_path(path@).1->0);
        }
        (head, Some(rest))
    }
}

/// Whether the record in slot `f` of the stream decodes to a short name
/// equal to `name` up to ASCII case.
pub open spec fn record_matches(s: Seq<u8>, f: int, name: Seq<u8>) -> bool {
    names_match(
        crate::dir_entry::decoded_short_name(s.subrange(32 * f, 32 * f + 11)),
        name,
    )
}

/// The range and slot of the first logical entry from slot `k` on whose
/// decoded short name equals `name` up to ASCII case, or nothing.
pub open spec fn spec_find(s: Seq<u8>, k: int, name: Seq<u8>) -> Option<(int, int)>
    decreases s.len() - 32 * k,
{
    match spec_scan(s, k, k) {
        None => None,
        Some((b, f)) => if record_matches(s, f, name) {
            Some((b, f))
        } else {
            let k2 = if f + 1 > k + 1 {
                f + 1
            } else {
                k + 1
            };
            if 32 * k2 <= s.len() {
                spec_find(s, k2, name)
            } else {
                None
            }
        },
    }
}

/// A directory has no entries at all beyond the `.` and `..` links.
pub open spec fn spec_dir_is_empty(s: Seq<u8>, k: int) -> bool
    decreases s.len() - 32 * k,
{
    match spec_scan(s, k, k) {
        None => true,
        Some((b, f)) => if record_matches(s, f, seq![0x2Eu8]) || record_matches(
            s,
            f,
            seq![0x2Eu8, 0x2Eu8],
        ) {
            let k2 = if f + 1 > k + 1 {
                f + 1
            } else {
                k + 1
            };
            if 32 * k2 <= s.len() {
                spec_dir_is_empty(s, k2)
            } else {
                true
            }
        } else {
            false
        },
    }
}


/// The defined attribute bits of the record in slot `f`.
pub open spec fn record_attrs(s: Seq<u8>, f: int) -> u8 {
    s[32 * f + 11] & crate::dir_entry::ATTR_MASK
}

/// The first cluster the record in slot `f` names; zero stands for none.
pub open spec fn record_first_cluster(s: Seq<u8>, f: int, ft: crate::fs::FatType) -> Option<
    u32,
> {
    let hi: u32 = if ft is Fat32 {
        crate::codec::le16(s, 32 * f + 20) as u32
    } else {
        0
    };
    let n = (hi << 16) | (crate::codec::le16(s, 32 * f + 26) as u32);
    if n == 0 {
        None
    } else {
        Some(n)
    }
}

/// The stored size of the record in slot `f`.
pub open spec fn record_size(s: Seq<u8>, f: int) -> u32 {
    crate::codec::le32(s, 32 * f + 28)
}

/// A parsed record carries exactly the slot's attribute bits, first
/// cluster and size.
pub proof fn lemma_record_fields(s: Seq<u8>, f: int, data: crate::dir_entry::DirFileEntryData)
    requires
        0 <= f,
        32 * (f + 1) <= s.len(),
        crate::dir_entry::file_record_parses(s.subrange(32 * f, 32 * f + 32), data),
    ensures
        data.attrs == record_attrs(s, f),
        forall|ft: crate::fs::FatType|
            crate::dir_entry::spec_first_cluster(data, ft) == #[trigger] record_first_cluster(
                s,
                f,
                ft,
            ),
        data.size == record_size(s, f),
{
    let sub = s.subrange(32 * f, 32 * f + 32);
    assert(sub[11] == s[32 * f + 11]);
    assert(sub[20] == s[32 * f + 20] && sub[21] == s[32 * f + 21]);
    assert(sub[26] == s[32 * f + 26] && sub[27] == s[32 * f + 27]);
    assert(sub[28] == s[32 * f + 28] && sub[29] == s[32 * f + 29] && sub[30] == s[32 * f + 30]
        && sub[31] == s[32 * f + 31]);
    assert(crate::codec::le16(sub, 20) == crate::codec::le16(s, 32 * f + 20));
    assert(crate::codec::le16(sub, 26) == crate::codec::le16(s, 32 * f + 26));
    assert(crate::codec::le32(sub, 28) == crate::codec::le32(s, 32 * f + 28));
    assert forall|ft: crate::fs::FatType| crate::dir_entry::spec_first_cluster(data, ft)
        == #[trigger] record_first_cluster(s, f, ft) by {
        if !(ft is Fat32) {
            assert((0u32 << 16) | (data.first_cluster_lo as u32) == data.first_cluster_lo
                as u32) by (bit_vector);
        }
    }
}

impl Dir {
    /// Finds the entry whose decoded short name equals `name` up to ASCII
    /// case, scanning from the start of the directory; `NotFound` exactly
    /// when no entry matches.
    pub fn find_entry(&self, fs: &FileSystem, name: &str) -> (r: Result<
        crate::dir_entry::DirEntry,
        Error,
    >)
        requires
            fs.wf(),
            self.wf(*fs),
            stream_pos(self.stream) == 0,
        ensures
            match r {
                Ok(e) => {
                    &&& spec_find(stream_content(self.stream, *fs), 0, name.spec_bytes())
                        is Some
                    &&& {
                        let (b, f) = spec_find(
                            stream_content(self.stream, *fs),
                            0,
                            name.spec_bytes(),
                        )->0;
                        &&& crate::dir_entry::file_record_parses(
                            stream_content(self.stream, *fs).subrange(32 * f, 32 * f + 32),
                            e.data,
                        )
                        &&& e.short_name.len <= 12
                        &&& e.short_name.spec_str_bytes()
                            == crate::dir_entry::decoded_short_name(e.data.name@)
                        &&& names_match(e.short_name.spec_str_bytes(), name.spec_bytes())
                        &&& e.offset_range == ((32 * b) as u64, (32 * (f + 1)) as u64)
                        &&& e.entry_pos + 32 <= fs.disk@.len()
                        &&& fs.layout.fat_offset + fs.layout.fat_len <= e.entry_pos
                    }
                },
                Err(e) => e == Error::NotFound && spec_find(
                    stream_content(self.stream, *fs),
                    0,
                    name.spec_bytes(),
                ) is None,
            },
    {
        let ghost content = stream_content(self.stream, *fs);
        let ghost nb = name.spec_bytes();
        let mut iter = self.iter();
        loop
            invariant
                fs.wf(),
                iter.stream.wf(*fs),
                !iter.err,
                stream_pos(iter.stream) % 32 == 0,
                stream_content(iter.stream, *fs) == content,
                content == stream_content(self.stream, *fs),
                nb == name.spec_bytes(),
                spec_find(content, stream_pos(iter.stream) / 32, nb) == spec_find(
                    content,
                    0,
                    nb,
                ),
                stream_pos(iter.stream) <= content.len(),
            decreases content.len() - stream_pos(iter.stream),
        {
            let ghost k = stream_pos(iter.stream) / 32;
            proof {
                lemma_fundamental_div_mod(stream_pos(iter.stream), 32);
                lemma_stream_pos_in_content(iter.stream, *fs);
            }
            let e = match iter.next(fs) {
                Some(e) => e,
                None => {
                    return Err(Error::NotFound);
                },
            };
            let ghost f = (spec_scan(content, k, k)->0).1;
            proof {
                lemma_scan_bounds(content, k, k);
                assert(e.data.name@ =~= content.subrange(32 * f, 32 * f + 11)) by {
                    assert(e.data.name@ == content.subrange(32 * f, 32 * f + 32).subrange(
                        0,
                        11,
                    ));
                }
            }
            if name_matches(&e.short_name, name) {
                return Ok(e);
            }
            proof {
                lemma_stream_pos_in_content(iter.stream, *fs);
                lemma_fundamental_div_mod_converse(32 * (f + 1), 32, f + 1, 0);
            }
        }
    }

    /// Whether the directory holds no entries besides `.` and `..`.
    pub fn is_empty(&self, fs: &FileSystem) -> (r: Result<bool, Error>)
        requires
            fs.wf(),
            self.wf(*fs),
            stream_pos(self.stream) == 0,
        ensures
            r == Ok::<bool, Error>(spec_dir_is_empty(stream_content(self.stream, *fs), 0)),
    {
        let ghost content = stream_content(self.stream, *fs);
        let mut iter = self.iter();
        loop
            invariant
                fs.wf(),
                iter.stream.wf(*fs),
                !iter.err,
                stream_pos(iter.stream) % 32 == 0,
                stream_content(iter.stream, *fs) == content,
                content == stream_content(self.stream, *fs),
                spec_dir_is_empty(content, stream_pos(iter.stream) / 32) == spec_dir_is_empty(
                    content,
                    0,
                ),
                stream_pos(iter.stream) <= content.len(),
            decreases content.len() - stream_pos(iter.stream),
        {
            let ghost k = stream_pos(iter.stream) / 32;
            proof {
                lemma_fundamental_div_mod(stream_pos(iter.stream), 32);
                lemma_stream_pos_in_content(iter.stream, *fs);
            }
            let e = match iter.next(fs) {
                Some(e) => e,
                None => {
                    return Ok(true);
                },
            };
            let ghost f = (spec_scan(content, k, k)->0).1;
            proof {
                lemma_scan_bounds(content, k, k);
                assert(e.data.name@ =~= content.subrange(32 * f, 32 * f + 11)) by {
                    assert(e.data.name@ == content.subrange(32 * f, 32 * f + 32).subrange(
                        0,
                        11,
                    ));
                }
            }
            let is_dot = name_matches(&e.short_name, ".");
            let is_dotdot = name_matches(&e.short_name, "..");
            proof {
                reveal_strlit(".");
                reveal_strlit("..");
                vstd::string::is_ascii_spec_bytes(".");
                vstd::string::is_ascii_spec_bytes("..");
            }
            if !is_dot && !is_dotdot {
                return Ok(false);
            }
            proof {
                lemma_stream_pos_in_content(iter.stream, *fs);
                lemma_fundamental_div_mod_converse(32 * (f + 1), 32, f + 1, 0);
            }
        }
    }
}


/// The slot a scan for free record slots settles on, carried out from slot
/// `k` with a run of `num_free` free slots already seen starting at
/// `first_free`: the start of the first run of `num` consecutive free
/// slots, or the first end-of-directory slot (whence a chain-backed stream
/// can grow).
pub open spec fn spec_find_free_from(
    s: Seq<u8>,
    k: int,
    first_free: int,
    num_free: int,
    num: int,
) -> int
    decreases s.len() - 32 * k,
{
    if k < 0 || 32 * (k + 1) > s.len() {
        if num_free == 0 {
            k
        } else {
            first_free
        }
    } else if s[32 * k] == 0 {
        if num_free == 0 {
            k
        } else {
            first_free
        }
    } else if s[32 * k] == DIR_ENTRY_FREE_FLAG {
        let ff = if num_free == 0 {
            k
        } else {
            first_free
        };
        if num_free + 1 == num {
            ff
        } else {
            spec_find_free_from(s, k + 1, ff, num_free + 1, num)
        }
    } else {
        spec_find_free_from(s, k + 1, first_free, 0, num)
    }
}

/// The slot where a fresh entry of `num` records goes.
pub open spec fn spec_find_free(s: Seq<u8>, num: int) -> int {
    spec_find_free_from(s, 0, 0, 0, num)
}


/// The 32 record bytes at a record-aligned stream position are the 32
/// volume bytes at that record's disk position.
pub proof fn lemma_record_on_disk(s: DirRawStream, fs: FileSystem, p: int)
    requires
        fs.wf(),
        s.wf(fs),
        p % 32 == 0,
        0 <= p,
        p + 32 <= stream_content(s, fs).len(),
    ensures
        forall|i: int|
            0 <= i < 32 ==> #[trigger] stream_content(s, fs)[p + i]
                == fs.disk@[record_disk_pos(s, fs, p) + i],
{
    match s {
        DirRawStream::Root(sl) => {},
        DirRawStream::File(f) => {
            let cs = fs.layout.cluster_size as int;
            lemma_record_fits(p, cs);
            assert forall|i: int| 0 <= i < 32 implies #[trigger] stream_content(s, fs)[p + i]
                == fs.disk@[record_disk_pos(s, fs, p) + i] by {
                lemma_same_cluster_block(p, i, cs);
            }
        },
    }
}

impl Dir {
    /// Positions a fresh cursor over the stream on the first run of
    /// `num_entries` consecutive free slots, or on the first end-of-
    /// directory slot, whence the stream can grow.
    pub fn find_free_entries(&self, fs: &FileSystem, num_entries: usize) -> (r: Result<
        DirRawStream,
        Error,
    >)
        requires
            fs.wf(),
            self.wf(*fs),
            stream_pos(self.stream) == 0,
            1 <= num_entries,
        ensures
            match r {
                Ok(s) => {
                    &&& s.wf(*fs)
                    &&& stream_pos(s) == 32 * spec_find_free(
                        stream_content(self.stream, *fs),
                        num_entries as int,
                    )
                    &&& stream_pos(s) % 32 == 0
                    &&& stream_pos(s) <= stream_content(self.stream, *fs).len()
                    &&& stream_content(s, *fs) == stream_content(self.stream, *fs)
                    &&& stream_first_cluster(s) == stream_first_cluster(self.stream)
                    &&& (s is File <==> self.stream is File)
                    &&& (s is File && self.stream is File ==> s->File_0.entry
                        == self.stream->File_0.entry)
                    &&& (s is Root ==> s->Root_0.begin == self.stream->Root_0.begin
                        && s->Root_0.size == self.stream->Root_0.size)
                },
                Err(_) => false,
            },
    {
        let ghost content = stream_content(self.stream, *fs);
        let mut stream = self.stream;
        let mut first_free: u64 = 0;
        let mut num_free: usize = 0;
        let mut i: u64 = 0;
        loop
            invariant
                fs.wf(),
                stream.wf(*fs),
                stream_pos(stream) % 32 == 0,
                stream_content(stream, *fs) == content,
                content == stream_content(self.stream, *fs),
                stream_first_cluster(stream) == stream_first_cluster(self.stream),
                (stream is File <==> self.stream is File),
                (stream is File && self.stream is File ==> stream->File_0.entry
                    == self.stream->File_0.entry),
                (stream is Root ==> stream->Root_0.begin == self.stream->Root_0.begin
                    && stream->Root_0.size == self.stream->Root_0.size),
                stream_pos(stream) == 32 * i,
                32 * first_free <= 32 * i,
                first_free * 32 <= content.len(),
                num_free < num_entries,
                stream_pos(stream) <= content.len(),
                spec_find_free_from(
                    content,
                    i as int,
                    first_free as int,
                    num_free as int,
                    num_entries as int,
                ) == spec_find_free(content, num_entries as int),
            decreases content.len() - stream_pos(stream),
        {
            proof {
                lemma_stream_pos_in_content(stream, *fs);
            }
            let rec = stream.read_record(fs);
            match rec {
                None => {
                    // All space from the first free run, or from here, can
                    // be used.
                    proof {
                        assert(32 * (i + 1) > content.len());
                    }
                    if num_free == 0 {
                        first_free = i;
                    }
                    let res = stream.seek_to(fs, first_free * 32);
                    proof {
                        assert(res is Ok);
                    }
                    return Ok(stream);
                },
                Some(b) => {
                    proof {
                        assert(b@[0] == content[32 * i]);
                    }
                    let is_end = b[0] == 0;
                    let is_free_rec = b[0] == DIR_ENTRY_FREE_FLAG;
                    if is_end {
                        if num_free == 0 {
                            first_free = i;
                        }
                        let res = stream.seek_to(fs, first_free * 32);
                        proof {
                            assert(res is Ok);
                        }
                        return Ok(stream);
                    } else if is_free_rec {
                        if num_free == 0 {
                            first_free = i;
                        }
                        num_free = num_free + 1;
                        if num_free == num_entries {
                            let res = stream.seek_to(fs, first_free * 32);
                            proof {
                                assert(res is Ok);
                            }
                            return Ok(stream);
                        }
                    } else {
                        num_free = 0;
                    }
                    i = i + 1;
                },
            }
        }
    }

    /// Finds the slot for a new entry's records; long-name records are not
    /// written, so one slot serves.
    pub fn create_lfn_entries(&self, fs: &FileSystem, _name: &str, _short_name: &[u8; 11]) -> (r:
        Result<(DirRawStream, u64), Error>)
        requires
            fs.wf(),
            self.wf(*fs),
            stream_pos(self.stream) == 0,
        ensures
            match r {
                Ok((s, start)) => {
                    &&& s.wf(*fs)
                    &&& stream_pos(s) == start
                    &&& start == 32 * spec_find_free(stream_content(self.stream, *fs), 1)
                    &&& start % 32 == 0
                    &&& start <= stream_content(self.stream, *fs).len()
                    &&& stream_content(s, *fs) == stream_content(self.stream, *fs)
                    &&& stream_first_cluster(s) == stream_first_cluster(self.stream)
                    &&& (s is File <==> self.stream is File)
                    &&& (s is File && self.stream is File ==> s->File_0.entry
                        == self.stream->File_0.entry)
                    &&& (s is Root ==> s->Root_0.begin == self.stream->Root_0.begin
                        && s->Root_0.size == self.stream->Root_0.size)
                },
                Err(_) => false,
            },
    {
        let stream = self.find_free_entries(fs, 1)?;
        let start_pos = stream.stream_offset_exec();
        Ok((stream, start_pos))
    }

    /// Creates a fresh entry: validates the long name, synthesizes the
    /// 11-byte short name, writes a regular record in the first free slot,
    /// and hands back the logical entry. `InvalidInput` exactly on an
    /// illegal name; `NoSpace` when the directory cannot grow by a
    /// cluster; `UnexpectedEof` when a full fixed root region cannot take
    /// another record.
    #[verifier::rlimit(100)]
    #[verifier::spinoff_prover]
    pub fn create_entry(
        &self,
        fs: &mut FileSystem,
        name: &str,
        attrs: FileAttributes,
        first_cluster: Option<u32>,
    ) -> (r: Result<crate::dir_entry::DirEntry, Error>)
        requires
            old(fs).wf(),
            self.wf(*old(fs)),
            stream_pos(self.stream) == 0,
            attrs.bits & crate::dir_entry::ATTR_MASK == attrs.bits,
            attrs.bits & 0x0F != 0x0F,
            match first_cluster {
                Some(n) => old(fs).layout.is_cluster(n) && (old(fs).layout.fat_type is Fat32
                    || n <= 0xFFFF),
                None => true,
            },
        ensures
            final(fs).layout == old(fs).layout,
            final(fs).wf(),
            final(fs).disk@.len() == old(fs).disk@.len(),
            self.stream.wf(*final(fs)),
            (r == Err::<crate::dir_entry::DirEntry, Error>(Error::InvalidInput)
                <==> !spec_valid_long_name(name@, name.len() as int)),
            r is Err ==> final(fs).disk@ == old(fs).disk@,
            r is Err ==> (r->Err_0 == Error::InvalidInput || r->Err_0 == Error::NoSpace
                || r->Err_0 == Error::UnexpectedEof),
            r == Err::<crate::dir_entry::DirEntry, Error>(Error::NoSpace) ==> forall|c2: int|
                2 <= c2 < old(fs).layout.spec_cluster_limit() ==> crate::table::fat_entry(
                    old(fs).disk@,
                    old(fs).layout,
                    c2,
                ) != crate::table::FatValue::Free,
            r == Err::<crate::dir_entry::DirEntry, Error>(Error::UnexpectedEof)
                ==> self.stream is Root && 32 * spec_find_free(
                stream_content(self.stream, *old(fs)),
                1,
            ) == stream_content(self.stream, *old(fs)).len(),
            match r {
                Ok(e) => {
                    let c0 = stream_content(self.stream, *old(fs));
                    let c1 = stream_content(self.stream, *final(fs));
                    let slot = 32 * spec_find_free(c0, 1);
                    &&& e.data.name@ == spec_generate_short_name(name@)
                    &&& e.data.attrs == attrs.bits
                    &&& e.data.size == 0
                    &&& crate::dir_entry::spec_first_cluster(e.data, old(fs).layout.fat_type)
                        == first_cluster
                    &&& e.short_name.len <= 12
                    &&& e.short_name.spec_str_bytes() == crate::dir_entry::decoded_short_name(
                        e.data.name@,
                    )
                    &&& e.entry_pos + 32 <= final(fs).disk@.len()
                    &&& old(fs).layout.fat_offset + old(fs).layout.fat_len <= e.entry_pos
                    &&& e.offset_range.0 == slot
                    &&& e.offset_range.1 == slot + 32
                    &&& slot + 32 <= c1.len()
                    &&& c1.subrange(slot, slot + 32) == crate::dir_entry::file_record_bytes(
                        e.data,
                    )
                    &&& forall|i: int| 0 <= i < slot ==> c1[i] == c0[i]
                    &&& forall|i: int| slot + 32 <= i < c0.len() ==> c1[i] == c0[i]
                    &&& (c1.len() == c0.len() || (slot == c0.len() && c1.len() == c0.len()
                        + old(fs).layout.cluster_size && forall|i: int|
                        slot + 32 <= i < c1.len() ==> c1[i] == 0u8))
                    &&& forall|i: int|
                        0 <= i < 32 ==> final(fs).disk@[e.entry_pos + i]
                            == crate::dir_entry::file_record_bytes(e.data)[i]
                    &&& forall|i: int|
                        0 <= i < old(fs).disk@.len() && !(old(fs).layout.fat_offset <= i < old(
                            fs,
                        ).layout.fat_offset + old(fs).layout.fat_len) && !stream_owns(
                            self.stream,
                            *final(fs),
                            i,
                        ) ==> final(fs).disk@[i] == old(fs).disk@[i]
                    &&& (self.stream is File && self.stream->File_0.first_cluster is Some
                        ==> {
                        let ch0 = spec_chain(
                            old(fs).disk@,
                            old(fs).layout,
                            self.stream->File_0.first_cluster->0,
                        );
                        let ch1 = spec_chain(
                            final(fs).disk@,
                            old(fs).layout,
                            self.stream->File_0.first_cluster->0,
                        );
                        ch1 == ch0 || {
                            &&& ch1 == ch0 + seq![ch1.last()]
                            &&& crate::table::fat_entry(
                                old(fs).disk@,
                                old(fs).layout,
                                ch1.last() as int,
                            ) == crate::table::FatValue::Free
                            &&& forall|c2: u32|
                                crate::table::fat_entry_in_range(old(fs).layout, c2 as int)
                                    && c2 != ch1.last() && crate::table::fat_entry(
                                    old(fs).disk@,
                                    old(fs).layout,
                                    c2 as int,
                                ) == crate::table::FatValue::Free
                                    ==> crate::table::fat_entry(
                                    final(fs).disk@,
                                    old(fs).layout,
                                    c2 as int,
                                ) == crate::table::FatValue::Free
                            &&& forall|c2: u32|
                                crate::table::fat_entry_in_range(old(fs).layout, c2 as int)
                                    && !ch0.contains(c2) && c2 != ch1.last()
                                    ==> crate::table::fat_raw(
                                    final(fs).disk@,
                                    old(fs).layout,
                                    c2 as int,
                                ) == crate::table::fat_raw(old(fs).disk@, old(fs).layout, c2 as int)
                        }
                    })
                    &&& (self.stream is Root ==> forall|c2: u32|
                        crate::table::fat_entry_in_range(old(fs).layout, c2 as int)
                            ==> crate::table::fat_entry(final(fs).disk@, old(fs).layout, c2 as int)
                            == crate::table::fat_entry(old(fs).disk@, old(fs).layout, c2 as int))
                    &&& (stream_content(self.stream, *final(fs)).len() == stream_content(
                        self.stream,
                        *old(fs),
                    ).len() ==> forall|i: int|
                        old(fs).layout.fat_offset <= i < old(fs).layout.fat_offset + old(
                            fs,
                        ).layout.fat_len ==> final(fs).disk@[i] == old(fs).disk@[i])
                },
                Err(_) => true,
            },
    {
        let ghost l = fs.layout;
        match validate_long_name(name) {
            Ok(()) => {},
            Err(e) => {
                return Err(e);
            },
        }
        let short_name = generate_short_name(name);
        let (mut stream, start_pos) = match self.create_lfn_entries(fs, name, &short_name) {
            Ok(x) => x,
            Err(e) => {
                proof {
                    assert(false);
                }
                return Err(e);
            },
        };
        let mut raw_entry = crate::dir_entry::DirFileEntryData::new(
            short_name,
            FileAttributes { bits: attrs.bits },
        );
        raw_entry.set_first_cluster(first_cluster, fs.fat_type());
        raw_entry.reset_created();
        let _ = raw_entry.reset_accessed();
        raw_entry.reset_modified();
        let bytes = raw_entry.serialize();
        proof {
            assert(crate::dir_entry::file_record_bytes(raw_entry).len() == 32);
            let n = first_cluster.unwrap_or(0);
            if first_cluster is Some {
                assert(((n >> 16) & 0xFFFF) << 16 | (n & 0xFFFF) == n && ((n & 0xFFFF) as u16
                    as u32) == n & 0xFFFF && (((n >> 16) & 0xFFFF) as u16 as u32) == (n >> 16)
                    & 0xFFFF) by (bit_vector);
                if !(l.fat_type is Fat32) {
                    assert((0u32 << 16) | (n & 0xFFFF) == n) by (bit_vector)
                        requires
                            n <= 0xFFFFu32,
                    ;
                }
            } else {
                assert((0u32 >> 16) & 0xFFFF == 0 && 0u32 & 0xFFFF == 0 && (0u32 << 16) | 0
                    == 0) by (bit_vector);
            }
        }
        match stream.write_record(fs, &bytes) {
            Ok(()) => {},
            Err(e) => {
                return Err(e);
            },
        }
        proof {
            // The directory's own cursor still ranges over a well-formed
            // stream of the grown volume, and sees the same bytes as the
            // working cursor.
            match self.stream {
                DirRawStream::File(f0) => {
                    assert(stream->File_0.wf(*fs));
                    assert(stream->File_0.first_cluster == f0.first_cluster);
                },
                DirRawStream::Root(sl) => {},
            }
            assert(stream_content(self.stream, *fs) =~= stream_content(stream, *fs));
            assert(forall|i: int|
                stream_owns(stream, *fs, i) == #[trigger] stream_owns(self.stream, *fs, i));
            lemma_record_on_disk(stream, *fs, stream_pos(stream) - 32);
            match self.stream {
                DirRawStream::File(f0) => {
                    assert(stream->File_0.first_cluster == f0.first_cluster);
                },
                DirRawStream::Root(_) => {},
            }
        }
        let entry_pos = stream.last_record_abs_pos(fs);
        proof {
            // The written record's bytes stand on the volume at the
            // returned position.
            let p = stream_pos(stream) - 32;
            assert forall|i: int| 0 <= i < 32 implies fs.disk@[entry_pos + i]
                == crate::dir_entry::file_record_bytes(raw_entry)[i] by {
                assert(stream_content(stream, *fs)[p + i] == fs.disk@[record_disk_pos(
                    stream,
                    *fs,
                    p,
                ) + i]);
                assert(stream_content(stream, *fs).subrange(p, p + 32)[i] == stream_content(
                    stream,
                    *fs,
                )[p + i]);
            }
        }
        let end_pos = stream.stream_offset_exec();
        let decoded = ShortName::new(raw_entry.name());
        Ok(
            crate::dir_entry::DirEntry {
                data: raw_entry,
                short_name: decoded,
                entry_pos,
                offset_range: (start_pos, end_pos),
            },
        )
    }
}


/// A chain survives a volume change that rewrites only entries that were
/// free, as allocating an unrelated cluster does.
pub proof fn lemma_chain_survives_alloc(d0: Seq<u8>, d1: Seq<u8>, l: Layout, c0: u32)
    requires
        l.wf(d0.len() as int),
        l.is_cluster(c0),
        chain_wf(d0, l, c0),
        d1.len() == d0.len(),
        forall|c2: u32|
            crate::table::fat_entry_in_range(l, c2 as int) ==> (crate::table::fat_raw(
                d1,
                l,
                c2 as int,
            ) == crate::table::fat_raw(d0, l, c2 as int) || crate::table::fat_entry(
                d0,
                l,
                c2 as int,
            ) == crate::table::FatValue::Free),
    ensures
        spec_chain(d1, l, c0) == spec_chain(d0, l, c0),
        chain_wf(d1, l, c0),
{
    let fuel = (l.total_clusters + 1) as nat;
    let ch = spec_chain(d0, l, c0);
    crate::table::lemma_chain_shape(d0, l, c0, fuel);
    assert forall|i: int| 0 <= i < ch.len() implies crate::table::fat_entry(
        d1,
        l,
        #[trigger] ch[i] as int,
    ) == crate::table::fat_entry(d0, l, ch[i] as int) by {
        crate::table::lemma_entry_end_monotone(l, ch[i] as int, l.spec_cluster_limit() - 1);
        assert(crate::table::fat_entry_in_range(l, ch[i] as int));
        if i < ch.len() - 1 {
            assert(crate::table::fat_entry(d0, l, ch[i] as int) == crate::table::FatValue::Data(
                ch[i + 1],
            ));
        } else {
            assert(crate::table::fat_entry(d0, l, ch[i] as int)
                == crate::table::FatValue::EndOfChain);
        }
    }
    crate::table::lemma_chain_congruent(d0, d1, l, c0, fuel);
}


/// Three pairwise-distinct free clusters exist on the volume.
pub open spec fn spec_three_free(d: Seq<u8>, l: Layout) -> bool {
    exists|a: u32, b: u32, c: u32|
        #![trigger crate::table::fat_entry(d, l, a as int), crate::table::fat_entry(d, l, b as int), crate::table::fat_entry(d, l, c as int)]
        {
            &&& 2 <= a < b && b < c && c < l.spec_cluster_limit()
            &&& crate::table::fat_entry(d, l, a as int) == crate::table::FatValue::Free
            &&& crate::table::fat_entry(d, l, b as int) == crate::table::FatValue::Free
            &&& crate::table::fat_entry(d, l, c as int) == crate::table::FatValue::Free
        }
}

/// Of three distinct free clusters, at least one escapes any two changed
/// entries and is still free afterwards.
pub proof fn lemma_three_free_survives(d0: Seq<u8>, d1: Seq<u8>, l: Layout, x: u32, y: u32)
    requires
        spec_three_free(d0, l),
        forall|c2: u32|
            crate::table::fat_entry_in_range(l, c2 as int) && c2 != x && c2 != y
                && crate::table::fat_entry(d0, l, c2 as int) == crate::table::FatValue::Free
                ==> crate::table::fat_entry(d1, l, c2 as int) == crate::table::FatValue::Free,
        l.fat_entry_end(l.spec_cluster_limit() - 1) <= l.fat_len,
    ensures
        exists|c2: u32|
            l.is_cluster(c2) && #[trigger] crate::table::fat_entry(d1, l, c2 as int)
                == crate::table::FatValue::Free,
{
    let (a, b, c) = choose|a: u32, b: u32, c: u32|
        #![trigger crate::table::fat_entry(d0, l, a as int), crate::table::fat_entry(d0, l, b as int), crate::table::fat_entry(d0, l, c as int)]
        {
            &&& 2 <= a < b && b < c && c < l.spec_cluster_limit()
            &&& crate::table::fat_entry(d0, l, a as int) == crate::table::FatValue::Free
            &&& crate::table::fat_entry(d0, l, b as int) == crate::table::FatValue::Free
            &&& crate::table::fat_entry(d0, l, c as int) == crate::table::FatValue::Free
        };
    let w: u32 = if a != x && a != y {
        a
    } else if b != x && b != y {
        b
    } else {
        c
    };
    crate::table::lemma_entry_end_monotone(l, w as int, l.spec_cluster_limit() - 1);
    assert(crate::table::fat_entry_in_range(l, w as int));
    if w == c {
        assert(a == x || a == y);
        assert(b == x || b == y);
        assert(c != x && c != y);
    }
    assert(l.is_cluster(w) && crate::table::fat_entry(d1, l, w as int)
        == crate::table::FatValue::Free);
}


/// The cluster the parent's chain gained while the child's entry was
/// written, or `dummy` when it gained none.
pub open spec fn spec_parent_growth(
    d: Dir,
    d2: Seq<u8>,
    d3: Seq<u8>,
    l: Layout,
    dummy: u32,
) -> u32 {
    match d.stream {
        DirRawStream::File(f0) => {
            let ch2 = spec_chain(d2, l, f0.first_cluster->0);
            let ch3 = spec_chain(d3, l, f0.first_cluster->0);
            if ch3 == ch2 {
                dummy
            } else {
                ch3.last()
            }
        },
        DirRawStream::Root(_) => dummy,
    }
}

impl Dir {
    /// Validates a found directory entry's chain and opens it as a
    /// directory; a broken chain is reported as `UnexpectedEof`.
    fn open_entry_dir(e: &crate::dir_entry::DirEntry, fs: &FileSystem) -> (r: Result<Dir, Error>)
        requires
            fs.wf(),
            fs.root_wf(),
            e.data.attrs & ATTR_DIRECTORY != 0,
            e.entry_pos + 32 <= fs.disk@.len(),
            fs.layout.fat_offset + fs.layout.fat_len <= e.entry_pos,
            e.short_name.len <= 12,
        ensures
            r is Ok <==> match crate::dir_entry::spec_first_cluster(
                e.data,
                fs.layout.fat_type,
            ) {
                Some(n) => fs.layout.is_cluster(n) && chain_wf(fs.disk@, fs.layout, n),
                None => true,
            },
            match r {
                Ok(d) => {
                    &&& d.wf(*fs)
                    &&& stream_pos(d.stream) == 0
                    &&& match crate::dir_entry::spec_first_cluster(
                        e.data,
                        fs.layout.fat_type,
                    ) {
                        Some(n) => d.stream is File && d.stream->File_0.first_cluster == Some(
                            n,
                        ) && d.stream->File_0.entry == Some(e.editor_spec()),
                        None => d == fs.spec_root_dir(),
                    }
                },
                Err(err) => err == Error::UnexpectedEof,
            },
    {
        match e.first_cluster(fs.fat_type()) {
            Some(c) => {
                match check_chain(fs, c) {
                    Some(_) => {},
                    None => {
                        return Err(Error::UnexpectedEof);
                    },
                }
            },
            None => {},
        }
        proof {
            assert(crate::dir_entry::entry_wf(*e, *fs));
        }
        Ok(e.to_dir(fs))
    }

    /// Validates a found file entry's chain and size and opens it as a
    /// stream; an inconsistent entry is reported as `UnexpectedEof`.
    fn open_entry_file(e: &crate::dir_entry::DirEntry, fs: &FileSystem) -> (r: Result<
        File,
        Error,
    >)
        requires
            fs.wf(),
            e.data.attrs & ATTR_DIRECTORY == 0,
            e.entry_pos + 32 <= fs.disk@.len(),
            fs.layout.fat_offset + fs.layout.fat_len <= e.entry_pos,
            e.short_name.len <= 12,
        ensures
            r is Ok <==> match crate::dir_entry::spec_first_cluster(
                e.data,
                fs.layout.fat_type,
            ) {
                Some(n) => e.data.size != 0 && fs.layout.is_cluster(n) && chain_wf(
                    fs.disk@,
                    fs.layout,
                    n,
                ) && e.data.size <= spec_chain(fs.disk@, fs.layout, n).len()
                    * fs.layout.cluster_size,
                None => e.data.size == 0,
            },
            match r {
                Ok(f) => {
                    &&& f.wf(*fs)
                    &&& f.offset == 0
                    &&& f.current_cluster is None
                    &&& f.entry == Some(e.editor_spec())
                    &&& f.first_cluster == crate::dir_entry::spec_first_cluster(
                        e.data,
                        fs.layout.fat_type,
                    )
                },
                Err(err) => err == Error::UnexpectedEof,
            },
    {
        match e.first_cluster(fs.fat_type()) {
            Some(c) => {
                let len = match check_chain(fs, c) {
                    Some(len) => len,
                    None => {
                        return Err(Error::UnexpectedEof);
                    },
                };
                let cluster_size = fs.cluster_size();
                proof {
                    vstd::arithmetic::mul::lemma_mul_upper_bound(
                        len as int,
                        0xFFFF_FFFF,
                        cluster_size as int,
                        0xFFFF_FFFF,
                    );
                }
                if e.data.size == 0 || !((e.data.size as u64) <= (len as u64) * (
                cluster_size as u64)) {
                    return Err(Error::UnexpectedEof);
                }
                proof {
                    assert((len as int) * (cluster_size as int) == crate::table::spec_chain(
                        fs.disk@,
                        fs.layout,
                        c,
                    ).len() * fs.layout.cluster_size);
                }
            },
            None => {
                if e.data.size != 0 {
                    return Err(Error::UnexpectedEof);
                }
            },
        }
        proof {
            assert(crate::dir_entry::entry_wf(*e, *fs));
        }
        Ok(e.to_file(fs))
    }

    /// Opens the directory the path names, descending case-insensitively
    /// through each component. `NotFound` when a component does not match;
    /// `InvalidInput` when a component names a file; `UnexpectedEof` when
    /// the volume is inconsistent along the way.
    pub fn open_dir(&self, fs: &FileSystem, path: &str) -> (r: Result<Dir, Error>)
        requires
            fs.wf(),
            fs.root_wf(),
            self.wf(*fs),
            stream_pos(self.stream) == 0,
        ensures
            match r {
                Ok(d) => d.wf(*fs) && stream_pos(d.stream) == 0,
                Err(_) => true,
            },
            ({
                let c0 = stream_content(self.stream, *fs);
                let nb = vstd::utf8::encode_utf8(spec_split_path(path@).0);
                let found = spec_find(c0, 0, nb);
                &&& (found is None ==> r == Err::<Dir, Error>(Error::NotFound))
                &&& (found is Some && record_attrs(c0, (found->0).1) & ATTR_DIRECTORY == 0
                    ==> r == Err::<Dir, Error>(Error::InvalidInput))
                &&& (spec_split_path(path@).1 is None && found is Some && record_attrs(
                    c0,
                    (found->0).1,
                ) & ATTR_DIRECTORY != 0 ==> {
                    let fc = record_first_cluster(c0, (found->0).1, fs.layout.fat_type);
                    &&& (r is Ok <==> match fc {
                        Some(n) => fs.layout.is_cluster(n) && chain_wf(fs.disk@, fs.layout, n),
                        None => true,
                    })
                    &&& (r is Ok ==> match fc {
                        Some(n) => r->Ok_0.stream is File
                            && r->Ok_0.stream->File_0.first_cluster == Some(n),
                        None => r->Ok_0 == fs.spec_root_dir(),
                    })
                    &&& (r is Err ==> r->Err_0 == Error::UnexpectedEof)
                })
            }),
        decreases path@.len(),
    {
        let (name, rest_opt) = split_path(path);
        let e = self.find_entry(fs, name)?;
        proof {
            let c0 = stream_content(self.stream, *fs);
            let found = spec_find(c0, 0, name.spec_bytes());
            lemma_find_bounds(c0, 0, name.spec_bytes());
            lemma_record_fields(c0, (found->0).1, e.data);
        }
        if !e.is_dir() {
            return Err(Error::InvalidInput);
        }
        let d = Self::open_entry_dir(&e, fs)?;
        match rest_opt {
            Some(rest) => d.open_dir(fs, rest),
            None => Ok(d),
        }
    }

    /// Opens the file the path names. `NotFound` when a component does not
    /// match; `InvalidInput` when the last component names a directory or
    /// an inner component names a file; `UnexpectedEof` when the volume is
    /// inconsistent along the way.
    pub fn open_file(&self, fs: &FileSystem, path: &str) -> (r: Result<File, Error>)
        requires
            fs.wf(),
            fs.root_wf(),
            self.wf(*fs),
            stream_pos(self.stream) == 0,
        ensures
            match r {
                Ok(f) => f.wf(*fs) && f.offset == 0,
                Err(_) => true,
            },
            ({
                let c0 = stream_content(self.stream, *fs);
                let nb = vstd::utf8::encode_utf8(spec_split_path(path@).0);
                let found = spec_find(c0, 0, nb);
                &&& (found is None ==> r == Err::<File, Error>(Error::NotFound))
                &&& (spec_split_path(path@).1 is None && found is Some ==> {
                    let f = (found->0).1;
                    let fc = record_first_cluster(c0, f, fs.layout.fat_type);
                    let sz = record_size(c0, f);
                    &&& (record_attrs(c0, f) & ATTR_DIRECTORY != 0 ==> r == Err::<
                        File,
                        Error,
                    >(Error::InvalidInput))
                    &&& (record_attrs(c0, f) & ATTR_DIRECTORY == 0 ==> {
                        &&& (r is Ok <==> match fc {
                            Some(n) => sz != 0 && fs.layout.is_cluster(n) && chain_wf(
                                fs.disk@,
                                fs.layout,
                                n,
                            ) && sz <= spec_chain(fs.disk@, fs.layout, n).len()
                                * fs.layout.cluster_size,
                            None => sz == 0,
                        })
                        &&& (r is Ok ==> {
                            &&& r->Ok_0.first_cluster == fc
                            &&& r->Ok_0.current_cluster is None
                            &&& r->Ok_0.entry is Some
                            &&& crate::dir_entry::file_record_parses(
                                c0.subrange(32 * f, 32 * f + 32),
                                r->Ok_0.entry->0.data,
                            )
                            &&& !r->Ok_0.entry->0.dirty
                        })
                        &&& (r is Err ==> r->Err_0 == Error::UnexpectedEof)
                    })
                })
            }),
        decreases path@.len(),
    {
        let (name, rest_opt) = split_path(path);
        let e = self.find_entry(fs, name)?;
        proof {
            let c0 = stream_content(self.stream, *fs);
            let found = spec_find(c0, 0, name.spec_bytes());
            lemma_find_bounds(c0, 0, name.spec_bytes());
            lemma_record_fields(c0, (found->0).1, e.data);
        }
        match rest_opt {
            Some(rest) => {
                if !e.is_dir() {
                    return Err(Error::InvalidInput);
                }
                let d = Self::open_entry_dir(&e, fs)?;
                d.open_file(fs, rest)
            },
            None => {
                if e.is_dir() {
                    return Err(Error::InvalidInput);
                }
                Self::open_entry_file(&e, fs)
            },
        }
    }

    /// Opens the file the path names, creating a fresh empty entry for the
    /// last component when none matches.
    pub fn create_file(&self, fs: &mut FileSystem, path: &str) -> (r: Result<File, Error>)
        requires
            old(fs).wf(),
            old(fs).root_wf(),
            self.wf(*old(fs)),
            stream_pos(self.stream) == 0,
        ensures
            final(fs).layout == old(fs).layout,
            final(fs).wf(),
            final(fs).disk@.len() == old(fs).disk@.len(),
            match r {
                Ok(f) => f.wf(*final(fs)) && f.offset == 0,
                Err(_) => true,
            },
            ({
                let c0 = stream_content(self.stream, *old(fs));
                let nb = vstd::utf8::encode_utf8(spec_split_path(path@).0);
                let found = spec_find(c0, 0, nb);
                &&& (found is None && spec_split_path(path@).1 is Some ==> r == Err::<
                    File,
                    Error,
                >(Error::NotFound))
                &&& (spec_split_path(path@).1 is None && found is None ==> {
                    &&& (r == Err::<File, Error>(Error::InvalidInput)
                        <==> !spec_valid_long_name(
                        spec_split_path(path@).0,
                        nb.len() as usize as int,
                    ))
                    &&& (r is Err ==> final(fs).disk@ == old(fs).disk@ && (r->Err_0
                        == Error::InvalidInput || r->Err_0 == Error::NoSpace || r->Err_0
                        == Error::UnexpectedEof))
                    &&& (r == Err::<File, Error>(Error::NoSpace) ==> forall|c2: int|
                        2 <= c2 < old(fs).layout.spec_cluster_limit()
                            ==> crate::table::fat_entry(old(fs).disk@, old(fs).layout, c2)
                            != crate::table::FatValue::Free)
                    &&& (r == Err::<File, Error>(Error::UnexpectedEof) ==> self.stream is Root
                        && 32 * spec_find_free(c0, 1) == c0.len())
                    &&& (r is Ok ==> {
                        let c1 = stream_content(self.stream, *final(fs));
                        let slot = 32 * spec_find_free(c0, 1);
                        &&& r->Ok_0.first_cluster is None
                        &&& r->Ok_0.spec_size() == Some(0u32)
                        &&& r->Ok_0.entry is Some
                        &&& r->Ok_0.entry->0.data.name@ == spec_generate_short_name(
                            spec_split_path(path@).0,
                        )
                        &&& slot + 32 <= c1.len()
                        &&& c1.subrange(slot, slot + 32)
                            == crate::dir_entry::file_record_bytes(r->Ok_0.entry->0.data)
                        &&& forall|i: int| 0 <= i < slot ==> c1[i] == c0[i]
                        &&& forall|i: int| slot + 32 <= i < c0.len() ==> c1[i] == c0[i]
                        &&& (c1.len() == c0.len() || (slot == c0.len() && c1.len() == c0.len()
                            + old(fs).layout.cluster_size))
                    })
                })
                &&& (spec_split_path(path@).1 is None && found is Some ==> {
                    let f = (found->0).1;
                    &&& (record_attrs(c0, f) & ATTR_DIRECTORY != 0 ==> r == Err::<
                        File,
                        Error,
                    >(Error::InvalidInput) && final(fs).disk@ == old(fs).disk@)
                    &&& (record_attrs(c0, f) & ATTR_DIRECTORY == 0 ==> {
                        let fc = record_first_cluster(c0, f, old(fs).layout.fat_type);
                        let sz = record_size(c0, f);
                        &&& final(fs).disk@ == old(fs).disk@
                        &&& (r is Ok <==> match fc {
                            Some(n) => sz != 0 && old(fs).layout.is_cluster(n) && chain_wf(
                                old(fs).disk@,
                                old(fs).layout,
                                n,
                            ) && sz <= spec_chain(old(fs).disk@, old(fs).layout, n).len()
                                * old(fs).layout.cluster_size,
                            None => sz == 0,
                        })
                        &&& (r is Ok ==> r->Ok_0.first_cluster == fc && r->Ok_0.entry is Some
                            && crate::dir_entry::file_record_parses(
                            c0.subrange(32 * f, 32 * f + 32),
                            r->Ok_0.entry->0.data,
                        ))
                        &&& (r is Err ==> r->Err_0 == Error::UnexpectedEof)
                    })
                })
            }),
        decreases path@.len(),
    {
        let (name, rest_opt) = split_path(path);
        match rest_opt {
            Some(rest) => {
                let e = self.find_entry(fs, name)?;
                if !e.is_dir() {
                    return Err(Error::InvalidInput);
                }
                let d = Self::open_entry_dir(&e, fs)?;
                d.create_file(fs, rest)
            },
            None => {
                proof {
                    assert(0u8 & 0x3F == 0 && 0u8 & 0x0F == 0 && 0u8 & 0x10 == 0)
                        by (bit_vector);
                }
                match self.find_entry(fs, name) {
                    Ok(e) => {
                        proof {
                            let c0 = stream_content(self.stream, *fs);
                            let found = spec_find(c0, 0, name.spec_bytes());
                            lemma_find_bounds(c0, 0, name.spec_bytes());
                            lemma_record_fields(c0, (found->0).1, e.data);
                        }
                        if e.is_dir() {
                            return Err(Error::InvalidInput);
                        }
                        Self::open_entry_file(&e, fs)
                    },
                    Err(Error::NotFound) => {
                        let e = self.create_entry(
                            fs,
                            name,
                            FileAttributes { bits: 0 },
                            None,
                        )?;
                        proof {
                            assert(crate::dir_entry::spec_first_cluster(
                                e.data,
                                fs.layout.fat_type,
                            ) is None);
                            assert(crate::dir_entry::entry_wf(e, *fs));
                        }
                        Ok(e.to_file(fs))
                    },
                    Err(err) => Err(err),
                }
            },
        }
    }

    /// Opens the directory the path names, creating it for the last
    /// component when none matches: a cluster is allocated for the child,
    /// and the child is seeded with its `.` and `..` entries.
    #[verifier::rlimit(100)]
    #[verifier::spinoff_prover]
    pub fn create_dir(&self, fs: &mut FileSystem, path: &str) -> (r: Result<Dir, Error>)
        requires
            old(fs).wf(),
            old(fs).root_wf(),
            self.wf(*old(fs)),
            stream_pos(self.stream) == 0,
        ensures
            final(fs).layout == old(fs).layout,
            final(fs).wf(),
            final(fs).disk@.len() == old(fs).disk@.len(),
            match r {
                Ok(d) => d.wf(*final(fs)) && stream_pos(d.stream) == 0,
                Err(_) => true,
            },
            ({
                let c0 = stream_content(self.stream, *old(fs));
                let nb = vstd::utf8::encode_utf8(spec_split_path(path@).0);
                let found = spec_find(c0, 0, nb);
                &&& (found is None && spec_split_path(path@).1 is Some ==> r == Err::<
                    Dir,
                    Error,
                >(Error::NotFound))
                &&& (found is Some && record_attrs(c0, (found->0).1) & ATTR_DIRECTORY == 0
                    ==> r == Err::<Dir, Error>(Error::InvalidInput) && (spec_split_path(
                    path@,
                ).1 is None ==> final(fs).disk@ == old(fs).disk@))
                &&& (spec_split_path(path@).1 is None ==> {
                    &&& r != Err::<Dir, Error>(Error::NotFound)
                    &&& (found is None ==> {
                        &&& (r == Err::<Dir, Error>(Error::InvalidInput)
                            ==> !spec_valid_long_name(
                            spec_split_path(path@).0,
                            nb.len() as usize as int,
                        ))
                        &&& (r is Err ==> r->Err_0 == Error::InvalidInput || r->Err_0
                            == Error::NoSpace || r->Err_0 == Error::UnexpectedEof)
                        &&& (r == Err::<Dir, Error>(Error::NoSpace) ==> !spec_three_free(
                            old(fs).disk@,
                            old(fs).layout,
                        ))
                        &&& (r == Err::<Dir, Error>(Error::UnexpectedEof) ==> self.stream
                            is Root && 32 * spec_find_free(c0, 1) == c0.len())
                        &&& (r is Ok ==> {
                            let d = r->Ok_0;
                            let cc = stream_content(d.stream, *final(fs));
                            &&& d.stream is File
                            &&& d.stream->File_0.first_cluster is Some
                            &&& d.stream->File_0.entry is Some
                            &&& d.stream->File_0.entry->0.data.attrs == ATTR_DIRECTORY
                            &&& d.stream->File_0.entry->0.data.name@
                                == spec_generate_short_name(spec_split_path(path@).0)
                            &&& 64 <= cc.len()
                            &&& cc.subrange(0, 11) == spec_generate_short_name(seq!['.'])
                            &&& record_attrs(cc, 0) == ATTR_DIRECTORY
                            &&& record_first_cluster(cc, 0, old(fs).layout.fat_type) == Some(
                                d.stream->File_0.first_cluster->0,
                            )
                            &&& cc.subrange(32, 43) == spec_generate_short_name(
                                seq!['.', '.'],
                            )
                            &&& record_attrs(cc, 1) == ATTR_DIRECTORY
                            &&& record_first_cluster(cc, 1, old(fs).layout.fat_type)
                                == stream_first_cluster(self.stream)
                            &&& forall|i: int| 64 <= i < cc.len() ==> cc[i] == 0u8
                        })
                    })
                    &&& (found is Some && record_attrs(c0, (found->0).1) & ATTR_DIRECTORY != 0
                        ==> {
                        let fc = record_first_cluster(
                            c0,
                            (found->0).1,
                            old(fs).layout.fat_type,
                        );
                        &&& final(fs).disk@ == old(fs).disk@
                        &&& (r is Ok <==> match fc {
                            Some(n) => old(fs).layout.is_cluster(n) && chain_wf(
                                old(fs).disk@,
                                old(fs).layout,
                                n,
                            ),
                            None => true,
                        })
                        &&& (r is Ok ==> match fc {
                            Some(n) => r->Ok_0.stream is File
                                && r->Ok_0.stream->File_0.first_cluster == Some(n),
                            None => r->Ok_0 == old(fs).spec_root_dir(),
                        })
                        &&& (r is Err ==> r->Err_0 == Error::UnexpectedEof)
                    })
                })
            }),
        decreases path@.len(),
    {
        let (name, rest_opt) = split_path(path);
        match rest_opt {
            Some(rest) => {
                let e = self.find_entry(fs, name)?;
                proof {
                    let c0 = stream_content(self.stream, *fs);
                    let found = spec_find(c0, 0, name.spec_bytes());
                    lemma_find_bounds(c0, 0, name.spec_bytes());
                    lemma_record_fields(c0, (found->0).1, e.data);
                }
                if !e.is_dir() {
                    return Err(Error::InvalidInput);
                }
                let d = Self::open_entry_dir(&e, fs)?;
                d.create_dir(fs, rest)
            },
            None => {
                proof {
                    assert(0x10u8 & 0x3F == 0x10 && 0x10u8 & 0x0F == 0 && 0x10u8 & 0x10 != 0)
                        by (bit_vector);
                }
                match self.find_entry(fs, name) {
                    Ok(e) => {
                        proof {
                            let c0 = stream_content(self.stream, *fs);
                            let found = spec_find(c0, 0, name.spec_bytes());
                            lemma_find_bounds(c0, 0, name.spec_bytes());
                            lemma_record_fields(c0, (found->0).1, e.data);
                        }
                        if !e.is_dir() {
                            return Err(Error::InvalidInput);
                        }
                        Self::open_entry_dir(&e, fs)
                    },
                    Err(Error::NotFound) => self.create_dir_fresh(fs, name),
                    Err(err) => Err(err),
                }
            },
        }
    }
}


/// The slots a find names stay within the directory.
pub proof fn lemma_find_bounds(s: Seq<u8>, k: int, name: Seq<u8>)
    requires
        0 <= k,
        spec_find(s, k, name) is Some,
    ensures
        0 <= (spec_find(s, k, name)->0).0 <= (spec_find(s, k, name)->0).1,
        32 * ((spec_find(s, k, name)->0).1 + 1) <= s.len(),
    decreases s.len() - 32 * k,
{
    match spec_scan(s, k, k) {
        None => {},
        Some((b, f)) => {
            lemma_scan_bounds(s, k, k);
            if record_matches(s, f, name) {
            } else {
                let k2 = if f + 1 > k + 1 {
                    f + 1
                } else {
                    k + 1
                };
                if 32 * k2 <= s.len() {
                    lemma_find_bounds(s, k2, name);
                }
            }
        },
    }
}


/// No element of `a` occurs in `b`.
pub open spec fn seqs_disjoint(a: Seq<u32>, b: Seq<u32>) -> bool {
    forall|i: int, j: int| 0 <= i < a.len() && 0 <= j < b.len() ==> a[i] != b[j]
}

/// A chain survives a volume change that rewrites only the FAT entries of
/// the clusters in `tch`, none of which the chain visits: releasing an
/// unrelated chain does exactly this.
pub proof fn lemma_chain_survives_release(
    d0: Seq<u8>,
    d1: Seq<u8>,
    l: Layout,
    c0: u32,
    tch: Seq<u32>,
)
    requires
        l.wf(d0.len() as int),
        l.is_cluster(c0),
        chain_wf(d0, l, c0),
        d1.len() == d0.len(),
        forall|c2: u32|
            crate::table::fat_entry_in_range(l, c2 as int) && !tch.contains(c2)
                ==> crate::table::fat_raw(d1, l, c2 as int) == crate::table::fat_raw(
                d0,
                l,
                c2 as int,
            ),
        seqs_disjoint(spec_chain(d0, l, c0), tch),
    ensures
        spec_chain(d1, l, c0) == spec_chain(d0, l, c0),
        chain_wf(d1, l, c0),
{
    let fuel = (l.total_clusters + 1) as nat;
    let ch = spec_chain(d0, l, c0);
    crate::table::lemma_chain_shape(d0, l, c0, fuel);
    assert forall|i: int| 0 <= i < ch.len() implies crate::table::fat_entry(
        d1,
        l,
        #[trigger] ch[i] as int,
    ) == crate::table::fat_entry(d0, l, ch[i] as int) by {
        crate::table::lemma_entry_end_monotone(l, ch[i] as int, l.spec_cluster_limit() - 1);
        assert(crate::table::fat_entry_in_range(l, ch[i] as int));
        assert(!tch.contains(ch[i])) by {
            if tch.contains(ch[i]) {
                let j = choose|j: int| 0 <= j < tch.len() && tch[j] == ch[i];
            }
        }
    }
    crate::table::lemma_chain_congruent(d0, d1, l, c0, fuel);
}

/// The bytes of the directory that an entry's first cluster heads.
pub open spec fn spec_child_content(fs: FileSystem, n: u32) -> Seq<u8> {
    chain_content(fs.disk@, fs.layout, spec_chain(fs.disk@, fs.layout, n))
}

/// The condition under which `remove` owes success on the entry in slot
/// `f`: the entry's chain exists and is well formed, for a chain-backed
/// parent it shares no cluster with the parent's own chain, and a
/// directory target holds nothing besides its dot links.
pub open spec fn spec_remove_ok(d: Dir, fs: FileSystem, f: int) -> bool {
    let c0 = stream_content(d.stream, fs);
    match record_first_cluster(c0, f, fs.layout.fat_type) {
        Some(n) => {
            &&& fs.layout.is_cluster(n)
            &&& chain_wf(fs.disk@, fs.layout, n)
            &&& (d.stream is File ==> seqs_disjoint(
                spec_chain(fs.disk@, fs.layout, d.stream->File_0.first_cluster->0),
                spec_chain(fs.disk@, fs.layout, n),
            ))
            &&& (record_attrs(c0, f) & ATTR_DIRECTORY != 0 ==> spec_dir_is_empty(
                spec_child_content(fs, n),
                0,
            ))
        },
        None => record_attrs(c0, f) & ATTR_DIRECTORY == 0,
    }
}


/// A chain's bytes are untouched by a volume change confined to the FAT
/// region.
pub proof fn lemma_chain_content_outside_fat(d0: Seq<u8>, d1: Seq<u8>, l: Layout, ch: Seq<u32>)
    requires
        d1.len() == d0.len(),
        1 <= l.cluster_size,
        l.fat_offset + l.fat_len <= l.data_offset,
        forall|i: int| 0 <= i < ch.len() ==> l.is_cluster(#[trigger] ch[i]),
        forall|i: int|
            0 <= i < d0.len() && !(l.fat_offset <= i < l.fat_offset + l.fat_len) ==> d1[i]
                == d0[i],
        forall|i: int| 0 <= i < ch.len() ==> l.spec_cluster_pos(#[trigger] ch[i] as int)
            + l.cluster_size <= d0.len(),
    ensures
        chain_content(d1, l, ch) == chain_content(d0, l, ch),
{
    let cs = l.cluster_size as int;
    assert forall|i: int| 0 <= i < chain_content(d0, l, ch).len() implies chain_content(
        d1,
        l,
        ch,
    )[i] == chain_content(d0, l, ch)[i] by {
        let q = i / cs;
        lemma_fundamental_div_mod(i, cs);
        assert(0 <= q < ch.len()) by {
            lemma_mul_nonnegative(ch.len() as int, cs);
            if q < 0 {
                assert(cs * q + i % cs < 0) by (nonlinear_arith)
                    requires
                        q <= -1,
                        0 <= i % cs < cs,
                        cs >= 1,
                ;
            }
            if q >= ch.len() {
                assert(cs * q + i % cs >= ch.len() * cs) by (nonlinear_arith)
                    requires
                        q >= ch.len() as int,
                        0 <= i % cs,
                        cs >= 1,
                ;
            }
        }
        lemma_mul_nonnegative(ch[q] - 2, cs);
    }
    assert(chain_content(d1, l, ch) =~= chain_content(d0, l, ch));
}


impl Dir {
    /// Creates a fresh directory entry under `name`: allocates and blanks
    /// one cluster for the child, enters the child in this directory, and
    /// seeds the child with its `.` and `..` records. `InvalidInput` only
    /// on an illegal name; `NoSpace` only when fewer than three clusters
    /// were free; `UnexpectedEof` only when this directory is a full fixed
    /// root region.
    #[verifier::rlimit(100)]
    #[verifier::spinoff_prover]
    fn create_dir_fresh(&self, fs: &mut FileSystem, name: &str) -> (r: Result<Dir, Error>)
        requires
            old(fs).wf(),
            old(fs).root_wf(),
            self.wf(*old(fs)),
            stream_pos(self.stream) == 0,
        ensures
            final(fs).layout == old(fs).layout,
            final(fs).wf(),
            final(fs).disk@.len() == old(fs).disk@.len(),
            r != Err::<Dir, Error>(Error::NotFound),
            r is Err ==> r->Err_0 == Error::InvalidInput || r->Err_0 == Error::NoSpace
                || r->Err_0 == Error::UnexpectedEof,
            r == Err::<Dir, Error>(Error::InvalidInput) ==> !spec_valid_long_name(
                name@,
                name.len() as int,
            ),
            r == Err::<Dir, Error>(Error::NoSpace) ==> !spec_three_free(
                old(fs).disk@,
                old(fs).layout,
            ),
            r == Err::<Dir, Error>(Error::UnexpectedEof) ==> self.stream is Root && 32
                * spec_find_free(stream_content(self.stream, *old(fs)), 1) == stream_content(
                self.stream,
                *old(fs),
            ).len(),
            r is Ok ==> {
                let d = r->Ok_0;
                let cc = stream_content(d.stream, *final(fs));
                &&& d.wf(*final(fs))
                &&& stream_pos(d.stream) == 0
                &&& d.stream is File
                &&& d.stream->File_0.first_cluster is Some
                &&& d.stream->File_0.entry is Some
                &&& d.stream->File_0.entry->0.data.attrs == ATTR_DIRECTORY
                &&& d.stream->File_0.entry->0.data.name@ == spec_generate_short_name(name@)
                &&& 64 <= cc.len()
                &&& cc.subrange(0, 11) == spec_generate_short_name(seq!['.'])
                &&& record_attrs(cc, 0) == ATTR_DIRECTORY
                &&& record_first_cluster(cc, 0, old(fs).layout.fat_type) == Some(
                    d.stream->File_0.first_cluster->0,
                )
                &&& cc.subrange(32, 43) == spec_generate_short_name(seq!['.', '.'])
                &&& record_attrs(cc, 1) == ATTR_DIRECTORY
                &&& record_first_cluster(cc, 1, old(fs).layout.fat_type)
                    == stream_first_cluster(self.stream)
                &&& forall|i: int| 64 <= i < cc.len() ==> cc[i] == 0u8
            },
    {
        proof {
            assert(0x10u8 & 0x3F == 0x10 && 0x10u8 & 0x0F == 0 && 0x10u8 & 0x10 != 0)
                by (bit_vector);
        }
        // Allocate the child's data cluster and enter it in this
        // directory.
        let ghost fs0 = *fs;
        let ghost l0 = fs.layout;
        let cluster = match crate::table::alloc_cluster(fs, None) {
            Ok(n) => n,
            Err(err) => {
                proof {
                    if spec_three_free(fs0.disk@, l0) {
                        let (a, b, cw) = choose|a: u32, b: u32, cw: u32|
                            #![trigger crate::table::fat_entry(fs0.disk@, l0, a as int), crate::table::fat_entry(fs0.disk@, l0, b as int), crate::table::fat_entry(fs0.disk@, l0, cw as int)]
                            {
                                &&& 2 <= a < b && b < cw && cw
                                    < l0.spec_cluster_limit()
                                &&& crate::table::fat_entry(
                                    fs0.disk@,
                                    l0,
                                    a as int,
                                ) == crate::table::FatValue::Free
                                &&& crate::table::fat_entry(
                                    fs0.disk@,
                                    l0,
                                    b as int,
                                ) == crate::table::FatValue::Free
                                &&& crate::table::fat_entry(
                                    fs0.disk@,
                                    l0,
                                    cw as int,
                                ) == crate::table::FatValue::Free
                            };
                        assert(false);
                    }
                }
                return Err(err);
            },
        };
        let ghost d_alloc = fs.disk@;
        // A directory's data must read as empty records
        // from the start.
        let zero_pos = fs.offset_from_cluster(cluster);
        let cluster_size = fs.cluster_size();
        crate::codec::zero_bytes_at(&mut fs.disk, zero_pos, cluster_size as usize);
        proof {
            // The parent's chain only ever saw free entries
            // change: the allocation touched one entry that
            // was free, the zero-fill no FAT byte at all.
            crate::file::lemma_cluster_pos_bounds(*fs, cluster);
            crate::table::lemma_fat_region_unchanged(d_alloc, fs.disk@, l0);
            match self.stream {
                DirRawStream::File(f0) => {
                    lemma_chain_survives_alloc(
                        fs0.disk@,
                        fs.disk@,
                        fs.layout,
                        f0.first_cluster->0,
                    );
                },
                DirRawStream::Root(_) => {},
            }
            crate::table::lemma_cluster_entry_in_range(*fs, cluster);
            assert(crate::table::fat_entry(fs.disk@, l0, cluster as int)
                == crate::table::FatValue::EndOfChain);
            // The parent's own window or chain never holds
            // the child's fresh cluster.
            match self.stream {
                DirRawStream::File(f0) => {
                    let pch = spec_chain(fs0.disk@, l0, f0.first_cluster->0);
                    crate::table::lemma_chain_shape(
                        fs0.disk@,
                        l0,
                        f0.first_cluster->0,
                        (l0.total_clusters + 1) as nat,
                    );
                    assert forall|k: int|
                        0 <= k < pch.len() implies #[trigger] pch[k]
                        != cluster by {
                        if k < pch.len() - 1 {
                            assert(crate::table::fat_entry(
                                fs0.disk@,
                                l0,
                                pch[k] as int,
                            ) is Data);
                        } else {
                            assert(crate::table::fat_entry(
                                fs0.disk@,
                                l0,
                                pch[k] as int,
                            ) == crate::table::FatValue::EndOfChain);
                        }
                    }
                },
                DirRawStream::Root(_) => {},
            }
        }
        let ghost d2 = fs.disk@;
        let e = match self.create_entry(
            fs,
            name,
            FileAttributes { bits: ATTR_DIRECTORY },
            Some(cluster),
        ) {
            Ok(e) => e,
            Err(err) => {
                proof {
                    // The volume is unchanged; a full
                    // volume here leaves at most the one
                    // consumed cluster free of the old
                    // state's frees.
                    if err == Error::NoSpace && spec_three_free(
                        fs0.disk@,
                        l0,
                    ) {
                        lemma_three_free_survives(
                            fs0.disk@,
                            d2,
                            l0,
                            cluster,
                            cluster,
                        );
                        assert(false);
                    }
                    if err == Error::UnexpectedEof {
                        // A fixed root region's bytes were
                        // untouched by the allocation and
                        // the zero-fill.
                        match self.stream {
                            DirRawStream::Root(sl) => {
                                assert(stream_content(self.stream, fs0)
                                    =~= stream_content(
                                    self.stream,
                                    FileSystem { disk: fs.disk, layout: l0 },
                                ));
                            },
                            DirRawStream::File(_) => {},
                        }
                    }
                }
                return Err(err);
            },
        };
        let ghost d3 = fs.disk@;
        let ghost pgrow = spec_parent_growth(*self, d2, d3, l0, cluster);
        proof {
            // The parent's bookkeeping kept out of the
            // child's cluster: its entry still ends the
            // chain and its data is still blank.
            let cs = l0.cluster_size as int;
            let zp = l0.spec_cluster_pos(cluster as int);
            // The child's FAT entry is preserved whether or
            // not the parent's chain grew.
            match self.stream {
                DirRawStream::File(f0) => {
                    let pfc = f0.first_cluster->0;
                    let ch2 = spec_chain(d2, l0, pfc);
                    let ch3 = spec_chain(d3, l0, pfc);
                    if ch3 == ch2 {
                        assert(crate::table::fat_raw(d3, l0, cluster as int)
                            == crate::table::fat_raw(d2, l0, cluster as int))
                            by {
                            if stream_content(self.stream, *fs).len()
                                != stream_content(self.stream, fs0).len() {
                                assert(false);
                            }
                        }
                    } else {
                        assert(ch3.last() != cluster);
                        assert(!ch2.contains(cluster)) by {
                            if ch2.contains(cluster) {
                                let k = choose|k: int|
                                    0 <= k < ch2.len() && ch2[k] == cluster;
                            }
                        }
                        assert(crate::table::fat_raw(d3, l0, cluster as int)
                            == crate::table::fat_raw(d2, l0, cluster as int));
                    }
                },
                DirRawStream::Root(_) => {
                    assert(crate::table::fat_raw(d3, l0, cluster as int)
                        == crate::table::fat_raw(d2, l0, cluster as int));
                },
            }
            assert(crate::table::fat_entry(d3, l0, cluster as int)
                == crate::table::FatValue::EndOfChain);
            // Its data bytes were outside every region the
            // parent may touch.
            assert forall|i: int| zp <= i < zp + cs implies d3[i] == d2[i] by {
                assert(l0.fat_offset + l0.fat_len <= l0.data_offset);
                assert(!stream_owns(
                    self.stream,
                    FileSystem { disk: fs.disk, layout: l0 },
                    i,
                )) by {
                    match self.stream {
                        DirRawStream::Root(sl) => {},
                        DirRawStream::File(f0) => {
                            let pfc = f0.first_cluster->0;
                            let ch3 = spec_chain(d3, l0, pfc);
                            let ch2 = spec_chain(d2, l0, pfc);
                            assert forall|k: int|
                                0 <= k < ch3.len() implies !(
                            l0.spec_cluster_pos(#[trigger] ch3[k] as int) <= i
                                < l0.spec_cluster_pos(ch3[k] as int)
                                + l0.cluster_size) by {
                                assert(ch3[k] != cluster) by {
                                    if ch3 == ch2 {
                                    } else {
                                        if k < ch3.len() - 1 {
                                            assert(ch3[k] == ch2[k]);
                                        }
                                    }
                                }
                                assert(l0.is_cluster(ch3[k]));
                                lemma_cluster_regions_disjoint(
                                    l0,
                                    ch3[k],
                                    cluster,
                                );
                            }
                        },
                    }
                }
            }
            // So the child is still the blank one-cluster
            // chain it was made as.
            assert(spec_chain(d3, l0, cluster) =~= seq![cluster]);
            assert(chain_wf(d3, l0, cluster));
        }
        proof {
            assert(crate::dir_entry::entry_wf(e, *fs));
        }
        let dir = e.to_dir(fs);
        let self_cluster = e.first_cluster(fs.fat_type());
        let parent_cluster = self.stream.first_cluster();
        proof {
            match self.stream {
                DirRawStream::File(f0) => {
                    assert(fs.layout.is_cluster(f0.first_cluster->0));
                },
                DirRawStream::Root(_) => {},
            }
        }
        let parent_cluster = self.stream.first_cluster();
        proof {
            match self.stream {
                DirRawStream::File(f0) => {
                    assert(fs.layout.is_cluster(f0.first_cluster->0));
                },
                DirRawStream::Root(_) => {},
            }
            // The child's whole cluster still reads blank.
            let cs = l0.cluster_size as int;
            let zp = l0.spec_cluster_pos(cluster as int);
            let cc3 = chain_content(fs.disk@, l0, spec_chain(fs.disk@, l0, cluster));
            assert(cc3.len() == cs);
            assert forall|i: int| 0 <= i < cc3.len() implies cc3[i] == 0u8 by {
                lemma_fundamental_div_mod_converse(i, cs, 0, i);
                assert(spec_chain(fs.disk@, l0, cluster)[0] == cluster);
                assert(fs.disk@[zp + i] == d2[zp + i]);
            }
        }
        let ghost d_seed = fs.disk@;
        match Self::seed_dot_entries(&e, fs, cluster, parent_cluster) {
            Ok(d) => Ok(d),
            Err(err) => {
                proof {
                    assert(err == Error::NoSpace);
                    if spec_three_free(fs0.disk@, l0) {
                        lemma_three_free_survives(fs0.disk@, d_seed, l0, cluster, pgrow);
                        assert(false);
                    }
                }
                Err(err)
            },
        }
    }

    /// Seeds a fresh directory with its `.` and `..` records: the child is
    /// a blank one-cluster chain, and afterwards its first two records are
    /// the dot links while everything beyond reads blank. Fails only with
    /// `NoSpace`, and only when no cluster at all was free.
    #[verifier::rlimit(100)]
    #[verifier::spinoff_prover]
    fn seed_dot_entries(
        e: &crate::dir_entry::DirEntry,
        fs: &mut FileSystem,
        cluster: u32,
        parent_first: Option<u32>,
    ) -> (r: Result<Dir, Error>)
        requires
            old(fs).wf(),
            e.data.attrs == ATTR_DIRECTORY,
            crate::dir_entry::spec_first_cluster(e.data, old(fs).layout.fat_type) == Some(
                cluster,
            ),
            e.entry_pos + 32 <= old(fs).disk@.len(),
            old(fs).layout.fat_offset + old(fs).layout.fat_len <= e.entry_pos,
            e.short_name.len <= 12,
            old(fs).layout.is_cluster(cluster),
            spec_chain(old(fs).disk@, old(fs).layout, cluster) == seq![cluster],
            chain_wf(old(fs).disk@, old(fs).layout, cluster),
            forall|i: int|
                0 <= i < chain_content(
                    old(fs).disk@,
                    old(fs).layout,
                    spec_chain(old(fs).disk@, old(fs).layout, cluster),
                ).len() ==> chain_content(
                    old(fs).disk@,
                    old(fs).layout,
                    spec_chain(old(fs).disk@, old(fs).layout, cluster),
                )[i] == 0u8,
            match parent_first {
                Some(p) => old(fs).layout.is_cluster(p) && (old(fs).layout.fat_type is Fat32
                    || p <= 0xFFFF),
                None => true,
            },
        ensures
            final(fs).layout == old(fs).layout,
            final(fs).wf(),
            final(fs).disk@.len() == old(fs).disk@.len(),
            r is Err ==> r->Err_0 == Error::NoSpace && (forall|c2: int|
                2 <= c2 < old(fs).layout.spec_cluster_limit() ==> crate::table::fat_entry(
                    old(fs).disk@,
                    old(fs).layout,
                    c2,
                ) != crate::table::FatValue::Free),
            r is Ok ==> {
                let d = r->Ok_0;
                let cc = stream_content(d.stream, *final(fs));
                &&& d.wf(*final(fs))
                &&& stream_pos(d.stream) == 0
                &&& d.stream is File
                &&& d.stream->File_0.first_cluster == Some(cluster)
                &&& d.stream->File_0.entry == Some(e.editor_spec())
                &&& 64 <= cc.len()
                &&& cc.subrange(0, 11) == spec_generate_short_name(seq!['.'])
                &&& record_attrs(cc, 0) == ATTR_DIRECTORY
                &&& record_first_cluster(cc, 0, old(fs).layout.fat_type) == Some(cluster)
                &&& cc.subrange(32, 43) == spec_generate_short_name(seq!['.', '.'])
                &&& record_attrs(cc, 1) == ATTR_DIRECTORY
                &&& record_first_cluster(cc, 1, old(fs).layout.fat_type) == parent_first
                &&& forall|i: int| 64 <= i < cc.len() ==> cc[i] == 0u8
            },
    {
        let ghost l0 = fs.layout;
        let ghost d3 = fs.disk@;
        proof {
            assert(0x10u8 & 0x3F == 0x10 && 0x10u8 & 0x0F == 0 && 0x10u8 & 0x10 != 0)
                by (bit_vector);
            assert(crate::dir_entry::entry_wf(*e, *fs));
        }
        let dir = e.to_dir(fs);
        let self_cluster = e.first_cluster(fs.fat_type());
        proof {
            // The dot links carry legal names, so entering them cannot be
            // an input error; and the blank child puts the first record in
            // slot 0.
            reveal_strlit(".");
            reveal_strlit("..");
            vstd::string::is_ascii_spec_bytes(".");
            vstd::string::is_ascii_spec_bytes("..");
            assert(spec_valid_long_name("."@, ".".len() as int));
            assert(spec_valid_long_name(".."@, "..".len() as int));
            assert("."@ =~= seq!['.'] && ".."@ =~= seq!['.', '.']);
            // The child's content is one blank cluster.
            let cs = l0.cluster_size as int;
            let zp = l0.spec_cluster_pos(cluster as int);
            let cc3 = stream_content(dir.stream, *fs);
            assert(cc3.len() == cs) by {
                assert(spec_chain(d3, l0, cluster).len() == 1);
            }
            assert forall|i: int| 0 <= i < cc3.len() implies cc3[i] == 0u8 by {
                lemma_fundamental_div_mod_converse(i, cs, 0, i);
                assert(spec_chain(d3, l0, cluster)[0] == cluster);
                assert(cc3[i] == d3[zp + i]);
            }
            assert(cc3[0] == 0);
            assert(spec_find_free(cc3, 1) == 0);
        }
        let dot = match dir.create_entry(
            fs,
            ".",
            FileAttributes { bits: ATTR_DIRECTORY },
            self_cluster,
        ) {
            Ok(x) => x,
            Err(err) => {
                proof {
                    assert(err == Error::NoSpace);
                }
                return Err(err);
            },
        };
        let ghost d4 = fs.disk@;
        proof {
            // The first dot record fits the blank cluster, so neither the
            // chain nor the FAT moved.
            let cs = l0.cluster_size as int;
            let cc3 = chain_content(d3, l0, spec_chain(d3, l0, cluster));
            assert(stream_content(dir.stream, *fs).len() == cs) by {
                if stream_content(dir.stream, *fs).len() != cs {
                    // Growth happens only at the very end
                    // of the content, not at slot 0.
                    assert(32 * spec_find_free(cc3, 1) == cs);
                    assert(false);
                }
            }
            assert(forall|i: int|
                l0.fat_offset <= i < l0.fat_offset + l0.fat_len ==> d4[i]
                    == d3[i]);
            crate::table::lemma_fat_region_unchanged(d3, d4, l0);
            crate::table::lemma_cluster_entry_in_range(*fs, cluster);
            assert(spec_chain(d4, l0, cluster) =~= seq![cluster]);
            assert(chain_wf(d4, l0, cluster));
            assert(crate::dir_entry::entry_wf(*e, *fs));
        }
        let dir2 = e.to_dir(fs);
        let dotdot = match dir2.create_entry(
            fs,
            "..",
            FileAttributes { bits: ATTR_DIRECTORY },
            parent_first,
        ) {
            Ok(x) => x,
            Err(err) => {
                proof {
                    assert(err == Error::NoSpace);
                    // The first record moved no FAT entry, so a full
                    // volume now was full at entry too.
                    assert forall|c2: int|
                        2 <= c2 < l0.spec_cluster_limit() implies crate::table::fat_entry(
                        d3,
                        l0,
                        c2,
                    ) != crate::table::FatValue::Free by {
                        crate::table::lemma_entry_end_monotone(
                            l0,
                            c2,
                            l0.spec_cluster_limit() - 1,
                        );
                        assert(crate::table::fat_entry(d4, l0, c2) != crate::table::FatValue::Free);
                    }
                }
                return Err(err);
            },
        };
        proof {
            assert(crate::dir_entry::entry_wf(*e, *fs));
        }
        let dir3 = e.to_dir(fs);
        proof {
            // Assemble the child's final content: the two dot records in
            // the first two slots, blank records everywhere after.
            let cs = l0.cluster_size as int;
            let cc3 = chain_content(d3, l0, spec_chain(d3, l0, cluster));
            let cc4 = chain_content(d4, l0, spec_chain(d4, l0, cluster));
            let cc5 = stream_content(dir3.stream, *fs);
            assert(cc4.len() == cs);
            assert(cc4.subrange(0, 32) == crate::dir_entry::file_record_bytes(
                dot.data,
            ));
            assert(forall|i: int| 32 <= i < cs ==> cc4[i] == cc3[i]);
            assert(forall|i: int| 0 <= i < cs ==> cc3[i] == 0u8);
            // The second record lands in slot 1.
            assert(cc4[0] == crate::dir_entry::file_record_bytes(dot.data)[0])
                by {
                assert(cc4.subrange(0, 32)[0] == cc4[0]);
            }
            assert(crate::dir_entry::file_record_bytes(dot.data)[0]
                == dot.data.name@[0]);
            assert(dot.data.name@ == spec_generate_short_name(seq!['.']));
            assert(spec_generate_short_name(seq!['.'])[0] == 0x2E);
            assert(cc4[0] == 0x2E);
            assert(spec_find_free(cc4, 1) == 1) by {
                assert(cc4[0] != 0 && cc4[0] != DIR_ENTRY_FREE_FLAG);
                assert(spec_find_free_from(cc4, 0, 0, 0, 1) == spec_find_free_from(
                    cc4,
                    1,
                    0,
                    0,
                    1,
                ));
                if 64 <= cc4.len() {
                    assert(cc4[32] == 0);
                }
                assert(spec_find_free_from(cc4, 1, 0, 0, 1) == 1);
            }
            assert(cc5 == stream_content(dir2.stream, *fs));
            // Slot contents of the final child.
            assert(cc5.subrange(32, 64) == crate::dir_entry::file_record_bytes(
                dotdot.data,
            ));
            assert(forall|i: int| 0 <= i < 32 ==> cc5[i] == cc4[i]);
            assert(cc5.subrange(0, 32) =~= cc4.subrange(0, 32));
            assert(64 <= cc5.len());
            assert forall|i: int| 64 <= i < cc5.len() implies cc5[i] == 0u8 by {
                if cc5.len() == cc4.len() {
                    assert(cc5[i] == cc4[i]);
                } else {
                    assert(32 * spec_find_free(cc4, 1) == cc4.len());
                }
            }
            // Field-level readings of the two records.
            assert(0x10u8 & 0x3F == 0x10 && 0x10u8 & 0x0F == 0)
                by (bit_vector);
            crate::dir_entry::lemma_file_record_roundtrip(dot.data);
            crate::dir_entry::lemma_file_record_roundtrip(dotdot.data);
            assert(cc5.subrange(0, 32) == crate::dir_entry::file_record_bytes(
                dot.data,
            ));
            lemma_record_fields(cc5, 0, dot.data);
            lemma_record_fields(cc5, 1, dotdot.data);
            assert(cc5.subrange(0, 11) =~= dot.data.name@) by {
                assert(forall|i: int|
                    0 <= i < 11 ==> cc5.subrange(0, 32)[i] == #[trigger] cc5[i]);
                assert(forall|i: int|
                    0 <= i < 11 ==> crate::dir_entry::file_record_bytes(
                        dot.data,
                    )[i] == #[trigger] dot.data.name@[i]);
            }
            assert(cc5.subrange(32, 43) =~= dotdot.data.name@) by {
                assert(forall|i: int|
                    0 <= i < 11 ==> cc5.subrange(32, 64)[i] == #[trigger] cc5[32
                        + i]);
                assert(forall|i: int|
                    0 <= i < 11 ==> crate::dir_entry::file_record_bytes(
                        dotdot.data,
                    )[i] == #[trigger] dotdot.data.name@[i]);
            }
        }
        Ok(dir3)
    }
}

impl Dir {
    /// Removes the file or directory the path names: a directory must hold
    /// nothing besides `.` and `..`, else `DirectoryNotEmpty`; the entry's
    /// cluster chain is released and every record of the entry's range is
    /// marked free. For a path of one component, every 32-byte slot of the
    /// removed entry's range afterwards starts with the free marker.
    #[verifier::rlimit(100)]
    #[verifier::spinoff_prover]
    pub fn remove(&self, fs: &mut FileSystem, path: &str) -> (r: Result<(), Error>)
        requires
            old(fs).wf(),
            old(fs).root_wf(),
            self.wf(*old(fs)),
            stream_pos(self.stream) == 0,
        ensures
            final(fs).layout == old(fs).layout,
            final(fs).wf(),
            final(fs).disk@.len() == old(fs).disk@.len(),
            r is Ok && spec_split_path(path@).1 is None ==> match spec_find(
                stream_content(self.stream, *old(fs)),
                0,
                vstd::utf8::encode_utf8(spec_split_path(path@).0),
            ) {
                Some((b, f)) => forall|k: int|
                    b <= k < f + 1 ==> #[trigger] stream_content(self.stream, *final(fs))[32
                        * k] == DIR_ENTRY_FREE_FLAG,
                None => true,
            },
            ({
                let c0 = stream_content(self.stream, *old(fs));
                let nb = vstd::utf8::encode_utf8(spec_split_path(path@).0);
                let found = spec_find(c0, 0, nb);
                &&& (found is None ==> r == Err::<(), Error>(Error::NotFound))
                &&& (spec_split_path(path@).1 is None ==> {
                    &&& (r == Err::<(), Error>(Error::NotFound) ==> found is None)
                    &&& (r is Err ==> r->Err_0 == Error::NotFound || r->Err_0
                        == Error::DirectoryNotEmpty || r->Err_0 == Error::UnexpectedEof)
                    &&& (r == Err::<(), Error>(Error::NotFound) || r == Err::<(), Error>(
                        Error::DirectoryNotEmpty,
                    ) ==> final(fs).disk@ == old(fs).disk@)
                    &&& (found is Some ==> {
                        let f = (found->0).1;
                        let fc = record_first_cluster(c0, f, old(fs).layout.fat_type);
                        &&& (r == Err::<(), Error>(Error::DirectoryNotEmpty) ==> record_attrs(
                            c0,
                            f,
                        ) & ATTR_DIRECTORY != 0 && (fc is Some ==> !spec_dir_is_empty(
                            spec_child_content(*old(fs), fc->0),
                            0,
                        )))
                        &&& (record_attrs(c0, f) & ATTR_DIRECTORY != 0 && fc is Some && old(
                            fs,
                        ).layout.is_cluster(fc->0) && chain_wf(
                            old(fs).disk@,
                            old(fs).layout,
                            fc->0,
                        ) && !spec_dir_is_empty(spec_child_content(*old(fs), fc->0), 0)
                            ==> r == Err::<(), Error>(Error::DirectoryNotEmpty))
                        &&& (r is Ok && fc is Some ==> {
                            let tch = spec_chain(old(fs).disk@, old(fs).layout, fc->0);
                            &&& forall|i: int|
                                0 <= i < tch.len() ==> crate::table::fat_entry(
                                    final(fs).disk@,
                                    old(fs).layout,
                                    #[trigger] tch[i] as int,
                                ) == crate::table::FatValue::Free
                            &&& forall|c2: u32|
                                crate::table::fat_entry_in_range(old(fs).layout, c2 as int)
                                    && !tch.contains(c2) ==> crate::table::fat_entry(
                                    final(fs).disk@,
                                    old(fs).layout,
                                    c2 as int,
                                ) == crate::table::fat_entry(
                                    old(fs).disk@,
                                    old(fs).layout,
                                    c2 as int,
                                )
                        })
                        &&& (r is Ok && fc is None ==> forall|c2: u32|
                            crate::table::fat_entry_in_range(old(fs).layout, c2 as int)
                                ==> crate::table::fat_entry(
                                final(fs).disk@,
                                old(fs).layout,
                                c2 as int,
                            ) == crate::table::fat_entry(old(fs).disk@, old(fs).layout, c2 as int))
                        &&& (spec_remove_ok(*self, *old(fs), f) ==> {
                            let b = (found->0).0;
                            let c1 = stream_content(self.stream, *final(fs));
                            &&& c1.len() == c0.len()
                            &&& forall|i: int|
                                0 <= i < c0.len() && !(32 * b <= i < 32 * (f + 1))
                                    ==> c1[i] == c0[i]
                        })
                        &&& (spec_remove_ok(*self, *old(fs), f) ==> r is Ok)
                    })
                })
            }),
        decreases path@.len(),
    {
        let (name, rest_opt) = split_path(path);
        let e = self.find_entry(fs, name)?;
        match rest_opt {
            Some(rest) => {
                if !e.is_dir() {
                    return Err(Error::InvalidInput);
                }
                let d = Self::open_entry_dir(&e, fs)?;
                d.remove(fs, rest)
            },
            None => {
                let ghost content0 = stream_content(self.stream, *fs);
                let ghost nb = name.spec_bytes();
                let ghost fslot = (spec_find(content0, 0, nb)->0).1;
                proof {
                    lemma_find_bounds(content0, 0, nb);
                    lemma_record_fields(content0, fslot, e.data);
                }
                // A directory must be empty but for its dot entries.
                if e.is_dir() {
                    let d = Self::open_entry_dir(&e, fs)?;
                    let empty = match d.is_empty(fs) {
                        Ok(b) => b,
                        Err(err) => {
                            return Err(err);
                        },
                    };
                    if !empty {
                        return Err(Error::DirectoryNotEmpty);
                    }
                }
                // Release the entry's chain.
                let ghost mut tch_freed: Option<Seq<u32>> = None::<Seq<u32>>;
                match e.first_cluster(fs.fat_type()) {
                    Some(n) => {
                        match check_chain(fs, n) {
                            Some(_) => {},
                            None => {
                                proof {
                                    if spec_remove_ok(*self, *old(fs), fslot) {
                                        assert(false);
                                    }
                                }
                                return Err(Error::UnexpectedEof);
                            },
                        }
                        let mut iter = crate::table::ClusterIterator::new(n);
                        let res = iter.free(fs);
                        proof {
                            assert(res is Ok);
                            tch_freed = Some(spec_chain(old(fs).disk@, old(fs).layout, n));
                        }
                    },
                    None => {},
                }
                proof {
                    assert(tch_freed == match crate::dir_entry::spec_first_cluster(
                        e.data,
                        old(fs).layout.fat_type,
                    ) {
                        Some(n) => Some(spec_chain(old(fs).disk@, old(fs).layout, n)),
                        None => None::<Seq<u32>>,
                    });
                }
                // The parent stream must still be sound over the changed
                // FAT before its records are rewritten.
                let mut stream = self.stream;
                let content_len: u64 = match &stream {
                    DirRawStream::File(f0) => {
                        let fc = match f0.first_cluster {
                            Some(fc) => fc,
                            None => {
                                proof {
                                    assert(false);
                                }
                                return Err(Error::UnexpectedEof);
                            },
                        };
                        let chain_len = match check_chain(fs, fc) {
                            Some(len) => len,
                            None => {
                                proof {
                                    // When the released chain is disjoint
                                    // from the parent's, the parent's chain
                                    // is untouched and this cannot happen.
                                    if spec_remove_ok(*self, *old(fs), fslot) {
                                        match tch_freed {
                                            Some(tch) => {
                                                lemma_chain_survives_release(
                                                    old(fs).disk@,
                                                    fs.disk@,
                                                    fs.layout,
                                                    fc,
                                                    tch,
                                                );
                                            },
                                            None => {
                                                assert(fs.disk@ == old(fs).disk@);
                                            },
                                        }
                                        assert(false);
                                    }
                                }
                                return Err(Error::UnexpectedEof);
                            },
                        };
                        proof {
                            lemma_mul_inequality(
                                chain_len as int,
                                fs.layout.total_clusters as int,
                                fs.layout.cluster_size as int,
                            );
                        }
                        (chain_len as u64) * (fs.cluster_size() as u64)
                    },
                    DirRawStream::Root(sl) => sl.size as u64,
                };
                let ghost ok_hyp = spec_remove_ok(*self, *old(fs), fslot);
                proof {
                    assert(stream.wf(*fs));
                    assert(content_len == stream_content(stream, *fs).len());
                    // Under the conditions that owe success, the parent's
                    // content is exactly what it was: releasing a disjoint
                    // chain touches only the FAT.
                    if ok_hyp {
                        match tch_freed {
                            Some(tch) => {
                                match self.stream {
                                    DirRawStream::File(f0) => {
                                        let l = old(fs).layout;
                                        let pfc = f0.first_cluster->0;
                                        lemma_chain_survives_release(
                                            old(fs).disk@,
                                            fs.disk@,
                                            l,
                                            pfc,
                                            tch,
                                        );
                                        let pch = spec_chain(old(fs).disk@, l, pfc);
                                        crate::table::lemma_chain_shape(
                                            old(fs).disk@,
                                            l,
                                            pfc,
                                            (l.total_clusters + 1) as nat,
                                        );
                                        assert forall|i: int|
                                            0 <= i < pch.len() implies l.spec_cluster_pos(
                                            #[trigger] pch[i] as int,
                                        ) + l.cluster_size <= old(fs).disk@.len() by {
                                            crate::file::lemma_cluster_pos_bounds(
                                                *old(fs),
                                                pch[i],
                                            );
                                        }
                                        lemma_chain_content_outside_fat(
                                            old(fs).disk@,
                                            fs.disk@,
                                            l,
                                            pch,
                                        );
                                        assert(stream_content(stream, *fs) == content0);
                                    },
                                    DirRawStream::Root(sl) => {
                                        assert(stream_content(stream, *fs) =~= content0);
                                    },
                                }
                            },
                            None => {
                                assert(fs.disk@ == old(fs).disk@);
                                assert(stream_content(stream, *fs) =~= content0);
                            },
                        }
                    }
                }
                let ghost content1 = stream_content(stream, *fs);
                // Free every record of the entry's range, long-name
                // records included.
                let first_slot = e.offset_range.0 / 32;
                let end_slot = e.offset_range.1 / 32;
                proof {
                    lemma_scan_bounds(content0, 0, 0);
                }
                if !(first_slot <= end_slot && e.offset_range.0 % 32 == 0 && e.offset_range.1
                    % 32 == 0 && e.offset_range.1 <= content_len) {
                    proof {
                        if spec_remove_ok(*self, *old(fs), fslot) {
                            match tch_freed {
                                Some(tch) => {
                                    match self.stream {
                                        DirRawStream::File(f0) => {
                                            lemma_chain_survives_release(
                                                old(fs).disk@,
                                                fs.disk@,
                                                fs.layout,
                                                f0.first_cluster->0,
                                                tch,
                                            );
                                        },
                                        DirRawStream::Root(_) => {},
                                    }
                                },
                                None => {},
                            }
                            lemma_fundamental_div_mod_converse(
                                32 * (spec_find(content0, 0, nb)->0).0,
                                32,
                                (spec_find(content0, 0, nb)->0).0,
                                0,
                            );
                            lemma_fundamental_div_mod_converse(
                                32 * (fslot + 1),
                                32,
                                fslot + 1,
                                0,
                            );
                            assert(false);
                        }
                    }
                    return Err(Error::UnexpectedEof);
                }
                let mut k = first_slot;
                while k < end_slot
                    invariant
                        fs.wf(),
                        fs.layout == old(fs).layout,
                        fs.disk@.len() == old(fs).disk@.len(),
                        stream.wf(*fs),
                        stream_pos(stream) % 32 == 0,
                        first_slot <= k <= end_slot,
                        32 * end_slot <= content_len,
                        content_len == stream_content(stream, *fs).len(),
                        stream_content(stream, *fs).len() == content1.len(),
                        stream_first_cluster(stream) == stream_first_cluster(self.stream),
                        (stream is File <==> self.stream is File),
                        (stream is Root ==> stream->Root_0.begin == self.stream->Root_0.begin
                            && stream->Root_0.size == self.stream->Root_0.size),
                        (self.stream is Root ==> stream is Root),
                        forall|j: int|
                            first_slot <= j < k ==> #[trigger] stream_content(stream, *fs)[32
                                * j] == DIR_ENTRY_FREE_FLAG,
                        match tch_freed {
                            Some(tch) => forall|i: int|
                                0 <= i < tch.len() ==> old(fs).layout.is_cluster(
                                    #[trigger] tch[i],
                                ) && crate::table::fat_entry(
                                    fs.disk@,
                                    old(fs).layout,
                                    tch[i] as int,
                                ) == crate::table::FatValue::Free,
                            None => true,
                        },
                        match tch_freed {
                            Some(tch) => forall|c2: u32|
                                crate::table::fat_entry_in_range(old(fs).layout, c2 as int)
                                    && !tch.contains(c2) ==> crate::table::fat_entry(
                                    fs.disk@,
                                    old(fs).layout,
                                    c2 as int,
                                ) == crate::table::fat_entry(
                                    old(fs).disk@,
                                    old(fs).layout,
                                    c2 as int,
                                ),
                            None => forall|c2: u32|
                                crate::table::fat_entry_in_range(old(fs).layout, c2 as int)
                                    ==> crate::table::fat_entry(
                                    fs.disk@,
                                    old(fs).layout,
                                    c2 as int,
                                ) == crate::table::fat_entry(
                                    old(fs).disk@,
                                    old(fs).layout,
                                    c2 as int,
                                ),
                        },
                        ok_hyp == spec_remove_ok(*self, *old(fs), fslot),
                        ok_hyp ==> content1 == content0,
                        ok_hyp ==> forall|i: int|
                            0 <= i < content1.len() && !(32 * first_slot <= i < 32 * k)
                                ==> #[trigger] stream_content(stream, *fs)[i] == content1[i],
                    decreases end_slot - k,
                {
                    let res = stream.seek_to(fs, k * 32);
                    proof {
                        assert(res is Ok);
                    }
                    let b = match stream.read_record(fs) {
                        Some(b) => b,
                        None => {
                            proof {
                                assert(false);
                            }
                            return Err(Error::UnexpectedEof);
                        },
                    };
                    let mut data = crate::dir_entry::DirEntryData::deserialize(&b);
                    data.set_free();
                    let bytes = data.serialize();
                    proof {
                        assert(bytes@.len() == 32 && bytes@[0] == DIR_ENTRY_FREE_FLAG) by {
                            match data {
                                DirEntryData::File(f) => {
                                    assert(crate::dir_entry::file_record_bytes(f).len() == 32);
                                    assert(crate::dir_entry::file_record_bytes(f)[0]
                                        == f.name@[0]);
                                },
                                DirEntryData::Lfn(lf) => {
                                    assert(crate::dir_entry::lfn_record_bytes(lf).len() == 32);
                                    assert(crate::dir_entry::lfn_record_bytes(lf)[0]
                                        == lf.order);
                                },
                            }
                        }
                    }
                    let res2 = stream.seek_to(fs, k * 32);
                    proof {
                        assert(res2 is Ok);
                    }
                    let ghost cpre = stream_content(stream, *fs);
                    let ghost dpre_write = fs.disk@;
                    match stream.write_record(fs, &bytes) {
                        Ok(()) => {},
                        Err(err) => {
                            proof {
                                assert(false);
                            }
                            return Err(err);
                        },
                    }
                    proof {
                        assert(stream_content(stream, *fs).len() == cpre.len());
                        assert(stream_content(stream, *fs)[32 * k]
                            == DIR_ENTRY_FREE_FLAG) by {
                            assert(stream_content(stream, *fs).subrange(
                                32 * k,
                                32 * k + 32,
                            )[0] == bytes@[0]);
                        }
                        // Rewriting a record touches no FAT byte, so FAT
                        // entries keep their values and the released
                        // chain's entries stay free.
                        crate::table::lemma_fat_region_unchanged(
                            dpre_write,
                            fs.disk@,
                            old(fs).layout,
                        );
                        match tch_freed {
                            Some(tch) => {
                                assert forall|i: int| 0 <= i < tch.len() implies old(
                                    fs,
                                ).layout.is_cluster(#[trigger] tch[i])
                                    && crate::table::fat_entry(
                                    fs.disk@,
                                    old(fs).layout,
                                    tch[i] as int,
                                ) == crate::table::FatValue::Free by {
                                    crate::table::lemma_entry_end_monotone(
                                        old(fs).layout,
                                        tch[i] as int,
                                        old(fs).layout.spec_cluster_limit() - 1,
                                    );
                                }
                            },
                            None => {},
                        }
                    }
                    k = k + 1;
                }
                proof {
                    // The directory's own cursor sees the same content, and
                    // the freed slots are exactly the found entry's range.
                    assert(stream_content(self.stream, *fs) =~= stream_content(stream, *fs));
                    match spec_find(content0, 0, nb) {
                        Some((b, f)) => {
                            lemma_find_bounds(content0, 0, nb);
                            assert(content0.len() <= 0xFFFF_FFFF_FFFF_FFFF) by {
                                match self.stream {
                                    DirRawStream::File(f0) => {
                                        lemma_mul_inequality(
                                            spec_chain(
                                                old(fs).disk@,
                                                old(fs).layout,
                                                f0.first_cluster->0,
                                            ).len() as int,
                                            old(fs).layout.total_clusters as int,
                                            old(fs).layout.cluster_size as int,
                                        );
                                    },
                                    DirRawStream::Root(_) => {},
                                }
                            }
                            lemma_fundamental_div_mod_converse(32 * b, 32, b, 0);
                            lemma_fundamental_div_mod_converse(32 * (f + 1), 32, f + 1, 0);
                            assert(first_slot == b && end_slot == f + 1);
                        },
                        None => {},
                    }
                }
                Ok(())
            },
        }
    }
}

} // verus!
