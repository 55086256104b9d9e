//! What a mounted volume is: its geometry, its table, and what can be read from it.

use crate::bytes::le16;
use crate::disk::{DiskView, FsError};
use crate::fat12::table::{chain, ends, link, link_error, Link};
use crate::fat_common::{
    entry_of, goes_by, lfn_after, list_slots, no_lfn, slot, slot_kind, Entry, LfnView, Listing,
};
use vstd::prelude::*;
use vstd::utf8::encode_utf8;

verus! {

/// Where the entries of a directory are.
#[derive(Clone, Copy, Debug)]
pub enum DirLocation {
    /// The fixed range of sectors behind the tables.
    Root,
    /// The chain that starts at this cluster.
    Cluster(u32),
}

/// A mounted volume: the fields of its boot sector and the table in memory.
#[verifier::ext_equal]
pub struct Volume {
    pub sectors_per_cluster: int,
    pub num_fats: int,
    pub fat_size: int,
    pub root_entries: int,
    pub reserved: int,
    pub start: int,
    pub fat: Seq<u8>,
}

impl Volume {
    pub open spec fn first_fat_sector(self) -> int {
        self.start + self.reserved
    }

    pub open spec fn root_dir_sectors(self) -> int {
        (self.root_entries * 32 + 511) / 512
    }

    pub open spec fn first_root_dir_sector(self) -> int {
        self.first_fat_sector() + self.num_fats * self.fat_size
    }

    pub open spec fn first_data_sector(self) -> int {
        self.first_root_dir_sector() + self.root_dir_sectors()
    }

    /// The first sector of cluster `c`; the first cluster has number 2.
    pub open spec fn cluster_lba(self, c: int) -> int {
        self.first_data_sector() + (c - 2) * self.sectors_per_cluster
    }

    /// The number of entries that the table has room for.
    pub open spec fn total_entries(self) -> int {
        self.fat.len() as int * 2 / 3
    }

    /// The fields have the ranges of a boot sector, and the table has its size.
    pub open spec fn wf(self) -> bool {
        &&& 0 <= self.sectors_per_cluster < 256
        &&& 0 <= self.num_fats < 256
        &&& 0 < self.fat_size < 65536
        &&& 0 < self.root_entries < 65536
        &&& 0 <= self.reserved < 65536
        &&& 0 <= self.start <= u32::MAX
        &&& self.fat.len() == 512 * self.fat_size
    }

    /// The tables and the root directory lie within the sectors that a 32-bit
    /// number can name.
    pub open spec fn geometry_fits(self) -> bool {
        self.first_data_sector() <= u32::MAX
    }

    /// `c` is a data cluster all of whose sectors a 32-bit number can name.
    pub open spec fn addressable(self, c: int) -> bool {
        &&& 2 <= c <= 0x5555_5555
        &&& self.first_data_sector() + (c - 1) * self.sectors_per_cluster <= 0x1_0000_0000
    }

    /// Clusters have sectors, and every cluster that the table describes can be addressed.
    pub open spec fn clusters_fit(self) -> bool {
        &&& 1 <= self.sectors_per_cluster
        &&& self.first_data_sector() + self.total_entries() * self.sectors_per_cluster
            <= 0x1_0000_0000
    }

    /// Sector `k` of the table in memory.
    pub open spec fn fat_sector(self, k: int) -> Seq<u8> {
        self.fat.subrange(512 * k, 512 * k + 512)
    }

    /// The table in memory is the first table on disk.
    pub open spec fn coherent(self, d: DiskView) -> bool {
        forall|k: int|
            0 <= k < self.fat_size ==> d.has(#[trigger] self.fat_lba(k)) && d.at(self.fat_lba(k))
                == self.fat_sector(k)
    }

    /// The disk sector that holds sector `k` of the first table.
    pub open spec fn fat_lba(self, k: int) -> int {
        self.first_fat_sector() + k
    }

    /// The volume with another table in memory.
    pub open spec fn with_fat(self, fat: Seq<u8>) -> Volume {
        Volume { fat, ..self }
    }
}

/// What is wrong with a boot sector, if anything is.
pub open spec fn boot_error(s: Seq<u8>) -> Option<&'static str> {
    if s[510] != 0x55 || s[511] != 0xAA {
        Some("FAT12: boot sector missing 0x55AA signature")
    } else if le16(s, 11) != 512 {
        Some("FAT12: only 512-byte sectors are supported")
    } else if le16(s, 17) == 0 {
        Some("not FAT12/16 (root_entry_count == 0 means this is FAT32)")
    } else if le16(s, 22) == 0 {
        Some("FAT12: fat_size_16 is 0 - not a valid FAT12/16 BPB")
    } else {
        None
    }
}

/// The volume that a boot sector at `start` describes, with its table read from `d`.
pub open spec fn boot_volume(s: Seq<u8>, start: int, d: DiskView) -> Volume {
    let first_fat = start + le16(s, 14);
    Volume {
        sectors_per_cluster: s[13] as int,
        num_fats: s[16] as int,
        fat_size: le16(s, 22),
        root_entries: le16(s, 17),
        reserved: le16(s, 14),
        start,
        fat: Seq::new(
            (512 * le16(s, 22)) as nat,
            |i: int| d.at(first_fat + i / 512)[i % 512],
        ),
    }
}

/// The sectors of the clusters `cs`, in order.
pub open spec fn sectors_of(v: Volume, cs: Seq<int>) -> Seq<int>
    decreases cs.len(),
{
    if cs.len() == 0 {
        Seq::empty()
    } else {
        sectors_of(v, cs.drop_last()) + cluster_sectors(v, cs.last())
    }
}

/// The sectors of one cluster, in order.
pub open spec fn cluster_sectors(v: Volume, c: int) -> Seq<int> {
    Seq::new(v.sectors_per_cluster as nat, |s: int| v.cluster_lba(c) + s)
}

/// The sectors of the root directory, in order.
pub open spec fn root_sectors(v: Volume) -> Seq<int> {
    Seq::new(v.root_dir_sectors() as nat, |s: int| v.first_root_dir_sector() + s)
}

/// All clusters of the chain from `c` can be addressed, and the chain ends.
pub open spec fn chain_ready(v: Volume, c: int) -> bool {
    &&& ends(v.fat, c)
    &&& forall|i: int| 0 <= i < chain(v.fat, c).len() ==> v.addressable(#[trigger] chain(v.fat, c)[i])
}

/// The sectors of a directory can be enumerated.
pub open spec fn dir_ready(v: Volume, dir: DirLocation) -> bool {
    match dir {
        DirLocation::Root => true,
        DirLocation::Cluster(c) => chain_ready(v, c as int),
    }
}

/// The sectors of a directory, in order.
pub open spec fn dir_lbas(v: Volume, dir: DirLocation) -> Result<Seq<int>, FsError> {
    match dir {
        DirLocation::Root => Ok(root_sectors(v)),
        DirLocation::Cluster(c) => {
            let cs = chain(v.fat, c as int);
            match link_error(link(v.fat, cs.last())) {
                Some(m) => Err(FsError::Failed(m)),
                None => Ok(sectors_of(v, cs)),
            }
        },
    }
}

/// The message for a name that a directory does not have.
pub open spec fn not_found(dir: DirLocation) -> &'static str {
    match dir {
        DirLocation::Root => "FAT12: file not found in root directory",
        DirLocation::Cluster(_) => "FAT12: file not found in directory",
    }
}

/// What a search in a directory comes to.
pub enum Find {
    Unread(FsError),
    Absent,
    At(int, int, Entry),
}

/// Slot `k` of a directory, counted over all its sectors.
pub open spec fn dir_slot(d: DiskView, lbas: Seq<int>, k: int) -> Seq<u8> {
    slot(d.at(lbas[k / 16]), k % 16)
}

/// The first slot from `k` on that goes by the name `target`, before the end of
/// the directory.
pub open spec fn find_from(
    d: DiskView,
    lbas: Seq<int>,
    k: int,
    lfn: LfnView,
    target: Seq<u8>,
) -> Find
    decreases 16 * lbas.len() - k,
{
    if k < 0 || k >= 16 * lbas.len() {
        Find::Absent
    } else if !d.has(lbas[k / 16]) {
        Find::Unread(d.read_error(lbas[k / 16]))
    } else {
        let raw = dir_slot(d, lbas, k);
        if slot_kind(raw) is Terminator {
            Find::Absent
        } else if slot_kind(raw) is Short && goes_by(raw, lfn, target) {
            Find::At(lbas[k / 16], 32 * (k % 16), entry_of(raw, lfn))
        } else {
            find_from(d, lbas, k + 1, lfn_after(lfn, raw), target)
        }
    }
}

/// Where a directory has the entry `name`: its sector, its offset there, and the entry.
pub open spec fn find_entry(v: Volume, d: DiskView, dir: DirLocation, name: Seq<char>) -> Result<
    (int, int, Entry),
    FsError,
> {
    match dir_lbas(v, dir) {
        Err(e) => Err(e),
        Ok(lbas) => match find_from(d, lbas, 0, no_lfn(), encode_utf8(name)) {
            Find::Unread(e) => Err(e),
            Find::Absent => Err(FsError::Failed(not_found(dir))),
            Find::At(lba, offset, e) => Ok((lba, offset, e)),
        },
    }
}

/// The listing after the sectors of `lbas` from `j` on.
pub open spec fn list_sectors(d: DiskView, lbas: Seq<int>, j: int, st: Listing) -> Result<
    Listing,
    FsError,
>
    decreases lbas.len() - j,
{
    if j < 0 || j >= lbas.len() || st.done {
        Ok(st)
    } else if !d.has(lbas[j]) {
        Err(d.read_error(lbas[j]))
    } else {
        list_sectors(d, lbas, j + 1, list_slots(d.at(lbas[j]), 0, st))
    }
}

/// A listing before the first sector.
pub open spec fn empty_listing() -> Listing {
    Listing { entries: Seq::empty(), lfn: no_lfn(), done: false }
}

/// The entries of the root directory.
pub open spec fn root_listing(v: Volume, d: DiskView) -> Result<Seq<Entry>, FsError> {
    match list_sectors(d, root_sectors(v), 0, empty_listing()) {
        Ok(st) => Ok(st.entries),
        Err(e) => Err(e),
    }
}

/// Listing the clusters `cs` ends neither in the end marker of the directory nor
/// in an error.
pub open spec fn list_goes_on(v: Volume, d: DiskView, cs: Seq<int>) -> bool {
    match list_sectors(d, sectors_of(v, cs), 0, empty_listing()) {
        Ok(st) => !st.done,
        Err(_) => false,
    }
}

/// `cs` are the clusters that a listing of the directory at `c` reads: each names
/// the next one and holds no end marker, and the last one has the end marker, or
/// an error, or no next one.
pub open spec fn list_run(v: Volume, d: DiskView, c: int, cs: Seq<int>) -> bool {
    &&& cs.len() > 0
    &&& cs[0] == c
    &&& forall|i: int|
        0 <= i < cs.len() - 1 ==> #[trigger] link(v.fat, cs[i]) == Link::Next(cs[i + 1])
            && list_goes_on(
            v,
            d,
            cs.take(i + 1),
        )
    &&& list_goes_on(v, d, cs) ==> !(link(v.fat, cs.last()) is Next)
    &&& forall|i: int| 0 <= i < cs.len() ==> v.addressable(#[trigger] cs[i])
}

/// The directory at `c` can be listed.
pub open spec fn list_ready(v: Volume, d: DiskView, c: int) -> bool {
    exists|cs: Seq<int>| list_run(v, d, c, cs)
}

/// The entries of the directory whose first cluster is `c`.
pub open spec fn dir_listing(v: Volume, d: DiskView, c: int) -> Result<Seq<Entry>, FsError> {
    let cs = choose|cs: Seq<int>| list_run(v, d, c, cs);
    match list_sectors(d, sectors_of(v, cs), 0, empty_listing()) {
        Err(e) => Err(e),
        Ok(st) => if st.done {
            Ok(st.entries)
        } else {
            match link_error(link(v.fat, cs.last())) {
                Some(m) => Err(FsError::Failed(m)),
                None => Ok(st.entries),
            }
        },
    }
}

/// The entries of a directory.
pub open spec fn listing(v: Volume, d: DiskView, dir: DirLocation) -> Result<Seq<Entry>, FsError> {
    match dir {
        DirLocation::Root => root_listing(v, d),
        DirLocation::Cluster(c) => dir_listing(v, d, c as int),
    }
}

/// `acc` and what the sectors of one cluster from sector `s` on add to it, up to
/// `size` bytes in all.
pub open spec fn read_cluster(
    v: Volume,
    d: DiskView,
    c: int,
    s: int,
    size: int,
    acc: Seq<u8>,
) -> Result<Seq<u8>, FsError>
    decreases v.sectors_per_cluster - s,
{
    let lba = v.cluster_lba(c) + s;
    if s < 0 || s >= v.sectors_per_cluster || acc.len() >= size {
        Ok(acc)
    } else if !d.has(lba) {
        Err(d.read_error(lba))
    } else {
        let left = size - acc.len();
        read_cluster(v, d, c, s + 1, size, acc + d.at(lba).take(if left < 512 { left } else { 512 }))
    }
}

/// `acc` and what the chain from cluster `c` adds to it, up to `size` bytes in all.
pub open spec fn read_chain(v: Volume, d: DiskView, c: int, size: int, acc: Seq<u8>) -> Result<
    Seq<u8>,
    FsError,
>
    decreases size - acc.len(),
{
    match read_cluster(v, d, c, 0, size, acc) {
        Err(e) => Err(e),
        Ok(more) => if more.len() >= size || more.len() <= acc.len() {
            Ok(more)
        } else {
            match link(v.fat, c) {
                Link::Next(n) => read_chain(v, d, n, size, more),
                l => match link_error(l) {
                    Some(m) => Err(FsError::Failed(m)),
                    None => Ok(more),
                },
            }
        },
    }
}

/// The clusters that reading `size` bytes from `c` on touches can be addressed.
pub open spec fn read_ready(v: Volume, d: DiskView, c: int, size: int, acc: Seq<u8>) -> bool
    decreases size - acc.len(),
{
    &&& v.addressable(c)
    &&& match read_cluster(v, d, c, 0, size, acc) {
        Err(_) => true,
        Ok(more) => if more.len() >= size || more.len() <= acc.len() {
            true
        } else {
            match link(v.fat, c) {
                Link::Next(n) => read_ready(v, d, n, size, more),
                _ => true,
            }
        },
    }
}

/// Reading the file `name` touches no cluster that cannot be addressed.
pub open spec fn file_ready(v: Volume, d: DiskView, dir: DirLocation, name: Seq<char>) -> bool {
    &&& dir_ready(v, dir)
    &&& match find_entry(v, d, dir, name) {
        Ok((_, _, e)) => e.is_dir || e.size == 0 || (v.sectors_per_cluster >= 1 && read_ready(
            v,
            d,
            e.start_cluster as int,
            e.size as int,
            Seq::empty(),
        )),
        Err(_) => true,
    }
}

/// The contents of the file `name`.
pub open spec fn file_contents(v: Volume, d: DiskView, dir: DirLocation, name: Seq<char>) -> Result<
    Seq<u8>,
    FsError,
> {
    match find_entry(v, d, dir, name) {
        Err(e) => Err(e),
        Ok((_, _, e)) => if e.is_dir {
            Err(FsError::Failed(not_found(dir)))
        } else if e.size == 0 {
            Ok(Seq::empty())
        } else {
            read_chain(v, d, e.start_cluster as int, e.size as int, Seq::empty())
        },
    }
}

/// The short names of a directory from slot `k` on, after those in `acc`.
pub open spec fn short_names_from(d: DiskView, lbas: Seq<int>, k: int, acc: Seq<Seq<u8>>) -> Result<
    Seq<Seq<u8>>,
    FsError,
>
    decreases 16 * lbas.len() - k,
{
    if k < 0 || k >= 16 * lbas.len() {
        Ok(acc)
    } else if !d.has(lbas[k / 16]) {
        Err(d.read_error(lbas[k / 16]))
    } else {
        let raw = dir_slot(d, lbas, k);
        if slot_kind(raw) is Terminator {
            Ok(acc)
        } else if slot_kind(raw) is Short {
            short_names_from(d, lbas, k + 1, acc.push(raw.subrange(0, 11)))
        } else {
            short_names_from(d, lbas, k + 1, acc)
        }
    }
}

/// The short names of all entries of a directory.
pub open spec fn short_names(v: Volume, d: DiskView, dir: DirLocation) -> Result<
    Seq<Seq<u8>>,
    FsError,
> {
    match dir_lbas(v, dir) {
        Err(e) => Err(e),
        Ok(lbas) => short_names_from(d, lbas, 0, Seq::empty()),
    }
}

} // verus!
