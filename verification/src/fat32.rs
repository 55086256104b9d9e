//! FAT32 volumes, for listing directories. The root directory is a chain of
//! clusters like any other. Names are short names.

use crate::bytes::{get_le16, get_le32, le16, le32};
use crate::disk::{Disk, DiskView, FsError};
use crate::fat_common::{format_short_name, get_slot, short_name_of, slot};
use crate::partition::PartitionEntry;
use vstd::prelude::*;

pub mod laws;

verus! {

pub struct Fat32Info {
    pub sectors_per_cluster: u8,
    pub reserved_sector_count: u16,
    pub num_fats: u8,
    pub fat_size_32: u32,
    pub root_cluster: u32,
    pub partition_start_lba: u32,
}

pub struct DirEntry {
    pub name: String,
    pub is_dir: bool,
    pub size: u32,
    pub start_cluster: u32,
}

/// What a `DirEntry` stands for.
#[verifier::ext_equal]
pub struct ShortEntry {
    pub name: Seq<char>,
    pub is_dir: bool,
    pub size: u32,
    pub start_cluster: u32,
}

impl View for DirEntry {
    type V = ShortEntry;

    open spec fn view(&self) -> ShortEntry {
        ShortEntry {
            name: self.name@,
            is_dir: self.is_dir,
            size: self.size,
            start_cluster: self.start_cluster,
        }
    }
}

/// The entries that a list of `DirEntry` values stands for.
pub open spec fn short_entries(es: Seq<DirEntry>) -> Seq<ShortEntry> {
    es.map_values(|e: DirEntry| e@)
}

/// What is wrong with a boot sector, if anything is.
pub open spec fn boot_error(s: Seq<u8>) -> Option<&'static str> {
    if s[510] != 0x55 || s[511] != 0xAA {
        Some("FAT32: boot sector missing 0x55AA signature")
    } else if le16(s, 11) != 512 {
        Some("FAT32: only 512-byte sectors are supported")
    } else if le16(s, 17) != 0 {
        Some("not FAT32 (root_entry_count != 0 means this is FAT12/16, not supported yet)")
    } else if le32(s, 36) == 0 {
        Some("FAT32: fat_size_32 is 0 - not a valid FAT32 BPB")
    } else {
        None
    }
}

/// The volume that a boot sector at `start` describes.
pub open spec fn boot_volume(s: Seq<u8>, start: u32) -> Fat32Info {
    Fat32Info {
        sectors_per_cluster: s[13],
        reserved_sector_count: le16(s, 14) as u16,
        num_fats: s[16],
        fat_size_32: le32(s, 36) as u32,
        root_cluster: le32(s, 44) as u32,
        partition_start_lba: start,
    }
}

/// Reads the boot sector of `partition`.
pub fn read_bpb(disk: &Disk, partition: &PartitionEntry) -> (r: Result<Fat32Info, FsError>)
    ensures
        ({
            let start = partition.start_lba as int;
            let s = disk@.at(start);
            if !disk@.has(start) {
                r == Err::<Fat32Info, FsError>(disk@.read_error(start))
            } else {
                match boot_error(s) {
                    Some(m) => r == Err::<Fat32Info, FsError>(FsError::Failed(m)),
                    None => r == Ok::<Fat32Info, FsError>(boot_volume(s, partition.start_lba)),
                }
            }
        }),
{
    let sector = match disk.read_sector(partition.start_lba) {
        Ok(b) => b,
        Err(e) => {
            return Err(e);
        },
    };
    if sector[510] != 0x55 || sector[511] != 0xAA {
        return Err(FsError::Failed("FAT32: boot sector missing 0x55AA signature"));
    }
    if get_le16(&sector, 11) != 512 {
        return Err(FsError::Failed("FAT32: only 512-byte sectors are supported"));
    }
    if get_le16(&sector, 17) != 0 {
        return Err(
            FsError::Failed(
                "not FAT32 (root_entry_count != 0 means this is FAT12/16, not supported yet)",
            ),
        );
    }
    let fat_size_32: u32 = get_le32(&sector, 36);
    if fat_size_32 == 0 {
        return Err(FsError::Failed("FAT32: fat_size_32 is 0 - not a valid FAT32 BPB"));
    }
    Ok(
        Fat32Info {
            sectors_per_cluster: sector[13],
            reserved_sector_count: get_le16(&sector, 14),
            num_fats: sector[16],
            fat_size_32,
            root_cluster: get_le32(&sector, 44),
            partition_start_lba: partition.start_lba,
        },
    )
}

/// What follows a cluster in its chain: another cluster, nothing, or an error.
pub enum Step {
    Next(int),
    End,
    Stop(FsError),
}

impl Fat32Info {
    pub open spec fn fat_start(self) -> int {
        self.partition_start_lba + self.reserved_sector_count
    }

    pub open spec fn data_start(self) -> int {
        self.fat_start() + self.num_fats * self.fat_size_32
    }

    /// The first sector of cluster `c`; the first cluster has number 2.
    pub open spec fn lba_of(self, c: int) -> int {
        self.data_start() + (c - 2) * self.sectors_per_cluster
    }

    /// The data starts at a sector with a 32-bit number.
    pub open spec fn fits(self) -> bool {
        self.data_start() <= u32::MAX
    }

    /// `c` is a data cluster whose sectors and whose table entry have 32-bit numbers.
    pub open spec fn addressable(self, c: int) -> bool {
        &&& 2 <= c <= 0x3FFF_FFFF
        &&& self.data_start() + (c - 1) * self.sectors_per_cluster <= 0x1_0000_0000
        &&& self.fat_start() + c * 4 / 512 <= u32::MAX
    }

    /// The entry of cluster `c` in the table: 28 of 32 bits count.
    pub open spec fn table_entry(self, d: DiskView, c: int) -> int {
        le32(d.at(self.fat_start() + c * 4 / 512), c * 4 % 512) % 0x1000_0000
    }

    /// What follows cluster `c` in its chain.
    pub open spec fn step(self, d: DiskView, c: int) -> Step {
        let lba = self.fat_start() + c * 4 / 512;
        if !d.has(lba) {
            Step::Stop(d.read_error(lba))
        } else if self.table_entry(d, c) == 0 {
            Step::Stop(
                FsError::Failed("FAT32: cluster chain hit a free (0) entry unexpectedly"),
            )
        } else if self.table_entry(d, c) >= 0xFFF_FFF8 {
            Step::End
        } else {
            Step::Next(self.table_entry(d, c))
        }
    }

    fn first_fat_sector(&self) -> (r: u32)
        requires
            self.fits(),
        ensures
            r == self.fat_start(),
    {
        assert(self.num_fats * self.fat_size_32 >= 0) by (nonlinear_arith)
            requires
                self.num_fats >= 0,
                self.fat_size_32 >= 0,
        ;
        self.partition_start_lba + self.reserved_sector_count as u32
    }

    fn first_data_sector(&self) -> (r: u32)
        requires
            self.fits(),
        ensures
            r == self.data_start(),
    {
        self.first_fat_sector() + self.num_fats as u32 * self.fat_size_32
    }

    fn cluster_to_lba(&self, cluster: u32) -> (r: u32)
        requires
            self.fits(),
            self.addressable(cluster as int),
        ensures
            r == self.lba_of(cluster as int),
            r + self.sectors_per_cluster <= 0x1_0000_0000,
    {
        proof {
            let spc = self.sectors_per_cluster as int;
            assert((cluster - 1) * spc == (cluster - 2) * spc + spc) by (nonlinear_arith);
            assert(0 <= (cluster - 2) * spc) by (nonlinear_arith)
                requires
                    cluster >= 2,
                    spc >= 0,
            ;
            assert(spc == 0 ==> (cluster - 2) * spc == 0) by (nonlinear_arith);
            assert(self.num_fats * self.fat_size_32 >= 0) by (nonlinear_arith)
                requires
                    self.num_fats >= 0,
                    self.fat_size_32 >= 0,
            ;
        }
        self.first_data_sector() + (cluster - 2) * self.sectors_per_cluster as u32
    }

    /// The cluster that follows `cluster` in its chain.
    fn next_cluster(&self, disk: &Disk, cluster: u32) -> (r: Result<Option<u32>, FsError>)
        requires
            self.fits(),
            self.addressable(cluster as int),
        ensures
            match self.step(disk@, cluster as int) {
                Step::Next(n) => r == Ok::<Option<u32>, FsError>(Some(n as u32)) && 0 < n
                    < 0xFFF_FFF8,
                Step::End => r == Ok::<Option<u32>, FsError>(None),
                Step::Stop(e) => r == Err::<Option<u32>, FsError>(e),
            },
    {
        let offset: u32 = cluster * 4;
        let lba: u32 = self.first_fat_sector() + offset / 512;
        let sector = match disk.read_sector(lba) {
            Ok(b) => b,
            Err(e) => {
                return Err(e);
            },
        };
        let raw: u32 = get_le32(&sector, (offset % 512) as usize) % 0x1000_0000;
        if raw == 0 {
            Err(FsError::Failed("FAT32: cluster chain hit a free (0) entry unexpectedly"))
        } else if raw >= 0x0FFF_FFF8 {
            Ok(None)
        } else {
            Ok(Some(raw))
        }
    }

    /// The entries in the chain that starts at `start_cluster`. Deleted entries, long
    /// names and volume labels are passed over.
    pub fn list_directory(&self, disk: &Disk, start_cluster: u32) -> (r: Result<
        Vec<DirEntry>,
        FsError,
    >)
        requires
            self.fits(),
            list_ready(*self, disk@, start_cluster as int),
        ensures
            match dir_listing(*self, disk@, start_cluster as int) {
                Ok(es) => r matches Ok(got) && short_entries(got@) == es,
                Err(e) => r == Err::<Vec<DirEntry>, FsError>(e),
            },
    {
        let ghost d = disk@;
        let ghost cs = choose|cs: Seq<int>| list_run(*self, d, start_cluster as int, cs);
        let ghost mut i: int = 0;
        let mut c: u32 = start_cluster;
        let mut entries: Vec<DirEntry> = Vec::new();
        assert(short_entries(entries@) =~= Seq::<ShortEntry>::empty());
        loop
            invariant
                self.fits(),
                d == disk@,
                list_run(*self, d, start_cluster as int, cs),
                cs == (choose|cs: Seq<int>| list_run(*self, d, start_cluster as int, cs)),
                0 <= i < cs.len(),
                c == cs[i],
                list_clusters(*self, d, cs.take(i), Seq::empty()) == Ok::<
                    (Seq<ShortEntry>, bool),
                    FsError,
                >((short_entries(entries@), false)),
            decreases cs.len() - i,
        {
            assert(self.addressable(cs[i]));
            assert(cs.take(i + 1).drop_last() =~= cs.take(i));
            match self.list_cluster(disk, c, &mut entries) {
                Err(e) => {
                    proof {
                        list_stops_here(*self, d, start_cluster as int, cs, i);
                    }
                    return Err(e);
                },
                Ok(done) => {
                    if done {
                        proof {
                            list_stops_here(*self, d, start_cluster as int, cs, i);
                        }
                        return Ok(entries);
                    }
                },
            }
            match self.next_cluster(disk, c) {
                Ok(Some(next)) => {
                    assert(i < cs.len() - 1) by {
                        if i == cs.len() - 1 {
                            assert(cs.take(i + 1) =~= cs);
                        }
                    }
                    assert(self.step(d, cs[i]) == Step::Next(cs[i + 1]));
                    c = next;
                    proof {
                        i = i + 1;
                    }
                },
                Ok(None) => {
                    assert(i == cs.len() - 1) by {
                        if i < cs.len() - 1 {
                            assert(self.step(d, cs[i]) is Next);
                        }
                    }
                    assert(cs.take(i + 1) =~= cs);
                    return Ok(entries);
                },
                Err(e) => {
                    assert(i == cs.len() - 1) by {
                        if i < cs.len() - 1 {
                            assert(self.step(d, cs[i]) is Next);
                        }
                    }
                    assert(cs.take(i + 1) =~= cs);
                    return Err(e);
                },
            }
        }
    }

    /// Adds the entries in one cluster. True if the end of the directory was seen.
    fn list_cluster(&self, disk: &Disk, cluster: u32, entries: &mut Vec<DirEntry>) -> (r: Result<
        bool,
        FsError,
    >)
        requires
            self.fits(),
            self.addressable(cluster as int),
        ensures
            match list_sectors(*self, disk@, cluster as int, 0, short_entries(old(entries)@)) {
                Ok((es, done)) => r == Ok::<bool, FsError>(done) && short_entries(final(entries)@)
                    == es,
                Err(e) => r == Err::<bool, FsError>(e),
            },
    {
        let ghost d = disk@;
        let first: u32 = self.cluster_to_lba(cluster);
        let n: u32 = self.sectors_per_cluster as u32;
        let ghost whole = list_sectors(*self, d, cluster as int, 0, short_entries(entries@));
        let mut s: u32 = 0;
        while s < n
            invariant
                s <= n,
                n == self.sectors_per_cluster,
                first == self.lba_of(cluster as int),
                first + n <= 0x1_0000_0000,
                d == disk@,
                whole == list_sectors(*self, d, cluster as int, 0, short_entries(old(entries)@)),
                whole == list_sectors(
                    *self,
                    d,
                    cluster as int,
                    s as int,
                    short_entries(entries@),
                ),
            decreases n - s,
        {
            let sector = match disk.read_sector(first + s) {
                Ok(b) => b,
                Err(e) => {
                    return Err(e);
                },
            };
            if list_sector(&sector, entries) {
                return Ok(true);
            }
            s = s + 1;
        }
        Ok(false)
    }
}

/// A slot that is an entry, and not deleted, a long name or a volume label.
pub open spec fn is_entry(raw: Seq<u8>) -> bool {
    !(raw[0] == 0xE5 || raw[11] == 0x0F || raw[11] & 0x08 != 0)
}

/// The entry in a slot.
pub open spec fn entry_of(raw: Seq<u8>) -> ShortEntry {
    ShortEntry {
        name: short_name_of(raw),
        is_dir: raw[11] & 0x10 != 0,
        size: le32(raw, 28) as u32,
        start_cluster: (65536 * le16(raw, 20) + le16(raw, 26)) as u32,
    }
}

/// `acc` and the entries of a sector from slot `i` on; whether the end marker was seen.
pub open spec fn list_slots(sector: Seq<u8>, i: int, acc: Seq<ShortEntry>) -> (
    Seq<ShortEntry>,
    bool,
)
    decreases 16 - i,
{
    if i < 0 || i >= 16 {
        (acc, false)
    } else if slot(sector, i)[0] == 0 {
        (acc, true)
    } else if is_entry(slot(sector, i)) {
        list_slots(sector, i + 1, acc.push(entry_of(slot(sector, i))))
    } else {
        list_slots(sector, i + 1, acc)
    }
}

/// `acc` and the entries of a cluster from sector `s` on.
pub open spec fn list_sectors(
    info: Fat32Info,
    d: DiskView,
    c: int,
    s: int,
    acc: Seq<ShortEntry>,
) -> Result<(Seq<ShortEntry>, bool), FsError>
    decreases info.sectors_per_cluster - s,
{
    let lba = info.lba_of(c) + s;
    if s < 0 || s >= info.sectors_per_cluster {
        Ok((acc, false))
    } else if !d.has(lba) {
        Err(d.read_error(lba))
    } else {
        let (es, done) = list_slots(d.at(lba), 0, acc);
        if done {
            Ok((es, true))
        } else {
            list_sectors(info, d, c, s + 1, es)
        }
    }
}

/// `acc` and the entries of the clusters `cs`.
pub open spec fn list_clusters(
    info: Fat32Info,
    d: DiskView,
    cs: Seq<int>,
    acc: Seq<ShortEntry>,
) -> Result<(Seq<ShortEntry>, bool), FsError>
    decreases cs.len(),
{
    if cs.len() == 0 {
        Ok((acc, false))
    } else {
        match list_clusters(info, d, cs.drop_last(), acc) {
            Ok((es, false)) => list_sectors(info, d, cs.last(), 0, es),
            other => other,
        }
    }
}

/// Listing the clusters `cs` ends neither in the end marker nor in an error.
pub open spec fn list_goes_on(info: Fat32Info, d: DiskView, cs: Seq<int>) -> bool {
    list_clusters(info, d, cs, Seq::empty()) matches Ok((_, done)) && !done
}

/// `cs` are the clusters that a listing of the directory at `c` reads.
pub open spec fn list_run(info: Fat32Info, d: DiskView, c: int, cs: Seq<int>) -> bool {
    &&& cs.len() > 0
    &&& cs[0] == c
    &&& forall|i: int|
        0 <= i < cs.len() - 1 ==> #[trigger] info.step(d, cs[i]) == Step::Next(cs[i + 1])
            && list_goes_on(info, d, cs.take(i + 1))
    &&& list_goes_on(info, d, cs) ==> !(info.step(d, cs.last()) is Next)
    &&& forall|i: int| 0 <= i < cs.len() ==> info.addressable(#[trigger] cs[i])
}

/// The directory at `c` can be listed.
pub open spec fn list_ready(info: Fat32Info, d: DiskView, c: int) -> bool {
    exists|cs: Seq<int>| list_run(info, d, c, cs)
}

/// The entries of the directory whose first cluster is `c`.
pub open spec fn dir_listing(info: Fat32Info, d: DiskView, c: int) -> Result<
    Seq<ShortEntry>,
    FsError,
> {
    let cs = choose|cs: Seq<int>| list_run(info, d, c, cs);
    match list_clusters(info, d, cs, Seq::empty()) {
        Err(e) => Err(e),
        Ok((es, done)) => if done {
            Ok(es)
        } else {
            match info.step(d, cs.last()) {
                Step::Stop(e) => Err(e),
                _ => Ok(es),
            }
        },
    }
}

/// The listing reads no cluster behind one with the end marker or an error.
proof fn list_stops_here(info: Fat32Info, d: DiskView, c: int, cs: Seq<int>, i: int)
    requires
        list_run(info, d, c, cs),
        0 <= i < cs.len(),
        !list_goes_on(info, d, cs.take(i + 1)),
    ensures
        i == cs.len() - 1,
        cs.take(i + 1) == cs,
{
    if i < cs.len() - 1 {
        assert(info.step(d, cs[i]) == Step::Next(cs[i + 1]));
    }
    assert(cs.take(cs.len() as int) =~= cs);
}

/// Adds the entries of one sector. True if the end of the directory was seen.
fn list_sector(sector: &[u8; 512], entries: &mut Vec<DirEntry>) -> (done: bool)
    ensures
        (short_entries(final(entries)@), done) == list_slots(
            sector@,
            0,
            short_entries(old(entries)@),
        ),
{
    let ghost whole = list_slots(sector@, 0, short_entries(entries@));
    let mut i: usize = 0;
    while i < 16
        invariant
            i <= 16,
            whole == list_slots(sector@, 0, short_entries(old(entries)@)),
            whole == list_slots(sector@, i as int, short_entries(entries@)),
        decreases 16 - i,
    {
        let raw = get_slot(sector, i);
        if raw[0] == 0x00 {
            return true;
        }
        if !(raw[0] == 0xE5 || raw[11] == 0x0F || raw[11] & 0x08 != 0) {
            let e = DirEntry {
                name: format_short_name(
                    vstd::slice::slice_subrange(&raw, 0, 8),
                    vstd::slice::slice_subrange(&raw, 8, 11),
                ),
                is_dir: raw[11] & 0x10 != 0,
                size: get_le32(&raw, 28),
                start_cluster: 65536 * (get_le16(&raw, 20) as u32) + get_le16(&raw, 26) as u32,
            };
            assert(e@ =~= entry_of(raw@));
            let ghost before = entries@;
            entries.push(e);
            assert(short_entries(entries@) =~= short_entries(before).push(entry_of(raw@)));
        }
        i = i + 1;
    }
    false
}

/// The clusters `seen` are the first that a listing of the directory at `c` reads.
spec fn list_begins(info: Fat32Info, d: DiskView, c: int, seen: Seq<int>) -> bool {
    &&& seen.len() > 0
    &&& seen[0] == c
    &&& forall|i: int|
        0 <= i < seen.len() - 1 ==> #[trigger] info.step(d, seen[i]) == Step::Next(seen[i + 1])
            && list_goes_on(info, d, seen.take(i + 1)) && info.addressable(seen[i])
}

/// Whether a sector has the end marker does not depend on what stands in front of it.
proof fn slots_end_alike(sector: Seq<u8>, i: int, acc: Seq<ShortEntry>, other: Seq<ShortEntry>)
    ensures
        list_slots(sector, i, acc).1 == list_slots(sector, i, other).1,
    decreases 16 - i,
{
    if 0 <= i < 16 && slot(sector, i)[0] != 0 {
        let e = entry_of(slot(sector, i));
        slots_end_alike(sector, i + 1, acc, other);
        slots_end_alike(sector, i + 1, acc.push(e), other.push(e));
    }
}

/// Nor does how the listing of a cluster ends.
proof fn sectors_end_alike(
    info: Fat32Info,
    d: DiskView,
    c: int,
    s: int,
    acc: Seq<ShortEntry>,
    other: Seq<ShortEntry>,
)
    ensures
        (list_sectors(info, d, c, s, acc) matches Ok((_, done)) && !done) == (list_sectors(
            info,
            d,
            c,
            s,
            other,
        ) matches Ok((_, done)) && !done),
    decreases info.sectors_per_cluster - s,
{
    let lba = info.lba_of(c) + s;
    if 0 <= s < info.sectors_per_cluster && d.has(lba) {
        slots_end_alike(d.at(lba), 0, acc, other);
        sectors_end_alike(
            info,
            d,
            c,
            s + 1,
            list_slots(d.at(lba), 0, acc).0,
            list_slots(d.at(lba), 0, other).0,
        );
    }
}

/// A listing reads no cluster twice.
proof fn list_distinct(info: Fat32Info, d: DiskView, c: int, cs: Seq<int>, i: int, j: int)
    requires
        list_run(info, d, c, cs),
        0 <= i < j < cs.len(),
    ensures
        cs[i] != cs[j],
    decreases cs.len() - j,
{
    assert(info.step(d, cs[i]) == Step::Next(cs[i + 1]));
    if j + 1 < cs.len() {
        assert(info.step(d, cs[j]) == Step::Next(cs[j + 1]));
        list_distinct(info, d, c, cs, i + 1, j + 1);
    } else if cs[i] == cs[j] {
        assert(info.step(d, cs[j - 1]) == Step::Next(cs[j]));
        let to_i = cs.take(i + 1);
        let to_j = cs.take(j);
        assert(list_goes_on(info, d, to_i) && list_goes_on(info, d, to_j));
        assert(to_i.drop_last() =~= cs.take(i) && to_i.last() == cs[i]);
        assert(cs.drop_last() =~= to_j);
        sectors_end_alike(
            info,
            d,
            cs[i],
            0,
            list_clusters(info, d, cs.take(i), Seq::empty())->Ok_0.0,
            list_clusters(info, d, to_j, Seq::empty())->Ok_0.0,
        );
    }
}

/// A listing reads no more clusters than can be addressed.
proof fn list_bounded(info: Fat32Info, d: DiskView, c: int, cs: Seq<int>)
    requires
        list_run(info, d, c, cs),
    ensures
        cs.len() <= 0x3FFF_FFFE,
{
    assert forall|i: int, j: int| 0 <= i < j < cs.len() implies cs[i] != cs[j] by {
        list_distinct(info, d, c, cs, i, j);
    }
    cs.unique_seq_to_set();
    let names = vstd::set_lib::set_int_range(2, 0x4000_0000);
    vstd::set_lib::lemma_int_range(2, 0x4000_0000);
    assert(cs.to_set().subset_of(names)) by {
        assert forall|x: int| cs.to_set().contains(x) implies names.contains(x) by {
            let i = choose|i: int| 0 <= i < cs.len() && cs[i] == x;
            assert(info.addressable(cs[i]));
        }
    }
    vstd::set_lib::lemma_len_subset(cs.to_set(), names);
}

/// What a listing reads begins with the clusters that were seen.
proof fn list_prefix(info: Fat32Info, d: DiskView, c: int, seen: Seq<int>, cs: Seq<int>, n: int)
    requires
        list_begins(info, d, c, seen),
        list_run(info, d, c, cs),
        0 < n <= seen.len(),
    ensures
        n <= cs.len(),
        cs.take(n) == seen.take(n),
    decreases n,
{
    if n > 1 {
        list_prefix(info, d, c, seen, cs, n - 1);
        assert(cs.take(n - 1)[n - 2] == seen.take(n - 1)[n - 2]);
        assert(info.step(d, seen[n - 2]) == Step::Next(seen[n - 1]));
        assert(list_goes_on(info, d, seen.take(n - 1)));
        if n - 1 == cs.len() {
            assert(cs.take(n - 1) =~= cs);
        } else {
            assert(info.step(d, cs[n - 2]) == Step::Next(cs[n - 1]));
            assert forall|k: int| 0 <= k < n implies cs[k] == seen[k] by {
                if k < n - 1 {
                    assert(cs.take(n - 1)[k] == seen.take(n - 1)[k]);
                }
            }
        }
    }
    assert(cs.take(n) =~= seen.take(n));
}

impl Fat32Info {
    /// Whether the data starts at a sector with a 32-bit number.
    pub fn geometry_is_sound(&self) -> (r: bool)
        ensures
            r == self.fits(),
    {
        assert(0 <= self.num_fats * self.fat_size_32 <= 255 * 0xFFFF_FFFF) by (nonlinear_arith)
            requires
                self.num_fats <= 255,
                self.fat_size_32 <= 0xFFFF_FFFF,
        ;
        self.partition_start_lba as u64 + self.reserved_sector_count as u64 + self.num_fats as u64
            * self.fat_size_32 as u64 <= 0xFFFF_FFFF
    }

    /// Whether a cluster is a data cluster that can be addressed.
    fn cluster_is_addressable(&self, c: u32) -> (r: bool)
        requires
            self.fits(),
        ensures
            r == self.addressable(c as int),
    {
        if c < 2 || c > 0x3FFF_FFFF {
            return false;
        }
        let spc: u64 = self.sectors_per_cluster as u64;
        assert(0 <= (c - 1) * spc <= 0x3FFF_FFFF * 255) by (nonlinear_arith)
            requires
                0 <= c - 1 <= 0x3FFF_FFFF,
                spc <= 255,
        ;
        self.first_data_sector() as u64 + (c as u64 - 1) * spc <= 0x1_0000_0000
            && self.first_fat_sector() as u64 + c as u64 * 4 / 512 <= 0xFFFF_FFFF
    }

    /// Whether the directory at `start_cluster` can be listed: its chain stays among
    /// clusters that can be addressed, and does not come back to itself before the end
    /// of the directory.
    pub fn is_listable(&self, disk: &Disk, start_cluster: u32) -> (r: bool)
        ensures
            r == (self.fits() && list_ready(*self, disk@, start_cluster as int)),
    {
        if !self.geometry_is_sound() {
            return false;
        }
        let ghost d = disk@;
        let ghost start = start_cluster as int;
        let ghost mut seen: Seq<int> = seq![start];
        let mut n: u32 = 1;
        let mut c: u32 = start_cluster;
        let mut entries: Vec<DirEntry> = Vec::new();
        // A cluster seen before this one, and when the next one is remembered.
        let mut saved: Option<u32> = None;
        let mut renew_at: u32 = 1;
        assert(short_entries(entries@) =~= Seq::<ShortEntry>::empty());
        assert(seen.take(0) =~= Seq::<int>::empty());
        loop
            invariant
                self.fits(),
                d == disk@,
                start == start_cluster,
                1 <= n <= 0x3FFF_FFFF,
                seen.len() == n,
                seen.last() == c,
                list_begins(*self, d, start, seen),
                list_clusters(*self, d, seen.take(n - 1), Seq::empty()) == Ok::<
                    (Seq<ShortEntry>, bool),
                    FsError,
                >((short_entries(entries@), false)),
                saved matches Some(s) ==> exists|k: int| 0 <= k < n - 1 && #[trigger] seen[k] == s,
            decreases 0x3FFF_FFFF - n,
        {
            let again: bool = match saved {
                Some(s) => s == c,
                None => false,
            };
            if n >= 0x3FFF_FFFF || again || !self.cluster_is_addressable(c) {
                proof {
                    if list_ready(*self, d, start) {
                        let cs = choose|cs: Seq<int>| list_run(*self, d, start, cs);
                        list_bounded(*self, d, start, cs);
                        list_prefix(*self, d, start, seen, cs, n as int);
                        assert(cs.take(n as int)[n - 1] == seen.take(n as int)[n - 1]);
                        assert(self.addressable(cs[n - 1]));
                        if again {
                            let k = choose|k: int|
                                0 <= k < n - 1 && #[trigger] seen[k] == saved.unwrap();
                            assert(cs.take(n as int)[k] == seen.take(n as int)[k]);
                            list_distinct(*self, d, start, cs, k, n - 1);
                        }
                    }
                }
                return false;
            }
            assert(seen.take(n as int) =~= seen);
            assert(seen.drop_last() =~= seen.take(n - 1));
            let ends: bool = match self.list_cluster(disk, c, &mut entries) {
                Err(_) => true,
                Ok(done) => done,
            };
            proof {
                assert forall|i: int| 0 <= i < seen.len() implies self.addressable(
                    #[trigger] seen[i],
                ) by {
                    if i < seen.len() - 1 {
                        assert(self.step(d, seen[i]) == Step::Next(seen[i + 1]));
                    }
                }
            }
            if ends {
                assert(list_run(*self, d, start, seen));
                return true;
            }
            assert(list_goes_on(*self, d, seen));
            match self.next_cluster(disk, c) {
                Ok(Some(next)) => {
                    let ghost longer = seen.push(next as int);
                    proof {
                        assert forall|i: int| 0 <= i < longer.len() - 1 implies #[trigger] self.step(
                            d,
                            longer[i],
                        ) == Step::Next(longer[i + 1]) && list_goes_on(
                            *self,
                            d,
                            longer.take(i + 1),
                        ) && self.addressable(longer[i]) by {
                            assert(longer.take(i + 1) =~= seen.take(i + 1));
                            if i < seen.len() - 1 {
                                assert(self.step(d, seen[i]) == Step::Next(seen[i + 1]));
                            }
                        }
                        assert(longer.take(n as int) =~= seen);
                    }
                    if n >= renew_at {
                        saved = Some(c);
                        assert(longer[n - 1] == c);
                        renew_at = if renew_at < 0x2000_0000 {
                            renew_at * 2
                        } else {
                            renew_at
                        };
                    } else {
                        proof {
                            if let Some(s) = saved {
                                let k = choose|k: int| 0 <= k < n - 1 && #[trigger] seen[k] == s;
                                assert(longer[k] == s);
                            }
                        }
                    }
                    proof {
                        seen = longer;
                    }
                    c = next;
                    n = n + 1;
                },
                _ => {
                    assert(list_run(*self, d, start, seen));
                    return true;
                },
            }
        }
    }
}

/// A boot sector is that of a FAT32 volume or that of a FAT12 volume, never of both.
pub proof fn one_kind_of_volume(s: Seq<u8>)
    ensures
        boot_error(s) is Some || crate::fat12::volume::boot_error(s) is Some,
{
}

/// The list of entries that a caller gets is the list that is spoken of: as many, in the same order,
/// with the same fields.
pub proof fn entries_are_seen_as_they_are(es: Seq<DirEntry>, i: int)
    requires
        0 <= i < es.len(),
    ensures
        short_entries(es).len() == es.len(),
        short_entries(es)[i].name == es[i].name@,
        short_entries(es)[i].is_dir == es[i].is_dir,
        short_entries(es)[i].size == es[i].size,
        short_entries(es)[i].start_cluster == es[i].start_cluster,
{
}

} // verus!
