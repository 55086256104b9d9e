//! FAT12 volumes: files and directories on a small disk.
//!
//! The root directory is a fixed range of sectors, and every other directory is
//! a chain of clusters. The file allocation table packs its entries 12 bits
//! each; a volume keeps all of it in memory.
//!
//! What a request changes is pending on the `Disk` when it returns. The caller writes it
//! out, and what the request comes to is what `Fat12Info::finish` makes of the drive's
//! answers.

use crate::bytes::{append_bytes, get_le16, le16};
use crate::disk::{Disk, DiskView, FsError};
use crate::fat12::table::{chain, entry, in_table, link, link_error, Link};
use crate::fat12::volume::{boot_error, boot_volume, Volume};
use crate::partition::PartitionEntry;
use vstd::prelude::*;

pub use crate::fat12::names::to_fat_datetime;

pub mod beside;
pub mod changes;
pub mod checks;
pub mod creation;
pub mod frames;
pub mod fresh;
pub mod gained;
pub mod laid;
pub mod layout;
pub mod laws;
pub mod listed;
pub mod names;
pub mod others;
pub mod reading;
pub mod refusals;
pub mod relisted;
pub mod removal;
pub mod requests;
pub mod resizing;
pub mod search;
pub mod spelling;
pub mod table;
pub mod undoing;
pub mod unknown;
pub mod volume;
pub mod writing;
pub mod writing_names;

verus! {

pub struct Fat12Info {
    sectors_per_cluster: u8,
    num_fats: u8,
    fat_size_16: u16,
    root_entry_count: u16,
    reserved_sector_count: u16,
    partition_start_lba: u32,
    fat_bytes: Vec<u8>,
}

impl View for Fat12Info {
    type V = Volume;

    closed spec fn view(&self) -> Volume {
        Volume {
            sectors_per_cluster: self.sectors_per_cluster as int,
            num_fats: self.num_fats as int,
            fat_size: self.fat_size_16 as int,
            root_entries: self.root_entry_count as int,
            reserved: self.reserved_sector_count as int,
            start: self.partition_start_lba as int,
            fat: self.fat_bytes@,
        }
    }
}

/// The first table as it is on disk.
pub open spec fn table_on(v: Volume, d: DiskView) -> Seq<u8> {
    Seq::new(
        (512 * v.fat_size) as nat,
        |i: int| d.at(v.first_fat_sector() + i / 512)[i % 512],
    )
}

/// The sectors of the first table are known.
pub open spec fn table_known(v: Volume, d: DiskView) -> bool {
    forall|k: int| 0 <= k < v.fat_size ==> d.has(#[trigger] v.fat_lba(k))
}

/// Sector numbers as mathematical integers.
pub open spec fn ints(s: Seq<u32>) -> Seq<int> {
    s.map_values(|x: u32| x as int)
}

/// Reads the boot sector of `partition` and its first file allocation table.
pub fn read_bpb(disk: &Disk, partition: &PartitionEntry) -> (r: Result<Fat12Info, FsError>)
    requires
        ({
            let s = disk@.at(partition.start_lba as int);
            disk@.has(partition.start_lba as int) && boot_error(s) is None ==> partition.start_lba
                + le16(s, 14) + le16(s, 22) - 1 <= u32::MAX
        }),
    ensures
        ({
            let start = partition.start_lba as int;
            let s = disk@.at(start);
            let v = boot_volume(s, start, disk@);
            if !disk@.has(start) {
                r == Err::<Fat12Info, FsError>(disk@.read_error(start))
            } else {
                match boot_error(s) {
                    Some(m) => r == Err::<Fat12Info, FsError>(FsError::Failed(m)),
                    None => match r {
                        Ok(info) => info@ == v && v.wf() && v.coherent(disk@),
                        Err(e) => exists|k: int|
                            0 <= k < v.fat_size && !disk@.has(#[trigger] v.fat_lba(k)) && (forall|
                                j: int,
                            |
                                0 <= j < k ==> disk@.has(#[trigger] v.fat_lba(j))) && e
                                == disk@.read_error(v.fat_lba(k)),
                    },
                }
            }
        }),
{
    let sector = match disk.read_sector(partition.start_lba) {
        Ok(b) => b,
        Err(e) => {
            return Err(e);
        },
    };
    if sector[510] != 0x55 || sector[511] != 0xAA {
        return Err(FsError::Failed("FAT12: boot sector missing 0x55AA signature"));
    }
    if get_le16(&sector, 11) != 512 {
        return Err(FsError::Failed("FAT12: only 512-byte sectors are supported"));
    }
    let sectors_per_cluster: u8 = sector[13];
    let reserved_sector_count: u16 = get_le16(&sector, 14);
    let num_fats: u8 = sector[16];
    let root_entry_count: u16 = get_le16(&sector, 17);
    let fat_size_16: u16 = get_le16(&sector, 22);
    if root_entry_count == 0 {
        return Err(
            FsError::Failed("not FAT12/16 (root_entry_count == 0 means this is FAT32)"),
        );
    }
    if fat_size_16 == 0 {
        return Err(FsError::Failed("FAT12: fat_size_16 is 0 - not a valid FAT12/16 BPB"));
    }
    let ghost v = boot_volume(sector@, partition.start_lba as int, disk@);
    let mut fat_bytes: Vec<u8> = Vec::new();
    let mut k: u32 = 0;
    while k < fat_size_16 as u32
        invariant
            k <= fat_size_16,
            disk@.has(partition.start_lba as int),
            sector@ == disk@.at(partition.start_lba as int),
            boot_error(sector@) is None,
            v == boot_volume(sector@, partition.start_lba as int, disk@),
            v.fat_size == fat_size_16,
            v.first_fat_sector() == partition.start_lba + reserved_sector_count,
            v.first_fat_sector() + v.fat_size - 1 <= u32::MAX,
            fat_bytes@ == v.fat.take(512 * k),
            forall|j: int|
                0 <= j < k ==> disk@.has(#[trigger] v.fat_lba(j)) && disk@.at(v.fat_lba(j))
                    == v.fat_sector(j),
        ensures
            k == fat_size_16,
        decreases fat_size_16 - k,
    {
        let lba: u32 = partition.start_lba + reserved_sector_count as u32 + k;
        assert(lba == v.fat_lba(k as int));
        let buf = match disk.read_sector(lba) {
            Ok(b) => b,
            Err(e) => {
                return Err(e);
            },
        };
        crate::bytes::append_bytes(&mut fat_bytes, &buf);
        assert(disk@.at(v.fat_lba(k as int)) =~= v.fat_sector(k as int)) by {
            assert forall|i: int| 0 <= i < 512 implies #[trigger] v.fat_sector(k as int)[i]
                == buf@[i] by {
                assert((512 * k + i) / 512 == k);
                assert((512 * k + i) % 512 == i);
            }
        }
        assert(v.fat.take(512 * (k + 1)) =~= v.fat.take(512 * k) + v.fat_sector(k as int));
        k = k + 1;
    }
    assert(v.fat.take(512 * k) =~= v.fat);
    Ok(
        Fat12Info {
            sectors_per_cluster,
            num_fats,
            fat_size_16,
            root_entry_count,
            reserved_sector_count,
            partition_start_lba: partition.start_lba,
            fat_bytes,
        },
    )
}

impl Fat12Info {
    fn first_fat_sector(&self) -> (r: u32)
        requires
            self@.geometry_fits(),
            self@.wf(),
        ensures
            r == self@.first_fat_sector(),
    {
        assert(self@.num_fats * self@.fat_size >= 0) by (nonlinear_arith)
            requires
                self@.num_fats >= 0,
                self@.fat_size >= 0,
        ;
        self.partition_start_lba + self.reserved_sector_count as u32
    }

    fn root_dir_sectors(&self) -> (r: u32)
        ensures
            r == self@.root_dir_sectors(),
    {
        (self.root_entry_count as u32 * 32 + 511) / 512
    }

    fn first_root_dir_sector(&self) -> (r: u32)
        requires
            self@.geometry_fits(),
            self@.wf(),
        ensures
            r == self@.first_root_dir_sector(),
    {
        assert(0 <= self.num_fats * self.fat_size_16 <= 255 * 65535) by (nonlinear_arith)
            requires
                self.num_fats <= 255,
                self.fat_size_16 <= 65535,
        ;
        self.first_fat_sector() + self.num_fats as u32 * self.fat_size_16 as u32
    }

    fn first_data_sector(&self) -> (r: u32)
        requires
            self@.geometry_fits(),
            self@.wf(),
        ensures
            r == self@.first_data_sector(),
    {
        self.first_root_dir_sector() + self.root_dir_sectors()
    }

    fn cluster_to_lba(&self, cluster: u32) -> (r: u32)
        requires
            self@.geometry_fits(),
            self@.wf(),
            self@.addressable(cluster as int),
        ensures
            r == self@.cluster_lba(cluster as int),
            r + self@.sectors_per_cluster <= 0x1_0000_0000,
    {
        proof {
            let spc = self@.sectors_per_cluster;
            assert((cluster - 1) * spc == (cluster - 2) * spc + spc) by (nonlinear_arith);
            assert(0 <= (cluster - 2) * spc) by (nonlinear_arith)
                requires
                    cluster >= 2,
                    spc >= 0,
            ;
            assert(spc == 0 ==> (cluster - 2) * spc == 0) by (nonlinear_arith);
        }
        self.first_data_sector() + (cluster - 2) * self.sectors_per_cluster as u32
    }

    /// The cluster that follows `cluster` in its chain.
    fn next_cluster(&self, cluster: u32) -> (r: Result<Option<u32>, FsError>)
        requires
            cluster <= 0x5555_5555,
        ensures
            match link(self@.fat, cluster as int) {
                Link::Next(n) => r == Ok::<Option<u32>, FsError>(Some(n as u32)) && 0 < n < 0xFF8,
                Link::End => r == Ok::<Option<u32>, FsError>(None),
                l => r == Err::<Option<u32>, FsError>(FsError::Failed(link_error(l)->0)),
            },
    {
        let byte_offset: usize = (cluster * 3 / 2) as usize;
        if byte_offset + 1 >= self.fat_bytes.len() {
            return Err(FsError::Failed("FAT12: cluster number out of range for this FAT"));
        }
        let value: u16 = self.table_entry(cluster);
        if value == 0 {
            Err(FsError::Failed("FAT12: cluster chain hit a free (0) entry unexpectedly"))
        } else if value >= 0x0FF8 {
            Ok(None)
        } else {
            Ok(Some(value as u32))
        }
    }

    /// The entry of `cluster` in the table.
    fn table_entry(&self, cluster: u32) -> (r: u16)
        requires
            cluster <= 0x5555_5555,
            in_table(self@.fat, cluster as int),
        ensures
            r == entry(self@.fat, cluster as int),
    {
        reveal(entry);
        let byte_offset: usize = (cluster * 3 / 2) as usize;
        let raw: u16 = get_le16(&self.fat_bytes, byte_offset);
        if cluster % 2 == 0 {
            raw % 4096
        } else {
            raw / 16
        }
    }

    /// Whether the table has no use for `cluster`: its entry is 0, or there is none.
    pub fn cluster_is_free(&self, cluster: u32) -> (r: bool)
        requires
            cluster <= 0x5555_5555,
        ensures
            r == (link(self@.fat, cluster as int) is Free || link(self@.fat, cluster as int) is OutOfRange),
    {
        self.next_cluster(cluster).is_err()
    }

    /// Reads the table in memory from the disk again.
    fn reload_table(&mut self, disk: &Disk)
        requires
            old(self)@.wf(),
            old(self)@.first_fat_sector() + old(self)@.fat_size <= u32::MAX,
            table_known(old(self)@, disk@),
        ensures
            final(self)@ == old(self)@.with_fat(table_on(old(self)@, disk@)),
            final(self)@.wf(),
            final(self)@.coherent(disk@),
    {
        let ghost v = self@;
        let ghost want = table_on(v, disk@);
        let first: u32 = self.partition_start_lba + self.reserved_sector_count as u32;
        let mut fat_bytes: Vec<u8> = Vec::new();
        let mut k: u32 = 0;
        assert(fat_bytes@ =~= want.take(0));
        while k < self.fat_size_16 as u32
            invariant
                self@ == v,
                k <= v.fat_size,
                first == v.first_fat_sector(),
                first + v.fat_size <= u32::MAX,
                table_known(v, disk@),
                want == table_on(v, disk@),
                fat_bytes@ == want.take(512 * k),
            decreases v.fat_size - k,
        {
            assert(disk@.has(v.fat_lba(k as int)));
            if let Ok(sector) = disk.read_sector(first + k) {
                append_bytes(&mut fat_bytes, &sector);
                assert(fat_bytes@ =~= want.take(512 * (k + 1)));
            }
            k = k + 1;
        }
        assert(want.take(512 * v.fat_size) =~= want);
        self.fat_bytes = fat_bytes;
        assert(self@ =~= v.with_fat(want));
        proof {
            disk.sector_sizes();
        }
        assert forall|k: int| 0 <= k < self@.fat_size implies disk@.has(#[trigger] self@.fat_lba(k))
            && disk@.at(self@.fat_lba(k)) == self@.fat_sector(k) by {
            assert(disk@.has(v.fat_lba(k)));
            assert(disk@.at(self@.fat_lba(k)) =~= self@.fat_sector(k));
        }
    }

    /// Ends a request that came to `outcome`, once the first `taken` of its changes were
    /// written out. If the drive refused the next one, that is what the request comes to:
    /// the changes from there on are taken back, the table in memory is again the one on
    /// disk, and the refused sector has to be read again.
    pub fn finish<T>(
        &mut self,
        disk: &mut Disk,
        outcome: Result<T, FsError>,
        taken: usize,
        refusal: Option<&'static str>,
    ) -> (r: Result<T, FsError>)
        requires
            old(self)@.wf(),
            old(self)@.first_fat_sector() + old(self)@.fat_size <= u32::MAX,
            match refusal {
                Some(_) => taken < old(disk)@.pending.len() && table_known(
                    old(self)@,
                    old(disk)@.undone(taken as int),
                ),
                None => taken == old(disk)@.pending.len(),
            },
        ensures
            final(self)@.wf(),
            final(disk)@ == old(disk)@.finished(taken as int),
            match refusal {
                Some(reason) => r == Err::<T, FsError>(FsError::Failed(reason)) && final(self)@
                    == old(self)@.with_fat(
                    table_on(old(self)@, old(disk)@.undone(taken as int)),
                ) && final(self)@.coherent(old(disk)@.undone(taken as int)),
                None => r == outcome && final(self)@ == old(self)@,
            },
    {
        match refusal {
            Some(reason) => {
                let refused: u32 = disk.pending()[taken].0;
                disk.undo_to(taken);
                self.reload_table(disk);
                disk.forget(refused);
                disk.settle();
                Err(FsError::Failed(reason))
            },
            None => {
                disk.settle();
                outcome
            },
        }
    }
}

} // verus!
