//! Creating, changing and removing.

use crate::bytes::{copy_into, to_le32};
use crate::disk::{Disk, DiskView, FsError};
use crate::fat12::changes::{
    add_directory, add_file, clusters_needed, create_directory, create_directory_ready, create_file,
    create_ready, data_block, delete_directory, delete_directory_ready, delete_file, delete_ready,
    dot_entries, dot_name, file_entry, find_run, first_run, free_below, free_chain, free_list,
    free_slot, grow_directory, lay_chain, listed, pick_free, put_entries, remove_entry, reserve,
    resized, run_at, subdir_entry, write_cluster, write_file, write_ready, Store,
};
use crate::fat12::frames::{
    cluster_in_data, dir_outside_fat, first_run_sound, found_outside_fat, free_below_prefix, layout,
    outside_fat, picked, put_mounted, same_outside, set_link_mounted, write_cluster_frame,
};
use crate::fat12::names::{build_dir_entry, slots_view, to_fat_datetime};
use crate::fat12::table::{
    chain, chain_bounded, ends, entry, freeing_decreases, in_table, link, link_error, run,
    set_entry, used_below,
};
use crate::fat12::volume::{chain_ready, dir_lbas, dir_ready, list_ready, DirLocation, Volume};
use crate::fat12::{ints, Fat12Info};
use crate::fat_common::{entries_view, slot, DirEntry};
use crate::rtc::RtcTime;
use crate::text::{eq_ignore_case, same_name};
use vstd::prelude::*;
use vstd::utf8::encode_utf8;

verus! {

/// The volume `v` on the disk `d`.
pub open spec fn store(v: Volume, d: DiskView) -> Store {
    Store { v, d }
}

impl Fat12Info {
    /// Sets the entry of `cluster` to `value`, in the first table on disk and in
    /// memory. An entry shares a byte with its neighbour, whose half is kept.
    pub(crate) fn write_fat_entry_to_disk(
        &mut self,
        disk: &mut Disk,
        cluster: u32,
        value: u16,
    ) -> (r: Result<(), FsError>)
        requires
            store(old(self)@, old(disk)@).mounted(),
            cluster <= 0x5555_5555,
        ensures
            in_table(old(self)@.fat, cluster as int) ==> r is Ok && store(
                final(self)@,
                final(disk)@,
            ) == store(old(self)@, old(disk)@).set_link(cluster as int, value as int),
            !in_table(old(self)@.fat, cluster as int) ==> r == Err::<(), FsError>(
                FsError::Failed("FAT12: cluster number out of range for this FAT"),
            ) && final(self)@ == old(self)@ && final(disk)@ == old(disk)@,
            store(final(self)@, final(disk)@).mounted(),
    {
        let ghost st = store(self@, disk@);
        let byte_offset: usize = (cluster * 3 / 2) as usize;
        if byte_offset + 1 >= self.fat_bytes.len() {
            return Err(FsError::Failed("FAT12: cluster number out of range for this FAT"));
        }
        proof {
            set_link_mounted(st, cluster as int, value as int);
            layout(st.v);
        }
        let ghost after = st.set_link(cluster as int, value as int);
        reveal(Store::set_link);
        reveal(set_entry);
        let ghost k = byte_offset as int / 512;
        assert(0 <= k < st.v.fat_size);
        assert(st.d.has(st.v.fat_lba(k)));
        let sector0: u32 = self.first_fat_sector() + (byte_offset / 512) as u32;
        let offset0: usize = byte_offset % 512;
        let straddles: bool = offset0 == 511;
        let mut buf0 = match disk.read_sector(sector0) {
            Ok(b) => b,
            Err(e) => {
                return Err(e);
            },
        };
        let mut buf1: [u8; 512] = [0u8; 512];
        if straddles {
            assert(k + 1 < st.v.fat_size);
            assert(st.d.has(st.v.fat_lba(k + 1)));
            buf1 = match disk.read_sector(sector0 + 1) {
                Ok(b) => b,
                Err(e) => {
                    return Err(e);
                },
            };
        }
        let byte0: u8 = buf0[offset0];
        let byte1: u8 = if straddles {
            buf1[0]
        } else {
            buf0[offset0 + 1]
        };
        assert(byte0 == st.v.fat[byte_offset as int]);
        assert(byte1 == st.v.fat[byte_offset + 1]);
        let raw: u16 = byte0 as u16 + 256 * (byte1 as u16);
        let masked: u16 = value % 4096;
        let new: u16 = if cluster % 2 == 0 {
            raw - raw % 4096 + masked
        } else {
            raw % 16 + masked * 16
        };
        let out0: u8 = (new % 256) as u8;
        let out1: u8 = (new / 256) as u8;
        assert(after.v.fat =~= st.v.fat.update(byte_offset as int, out0).update(
            byte_offset + 1,
            out1,
        ));
        buf0[offset0] = out0;
        if straddles {
            buf1[0] = out1;
            assert(buf0@ =~= after.v.fat_sector(k));
            assert(buf1@ =~= after.v.fat_sector(k + 1));
            disk.write_sector(sector0, &buf0);
            disk.write_sector(sector0 + 1, &buf1);
        } else {
            buf0[offset0 + 1] = out1;
            assert(buf0@ =~= after.v.fat_sector(k));
            disk.write_sector(sector0, &buf0);
        }
        assert(disk@ == after.d);
        self.fat_bytes.set(byte_offset, out0);
        self.fat_bytes.set(byte_offset + 1, out1);
        assert(self@ =~= after.v);
        Ok(())
    }

    /// The first `count` free clusters, in ascending order. They are all looked up
    /// at once, so that they are different ones.
    pub(crate) fn find_free_clusters(&self, count: usize) -> (r: Result<Vec<u32>, FsError>)
        requires
            self@.wf(),
        ensures
            match pick_free(self@, count as int) {
                Ok(cs) => r matches Ok(got) && ints(got@) == cs,
                Err(e) => r == Err::<Vec<u32>, FsError>(e),
            },
    {
        let total: u32 = (self.fat_bytes.len() as u64 * 2 / 3) as u32;
        let ghost fat = self@.fat;
        let mut found: Vec<u32> = Vec::new();
        let mut cluster: u32 = 2;
        assert(ints(found@) =~= Seq::<int>::empty());
        assert(free_below(fat, 2) =~= Seq::<int>::empty());
        while cluster < total && found.len() != count
            invariant
                self@.wf(),
                fat == self@.fat,
                total == self@.total_entries(),
                2 <= cluster,
                cluster <= total || cluster == 2,
                found.len() <= count,
                ints(found@) == free_below(fat, cluster as int),
            decreases total - cluster,
        {
            assert(in_table(fat, cluster as int));
            let value: u16 = self.table_entry(cluster);
            if value == 0 {
                let ghost before = found@;
                found.push(cluster);
                assert(ints(found@) =~= ints(before).push(cluster as int));
            }
            cluster = cluster + 1;
        }
        proof {
            if cluster < total {
                free_below_prefix(fat, cluster as int, total as int);
            } else {
                assert(free_below(fat, total as int) =~= free_below(fat, cluster as int));
            }
        }
        if found.len() < count {
            return Err(
                FsError::Failed("FAT12: not enough free clusters available for this file"),
            );
        }
        assert(free_below(fat, total as int).take(count as int) =~= ints(found@));
        Ok(found)
    }

    /// Fills the sectors of `cluster` with successive blocks of `data`, the first
    /// one number `block`, and with zeros behind the end of `data`.
    fn write_cluster_data(&self, disk: &mut Disk, cluster: u32, data: &[u8], block: u64)
        requires
            store(self@, old(disk)@).mounted(),
            self@.addressable(cluster as int),
            block <= 0xFFFF_FFFF_FFFF,
        ensures
            store(self@, final(disk)@) == write_cluster(
                store(self@, old(disk)@),
                cluster as int,
                0,
                data@,
                block as int,
            ),
            store(self@, final(disk)@).mounted(),
    {
        let ghost whole = write_cluster(
            store(self@, disk@),
            cluster as int,
            0,
            data@,
            block as int,
        );
        proof {
            write_cluster_frame(store(self@, disk@), cluster as int, 0, data@, block as int);
        }
        let first: u32 = self.cluster_to_lba(cluster);
        let n: u32 = self.sectors_per_cluster as u32;
        let mut s: u32 = 0;
        while s < n
            invariant
                s <= n,
                n == self@.sectors_per_cluster,
                n < 256,
                first == self@.cluster_lba(cluster as int),
                first + n <= 0x1_0000_0000,
                block <= 0xFFFF_FFFF_FFFF,
                whole == write_cluster(
                    store(self@, disk@),
                    cluster as int,
                    s as int,
                    data@,
                    block as int,
                ),
            decreases n - s,
        {
            let mut buf: [u8; 512] = [0u8; 512];
            let start: u64 = 512 * (block + s as u64);
            if start < data.len() as u64 {
                let from: usize = start as usize;
                let end: usize = if data.len() - from > 512 {
                    from + 512
                } else {
                    data.len()
                };
                copy_into(&mut buf, 0, vstd::slice::slice_subrange(data, from, end));
            }
            assert(buf@ =~= data_block(data@, block + s));
            disk.write_sector(first + s, &buf);
            s = s + 1;
        }
    }

    /// Lays `data` across `clusters` in order and chains them.
    fn write_chain(&mut self, disk: &mut Disk, clusters: &Vec<u32>, data: &[u8])
        requires
            store(old(self)@, old(disk)@).mounted(),
            clusters.len() <= 0x1000_0000,
            forall|i: int|
                0 <= i < clusters@.len() ==> old(self)@.addressable(
                    #[trigger] ints(clusters@)[i],
                ) && in_table(old(self)@.fat, ints(clusters@)[i]),
        ensures
            store(final(self)@, final(disk)@) == lay_chain(
                store(old(self)@, old(disk)@),
                ints(clusters@),
                0,
                data@,
            ),
            store(final(self)@, final(disk)@).mounted(),
            final(self)@ == old(self)@.with_fat(final(self)@.fat),
    {
        let ghost cs = ints(clusters@);
        let ghost st0 = store(self@, disk@);
        let ghost whole = lay_chain(st0, cs, 0, data@);
        let spc: u64 = self.sectors_per_cluster as u64;
        let mut i: usize = 0;
        let mut block: u64 = 0;
        assert(0 * spc == 0) by (nonlinear_arith);
        while i < clusters.len()
            invariant
                i <= clusters.len() <= 0x1000_0000,
                cs == ints(clusters@),
                store(self@, disk@).mounted(),
                self@ == st0.v.with_fat(self@.fat),
                self@.fat.len() == st0.v.fat.len(),
                spc == self@.sectors_per_cluster,
                spc < 256,
                block == i * spc,
                block <= 256 * i,
                forall|j: int|
                    0 <= j < clusters@.len() ==> st0.v.addressable(#[trigger] cs[j]) && in_table(
                        st0.v.fat,
                        cs[j],
                    ),
                whole == lay_chain(store(self@, disk@), cs, i as int, data@),
            decreases clusters.len() - i,
        {
            let c: u32 = clusters[i];
            assert(cs[i as int] == c);
            assert(self@.addressable(cs[i as int]));
            assert(in_table(self@.fat, cs[i as int]));
            let ghost before = store(self@, disk@);
            self.write_cluster_data(disk, c, data, block);
            let ghost mid = store(self@, disk@);
            let next: u32 = if i + 1 < clusters.len() {
                clusters[i + 1]
            } else {
                0x0FFF
            };
            let next_entry: u16 = (next % 0x10000) as u16;
            proof {
                set_link_mounted(mid, c as int, next_entry as int);
                reveal(Store::set_link);
                set_entry_low_bits(self@.fat, c as int, next as int);
                assert(mid.set_link(c as int, next_entry as int) == mid.set_link(
                    c as int,
                    next as int,
                ));
                if i + 1 < clusters.len() {
                    assert(cs[i + 1] == next);
                }
                assert((i + 1) * spc == i * spc + spc) by (nonlinear_arith);
            }
            let _ = self.write_fat_entry_to_disk(disk, c, next_entry);
            block = block + spc;
            i = i + 1;
        }
    }

    /// Frees the clusters of `clusters` from number `from` on.
    fn free_clusters_from(&mut self, disk: &mut Disk, clusters: &Vec<u32>, from: usize)
        requires
            store(old(self)@, old(disk)@).mounted(),
            forall|i: int|
                0 <= i < clusters@.len() ==> #[trigger] ints(clusters@)[i] <= 0x5555_5555
                    && in_table(old(self)@.fat, ints(clusters@)[i]),
        ensures
            store(final(self)@, final(disk)@) == free_list(
                store(old(self)@, old(disk)@),
                ints(clusters@),
                from as int,
            ),
            store(final(self)@, final(disk)@).mounted(),
            final(self)@ == old(self)@.with_fat(final(self)@.fat),
            final(self)@.fat.len() == old(self)@.fat.len(),
    {
        let ghost cs = ints(clusters@);
        let ghost st0 = store(self@, disk@);
        let ghost whole = free_list(st0, cs, from as int);
        let mut i: usize = from;
        while i < clusters.len()
            invariant
                cs == ints(clusters@),
                store(self@, disk@).mounted(),
                self@ == st0.v.with_fat(self@.fat),
                self@.fat.len() == st0.v.fat.len(),
                forall|j: int|
                    0 <= j < clusters@.len() ==> #[trigger] cs[j] <= 0x5555_5555 && in_table(
                        st0.v.fat,
                        cs[j],
                    ),
                whole == free_list(store(self@, disk@), cs, i as int),
            decreases clusters.len() - i,
        {
            let c: u32 = clusters[i];
            assert(cs[i as int] == c);
            proof {
                set_link_mounted(store(self@, disk@), c as int, 0);
            }
            let _ = self.write_fat_entry_to_disk(disk, c, 0);
            i = i + 1;
        }
    }

    /// The clusters of the chain that starts at `start`.
    fn chain_clusters(&self, start: u32) -> (r: Result<Vec<u32>, FsError>)
        requires
            start <= 0x5555_5555,
            ends(self@.fat, start as int),
        ensures
            ({
                let cs = chain(self@.fat, start as int);
                match link_error(link(self@.fat, cs.last())) {
                    Some(m) => r == Err::<Vec<u32>, FsError>(FsError::Failed(m)),
                    None => r matches Ok(got) && ints(got@) == cs && forall|i: int|
                        0 <= i < cs.len() ==> in_table(self@.fat, #[trigger] cs[i]) && cs[i]
                            <= 0x5555_5555,
                }
            }),
    {
        let ghost cs = chain(self@.fat, start as int);
        let ghost mut i: int = 0;
        let mut c: u32 = start;
        let mut clusters: Vec<u32> = Vec::new();
        assert(run(self@.fat, start as int, cs));
        assert(ints(clusters@) =~= cs.take(0));
        loop
            invariant
                run(self@.fat, start as int, cs),
                cs == chain(self@.fat, start as int),
                0 <= i < cs.len(),
                c == cs[i],
                c <= 0x5555_5555,
                ints(clusters@) == cs.take(i),
                forall|j: int|
                    0 <= j < i ==> in_table(self@.fat, #[trigger] cs[j]) && cs[j] <= 0x5555_5555,
            decreases cs.len() - i,
        {
            let ghost before = clusters@;
            clusters.push(c);
            assert(ints(clusters@) =~= ints(before).push(c as int));
            assert(ints(clusters@) =~= cs.take(i + 1));
            match self.next_cluster(c) {
                Ok(Some(n)) => {
                    assert(link(self@.fat, cs[i]) is Next);
                    c = n;
                    proof {
                        i = i + 1;
                    }
                },
                Ok(None) => {
                    assert(i == cs.len() - 1) by {
                        if i < cs.len() - 1 {
                            assert(link(self@.fat, cs[i]) is Next);
                        }
                    }
                    assert(cs.take(i + 1) =~= cs);
                    return Ok(clusters);
                },
                Err(e) => {
                    assert(i == cs.len() - 1) by {
                        if i < cs.len() - 1 {
                            assert(link(self@.fat, cs[i]) is Next);
                        }
                    }
                    return Err(e);
                },
            }
        }
    }

    /// Appends a zeroed cluster to the directory that starts at `start_cluster`.
    /// Its first slot, which is free.
    fn grow_directory(&mut self, disk: &mut Disk, start_cluster: u32) -> (r: Result<
        (u32, usize),
        FsError,
    >)
        requires
            store(old(self)@, old(disk)@).mounted(),
            old(self)@.clusters_fit(),
            chain_ready(old(self)@, start_cluster as int),
        ensures
            ({
                let (st1, at) = grow_directory(
                    store(old(self)@, old(disk)@),
                    start_cluster as int,
                );
                &&& store(final(self)@, final(disk)@) == st1
                &&& match at {
                    Ok(lba) => r matches Ok(got) && got.0 == lba && got.1 == 0 && final(disk)@.has(
                        lba,
                    ) && outside_fat(final(self)@, lba),
                    Err(e) => r == Err::<(u32, usize), FsError>(e),
                }
            }),
            store(final(self)@, final(disk)@).mounted(),
            final(self)@ == old(self)@.with_fat(final(self)@.fat),
            final(self)@.fat.len() == old(self)@.fat.len(),
    {
        let ghost st0 = store(self@, disk@);
        let ghost cs = chain(self@.fat, start_cluster as int);
        assert(run(self@.fat, start_cluster as int, cs));
        assert(self@.addressable(cs[0]));
        assert(self@.addressable(cs[cs.len() - 1]));
        let clusters = match self.chain_clusters(start_cluster) {
            Ok(l) => l,
            Err(e) => {
                return Err(e);
            },
        };
        let tail: u32 = clusters[clusters.len() - 1];
        assert(ints(clusters@)[clusters@.len() - 1] == tail);
        assert(in_table(self@.fat, cs[cs.len() - 1]));
        proof {
            picked(self@, 1);
        }
        let found = match self.find_free_clusters(1) {
            Ok(l) => l,
            Err(e) => {
                return Err(e);
            },
        };
        let new_cluster: u32 = found[0];
        assert(ints(found@)[0] == new_cluster);
        let new_lba: u32 = self.cluster_to_lba(new_cluster);
        let none: [u8; 0] = [];
        assert(none@ =~= Seq::<u8>::empty());
        proof {
            write_cluster_frame(st0, new_cluster as int, 0, Seq::empty(), 0);
            assert(write_cluster(st0, new_cluster as int, 0, Seq::empty(), 0).d.has(
                new_lba as int,
            ));
            layout(self@);
            cluster_in_data(self@, new_cluster as int);
        }
        self.write_cluster_data(disk, new_cluster, &none, 0);
        let ghost st1 = store(self@, disk@);
        let next_entry: u16 = (new_cluster % 0x10000) as u16;
        proof {
            reveal(Store::set_link);
            set_entry_low_bits(st1.v.fat, tail as int, new_cluster as int);
            assert(st1.set_link(tail as int, next_entry as int) == st1.set_link(
                tail as int,
                new_cluster as int,
            ));
            set_link_mounted(st1, tail as int, next_entry as int);
        }
        let _ = self.write_fat_entry_to_disk(disk, tail, next_entry);
        let ghost st2 = store(self@, disk@);
        proof {
            assert(st2.d.at(new_lba as int) == st1.d.at(new_lba as int));
            set_link_mounted(st2, new_cluster as int, 0xFFF);
        }
        let _ = self.write_fat_entry_to_disk(disk, new_cluster, 0x0FFF);
        assert(disk@.at(new_lba as int) == st2.d.at(new_lba as int));
        Ok((new_lba, 0))
    }

    /// Finds `count` free slots in a row in one sector of a directory. A directory
    /// that is a chain grows if it has none; the root directory cannot.
    fn find_free_entry_run_in(&mut self, disk: &mut Disk, dir: DirLocation, count: usize) -> (r:
        Result<Vec<(u32, usize)>, FsError>)
        requires
            store(old(self)@, old(disk)@).mounted(),
            old(self)@.clusters_fit(),
            dir_ready(old(self)@, dir),
            count >= 1,
        ensures
            ({
                let (st1, at) = reserve(store(old(self)@, old(disk)@), dir, count as int);
                &&& store(final(self)@, final(disk)@) == st1
                &&& match at {
                    Ok((lba, first)) => r matches Ok(slots) && slots_at(
                        slots@,
                        lba,
                        first,
                        count as int,
                    ) && final(disk)@.has(lba) && outside_fat(final(self)@, lba),
                    Err(e) => r == Err::<Vec<(u32, usize)>, FsError>(e),
                }
            }),
            store(final(self)@, final(disk)@).mounted(),
            final(self)@ == old(self)@.with_fat(final(self)@.fat),
            final(self)@.fat.len() == old(self)@.fat.len(),
    {
        reveal(reserve);
        if count > 16 {
            return Err(
                FsError::Failed(
                    "FAT12: cannot reserve that many consecutive directory-entry slots within one sector",
                ),
            );
        }
        let lbas = match self.directory_sectors(dir) {
            Ok(l) => l,
            Err(e) => {
                return Err(e);
            },
        };
        proof {
            dir_outside_fat(self@, dir);
        }
        let mut j: usize = 0;
        while j < lbas.len()
            invariant
                j <= lbas.len(),
                1 <= count <= 16,
                self@ == old(self)@,
                disk@ == old(disk)@,
                store(self@, disk@).mounted(),
                dir_lbas(self@, dir) == Ok::<Seq<int>, FsError>(ints(lbas@)),
                forall|i: int|
                    0 <= i < ints(lbas@).len() ==> outside_fat(self@, #[trigger] ints(lbas@)[i]),
                find_run(disk@, ints(lbas@), 0, count as int) == find_run(
                    disk@,
                    ints(lbas@),
                    j as int,
                    count as int,
                ),
            decreases lbas.len() - j,
        {
            reveal(reserve);
            let lba: u32 = lbas[j];
            assert(ints(lbas@)[j as int] == lba);
            let sector = match disk.read_sector(lba) {
                Ok(b) => b,
                Err(e) => {
                    return Err(e);
                },
            };
            match find_run_in_sector(&sector, count) {
                Some(first) => {
                    proof {
                        first_run_sound(sector@, 0, count as int);
                    }
                    return Ok(slot_list(lba, first, count));
                },
                None => {},
            }
            j = j + 1;
        }
        match dir {
            DirLocation::Root => Err(
                FsError::Failed("FAT12: root directory is full, no free entry slot"),
            ),
            DirLocation::Cluster(start_cluster) => {
                match self.grow_directory(disk, start_cluster) {
                    Ok((lba, _)) => Ok(slot_list(lba, 0, count)),
                    Err(e) => Err(e),
                }
            },
        }
    }

    /// Finds one free slot in a directory.
    pub fn find_free_entry_in(&mut self, disk: &mut Disk, dir: DirLocation) -> (r: Result<
        (u32, usize),
        FsError,
    >)
        requires
            store(old(self)@, old(disk)@).mounted(),
            old(self)@.clusters_fit(),
            dir_ready(old(self)@, dir),
        ensures
            ({
                let (st1, at) = reserve(store(old(self)@, old(disk)@), dir, 1);
                &&& store(final(self)@, final(disk)@) == st1
                &&& match at {
                    Ok((lba, first)) => r matches Ok(got) && got.0 == lba && got.1 == 32 * first,
                    Err(e) => r == Err::<(u32, usize), FsError>(e),
                }
            }),
            store(final(self)@, final(disk)@).mounted(),
    {
        match self.find_free_entry_run_in(disk, dir, 1) {
            Ok(slots) => Ok(slots[0]),
            Err(e) => Err(e),
        }
    }

    /// Writes the long entries and, behind them, the short entry into their slots.
    fn write_name_entries(
        &self,
        disk: &mut Disk,
        slots: &Vec<(u32, usize)>,
        long_entries: &Vec<[u8; 32]>,
        short_entry: [u8; 32],
    ) -> (r: Result<(), FsError>)
        requires
            store(self@, old(disk)@).mounted(),
            slots_at(
                slots@,
                slots@[0].0 as int,
                slots@[0].1 as int / 32,
                (long_entries@.len() + 1) as int,
            ),
            old(disk)@.has(slots@[0].0 as int),
            outside_fat(self@, slots@[0].0 as int),
        ensures
            r == Ok::<(), FsError>(()),
            final(disk)@ == put_entries(
                old(disk)@,
                slots@[0].0 as int,
                slots@[0].1 as int / 32,
                slots_view(long_entries@).push(short_entry@),
                0,
            ),
            store(self@, final(disk)@).mounted(),
    {
        let ghost lba = slots@[0].0 as int;
        let ghost first = slots@[0].1 as int / 32;
        let ghost all = slots_view(long_entries@).push(short_entry@);
        let ghost whole = put_entries(disk@, lba, first, all, 0);
        let mut m: usize = 0;
        while m < slots.len()
            invariant
                m <= slots.len(),
                slots.len() == long_entries.len() + 1,
                all == slots_view(long_entries@).push(short_entry@),
                slots_at(slots@, lba, first, (long_entries@.len() + 1) as int),
                store(self@, disk@).mounted(),
                disk@.has(lba),
                outside_fat(self@, lba),
                whole == put_entries(disk@, lba, first, all, m as int),
            decreases slots.len() - m,
        {
            let (l, offset): (u32, usize) = slots[m];
            assert(slots@[m as int] == (l, offset));
            let entry: [u8; 32] = if m < long_entries.len() {
                long_entries[m]
            } else {
                short_entry
            };
            assert(entry@ == all[m as int]);
            let mut sector = match disk.read_sector(l) {
                Ok(b) => b,
                Err(e) => {
                    return Err(e);
                },
            };
            copy_into(&mut sector, offset, &entry);
            proof {
                put_mounted(store(self@, disk@), lba, sector@);
            }
            disk.write_sector(l, &sector);
            m = m + 1;
        }
        Ok(())
    }

    /// Creates the file `name` with the contents `data` in the root directory.
    pub fn create_file(&mut self, disk: &mut Disk, name: &str, data: &[u8], time: &RtcTime) -> (r:
        Result<(), FsError>)
        requires
            create_ready(store(old(self)@, old(disk)@), DirLocation::Root, name@),
        ensures
            ({
                let (st, result) = create_file(
                    store(old(self)@, old(disk)@),
                    DirLocation::Root,
                    name@,
                    data@,
                    *time,
                );
                store(final(self)@, final(disk)@) == st && r == result
            }),
            store(final(self)@, final(disk)@).mounted(),
    {
        self.create_file_impl(disk, DirLocation::Root, name, data, time)
    }

    /// Creates the file `name` with the contents `data` in the directory whose
    /// first cluster is `dir_cluster`.
    pub fn create_file_in(
        &mut self,
        disk: &mut Disk,
        dir_cluster: u32,
        name: &str,
        data: &[u8],
        time: &RtcTime,
    ) -> (r: Result<(), FsError>)
        requires
            create_ready(
                store(old(self)@, old(disk)@),
                DirLocation::Cluster(dir_cluster),
                name@,
            ),
        ensures
            ({
                let (st, result) = create_file(
                    store(old(self)@, old(disk)@),
                    DirLocation::Cluster(dir_cluster),
                    name@,
                    data@,
                    *time,
                );
                store(final(self)@, final(disk)@) == st && r == result
            }),
            store(final(self)@, final(disk)@).mounted(),
    {
        self.create_file_impl(disk, DirLocation::Cluster(dir_cluster), name, data, time)
    }

    fn create_file_impl(
        &mut self,
        disk: &mut Disk,
        dir: DirLocation,
        name: &str,
        data: &[u8],
        time: &RtcTime,
    ) -> (r: Result<(), FsError>)
        requires
            create_ready(store(old(self)@, old(disk)@), dir, name@),
        ensures
            ({
                let (st, result) = create_file(
                    store(old(self)@, old(disk)@),
                    dir,
                    name@,
                    data@,
                    *time,
                );
                store(final(self)@, final(disk)@) == st && r == result
            }),
            store(final(self)@, final(disk)@).mounted(),
    {
        match self.read_file_impl(disk, dir, name) {
            Ok(_) => {
                return Err(FsError::Failed("FAT12: a file with that name already exists"));
            },
            Err(FsError::Missing(l)) => {
                return Err(FsError::Missing(l));
            },
            Err(FsError::Failed(_)) => {},
        }
        let (short_name, long_entries): ([u8; 11], Vec<[u8; 32]>) = match self.build_name_entries(
            disk,
            dir,
            name,
        ) {
            Ok(n) => n,
            Err(e) => {
                return Err(e);
            },
        };
        self.add_file(disk, dir, &short_name, &long_entries, data, time)
    }

    /// Adds a file under a name whose entries are given. The slots of the entry are
    /// taken before the clusters of the contents are chosen: taking them can use up
    /// a free cluster.
    fn add_file(
        &mut self,
        disk: &mut Disk,
        dir: DirLocation,
        short_name: &[u8; 11],
        long_entries: &Vec<[u8; 32]>,
        data: &[u8],
        time: &RtcTime,
    ) -> (r: Result<(), FsError>)
        requires
            store(old(self)@, old(disk)@).mounted(),
            old(self)@.clusters_fit(),
            dir_ready(old(self)@, dir),
            long_entries@.len() <= 15,
        ensures
            ({
                let (st, result) = add_file(
                    store(old(self)@, old(disk)@),
                    dir,
                    short_name@,
                    slots_view(long_entries@),
                    data@,
                    *time,
                );
                store(final(self)@, final(disk)@) == st && r == result
            }),
            store(final(self)@, final(disk)@).mounted(),
    {
        let slots = match self.find_free_entry_run_in(disk, dir, long_entries.len() + 1) {
            Ok(l) => l,
            Err(e) => {
                return Err(e);
            },
        };
        let ghost at = reserve(
            store(old(self)@, old(disk)@),
            dir,
            (long_entries@.len() + 1) as int,
        ).1->Ok_0;
        assert(slots@[0].0 == at.0 && slots@[0].1 == 32 * (at.1 + 0));
        let needed: usize = self.clusters_for(data.len());
        let clusters = match self.find_free_clusters(needed) {
            Ok(l) => l,
            Err(e) => {
                return Err(e);
            },
        };
        let ghost st1 = store(self@, disk@);
        proof {
            picked(self@, needed as int);
        }
        let ghost cs = ints(clusters@);
        self.write_chain(disk, &clusters, data);
        assert(cs[0] == clusters@[0]);
        proof {
            lay_chain_has(st1, cs, 0, data@, slots@[0].0 as int);
        }
        let (fat_time, fat_date): (u16, u16) = to_fat_datetime(time);
        let entry = build_dir_entry(
            short_name,
            0x20,
            clusters[0],
            low_word(data.len()),
            fat_time,
            fat_date,
        );
        assert(entry@ == file_entry(short_name@, cs[0], data@.len(), *time));
        self.write_name_entries(disk, &slots, long_entries, entry)
    }

    /// The number of clusters for `len` bytes.
    fn clusters_for(&self, len: usize) -> (n: usize)
        requires
            self@.sectors_per_cluster >= 1,
        ensures
            n == clusters_needed(len as int, self@.sectors_per_cluster),
            n >= 1,
    {
        let size: usize = self.sectors_per_cluster as usize * 512;
        proof {
            let q = len as int / size as int;
            vstd::arithmetic::div_mod::lemma_fundamental_div_mod(len as int, size as int);
            assert(len % size != 0 ==> q < len) by (nonlinear_arith)
                requires
                    len == size * q + len % size,
                    size >= 512,
                    q >= 0,
            ;
            assert(q >= 0) by (nonlinear_arith)
                requires
                    q == len as int / size as int,
                    size >= 512,
            ;
            assert(len > 0 && len % size == 0 ==> q >= 1) by (nonlinear_arith)
                requires
                    len == size * q + len % size,
                    q >= 0,
            ;
        }
        if len == 0 {
            1
        } else if len % size == 0 {
            len / size
        } else {
            len / size + 1
        }
    }

    /// Replaces the contents of the file `name` in the root directory by `data`.
    pub fn write_file(&mut self, disk: &mut Disk, name: &str, data: &[u8]) -> (r: Result<
        (),
        FsError,
    >)
        requires
            write_ready(
                store(old(self)@, old(disk)@),
                DirLocation::Root,
                name@,
                data@.len() as int,
            ),
        ensures
            ({
                let (st, result) = write_file(
                    store(old(self)@, old(disk)@),
                    DirLocation::Root,
                    name@,
                    data@,
                );
                store(final(self)@, final(disk)@) == st && r == result
            }),
            store(final(self)@, final(disk)@).mounted(),
    {
        self.write_file_impl(disk, DirLocation::Root, name, data)
    }

    /// Replaces the contents of the file `name` in the directory whose first
    /// cluster is `dir_cluster` by `data`.
    pub fn write_file_in(&mut self, disk: &mut Disk, dir_cluster: u32, name: &str, data: &[u8]) -> (
    r: Result<(), FsError>)
        requires
            write_ready(
                store(old(self)@, old(disk)@),
                DirLocation::Cluster(dir_cluster),
                name@,
                data@.len() as int,
            ),
        ensures
            ({
                let (st, result) = write_file(
                    store(old(self)@, old(disk)@),
                    DirLocation::Cluster(dir_cluster),
                    name@,
                    data@,
                );
                store(final(self)@, final(disk)@) == st && r == result
            }),
            store(final(self)@, final(disk)@).mounted(),
    {
        self.write_file_impl(disk, DirLocation::Cluster(dir_cluster), name, data)
    }

    fn write_file_impl(&mut self, disk: &mut Disk, dir: DirLocation, name: &str, data: &[u8]) -> (r:
        Result<(), FsError>)
        requires
            write_ready(store(old(self)@, old(disk)@), dir, name@, data@.len() as int),
        ensures
            ({
                let (st, result) = write_file(store(old(self)@, old(disk)@), dir, name@, data@);
                store(final(self)@, final(disk)@) == st && r == result
            }),
            store(final(self)@, final(disk)@).mounted(),
    {
        proof {
            found_outside_fat(self@, disk@, dir, name@);
        }
        let (entry_lba, entry_offset, entry): (u32, usize, DirEntry) =
            match self.find_entry_location_in(disk, dir, name) {
            Ok(found) => found,
            Err(e) => {
                return Err(e);
            },
        };
        if entry.is_dir {
            return Err(FsError::Failed("FAT12: write_file does not support directories"));
        }
        let ghost st0 = store(self@, disk@);
        let ghost cs = chain(self@.fat, entry.start_cluster as int);
        let mut clusters = match self.chain_clusters(entry.start_cluster) {
            Ok(l) => l,
            Err(e) => {
                return Err(e);
            },
        };
        proof {
            chain_bounded(self@.fat, entry.start_cluster as int);
            assert(ints(clusters@).len() == clusters@.len());
        }
        let needed: usize = self.clusters_for(data.len());
        let ghost old_clusters = clusters@;
        if needed > clusters.len() {
            proof {
                picked(self@, needed - clusters.len());
            }
            let mut extra = match self.find_free_clusters(needed - clusters.len()) {
                Ok(l) => l,
                Err(e) => {
                    return Err(e);
                },
            };
            let ghost more = extra@;
            clusters.append(&mut extra);
            assert(ints(clusters@) =~= cs + ints(more));
            assert forall|i: int| 0 <= i < clusters@.len() implies self@.addressable(
                #[trigger] ints(clusters@)[i],
            ) && in_table(self@.fat, ints(clusters@)[i]) by {
                if i < cs.len() {
                    assert(self@.addressable(cs[i]) && in_table(self@.fat, cs[i]));
                } else {
                    assert(ints(clusters@)[i] == ints(more)[i - cs.len()]);
                }
            }
        } else {
            self.free_clusters_from(disk, &clusters, needed);
            clusters.truncate(needed);
            assert(ints(clusters@) =~= cs.take(needed as int));
            assert forall|i: int| 0 <= i < clusters@.len() implies self@.addressable(
                #[trigger] ints(clusters@)[i],
            ) && in_table(self@.fat, ints(clusters@)[i]) by {
                assert(st0.v.addressable(cs[i]) && in_table(st0.v.fat, cs[i]));
            }
        }
        let ghost st1 = store(self@, disk@);
        let ghost kept = ints(clusters@);
        assert(resized(st0.v, cs, data@.len() as int) == Ok::<Seq<int>, FsError>(kept));
        assert(st1 == free_list(st0, cs, kept.len() as int));
        proof {
            free_list_has(st0, cs, kept.len() as int, entry_lba as int);
        }
        self.write_chain(disk, &clusters, data);
        proof {
            lay_chain_has(st1, kept, 0, data@, entry_lba as int);
        }
        let mut sector = match disk.read_sector(entry_lba) {
            Ok(b) => b,
            Err(e) => {
                return Err(e);
            },
        };
        copy_into(&mut sector, entry_offset + 28, &to_le32(low_word(data.len())));
        proof {
            put_mounted(store(self@, disk@), entry_lba as int, sector@);
        }
        disk.write_sector(entry_lba, &sector);
        Ok(())
    }

    /// Frees the chain that starts at `start`. A chain that comes back to a cluster
    /// finds it freed.
    fn free_chain_from(&mut self, disk: &mut Disk, start: u32) -> (r: Result<(), FsError>)
        requires
            store(old(self)@, old(disk)@).mounted(),
            start <= 0x5555_5555,
        ensures
            ({
                let (st, failure) = free_chain(store(old(self)@, old(disk)@), start as int);
                &&& store(final(self)@, final(disk)@) == st
                &&& match failure {
                    Some(m) => r == Err::<(), FsError>(FsError::Failed(m)),
                    None => r is Ok,
                }
            }),
            store(final(self)@, final(disk)@).mounted(),
            final(self)@ == old(self)@.with_fat(final(self)@.fat),
            same_outside(old(self)@, old(disk)@, final(disk)@),
    {
        let ghost st0 = store(self@, disk@);
        let ghost whole = free_chain(st0, start as int);
        let mut c: u32 = start;
        loop
            invariant
                store(self@, disk@).mounted(),
                c <= 0x5555_5555,
                st0 == store(old(self)@, old(disk)@),
                whole == free_chain(st0, start as int),
                whole == free_chain(store(self@, disk@), c as int),
                self@ == st0.v.with_fat(self@.fat),
                same_outside(st0.v, st0.d, disk@),
            decreases used_below(self@.fat, self@.fat.len()),
        {
            let ghost st = store(self@, disk@);
            let next = match self.next_cluster(c) {
                Ok(n) => n,
                Err(e) => {
                    return Err(e);
                },
            };
            proof {
                set_link_mounted(st, c as int, 0);
                freeing_decreases(st.v.fat, c as int, st.v.fat.len());
                assert(same_outside(st0.v, st0.d, st.set_link(c as int, 0).d)) by {
                    assert forall|l: int| outside_fat(st0.v, l) implies st0.d.has(l)
                        == st.set_link(c as int, 0).d.has(l) && st0.d.at(l) == st.set_link(
                        c as int,
                        0,
                    ).d.at(l) by {
                        assert(outside_fat(st.v, l));
                    }
                }
            }
            let _ = self.write_fat_entry_to_disk(disk, c, 0);
            match next {
                Some(n) => {
                    c = n;
                },
                None => {
                    return Ok(());
                },
            }
        }
    }

    /// Frees the chain that starts at `start` and marks the entry at `offset` of
    /// sector `lba` deleted.
    fn remove_entry(&mut self, disk: &mut Disk, lba: u32, offset: usize, start: u32) -> (r: Result<
        (),
        FsError,
    >)
        requires
            store(old(self)@, old(disk)@).mounted(),
            start <= 0x5555_5555,
            outside_fat(old(self)@, lba as int),
            old(disk)@.has(lba as int),
            offset < 512,
        ensures
            ({
                let (st, result) = remove_entry(
                    store(old(self)@, old(disk)@),
                    lba as int,
                    offset as int,
                    start as int,
                );
                store(final(self)@, final(disk)@) == st && r == result
            }),
            store(final(self)@, final(disk)@).mounted(),
    {
        match self.free_chain_from(disk, start) {
            Ok(_) => {},
            Err(e) => {
                return Err(e);
            },
        }
        assert(disk@.at(lba as int) == old(disk)@.at(lba as int));
        let mut sector = match disk.read_sector(lba) {
            Ok(b) => b,
            Err(e) => {
                return Err(e);
            },
        };
        sector[offset] = 0xE5;
        proof {
            put_mounted(store(self@, disk@), lba as int, sector@);
        }
        disk.write_sector(lba, &sector);
        Ok(())
    }

    /// Removes the file `name` from the root directory.
    pub fn delete_file(&mut self, disk: &mut Disk, name: &str) -> (r: Result<(), FsError>)
        requires
            delete_ready(store(old(self)@, old(disk)@), DirLocation::Root, name@),
        ensures
            ({
                let (st, result) = delete_file(
                    store(old(self)@, old(disk)@),
                    DirLocation::Root,
                    name@,
                );
                store(final(self)@, final(disk)@) == st && r == result
            }),
            store(final(self)@, final(disk)@).mounted(),
    {
        self.delete_file_impl(disk, DirLocation::Root, name)
    }

    /// Removes the file `name` from the directory whose first cluster is `dir_cluster`.
    pub fn delete_file_in(&mut self, disk: &mut Disk, dir_cluster: u32, name: &str) -> (r: Result<
        (),
        FsError,
    >)
        requires
            delete_ready(
                store(old(self)@, old(disk)@),
                DirLocation::Cluster(dir_cluster),
                name@,
            ),
        ensures
            ({
                let (st, result) = delete_file(
                    store(old(self)@, old(disk)@),
                    DirLocation::Cluster(dir_cluster),
                    name@,
                );
                store(final(self)@, final(disk)@) == st && r == result
            }),
            store(final(self)@, final(disk)@).mounted(),
    {
        self.delete_file_impl(disk, DirLocation::Cluster(dir_cluster), name)
    }

    fn delete_file_impl(&mut self, disk: &mut Disk, dir: DirLocation, name: &str) -> (r: Result<
        (),
        FsError,
    >)
        requires
            delete_ready(store(old(self)@, old(disk)@), dir, name@),
        ensures
            ({
                let (st, result) = delete_file(store(old(self)@, old(disk)@), dir, name@);
                store(final(self)@, final(disk)@) == st && r == result
            }),
            store(final(self)@, final(disk)@).mounted(),
    {
        proof {
            found_outside_fat(self@, disk@, dir, name@);
        }
        let (entry_lba, entry_offset, entry): (u32, usize, DirEntry) =
            match self.find_entry_location_in(disk, dir, name) {
            Ok(found) => found,
            Err(e) => {
                return Err(e);
            },
        };
        if entry.is_dir {
            return Err(FsError::Failed("FAT12: delete_file does not support directories"));
        }
        self.remove_entry(disk, entry_lba, entry_offset, entry.start_cluster)
    }

    /// Removes the empty directory `name` from the root directory.
    pub fn delete_directory(&mut self, disk: &mut Disk, name: &str) -> (r: Result<(), FsError>)
        requires
            delete_directory_ready(store(old(self)@, old(disk)@), DirLocation::Root, name@),
        ensures
            ({
                let (st, result) = delete_directory(
                    store(old(self)@, old(disk)@),
                    DirLocation::Root,
                    name@,
                );
                store(final(self)@, final(disk)@) == st && r == result
            }),
            store(final(self)@, final(disk)@).mounted(),
    {
        self.delete_directory_impl(disk, DirLocation::Root, name)
    }

    /// Removes the empty directory `name` from the directory whose first cluster is
    /// `parent_cluster`.
    pub fn delete_directory_in(&mut self, disk: &mut Disk, parent_cluster: u32, name: &str) -> (r:
        Result<(), FsError>)
        requires
            delete_directory_ready(
                store(old(self)@, old(disk)@),
                DirLocation::Cluster(parent_cluster),
                name@,
            ),
        ensures
            ({
                let (st, result) = delete_directory(
                    store(old(self)@, old(disk)@),
                    DirLocation::Cluster(parent_cluster),
                    name@,
                );
                store(final(self)@, final(disk)@) == st && r == result
            }),
            store(final(self)@, final(disk)@).mounted(),
    {
        self.delete_directory_impl(disk, DirLocation::Cluster(parent_cluster), name)
    }

    fn delete_directory_impl(&mut self, disk: &mut Disk, parent: DirLocation, name: &str) -> (r:
        Result<(), FsError>)
        requires
            delete_directory_ready(store(old(self)@, old(disk)@), parent, name@),
        ensures
            ({
                let (st, result) = delete_directory(store(old(self)@, old(disk)@), parent, name@);
                store(final(self)@, final(disk)@) == st && r == result
            }),
            store(final(self)@, final(disk)@).mounted(),
    {
        proof {
            found_outside_fat(self@, disk@, parent, name@);
        }
        let (entry_lba, entry_offset, entry): (u32, usize, DirEntry) =
            match self.find_entry_location_in(disk, parent, name) {
            Ok(found) => found,
            Err(e) => {
                return Err(e);
            },
        };
        if !entry.is_dir {
            return Err(
                FsError::Failed("FAT12: delete_directory does not support files - use rm"),
            );
        }
        proof {
            listable_is_addressable(self@, disk@, entry.start_cluster as int);
        }
        let entries = match self.list_directory(disk, entry.start_cluster) {
            Ok(l) => l,
            Err(e) => {
                return Err(e);
            },
        };
        assert(entries_view(entries@).len() == entries@.len());
        if entries.len() > 2 {
            return Err(FsError::Failed("FAT12: directory is not empty"));
        }
        self.remove_entry(disk, entry_lba, entry_offset, entry.start_cluster)
    }

    /// Creates the empty directory `name` in the root directory.
    pub fn create_directory(&mut self, disk: &mut Disk, name: &str, time: &RtcTime) -> (r: Result<
        (),
        FsError,
    >)
        requires
            create_directory_ready(store(old(self)@, old(disk)@), DirLocation::Root),
        ensures
            ({
                let (st, result) = create_directory(
                    store(old(self)@, old(disk)@),
                    DirLocation::Root,
                    name@,
                    *time,
                );
                store(final(self)@, final(disk)@) == st && r == result
            }),
            store(final(self)@, final(disk)@).mounted(),
    {
        self.create_directory_impl(disk, DirLocation::Root, name, time)
    }

    /// Creates the empty directory `name` in the directory whose first cluster is
    /// `parent_cluster`.
    pub fn create_directory_in(
        &mut self,
        disk: &mut Disk,
        parent_cluster: u32,
        name: &str,
        time: &RtcTime,
    ) -> (r: Result<(), FsError>)
        requires
            create_directory_ready(
                store(old(self)@, old(disk)@),
                DirLocation::Cluster(parent_cluster),
            ),
        ensures
            ({
                let (st, result) = create_directory(
                    store(old(self)@, old(disk)@),
                    DirLocation::Cluster(parent_cluster),
                    name@,
                    *time,
                );
                store(final(self)@, final(disk)@) == st && r == result
            }),
            store(final(self)@, final(disk)@).mounted(),
    {
        self.create_directory_impl(disk, DirLocation::Cluster(parent_cluster), name, time)
    }

    fn create_directory_impl(
        &mut self,
        disk: &mut Disk,
        parent: DirLocation,
        name: &str,
        time: &RtcTime,
    ) -> (r: Result<(), FsError>)
        requires
            create_directory_ready(store(old(self)@, old(disk)@), parent),
        ensures
            ({
                let (st, result) = create_directory(
                    store(old(self)@, old(disk)@),
                    parent,
                    name@,
                    *time,
                );
                store(final(self)@, final(disk)@) == st && r == result
            }),
            store(final(self)@, final(disk)@).mounted(),
    {
        let entries = match self.list_entries_in(disk, parent) {
            Ok(l) => l,
            Err(e) => {
                return Err(e);
            },
        };
        if holds_entry(&entries, name) {
            return Err(
                FsError::Failed("FAT12: a file or directory with that name already exists"),
            );
        }
        let (short_name, long_entries): ([u8; 11], Vec<[u8; 32]>) = match self.build_name_entries(
            disk,
            parent,
            name,
        ) {
            Ok(n) => n,
            Err(e) => {
                return Err(e);
            },
        };
        self.add_directory(disk, parent, &short_name, &long_entries, time)
    }

    /// Adds an empty directory under a name whose entries are given.
    fn add_directory(
        &mut self,
        disk: &mut Disk,
        parent: DirLocation,
        short_name: &[u8; 11],
        long_entries: &Vec<[u8; 32]>,
        time: &RtcTime,
    ) -> (r: Result<(), FsError>)
        requires
            store(old(self)@, old(disk)@).mounted(),
            old(self)@.clusters_fit(),
            dir_ready(old(self)@, parent),
            long_entries@.len() <= 15,
        ensures
            ({
                let (st, result) = add_directory(
                    store(old(self)@, old(disk)@),
                    parent,
                    short_name@,
                    slots_view(long_entries@),
                    *time,
                );
                store(final(self)@, final(disk)@) == st && r == result
            }),
            store(final(self)@, final(disk)@).mounted(),
    {
        let slots = match self.find_free_entry_run_in(disk, parent, long_entries.len() + 1) {
            Ok(l) => l,
            Err(e) => {
                return Err(e);
            },
        };
        let ghost at = reserve(
            store(old(self)@, old(disk)@),
            parent,
            (long_entries@.len() + 1) as int,
        ).1->Ok_0;
        assert(slots@[0].0 == at.0 && slots@[0].1 == 32 * (at.1 + 0));
        proof {
            picked(self@, 1);
        }
        let found = match self.find_free_clusters(1) {
            Ok(l) => l,
            Err(e) => {
                return Err(e);
            },
        };
        let cluster: u32 = found[0];
        assert(ints(found@)[0] == cluster);
        let ghost st1 = store(self@, disk@);
        let contents = dot_contents(cluster, parent, time);
        proof {
            write_cluster_frame(st1, cluster as int, 0, contents@, 0);
        }
        self.write_cluster_data(disk, cluster, &contents, 0);
        let ghost st2 = store(self@, disk@);
        proof {
            set_link_mounted(st2, cluster as int, 0xFFF);
            assert(st2.d.has(slots@[0].0 as int)) by {
                write_cluster_has(st1, cluster as int, contents@, slots@[0].0 as int);
            }
            assert(st2.set_link(cluster as int, 0xFFF).d.at(slots@[0].0 as int) == st2.d.at(
                slots@[0].0 as int,
            ));
        }
        let _ = self.write_fat_entry_to_disk(disk, cluster, 0x0FFF);
        let (fat_time, fat_date): (u16, u16) = to_fat_datetime(time);
        let dir_entry = build_dir_entry(short_name, 0x10, cluster, 0, fat_time, fat_date);
        assert(dir_entry@ == subdir_entry(short_name@, cluster as int, *time));
        self.write_name_entries(disk, &slots, long_entries, dir_entry)
    }
}

/// The first two entries of a new directory.
fn dot_contents(cluster: u32, parent: DirLocation, time: &RtcTime) -> (contents: [u8; 64])
    ensures
        contents@ == dot_entries(cluster as int, parent, *time),
{
    let (fat_time, fat_date): (u16, u16) = to_fat_datetime(time);
    let mut dot: [u8; 11] = [0x20u8; 11];
    dot[0] = 0x2E;
    assert(dot@ =~= dot_name(1));
    let mut dotdot: [u8; 11] = [0x20u8; 11];
    dotdot[0] = 0x2E;
    dotdot[1] = 0x2E;
    assert(dotdot@ =~= dot_name(2));
    let parent_cluster: u32 = match parent {
        DirLocation::Root => 0,
        DirLocation::Cluster(c) => c,
    };
    let dot_entry = build_dir_entry(&dot, 0x10, cluster, 0, fat_time, fat_date);
    let dotdot_entry = build_dir_entry(&dotdot, 0x10, parent_cluster, 0, fat_time, fat_date);
    let mut contents: [u8; 64] = [0u8; 64];
    copy_into(&mut contents, 0, &dot_entry);
    copy_into(&mut contents, 32, &dotdot_entry);
    assert(contents@ =~= dot_entries(cluster as int, parent, *time));
    contents
}

/// Whether one of `entries` goes by `name`.
fn holds_entry(entries: &Vec<DirEntry>, name: &str) -> (r: bool)
    ensures
        r == listed(entries_view(entries@), name@),
{
    let target = name.as_bytes();
    let mut i: usize = 0;
    while i < entries.len()
        invariant
            i <= entries.len(),
            target@ == encode_utf8(name@),
            forall|j: int|
                0 <= j < i ==> !same_name(
                    encode_utf8((#[trigger] entries_view(entries@)[j]).name),
                    target@,
                ),
        decreases entries.len() - i,
    {
        assert(entries_view(entries@)[i as int].name == entries@[i as int].name@);
        if eq_ignore_case(entries[i].name.as_str().as_bytes(), target) {
            return true;
        }
        i = i + 1;
    }
    false
}

/// The low 32 bits of a length.
fn low_word(len: usize) -> (r: u32)
    ensures
        r == len as u32,
{
    len as u32
}

/// A directory that can be listed has a first cluster that can be addressed.
proof fn listable_is_addressable(v: Volume, d: DiskView, c: int)
    requires
        list_ready(v, d, c),
    ensures
        v.addressable(c),
{
    let cs = choose|cs: Seq<int>| crate::fat12::volume::list_run(v, d, c, cs);
    assert(v.addressable(cs[0]));
}

/// Writing a cluster makes no sector unknown.
proof fn write_cluster_has(st: Store, c: int, data: Seq<u8>, l: int)
    requires
        st.mounted(),
        c >= 2,
        st.d.has(l),
    ensures
        write_cluster(st, c, 0, data, 0).d.has(l),
{
    write_cluster_frame(st, c, 0, data, 0);
}

/// Laying a chain makes no sector unknown.
proof fn lay_chain_has(st: Store, cs: Seq<int>, i: int, data: Seq<u8>, l: int)
    requires
        st.mounted(),
        0 <= i,
        outside_fat(st.v, l),
        st.d.has(l),
        forall|j: int| 0 <= j < cs.len() ==> #[trigger] cs[j] >= 2 && in_table(st.v.fat, cs[j]),
    ensures
        lay_chain(st, cs, i, data).d.has(l),
        lay_chain(st, cs, i, data).v == st.v.with_fat(lay_chain(st, cs, i, data).v.fat),
    decreases cs.len() - i,
{
    if i < cs.len() {
        let k = i * st.v.sectors_per_cluster;
        let next = if i + 1 < cs.len() {
            cs[i + 1]
        } else {
            0xFFF
        };
        let st1 = write_cluster(st, cs[i], 0, data, k);
        write_cluster_frame(st, cs[i], 0, data, k);
        assert(st1.d.has(l));
        set_link_mounted(st1, cs[i], next);
        let st2 = st1.set_link(cs[i], next);
        assert(st2.d.at(l) == st1.d.at(l));
        lay_chain_has(st2, cs, i + 1, data, l);
    }
}

/// Freeing clusters leaves the sectors outside the table alone.
proof fn free_list_has(st: Store, cs: Seq<int>, i: int, l: int)
    requires
        st.mounted(),
        0 <= i,
        outside_fat(st.v, l),
        forall|j: int| 0 <= j < cs.len() ==> in_table(st.v.fat, #[trigger] cs[j]),
    ensures
        free_list(st, cs, i).d.has(l) == st.d.has(l),
        free_list(st, cs, i).d.at(l) == st.d.at(l),
    decreases cs.len() - i,
{
    if i < cs.len() {
        set_link_mounted(st, cs[i], 0);
        let st1 = st.set_link(cs[i], 0);
        assert(st1.d.at(l) == st.d.at(l));
        free_list_has(st1, cs, i + 1, l);
    }
}

/// `slots` are `count` successive slots of sector `lba` from slot `first` on.
pub open spec fn slots_at(slots: Seq<(u32, usize)>, lba: int, first: int, count: int) -> bool {
    &&& slots.len() == count
    &&& 0 <= first
    &&& first + count <= 16
    &&& forall|m: int|
        0 <= m < count ==> (#[trigger] slots[m]).0 == lba && slots[m].1 == 32 * (first + m)
}

fn slot_list(lba: u32, first: usize, count: usize) -> (slots: Vec<(u32, usize)>)
    requires
        first + count <= 16,
    ensures
        slots_at(slots@, lba as int, first as int, count as int),
{
    let mut slots: Vec<(u32, usize)> = Vec::new();
    let mut m: usize = 0;
    while m < count
        invariant
            m <= count,
            first + count <= 16,
            slots@.len() == m,
            forall|k: int|
                0 <= k < m ==> (#[trigger] slots@[k]).0 == lba && slots@[k].1 == 32 * (first + k),
        decreases count - m,
    {
        slots.push((lba, 32 * (first + m)));
        m = m + 1;
    }
    slots
}

/// The first place in a sector with `count` free slots in a row.
fn find_run_in_sector(sector: &[u8; 512], count: usize) -> (r: Option<usize>)
    requires
        1 <= count <= 16,
    ensures
        match first_run(sector@, 0, count as int) {
            Some(i) => r == Some(i as usize) && 0 <= i < 16,
            None => r is None,
        },
{
    let mut i: usize = 0;
    while i < 16
        invariant
            i <= 16,
            1 <= count <= 16,
            first_run(sector@, 0, count as int) == first_run(sector@, i as int, count as int),
        decreases 16 - i,
    {
        let mut n: usize = 0;
        while n < count && i + n < 16 && slot_is_free(sector, i + n)
            invariant
                n <= count <= 16,
                i + n <= 16,
                i < 16,
                forall|j: int| i <= j < i + n ==> free_slot(#[trigger] slot(sector@, j)),
            decreases count - n,
        {
            n = n + 1;
        }
        if n == count {
            assert(run_at(sector@, i as int, count as int));
            return Some(i);
        }
        assert(!run_at(sector@, i as int, count as int)) by {
            if i + n < 16 {
                assert(!free_slot(slot(sector@, i + n)));
            }
        }
        i = i + 1;
    }
    None
}

fn slot_is_free(sector: &[u8; 512], i: usize) -> (r: bool)
    requires
        i < 16,
    ensures
        r == free_slot(slot(sector@, i as int)),
{
    sector[32 * i] == 0x00 || sector[32 * i] == 0xE5
}

/// Only the low 12 bits of a value get into an entry.
proof fn set_entry_low_bits(fat: Seq<u8>, c: int, value: int)
    requires
        value >= 0,
    ensures
        set_entry(fat, c, value % 0x10000) == set_entry(fat, c, value),
{
    reveal(set_entry);
    assert(value % 0x10000 % 4096 == value % 4096);
}

} // verus!
