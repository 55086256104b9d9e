//! Looking up, listing and reading.

use crate::disk::{Disk, DiskView, FsError};
use crate::fat12::table::{chain, link, run, Link};
use crate::fat12::volume::{
    chain_ready, cluster_sectors, dir_lbas, dir_listing, dir_ready, dir_slot, empty_listing,
    file_contents, file_ready, find_entry, find_from, list_goes_on, list_ready, list_run,
    list_sectors, listing, not_found, read_chain, read_cluster, read_ready, root_listing,
    root_sectors, sectors_of, short_names, short_names_from, DirLocation, Volume,
};
use crate::fat12::{ints, Fat12Info};
use crate::fat_common::{
    entries_view, get_slot, list_slots, no_lfn, parse_dir_sector, short_entry_if_matches, DirEntry,
    Entry, LfnState, Listing,
};
use vstd::prelude::*;
use vstd::utf8::encode_utf8;

verus! {

impl Fat12Info {
    /// Adds the sectors of one cluster to `lbas`.
    fn push_cluster_sectors(&self, cluster: u32, lbas: &mut Vec<u32>)
        requires
            self@.geometry_fits(),
            self@.wf(),
            self@.addressable(cluster as int),
        ensures
            ints(final(lbas)@) == ints(old(lbas)@) + cluster_sectors(self@, cluster as int),
    {
        let first: u32 = self.cluster_to_lba(cluster);
        let n: u32 = self.sectors_per_cluster as u32;
        let mut s: u32 = 0;
        assert(ints(lbas@) =~= ints(old(lbas)@) + cluster_sectors(self@, cluster as int).take(0));
        while s < n
            invariant
                s <= n,
                n == self@.sectors_per_cluster,
                first == self@.cluster_lba(cluster as int),
                first + n <= 0x1_0000_0000,
                ints(lbas@) == ints(old(lbas)@) + cluster_sectors(self@, cluster as int).take(
                    s as int,
                ),
            decreases n - s,
        {
            let ghost before = lbas@;
            lbas.push(first + s);
            assert(ints(lbas@) =~= ints(before).push(first + s));
            s = s + 1;
            assert(ints(lbas@) =~= ints(old(lbas)@) + cluster_sectors(self@, cluster as int).take(
                s as int,
            ));
        }
        assert(cluster_sectors(self@, cluster as int).take(n as int) =~= cluster_sectors(
            self@,
            cluster as int,
        ));
    }

    /// The sectors that hold the entries of a directory, in order.
    pub(crate) fn directory_sectors(&self, dir: DirLocation) -> (r: Result<Vec<u32>, FsError>)
        requires
            self@.geometry_fits(),
            self@.wf(),
            dir_ready(self@, dir),
        ensures
            match dir_lbas(self@, dir) {
                Ok(lbas) => r matches Ok(got) && ints(got@) == lbas,
                Err(e) => r == Err::<Vec<u32>, FsError>(e),
            },
    {
        let mut lbas: Vec<u32> = Vec::new();
        match dir {
            DirLocation::Root => {
                let first: u32 = self.first_root_dir_sector();
                let n: u32 = self.root_dir_sectors();
                let mut s: u32 = 0;
                assert(ints(lbas@) =~= root_sectors(self@).take(0));
                while s < n
                    invariant
                        s <= n,
                        n == self@.root_dir_sectors(),
                        first == self@.first_root_dir_sector(),
                        first + n <= u32::MAX,
                        ints(lbas@) == root_sectors(self@).take(s as int),
                    decreases n - s,
                {
                    let ghost before = lbas@;
                    lbas.push(first + s);
                    assert(ints(lbas@) =~= ints(before).push(first + s));
                    s = s + 1;
                    assert(ints(lbas@) =~= root_sectors(self@).take(s as int));
                }
                assert(root_sectors(self@).take(n as int) =~= root_sectors(self@));
                Ok(lbas)
            },
            DirLocation::Cluster(start) => {
                let ghost cs = chain(self@.fat, start as int);
                let ghost mut i: int = 0;
                let mut c: u32 = start;
                assert(run(self@.fat, start as int, cs));
                assert(ints(lbas@) =~= sectors_of(self@, cs.take(0)));
                loop
                    invariant
                        self@.geometry_fits(),
                        self@.wf(),
                        run(self@.fat, start as int, cs),
                        cs == chain(self@.fat, start as int),
                        chain_ready(self@, start as int),
                        dir == DirLocation::Cluster(start),
                        0 <= i < cs.len(),
                        c == cs[i],
                        ints(lbas@) == sectors_of(self@, cs.take(i)),
                    decreases cs.len() - i,
                {
                    assert(self@.addressable(cs[i]));
                    self.push_cluster_sectors(c, &mut lbas);
                    assert(cs.take(i + 1).drop_last() =~= cs.take(i));
                    match self.next_cluster(c) {
                        Ok(Some(n)) => {
                            assert(link(self@.fat, cs[i]) is Next);
                            c = n;
                            proof {
                                i = i + 1;
                            }
                        },
                        Ok(None) => {
                            assert(i == cs.len() - 1) by {
                                if i < cs.len() - 1 {
                                    assert(link(self@.fat, cs[i]) is Next);
                                }
                            }
                            assert(cs.take(i + 1) =~= cs);
                            return Ok(lbas);
                        },
                        Err(e) => {
                            assert(i == cs.len() - 1) by {
                                if i < cs.len() - 1 {
                                    assert(link(self@.fat, cs[i]) is Next);
                                }
                            }
                            return Err(e);
                        },
                    }
                }
            },
        }
    }

    /// Finds the entry `name` of a directory and where it is on disk. A long name
    /// and a short name both find an entry that has both.
    pub fn find_entry_location_in(&self, disk: &Disk, dir: DirLocation, name: &str) -> (r: Result<
        (u32, usize, DirEntry),
        FsError,
    >)
        requires
            self@.geometry_fits(),
            self@.wf(),
            dir_ready(self@, dir),
        ensures
            match find_entry(self@, disk@, dir, name@) {
                Ok((lba, offset, e)) => r matches Ok(got) && got.0 == lba && got.1 == offset
                    && got.2@ == e && disk@.has(lba) && offset + 32 <= 512,
                Err(e) => r == Err::<(u32, usize, DirEntry), FsError>(e),
            },
    {
        let missing_name: &'static str = match dir {
            DirLocation::Root => "FAT12: file not found in root directory",
            DirLocation::Cluster(_) => "FAT12: file not found in directory",
        };
        let lbas = match self.directory_sectors(dir) {
            Ok(l) => l,
            Err(e) => {
                return Err(e);
            },
        };
        let ghost target = encode_utf8(name@);
        let mut lfn: LfnState = LfnState::default();
        let mut j: usize = 0;
        while j < lbas.len()
            invariant
                j <= lbas.len(),
                target == encode_utf8(name@),
                dir_lbas(self@, dir) == Ok::<Seq<int>, FsError>(ints(lbas@)),
                missing_name == not_found(dir),
                find_from(disk@, ints(lbas@), 0, no_lfn(), target) == find_from(
                    disk@,
                    ints(lbas@),
                    16 * j,
                    lfn@,
                    target,
                ),
            decreases lbas.len() - j,
        {
            let lba: u32 = lbas[j];
            assert(ints(lbas@)[j as int] == lba);
            assert(16 * j / 16 == j as int);
            let sector = match disk.read_sector(lba) {
                Ok(b) => b,
                Err(e) => {
                    return Err(e);
                },
            };
            let mut i: usize = 0;
            while i < 16
                invariant
                    i <= 16,
                    j < lbas.len(),
                    lba == lbas@[j as int],
                    ints(lbas@)[j as int] == lba,
                    disk@.has(lba as int),
                    sector@ == disk@.at(lba as int),
                    target == encode_utf8(name@),
                    dir_lbas(self@, dir) == Ok::<Seq<int>, FsError>(ints(lbas@)),
                    missing_name == not_found(dir),
                    find_from(disk@, ints(lbas@), 0, no_lfn(), target) == find_from(
                        disk@,
                        ints(lbas@),
                        16 * j + i,
                        lfn@,
                        target,
                    ),
                decreases 16 - i,
            {
                assert((16 * j + i) / 16 == j as int);
                assert((16 * j + i) % 16 == i as int);
                let raw = get_slot(&sector, i);
                assert(raw@ == dir_slot(disk@, ints(lbas@), 16 * j + i));
                if raw[0] == 0x00 {
                    return Err(FsError::Failed(missing_name));
                }
                if raw[0] == 0xE5 {
                    lfn.reset();
                } else if raw[11] == 0x0F {
                    lfn.push_long_entry(&raw);
                } else if raw[11] & 0x08 != 0 {
                    lfn.reset();
                } else {
                    match short_entry_if_matches(&raw, &mut lfn, name) {
                        Some(entry) => {
                            return Ok((lba, i * 32, entry));
                        },
                        None => {},
                    }
                }
                i = i + 1;
            }
            j = j + 1;
        }
        Err(FsError::Failed(missing_name))
    }

    /// The entries of the root directory.
    pub fn list_root_directory(&self, disk: &Disk) -> (r: Result<Vec<DirEntry>, FsError>)
        requires
            self@.geometry_fits(),
            self@.wf(),
        ensures
            match root_listing(self@, disk@) {
                Ok(es) => r matches Ok(got) && entries_view(got@) == es,
                Err(e) => r == Err::<Vec<DirEntry>, FsError>(e),
            },
    {
        let first: u32 = self.first_root_dir_sector();
        let n: u32 = self.root_dir_sectors();
        let ghost lbas = root_sectors(self@);
        let mut entries: Vec<DirEntry> = Vec::new();
        let mut lfn: LfnState = LfnState::default();
        let mut s: u32 = 0;
        assert(entries_view(entries@) =~= Seq::<Entry>::empty());
        while s < n
            invariant
                s <= n,
                n == self@.root_dir_sectors(),
                first == self@.first_root_dir_sector(),
                first + n <= u32::MAX,
                lbas == root_sectors(self@),
                list_sectors(disk@, lbas, 0, empty_listing()) == list_sectors(
                    disk@,
                    lbas,
                    s as int,
                    Listing { entries: entries_view(entries@), lfn: lfn@, done: false },
                ),
            decreases n - s,
        {
            let sector = match disk.read_sector(first + s) {
                Ok(b) => b,
                Err(e) => {
                    return Err(e);
                },
            };
            let ghost st = Listing { entries: entries_view(entries@), lfn: lfn@, done: false };
            if parse_dir_sector(&sector, &mut entries, &mut lfn) {
                let ghost last = list_slots(sector@, 0, st);
                assert(list_sectors(disk@, lbas, s + 1, last) == Ok::<Listing, FsError>(last));
                return Ok(entries);
            }
            s = s + 1;
        }
        Ok(entries)
    }

    /// Adds the entries in the sectors of one cluster. True if the end of the
    /// directory was seen.
    fn list_cluster(
        &self,
        disk: &Disk,
        cluster: u32,
        entries: &mut Vec<DirEntry>,
        lfn: &mut LfnState,
    ) -> (r: Result<bool, FsError>)
        requires
            self@.geometry_fits(),
            self@.wf(),
            self@.addressable(cluster as int),
        ensures
            match list_sectors(
                disk@,
                cluster_sectors(self@, cluster as int),
                0,
                Listing { entries: entries_view(old(entries)@), lfn: old(lfn)@, done: false },
            ) {
                Ok(st) => r == Ok::<bool, FsError>(st.done) && entries_view(final(entries)@)
                    == st.entries && final(lfn)@ == st.lfn,
                Err(e) => r == Err::<bool, FsError>(e),
            },
    {
        let first: u32 = self.cluster_to_lba(cluster);
        let n: u32 = self.sectors_per_cluster as u32;
        let ghost lbas = cluster_sectors(self@, cluster as int);
        let ghost st0 = Listing { entries: entries_view(entries@), lfn: lfn@, done: false };
        let mut s: u32 = 0;
        while s < n
            invariant
                s <= n,
                n == self@.sectors_per_cluster,
                first == self@.cluster_lba(cluster as int),
                first + n <= 0x1_0000_0000,
                lbas == cluster_sectors(self@, cluster as int),
                st0 == (Listing {
                    entries: entries_view(old(entries)@),
                    lfn: old(lfn)@,
                    done: false,
                }),
                list_sectors(disk@, lbas, 0, st0) == list_sectors(
                    disk@,
                    lbas,
                    s as int,
                    Listing { entries: entries_view(entries@), lfn: lfn@, done: false },
                ),
            decreases n - s,
        {
            assert(lbas[s as int] == first + s);
            let sector = match disk.read_sector(first + s) {
                Ok(b) => b,
                Err(e) => {
                    return Err(e);
                },
            };
            let ghost st = Listing { entries: entries_view(entries@), lfn: lfn@, done: false };
            if parse_dir_sector(&sector, entries, lfn) {
                let ghost last = list_slots(sector@, 0, st);
                assert(list_sectors(disk@, lbas, s + 1, last) == Ok::<Listing, FsError>(last));
                return Ok(true);
            }
            s = s + 1;
        }
        Ok(false)
    }

    /// The entries of the directory whose first cluster is `start_cluster`.
    pub fn list_directory(&self, disk: &Disk, start_cluster: u32) -> (r: Result<
        Vec<DirEntry>,
        FsError,
    >)
        requires
            self@.geometry_fits(),
            self@.wf(),
            list_ready(self@, disk@, start_cluster as int),
        ensures
            match dir_listing(self@, disk@, start_cluster as int) {
                Ok(es) => r matches Ok(got) && entries_view(got@) == es,
                Err(e) => r == Err::<Vec<DirEntry>, FsError>(e),
            },
    {
        let ghost cs = choose|cs: Seq<int>| list_run(self@, disk@, start_cluster as int, cs);
        let ghost mut i: int = 0;
        let mut c: u32 = start_cluster;
        let mut entries: Vec<DirEntry> = Vec::new();
        let mut lfn: LfnState = LfnState::default();
        assert(entries_view(entries@) =~= Seq::<Entry>::empty());
        assert(sectors_of(self@, cs.take(0)) =~= Seq::<int>::empty());
        loop
            invariant
                self@.geometry_fits(),
                self@.wf(),
                list_run(self@, disk@, start_cluster as int, cs),
                cs == (choose|cs: Seq<int>| list_run(self@, disk@, start_cluster as int, cs)),
                0 <= i < cs.len(),
                c == cs[i],
                list_sectors(disk@, sectors_of(self@, cs.take(i)), 0, empty_listing()) == Ok::<
                    Listing,
                    FsError,
                >(Listing { entries: entries_view(entries@), lfn: lfn@, done: false }),
            decreases cs.len() - i,
        {
            assert(self@.addressable(cs[i]));
            assert(cs.take(i + 1).drop_last() =~= cs.take(i));
            proof {
                list_sectors_split(
                    disk@,
                    sectors_of(self@, cs.take(i)),
                    cluster_sectors(self@, c as int),
                    empty_listing(),
                );
            }
            match self.list_cluster(disk, c, &mut entries, &mut lfn) {
                Err(e) => {
                    proof {
                        list_stops_here(self@, disk@, start_cluster as int, cs, i);
                    }
                    return Err(e);
                },
                Ok(done) => {
                    if done {
                        proof {
                            list_stops_here(self@, disk@, start_cluster as int, cs, i);
                        }
                        return Ok(entries);
                    }
                },
            }
            match self.next_cluster(c) {
                Ok(Some(next)) => {
                    assert(i < cs.len() - 1) by {
                        if i == cs.len() - 1 {
                            assert(cs.take(i + 1) =~= cs);
                            assert(list_goes_on(self@, disk@, cs));
                        }
                    }
                    assert(link(self@.fat, cs[i]) == Link::Next(cs[i + 1]));
                    c = next;
                    proof {
                        i = i + 1;
                    }
                },
                Ok(None) => {
                    assert(i == cs.len() - 1) by {
                        if i < cs.len() - 1 {
                            assert(link(self@.fat, cs[i]) is Next);
                        }
                    }
                    assert(cs.take(i + 1) =~= cs);
                    return Ok(entries);
                },
                Err(e) => {
                    assert(i == cs.len() - 1) by {
                        if i < cs.len() - 1 {
                            assert(link(self@.fat, cs[i]) is Next);
                        }
                    }
                    assert(cs.take(i + 1) =~= cs);
                    return Err(e);
                },
            }
        }
    }

    /// The entries of a directory.
    pub(crate) fn list_entries_in(&self, disk: &Disk, dir: DirLocation) -> (r: Result<
        Vec<DirEntry>,
        FsError,
    >)
        requires
            self@.geometry_fits(),
            self@.wf(),
            dir matches DirLocation::Cluster(c) ==> list_ready(self@, disk@, c as int),
        ensures
            match listing(self@, disk@, dir) {
                Ok(es) => r matches Ok(got) && entries_view(got@) == es,
                Err(e) => r == Err::<Vec<DirEntry>, FsError>(e),
            },
    {
        match dir {
            DirLocation::Root => self.list_root_directory(disk),
            DirLocation::Cluster(c) => self.list_directory(disk, c),
        }
    }

    /// The contents of the file `name` in the root directory.
    pub fn read_file(&self, disk: &Disk, name: &str) -> (r: Result<Vec<u8>, FsError>)
        requires
            self@.geometry_fits(),
            self@.wf(),
            file_ready(self@, disk@, DirLocation::Root, name@),
        ensures
            match file_contents(self@, disk@, DirLocation::Root, name@) {
                Ok(data) => r matches Ok(got) && got@ == data,
                Err(e) => r == Err::<Vec<u8>, FsError>(e),
            },
    {
        self.read_file_impl(disk, DirLocation::Root, name)
    }

    /// The contents of the file `name` in the directory whose first cluster is
    /// `dir_cluster`.
    pub fn read_file_in(&self, disk: &Disk, dir_cluster: u32, name: &str) -> (r: Result<
        Vec<u8>,
        FsError,
    >)
        requires
            self@.geometry_fits(),
            self@.wf(),
            file_ready(self@, disk@, DirLocation::Cluster(dir_cluster), name@),
        ensures
            match file_contents(self@, disk@, DirLocation::Cluster(dir_cluster), name@) {
                Ok(data) => r matches Ok(got) && got@ == data,
                Err(e) => r == Err::<Vec<u8>, FsError>(e),
            },
    {
        self.read_file_impl(disk, DirLocation::Cluster(dir_cluster), name)
    }

    pub(crate) fn read_file_impl(&self, disk: &Disk, dir: DirLocation, name: &str) -> (r: Result<
        Vec<u8>,
        FsError,
    >)
        requires
            self@.geometry_fits(),
            self@.wf(),
            file_ready(self@, disk@, dir, name@),
        ensures
            match file_contents(self@, disk@, dir, name@) {
                Ok(data) => r matches Ok(got) && got@ == data,
                Err(e) => r == Err::<Vec<u8>, FsError>(e),
            },
    {
        let (_, _, entry): (u32, usize, DirEntry) = match self.find_entry_location_in(
            disk,
            dir,
            name,
        ) {
            Ok(found) => found,
            Err(e) => {
                return Err(e);
            },
        };
        if entry.is_dir {
            return match dir {
                DirLocation::Root => Err(
                    FsError::Failed("FAT12: file not found in root directory"),
                ),
                DirLocation::Cluster(_) => Err(
                    FsError::Failed("FAT12: file not found in directory"),
                ),
            };
        }
        let mut data: Vec<u8> = Vec::new();
        if entry.size == 0 {
            assert(data@ =~= Seq::<u8>::empty());
            return Ok(data);
        }
        let size: usize = entry.size as usize;
        let n: u32 = self.sectors_per_cluster as u32;
        let mut cluster: u32 = entry.start_cluster;
        let ghost whole = read_chain(
            self@,
            disk@,
            entry.start_cluster as int,
            size as int,
            Seq::empty(),
        );
        assert(data@ =~= Seq::<u8>::empty());
        loop
            invariant
                self@.geometry_fits(),
                self@.wf(),
                n == self@.sectors_per_cluster,
                n >= 1,
                data.len() < size,
                read_ready(self@, disk@, cluster as int, size as int, data@),
                whole == read_chain(self@, disk@, cluster as int, size as int, data@),
                whole == file_contents(self@, disk@, dir, name@),
            decreases size - data.len(),
        {
            let first: u32 = self.cluster_to_lba(cluster);
            let ghost before = data@;
            let ghost got = read_cluster(
                self@,
                disk@,
                cluster as int,
                0,
                size as int,
                before,
            );
            let mut s: u32 = 0;
            while s < n
                invariant
                    s <= n,
                    n == self@.sectors_per_cluster,
                    n >= 1,
                    first == self@.cluster_lba(cluster as int),
                    first + n <= 0x1_0000_0000,
                    before.len() <= data.len() < size,
                    s > 0 ==> before.len() < data.len(),
                    read_ready(self@, disk@, cluster as int, size as int, before),
                    whole == read_chain(self@, disk@, cluster as int, size as int, before),
                    whole == file_contents(self@, disk@, dir, name@),
                    got == read_cluster(self@, disk@, cluster as int, 0, size as int, before),
                    got == read_cluster(
                        self@,
                        disk@,
                        cluster as int,
                        s as int,
                        size as int,
                        data@,
                    ),
                decreases n - s,
            {
                let sector = match disk.read_sector(first + s) {
                    Ok(b) => b,
                    Err(e) => {
                        return Err(e);
                    },
                };
                let left: usize = size - data.len();
                let take: usize = if left < 512 {
                    left
                } else {
                    512
                };
                crate::bytes::append_bytes(
                    &mut data,
                    vstd::slice::slice_subrange(&sector, 0, take),
                );
                assert(sector@.subrange(0, take as int) =~= sector@.take(take as int));
                s = s + 1;
                if data.len() >= size {
                    assert(got == Ok::<Seq<u8>, FsError>(data@));
                    return Ok(data);
                }
            }
            assert(got == Ok::<Seq<u8>, FsError>(data@));
            match self.next_cluster(cluster) {
                Ok(Some(next)) => {
                    cluster = next;
                },
                Ok(None) => {
                    return Ok(data);
                },
                Err(e) => {
                    return Err(e);
                },
            }
        }
    }

    /// The short-name fields of all entries of a directory.
    pub(crate) fn existing_short_names_in(&self, disk: &Disk, dir: DirLocation) -> (r: Result<
        Vec<[u8; 11]>,
        FsError,
    >)
        requires
            self@.geometry_fits(),
            self@.wf(),
            dir_ready(self@, dir),
        ensures
            match short_names(self@, disk@, dir) {
                Ok(names) => r matches Ok(got) && arrays_view(got@) == names,
                Err(e) => r == Err::<Vec<[u8; 11]>, FsError>(e),
            },
    {
        let lbas = match self.directory_sectors(dir) {
            Ok(l) => l,
            Err(e) => {
                return Err(e);
            },
        };
        let mut names: Vec<[u8; 11]> = Vec::new();
        assert(arrays_view(names@) =~= Seq::<Seq<u8>>::empty());
        let mut j: usize = 0;
        while j < lbas.len()
            invariant
                j <= lbas.len(),
                dir_lbas(self@, dir) == Ok::<Seq<int>, FsError>(ints(lbas@)),
                short_names_from(disk@, ints(lbas@), 0, Seq::empty()) == short_names_from(
                    disk@,
                    ints(lbas@),
                    16 * j,
                    arrays_view(names@),
                ),
            decreases lbas.len() - j,
        {
            let lba: u32 = lbas[j];
            assert(ints(lbas@)[j as int] == lba);
            assert(16 * j / 16 == j as int);
            let sector = match disk.read_sector(lba) {
                Ok(b) => b,
                Err(e) => {
                    return Err(e);
                },
            };
            let mut i: usize = 0;
            while i < 16
                invariant
                    i <= 16,
                    j < lbas.len(),
                    ints(lbas@)[j as int] == lba,
                    disk@.has(lba as int),
                    sector@ == disk@.at(lba as int),
                    dir_lbas(self@, dir) == Ok::<Seq<int>, FsError>(ints(lbas@)),
                    short_names_from(disk@, ints(lbas@), 0, Seq::empty()) == short_names_from(
                        disk@,
                        ints(lbas@),
                        16 * j + i,
                        arrays_view(names@),
                    ),
                decreases 16 - i,
            {
                assert((16 * j + i) / 16 == j as int);
                assert((16 * j + i) % 16 == i as int);
                let raw = get_slot(&sector, i);
                assert(raw@ == dir_slot(disk@, ints(lbas@), 16 * j + i));
                if raw[0] == 0x00 {
                    return Ok(names);
                }
                if !(raw[0] == 0xE5 || raw[11] == 0x0F || raw[11] & 0x08 != 0) {
                    let mut short: [u8; 11] = [0u8; 11];
                    crate::bytes::copy_into(
                        &mut short,
                        0,
                        vstd::slice::slice_subrange(&raw, 0, 11),
                    );
                    assert(short@ =~= raw@.subrange(0, 11));
                    let ghost before = names@;
                    names.push(short);
                    assert(arrays_view(names@) =~= arrays_view(before).push(short@));
                }
                i = i + 1;
            }
            j = j + 1;
        }
        Ok(names)
    }
}

/// Names as byte sequences.
pub open spec fn arrays_view(names: Seq<[u8; 11]>) -> Seq<Seq<u8>> {
    names.map_values(|n: [u8; 11]| n@)
}

/// A listing of two runs of sectors goes through the first one, then through the second.
pub proof fn list_sectors_split(d: DiskView, a: Seq<int>, b: Seq<int>, st: Listing)
    ensures
        match list_sectors(d, a, 0, st) {
            Err(e) => list_sectors(d, a + b, 0, st) == Err::<Listing, FsError>(e),
            Ok(mid) => list_sectors(d, a + b, 0, st) == list_sectors(d, b, 0, mid),
        },
{
    list_sectors_split_from(d, a, b, 0, st);
}

proof fn list_sectors_split_from(d: DiskView, a: Seq<int>, b: Seq<int>, j: int, st: Listing)
    requires
        0 <= j <= a.len(),
    ensures
        match list_sectors(d, a, j, st) {
            Err(e) => list_sectors(d, a + b, j, st) == Err::<Listing, FsError>(e),
            Ok(mid) => list_sectors(d, a + b, j, st) == list_sectors(d, b, 0, mid),
        },
    decreases a.len() - j,
{
    if j < a.len() && !st.done {
        assert((a + b)[j] == a[j]);
        if d.has(a[j]) {
            list_sectors_split_from(d, a, b, j + 1, list_slots(d.at(a[j]), 0, st));
        }
    } else if j == a.len() {
        list_sectors_shift(d, a, b, 0, st);
    }
}

proof fn list_sectors_shift(d: DiskView, a: Seq<int>, b: Seq<int>, j: int, st: Listing)
    requires
        0 <= j <= b.len(),
    ensures
        list_sectors(d, a + b, a.len() + j, st) == list_sectors(d, b, j, st),
    decreases b.len() - j,
{
    if j < b.len() && !st.done {
        assert((a + b)[a.len() + j] == b[j]);
        if d.has(b[j]) {
            list_sectors_shift(d, a, b, j + 1, list_slots(d.at(b[j]), 0, st));
        }
    }
}

/// The listing reads no cluster behind one with the end marker or an error.
proof fn list_stops_here(v: Volume, d: DiskView, c: int, cs: Seq<int>, i: int)
    requires
        list_run(v, d, c, cs),
        0 <= i < cs.len(),
        !list_goes_on(v, d, cs.take(i + 1)),
    ensures
        i == cs.len() - 1,
        cs.take(i + 1) == cs,
{
    if i < cs.len() - 1 {
        assert(link(v.fat, cs[i]) == Link::Next(cs[i + 1]));
    }
    assert(cs.take(cs.len() as int) =~= cs);
}

} // verus!
