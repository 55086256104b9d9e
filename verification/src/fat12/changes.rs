//! What the operations that change a volume do to it.

use crate::bytes::{le32_bytes, splice};
use crate::disk::{DiskView, FsError};
use crate::fat12::names::{dir_entry_bytes, fat_datetime, name_entries};
use crate::fat12::table::{
    chain, ends, entry, freeing_decreases, link, link_error, set_entry, set_entry_frame, used_below,
    Link,
};
use crate::fat12::volume::{
    dir_lbas, dir_ready, file_contents, file_ready, find_entry, list_ready, listing, DirLocation,
    Volume,
};
use crate::fat_common::{slot, Entry};
use crate::rtc::RtcTime;
use crate::text::same_name;
use vstd::prelude::*;
use vstd::utf8::encode_utf8;

verus! {

/// A mounted volume and the disk it is on.
#[verifier::ext_equal]
pub struct Store {
    pub v: Volume,
    pub d: DiskView,
}

impl Store {
    /// The volume is usable and its table in memory is the one on disk. The first
    /// table does not share its sectors with anything.
    pub open spec fn mounted(self) -> bool {
        &&& self.v.wf()
        &&& self.v.geometry_fits()
        &&& self.v.num_fats >= 1
        &&& self.v.coherent(self.d)
        &&& self.d.wf()
    }

    pub open spec fn put(self, lba: int, bytes: Seq<u8>) -> Store {
        Store { d: self.d.put(lba, bytes), ..self }
    }

    /// The entry of cluster `c` becomes `value`, in memory and on disk. An entry can
    /// lie across two sectors.
    #[verifier::opaque]
    pub open spec fn set_link(self, c: int, value: int) -> Store {
        let v2 = self.v.with_fat(set_entry(self.v.fat, c, value));
        let off = c * 3 / 2;
        let k = off / 512;
        let d1 = self.d.put(self.v.fat_lba(k), v2.fat_sector(k));
        Store {
            v: v2,
            d: if off % 512 == 511 {
                d1.put(self.v.fat_lba(k + 1), v2.fat_sector(k + 1))
            } else {
                d1
            },
        }
    }
}

/// The free clusters below `n`, in ascending order. The first data cluster is 2.
pub open spec fn free_below(fat: Seq<u8>, n: int) -> Seq<int>
    decreases n,
{
    if n <= 2 {
        Seq::empty()
    } else if link(fat, n - 1) is Free {
        free_below(fat, n - 1).push(n - 1)
    } else {
        free_below(fat, n - 1)
    }
}

/// The first `count` free clusters of a volume.
pub open spec fn pick_free(v: Volume, count: int) -> Result<Seq<int>, FsError> {
    let all = free_below(v.fat, v.total_entries());
    if all.len() < count {
        Err(FsError::Failed("FAT12: not enough free clusters available for this file"))
    } else {
        Ok(all.take(count))
    }
}

/// Block `k` of a file: 512 bytes of it, with zeros behind its end.
pub open spec fn data_block(data: Seq<u8>, k: int) -> Seq<u8> {
    Seq::new(
        512,
        |j: int|
            if 512 * k + j < data.len() {
                data[512 * k + j]
            } else {
                0u8
            },
    )
}

/// The sectors of cluster `c` from sector `s` on hold the blocks of `data`, the
/// first of them block `k` in sector 0.
pub open spec fn write_cluster(st: Store, c: int, s: int, data: Seq<u8>, k: int) -> Store
    decreases st.v.sectors_per_cluster - s,
{
    if s < 0 || s >= st.v.sectors_per_cluster {
        st
    } else {
        write_cluster(st.put(st.v.cluster_lba(c) + s, data_block(data, k + s)), c, s + 1, data, k)
    }
}

/// `data` is laid across the clusters `cs` from number `i` on, and each of them is
/// chained to the next.
pub open spec fn lay_chain(st: Store, cs: Seq<int>, i: int, data: Seq<u8>) -> Store
    decreases cs.len() - i,
{
    if i < 0 || i >= cs.len() {
        st
    } else {
        let next = if i + 1 < cs.len() {
            cs[i + 1]
        } else {
            0xFFF
        };
        lay_chain(
            write_cluster(st, cs[i], 0, data, i * st.v.sectors_per_cluster).set_link(cs[i], next),
            cs,
            i + 1,
            data,
        )
    }
}

/// The clusters of `cs` from number `i` on become free.
pub open spec fn free_list(st: Store, cs: Seq<int>, i: int) -> Store
    decreases cs.len() - i,
{
    if i < 0 || i >= cs.len() {
        st
    } else {
        free_list(st.set_link(cs[i], 0), cs, i + 1)
    }
}

/// The chain from `c` on becomes free, cluster by cluster; the walk can fail.
pub open spec fn free_chain(st: Store, c: int) -> (Store, Option<&'static str>)
    decreases used_below(st.v.fat, st.v.fat.len()),
{
    match link(st.v.fat, c) {
        Link::Next(n) => {
            proof {
                reveal(Store::set_link);
                set_entry_frame(st.v.fat, c, 0);
                freeing_decreases(st.v.fat, c, st.v.fat.len());
            }
            free_chain(st.set_link(c, 0), n)
        },
        Link::End => (st.set_link(c, 0), None),
        l => (st, link_error(l)),
    }
}

/// The number of clusters for `len` bytes, rounded up: at least one.
pub open spec fn clusters_needed(len: int, sectors_per_cluster: int) -> int {
    let size = 512 * sectors_per_cluster;
    if len == 0 {
        1
    } else if len % size == 0 {
        len / size
    } else {
        len / size + 1
    }
}

/// A slot that a new entry can take: never used, or deleted.
pub open spec fn free_slot(raw: Seq<u8>) -> bool {
    raw[0] == 0 || raw[0] == 0xE5
}

/// `count` free slots in a row from slot `i` of a sector on.
pub open spec fn run_at(sector: Seq<u8>, i: int, count: int) -> bool {
    &&& 0 <= i
    &&& i + count <= 16
    &&& forall|j: int| i <= j < i + count ==> free_slot(#[trigger] slot(sector, j))
}

/// The first place from slot `i` on with `count` free slots in a row.
pub open spec fn first_run(sector: Seq<u8>, i: int, count: int) -> Option<int>
    decreases 16 - i,
{
    if i < 0 || i >= 16 {
        None
    } else if run_at(sector, i, count) {
        Some(i)
    } else {
        first_run(sector, i + 1, count)
    }
}

/// The first sector from number `j` on with `count` free slots in a row, and the
/// first of these slots.
pub open spec fn find_run(d: DiskView, lbas: Seq<int>, j: int, count: int) -> Result<
    Option<(int, int)>,
    FsError,
>
    decreases lbas.len() - j,
{
    if j < 0 || j >= lbas.len() {
        Ok(None)
    } else if !d.has(lbas[j]) {
        Err(d.read_error(lbas[j]))
    } else {
        match first_run(d.at(lbas[j]), 0, count) {
            Some(i) => Ok(Some((lbas[j], i))),
            None => find_run(d, lbas, j + 1, count),
        }
    }
}

/// A zeroed cluster is appended to the directory at `start`; its first sector.
pub open spec fn grow_directory(st: Store, start: int) -> (Store, Result<int, FsError>) {
    let cs = chain(st.v.fat, start);
    match link_error(link(st.v.fat, cs.last())) {
        Some(m) => (st, Err(FsError::Failed(m))),
        None => match pick_free(st.v, 1) {
            Err(e) => (st, Err(e)),
            Ok(new) => (
                write_cluster(st, new[0], 0, Seq::empty(), 0).set_link(
                    cs.last(),
                    new[0],
                ).set_link(new[0], 0xFFF),
                Ok(st.v.cluster_lba(new[0])),
            ),
        },
    }
}

/// Finds `count` free slots in a row in one sector of a directory, which grows if
/// it can and has to: the sector and the first of the slots.
#[verifier::opaque]
pub open spec fn reserve(st: Store, dir: DirLocation, count: int) -> (
    Store,
    Result<(int, int), FsError>,
) {
    if count > 16 {
        (
            st,
            Err(
                FsError::Failed(
                    "FAT12: cannot reserve that many consecutive directory-entry slots within one sector",
                ),
            ),
        )
    } else {
        match dir_lbas(st.v, dir) {
            Err(e) => (st, Err(e)),
            Ok(lbas) => match find_run(st.d, lbas, 0, count) {
                Err(e) => (st, Err(e)),
                Ok(Some(at)) => (st, Ok(at)),
                Ok(None) => match dir {
                    DirLocation::Root => (
                        st,
                        Err(
                            FsError::Failed("FAT12: root directory is full, no free entry slot"),
                        ),
                    ),
                    DirLocation::Cluster(c) => {
                        let (grown, r) = grow_directory(st, c as int);
                        match r {
                            Err(e) => (grown, Err(e)),
                            Ok(lba) => (grown, Ok((lba, 0int))),
                        }
                    },
                },
            },
        }
    }
}

/// The entries from number `m` on go to successive slots of sector `lba`, number 0
/// to slot `first`.
pub open spec fn put_entries(
    d: DiskView,
    lba: int,
    first: int,
    entries: Seq<Seq<u8>>,
    m: int,
) -> DiskView
    decreases entries.len() - m,
{
    if m < 0 || m >= entries.len() {
        d
    } else {
        put_entries(
            d.put(lba, splice(d.at(lba), 32 * (first + m), entries[m])),
            lba,
            first,
            entries,
            m + 1,
        )
    }
}

/// A new file with the contents `data`, under the short name `short` and the
/// long-name entries `long`.
pub open spec fn add_file(
    st: Store,
    dir: DirLocation,
    short: Seq<u8>,
    long: Seq<Seq<u8>>,
    data: Seq<u8>,
    time: RtcTime,
) -> (Store, Result<(), FsError>) {
    let (st1, at) = reserve(st, dir, (long.len() + 1) as int);
    match at {
        Err(e) => (st1, Err(e)),
        Ok((lba, first)) => match pick_free(
            st1.v,
            clusters_needed(data.len() as int, st1.v.sectors_per_cluster),
        ) {
            Err(e) => (st1, Err(e)),
            Ok(cs) => {
                let st2 = lay_chain(st1, cs, 0, data);
                let e = file_entry(short, cs[0], data.len(), time);
                (Store { v: st2.v, d: put_entries(st2.d, lba, first, long.push(e), 0) }, Ok(()))
            },
        },
    }
}

/// The short entry of a new file.
pub open spec fn file_entry(short: Seq<u8>, cluster: int, len: nat, time: RtcTime) -> Seq<u8> {
    let (fat_time, fat_date) = fat_datetime(time);
    dir_entry_bytes(short, 0x20, cluster as u32, len as u32, fat_time, fat_date)
}

/// A new file `name` with the contents `data`.
pub open spec fn create_file(
    st: Store,
    dir: DirLocation,
    name: Seq<char>,
    data: Seq<u8>,
    time: RtcTime,
) -> (Store, Result<(), FsError>) {
    match file_contents(st.v, st.d, dir, name) {
        Ok(_) => (st, Err(FsError::Failed("FAT12: a file with that name already exists"))),
        Err(FsError::Missing(l)) => (st, Err(FsError::Missing(l))),
        Err(FsError::Failed(_)) => match name_entries(st.v, st.d, dir, name) {
            Err(e) => (st, Err(e)),
            Ok((short, long)) => add_file(st, dir, short, long, data, time),
        },
    }
}

/// What a new file needs of the volume.
pub open spec fn create_ready(st: Store, dir: DirLocation, name: Seq<char>) -> bool {
    &&& st.mounted()
    &&& st.v.clusters_fit()
    &&& dir_ready(st.v, dir)
    &&& file_ready(st.v, st.d, dir, name)
}

/// The contents of the file whose clusters are to be `cs` and whose entry is at
/// `offset` of sector `lba` become `data`.
pub open spec fn rewrite(st: Store, lba: int, offset: int, cs: Seq<int>, data: Seq<u8>) -> Store {
    let st2 = lay_chain(st, cs, 0, data);
    st2.put(lba, splice(st2.d.at(lba), offset + 28, le32_bytes(data.len() as u32)))
}

/// The clusters that the file with the chain `cs` has once it holds `len` bytes.
pub open spec fn resized(v: Volume, cs: Seq<int>, len: int) -> Result<Seq<int>, FsError> {
    let need = clusters_needed(len, v.sectors_per_cluster);
    if need > cs.len() {
        match pick_free(v, need - cs.len()) {
            Err(e) => Err(e),
            Ok(extra) => Ok(cs + extra),
        }
    } else {
        Ok(cs.take(need))
    }
}

/// The file `name` gets the contents `data`.
pub open spec fn write_file(st: Store, dir: DirLocation, name: Seq<char>, data: Seq<u8>) -> (
    Store,
    Result<(), FsError>,
) {
    match find_entry(st.v, st.d, dir, name) {
        Err(e) => (st, Err(e)),
        Ok((lba, offset, e)) => if e.is_dir {
            (st, Err(FsError::Failed("FAT12: write_file does not support directories")))
        } else {
            let cs = chain(st.v.fat, e.start_cluster as int);
            match link_error(link(st.v.fat, cs.last())) {
                Some(m) => (st, Err(FsError::Failed(m))),
                None => match resized(st.v, cs, data.len() as int) {
                    Err(e) => (st, Err(e)),
                    Ok(kept) => (
                        rewrite(free_list(st, cs, kept.len() as int), lba, offset, kept, data),
                        Ok(()),
                    ),
                },
            }
        },
    }
}

/// What rewriting a file needs of the volume: the chain of the file ends, and the
/// clusters that are written can be addressed.
pub open spec fn write_ready(st: Store, dir: DirLocation, name: Seq<char>, len: int) -> bool {
    &&& st.mounted()
    &&& st.v.clusters_fit()
    &&& dir_ready(st.v, dir)
    &&& match find_entry(st.v, st.d, dir, name) {
        Ok((_, _, e)) => e.is_dir || {
            let cs = chain(st.v.fat, e.start_cluster as int);
            &&& e.start_cluster <= 0x5555_5555
            &&& ends(st.v.fat, e.start_cluster as int)
            &&& forall|i: int|
                0 <= i < cs.len() && i < clusters_needed(len, st.v.sectors_per_cluster)
                    ==> st.v.addressable(#[trigger] cs[i])
        },
        Err(_) => true,
    }
}

/// The slot at `offset` of sector `lba` is marked deleted.
pub open spec fn mark_deleted(st: Store, lba: int, offset: int) -> Store {
    st.put(lba, st.d.at(lba).update(offset, 0xE5))
}

/// The chain from `start` on is freed and the slot of its entry marked deleted.
pub open spec fn remove_entry(st: Store, lba: int, offset: int, start: int) -> (
    Store,
    Result<(), FsError>,
) {
    let (st1, failure) = free_chain(st, start);
    match failure {
        Some(m) => (st1, Err(FsError::Failed(m))),
        None => (mark_deleted(st1, lba, offset), Ok(())),
    }
}

/// The file `name` is gone.
pub open spec fn delete_file(st: Store, dir: DirLocation, name: Seq<char>) -> (
    Store,
    Result<(), FsError>,
) {
    match find_entry(st.v, st.d, dir, name) {
        Err(e) => (st, Err(e)),
        Ok((lba, offset, e)) => if e.is_dir {
            (st, Err(FsError::Failed("FAT12: delete_file does not support directories")))
        } else {
            remove_entry(st, lba, offset, e.start_cluster as int)
        },
    }
}

/// What removing a file needs of the volume.
pub open spec fn delete_ready(st: Store, dir: DirLocation, name: Seq<char>) -> bool {
    &&& st.mounted()
    &&& dir_ready(st.v, dir)
    &&& match find_entry(st.v, st.d, dir, name) {
        Ok((_, _, e)) => e.is_dir || e.start_cluster <= 0x5555_5555,
        Err(_) => true,
    }
}

/// The directory `name`, which has to be empty, is gone.
pub open spec fn delete_directory(st: Store, dir: DirLocation, name: Seq<char>) -> (
    Store,
    Result<(), FsError>,
) {
    match find_entry(st.v, st.d, dir, name) {
        Err(e) => (st, Err(e)),
        Ok((lba, offset, e)) => if !e.is_dir {
            (st, Err(FsError::Failed("FAT12: delete_directory does not support files - use rm")))
        } else {
            match listing(st.v, st.d, DirLocation::Cluster(e.start_cluster)) {
                Err(e) => (st, Err(e)),
                Ok(es) => if es.len() > 2 {
                    (st, Err(FsError::Failed("FAT12: directory is not empty")))
                } else {
                    remove_entry(st, lba, offset, e.start_cluster as int)
                },
            }
        },
    }
}

/// What removing a directory needs of the volume.
pub open spec fn delete_directory_ready(st: Store, dir: DirLocation, name: Seq<char>) -> bool {
    &&& st.mounted()
    &&& dir_ready(st.v, dir)
    &&& match find_entry(st.v, st.d, dir, name) {
        Ok((_, _, e)) => !e.is_dir || list_ready(st.v, st.d, e.start_cluster as int),
        Err(_) => true,
    }
}

/// The short-name fields of the two entries that every directory starts with.
pub open spec fn dot_name(dots: int) -> Seq<u8> {
    Seq::new(
        11,
        |i: int|
            if i < dots {
                0x2Eu8
            } else {
                0x20u8
            },
    )
}

/// The first two entries of the directory at `cluster`: itself and its parent, of
/// which 0 stands for the root directory.
pub open spec fn dot_entries(cluster: int, parent: DirLocation, time: RtcTime) -> Seq<u8> {
    let (fat_time, fat_date) = fat_datetime(time);
    let up: u32 = match parent {
        DirLocation::Root => 0,
        DirLocation::Cluster(c) => c,
    };
    dir_entry_bytes(dot_name(1), 0x10, cluster as u32, 0, fat_time, fat_date) + dir_entry_bytes(
        dot_name(2),
        0x10,
        up,
        0,
        fat_time,
        fat_date,
    )
}

/// Whether a listing has an entry that goes by `name`.
pub open spec fn listed(es: Seq<Entry>, name: Seq<char>) -> bool {
    exists|i: int|
        0 <= i < es.len() && same_name(encode_utf8((#[trigger] es[i]).name), encode_utf8(name))
}

/// A new directory with nothing in it, under the short name `short` and the
/// long-name entries `long`.
pub open spec fn add_directory(
    st: Store,
    dir: DirLocation,
    short: Seq<u8>,
    long: Seq<Seq<u8>>,
    time: RtcTime,
) -> (Store, Result<(), FsError>) {
    let (st1, at) = reserve(st, dir, (long.len() + 1) as int);
    match at {
        Err(e) => (st1, Err(e)),
        Ok((lba, first)) => match pick_free(st1.v, 1) {
            Err(e) => (st1, Err(e)),
            Ok(cs) => {
                let st2 = write_cluster(st1, cs[0], 0, dot_entries(cs[0], dir, time), 0).set_link(
                    cs[0],
                    0xFFF,
                );
                let e = subdir_entry(short, cs[0], time);
                (Store { v: st2.v, d: put_entries(st2.d, lba, first, long.push(e), 0) }, Ok(()))
            },
        },
    }
}

/// The short entry of a new directory.
pub open spec fn subdir_entry(short: Seq<u8>, cluster: int, time: RtcTime) -> Seq<u8> {
    let (fat_time, fat_date) = fat_datetime(time);
    dir_entry_bytes(short, 0x10, cluster as u32, 0, fat_time, fat_date)
}

/// A new directory `name` with nothing in it.
pub open spec fn create_directory(st: Store, dir: DirLocation, name: Seq<char>, time: RtcTime) -> (
    Store,
    Result<(), FsError>,
) {
    match listing(st.v, st.d, dir) {
        Err(e) => (st, Err(e)),
        Ok(es) => if listed(es, name) {
            (
                st,
                Err(FsError::Failed("FAT12: a file or directory with that name already exists")),
            )
        } else {
            match name_entries(st.v, st.d, dir, name) {
                Err(e) => (st, Err(e)),
                Ok((short, long)) => add_directory(st, dir, short, long, time),
            }
        },
    }
}

/// What a new directory needs of the volume.
pub open spec fn create_directory_ready(st: Store, dir: DirLocation) -> bool {
    &&& st.mounted()
    &&& st.v.clusters_fit()
    &&& dir_ready(st.v, dir)
    &&& match dir {
        DirLocation::Root => true,
        DirLocation::Cluster(c) => list_ready(st.v, st.d, c as int),
    }
}

} // verus!
