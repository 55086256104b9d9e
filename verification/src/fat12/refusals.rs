//! What is left of an operation when the drive refuses one of its writes.

use crate::bytes::{le32_bytes, splice};
use crate::disk::{after_is_pending, changes_taken_back, DiskView};
use crate::fat12::changes::{
    clusters_needed, create_directory, create_file, data_block, delete_directory, delete_file,
    dot_entries, file_entry, free_chain, free_list, lay_chain, pick_free, put_entries, remove_entry,
    reserve, resized, rewrite, subdir_entry, write_cluster, write_file, Store,
};
use crate::fat12::names::name_entries;
use crate::fat12::table::{
    chain, freeing_decreases, link, set_entry, set_entry_frame, used_below, Link,
};
use crate::fat12::volume::{find_entry, DirLocation};
use crate::fat12::{table_known, table_on};
use crate::rtc::RtcTime;
use vstd::prelude::*;

verus! {

/// The disk `now` is `before` after the changes that became pending since.
pub open spec fn changed(before: DiskView, now: DiskView) -> bool {
    &&& before.pending.len() <= now.pending.len()
    &&& now == before.after(now.pending.skip(before.pending.len() as int))
}

/// The store `now` is `before` after some changes, with the same geometry.
pub open spec fn worked(before: Store, now: Store) -> bool {
    changed(before.d, now.d) && now.v == before.v.with_fat(now.v.fat)
}

proof fn nothing_changed(st: Store)
    ensures
        worked(st, st),
{
    assert(st.d.pending.skip(st.d.pending.len() as int) =~= Seq::empty());
}

proof fn put_changed(before: DiskView, now: DiskView, lba: int, bytes: Seq<u8>)
    requires
        changed(before, now),
    ensures
        changed(before, now.put(lba, bytes)),
{
    let n = before.pending.len() as int;
    let ws = now.pending.skip(n);
    let more = now.put(lba, bytes).pending.skip(n);
    assert(more =~= ws.push((lba, bytes)));
    assert(more.drop_last() =~= ws);
}

proof fn set_link_worked(st0: Store, st: Store, c: int, value: int)
    requires
        worked(st0, st),
    ensures
        worked(st0, st.set_link(c, value)),
{
    reveal(Store::set_link);
    let v2 = st.set_link(c, value).v;
    let k = c * 3 / 2 / 512;
    let d1 = st.d.put(st.v.fat_lba(k), v2.fat_sector(k));
    put_changed(st0.d, st.d, st.v.fat_lba(k), v2.fat_sector(k));
    put_changed(st0.d, d1, st.v.fat_lba(k + 1), v2.fat_sector(k + 1));
}

proof fn write_cluster_worked(st0: Store, st: Store, c: int, s: int, data: Seq<u8>, k: int)
    requires
        worked(st0, st),
    ensures
        worked(st0, write_cluster(st, c, s, data, k)),
    decreases st.v.sectors_per_cluster - s,
{
    if 0 <= s < st.v.sectors_per_cluster {
        let lba = st.v.cluster_lba(c) + s;
        put_changed(st0.d, st.d, lba, data_block(data, k + s));
        write_cluster_worked(st0, st.put(lba, data_block(data, k + s)), c, s + 1, data, k);
    }
}

proof fn lay_chain_worked(st0: Store, st: Store, cs: Seq<int>, i: int, data: Seq<u8>)
    requires
        worked(st0, st),
    ensures
        worked(st0, lay_chain(st, cs, i, data)),
    decreases cs.len() - i,
{
    if 0 <= i < cs.len() {
        let next = if i + 1 < cs.len() {
            cs[i + 1]
        } else {
            0xFFF
        };
        let k = i * st.v.sectors_per_cluster;
        write_cluster_worked(st0, st, cs[i], 0, data, k);
        let st1 = write_cluster(st, cs[i], 0, data, k);
        set_link_worked(st0, st1, cs[i], next);
        lay_chain_worked(st0, st1.set_link(cs[i], next), cs, i + 1, data);
    }
}

proof fn free_list_worked(st0: Store, st: Store, cs: Seq<int>, i: int)
    requires
        worked(st0, st),
    ensures
        worked(st0, free_list(st, cs, i)),
    decreases cs.len() - i,
{
    if 0 <= i < cs.len() {
        set_link_worked(st0, st, cs[i], 0);
        free_list_worked(st0, st.set_link(cs[i], 0), cs, i + 1);
    }
}

proof fn free_chain_worked(st0: Store, st: Store, c: int)
    requires
        worked(st0, st),
    ensures
        worked(st0, free_chain(st, c).0),
    decreases used_below(st.v.fat, st.v.fat.len()),
{
    set_link_worked(st0, st, c, 0);
    if let Link::Next(n) = link(st.v.fat, c) {
        assert(st.set_link(c, 0).v.fat == set_entry(st.v.fat, c, 0)) by {
            reveal(Store::set_link);
        }
        set_entry_frame(st.v.fat, c, 0);
        freeing_decreases(st.v.fat, c, st.v.fat.len());
        free_chain_worked(st0, st.set_link(c, 0), n);
    }
}

proof fn put_entries_worked(
    st0: Store,
    st: Store,
    lba: int,
    first: int,
    entries: Seq<Seq<u8>>,
    m: int,
)
    requires
        worked(st0, st),
    ensures
        worked(st0, Store { v: st.v, d: put_entries(st.d, lba, first, entries, m) }),
    decreases entries.len() - m,
{
    if 0 <= m < entries.len() {
        let bytes = splice(st.d.at(lba), 32 * (first + m), entries[m]);
        put_changed(st0.d, st.d, lba, bytes);
        put_entries_worked(st0, st.put(lba, bytes), lba, first, entries, m + 1);
    }
}

proof fn reserve_worked(st: Store, dir: DirLocation, count: int)
    ensures
        worked(st, reserve(st, dir, count).0),
{
    reveal(reserve);
    nothing_changed(st);
    if let DirLocation::Cluster(c) = dir {
        if let Ok(new) = pick_free(st.v, 1) {
            let tail = chain(st.v.fat, c as int).last();
            let a = write_cluster(st, new[0], 0, Seq::empty(), 0);
            write_cluster_worked(st, st, new[0], 0, Seq::empty(), 0);
            set_link_worked(st, a, tail, new[0]);
            set_link_worked(st, a.set_link(tail, new[0]), new[0], 0xFFF);
        }
    }
}

proof fn remove_entry_worked(st: Store, lba: int, offset: int, start: int)
    ensures
        worked(st, remove_entry(st, lba, offset, start).0),
{
    nothing_changed(st);
    free_chain_worked(st, st, start);
    let st1 = free_chain(st, start).0;
    put_changed(st.d, st1.d, lba, st1.d.at(lba).update(offset, 0xE5));
}

/// What is left when the drive takes the first `taken` changes of an operation that led from
/// `st` to `after`, and refuses the next one: these changes and no others, in their order;
/// the table on disk can be read, and the table in memory that is read from it is the one on
/// disk (the sectors of a `Disk` always have 512 bytes). If the first change was refused, all
/// is as before.
pub open spec fn stopped(st: Store, after: Store, taken: int) -> bool {
    let d = after.d.undone(taken);
    let v = after.v.with_fat(table_on(after.v, d));
    &&& d == st.d.after(after.d.pending.take(taken))
    &&& table_known(after.v, d)
    &&& d.wf() ==> v.coherent(d)
    &&& taken == 0 ==> d == st.d && v == st.v
}

proof fn worked_stops(st: Store, after: Store, taken: int)
    requires
        st.mounted(),
        st.d.pending.len() == 0,
        worked(st, after),
        0 <= taken < after.d.pending.len(),
    ensures
        stopped(st, after, taken),
{
    let ws = after.d.pending;
    assert(after.d.pending.skip(0) =~= ws);
    changes_taken_back(st.d, ws, taken);
    let d = after.d.undone(taken);
    let v = after.v.with_fat(table_on(after.v, d));
    after_is_pending(st.d, ws.take(taken));
    assert forall|k: int| 0 <= k < after.v.fat_size implies d.has(#[trigger] after.v.fat_lba(k)) by {
        assert(st.d.has(st.v.fat_lba(k)));
        assert(after.v.fat_lba(k) == st.v.fat_lba(k));
    }
    if d.wf() {
        assert forall|k: int| 0 <= k < v.fat_size implies d.has(#[trigger] v.fat_lba(k)) && d.at(
            v.fat_lba(k),
        ) == v.fat_sector(k) by {
            assert(d.has(after.v.fat_lba(k)));
            assert(d.at(v.fat_lba(k)) =~= v.fat_sector(k));
        }
    }
    if taken == 0 {
        assert(ws.take(0) =~= Seq::empty());
        let fat = table_on(after.v, d);
        assert forall|i: int| 0 <= i < fat.len() implies fat[i] == st.v.fat[i] by {
            assert(st.d.at(st.v.fat_lba(i / 512)) == st.v.fat_sector(i / 512));
        }
        assert(fat =~= st.v.fat);
    }
}

/// A write that the drive refuses while a file is created leaves the writes in front of it,
/// and nothing else.
pub proof fn refused_create_stops(
    st: Store,
    dir: DirLocation,
    name: Seq<char>,
    data: Seq<u8>,
    time: RtcTime,
    taken: int,
)
    requires
        st.mounted(),
        st.d.pending.len() == 0,
        0 <= taken < create_file(st, dir, name, data, time).0.d.pending.len(),
    ensures
        stopped(st, create_file(st, dir, name, data, time).0, taken),
{
    nothing_changed(st);
    if let Ok((short, long)) = name_entries(st.v, st.d, dir, name) {
        let (st1, at) = reserve(st, dir, (long.len() + 1) as int);
        reserve_worked(st, dir, (long.len() + 1) as int);
        let need = clusters_needed(data.len() as int, st1.v.sectors_per_cluster);
        if let (Ok((lba, first)), Ok(cs)) = (at, pick_free(st1.v, need)) {
            lay_chain_worked(st, st1, cs, 0, data);
            let st2 = lay_chain(st1, cs, 0, data);
            let e = file_entry(short, cs[0], data.len(), time);
            put_entries_worked(st, st2, lba, first, long.push(e), 0);
        }
    }
    worked_stops(st, create_file(st, dir, name, data, time).0, taken);
}

/// The same while a file is written.
pub proof fn refused_write_stops(
    st: Store,
    dir: DirLocation,
    name: Seq<char>,
    data: Seq<u8>,
    taken: int,
)
    requires
        st.mounted(),
        st.d.pending.len() == 0,
        0 <= taken < write_file(st, dir, name, data).0.d.pending.len(),
    ensures
        stopped(st, write_file(st, dir, name, data).0, taken),
{
    nothing_changed(st);
    if let Ok((lba, offset, e)) = find_entry(st.v, st.d, dir, name) {
        let cs = chain(st.v.fat, e.start_cluster as int);
        if let Ok(kept) = resized(st.v, cs, data.len() as int) {
            free_list_worked(st, st, cs, kept.len() as int);
            let st1 = free_list(st, cs, kept.len() as int);
            lay_chain_worked(st, st1, kept, 0, data);
            let st2 = lay_chain(st1, kept, 0, data);
            put_changed(
                st.d,
                st2.d,
                lba,
                splice(st2.d.at(lba), offset + 28, le32_bytes(data.len() as u32)),
            );
            assert(worked(st, rewrite(st1, lba, offset, kept, data)));
        }
    }
    worked_stops(st, write_file(st, dir, name, data).0, taken);
}

/// The same while a file is deleted.
pub proof fn refused_delete_stops(st: Store, dir: DirLocation, name: Seq<char>, taken: int)
    requires
        st.mounted(),
        st.d.pending.len() == 0,
        0 <= taken < delete_file(st, dir, name).0.d.pending.len(),
    ensures
        stopped(st, delete_file(st, dir, name).0, taken),
{
    nothing_changed(st);
    if let Ok((lba, offset, e)) = find_entry(st.v, st.d, dir, name) {
        remove_entry_worked(st, lba, offset, e.start_cluster as int);
    }
    worked_stops(st, delete_file(st, dir, name).0, taken);
}

/// The same while a directory is created.
pub proof fn refused_create_directory_stops(
    st: Store,
    dir: DirLocation,
    name: Seq<char>,
    time: RtcTime,
    taken: int,
)
    requires
        st.mounted(),
        st.d.pending.len() == 0,
        0 <= taken < create_directory(st, dir, name, time).0.d.pending.len(),
    ensures
        stopped(st, create_directory(st, dir, name, time).0, taken),
{
    nothing_changed(st);
    if let Ok((short, long)) = name_entries(st.v, st.d, dir, name) {
        let (st1, at) = reserve(st, dir, (long.len() + 1) as int);
        reserve_worked(st, dir, (long.len() + 1) as int);
        if let (Ok((lba, first)), Ok(cs)) = (at, pick_free(st1.v, 1)) {
            let dots = dot_entries(cs[0], dir, time);
            write_cluster_worked(st, st1, cs[0], 0, dots, 0);
            let a = write_cluster(st1, cs[0], 0, dots, 0);
            set_link_worked(st, a, cs[0], 0xFFF);
            let st2 = a.set_link(cs[0], 0xFFF);
            let e = subdir_entry(short, cs[0], time);
            put_entries_worked(st, st2, lba, first, long.push(e), 0);
        }
    }
    worked_stops(st, create_directory(st, dir, name, time).0, taken);
}

/// The same while a directory is deleted.
pub proof fn refused_delete_directory_stops(
    st: Store,
    dir: DirLocation,
    name: Seq<char>,
    taken: int,
)
    requires
        st.mounted(),
        st.d.pending.len() == 0,
        0 <= taken < delete_directory(st, dir, name).0.d.pending.len(),
    ensures
        stopped(st, delete_directory(st, dir, name).0, taken),
{
    nothing_changed(st);
    if let Ok((lba, offset, e)) = find_entry(st.v, st.d, dir, name) {
        remove_entry_worked(st, lba, offset, e.start_cluster as int);
    }
    worked_stops(st, delete_directory(st, dir, name).0, taken);
}

} // verus!
