//! Which requests are refused, and that these change nothing.

use crate::disk::{DiskView, FsError};
use crate::fat12::changes::{
    clusters_needed, create_directory, create_file, delete_directory, delete_file, find_run,
    free_below, free_chain, free_slot, listed, pick_free, reserve, write_file, Store,
};
use crate::fat12::frames::{free_below_sound, set_link_mounted};
use crate::fat12::layout::no_cluster_too_many;
use crate::fat12::names::{alias, base_part, ext_part, lfn_byte, name_entries, short_field};
use crate::fat12::search::{find_witness, found_slot, found_slot_is_found};
use crate::fat12::table::{
    chain, chain_distinct, ends, freeing_decreases, link, run, set_entry, set_entry_frame,
    set_entry_links, Link,
};
use crate::fat12::volume::{
    dir_lbas, file_contents, find_entry, find_from, listing, root_sectors, short_names,
    DirLocation, Volume,
};
use crate::fat_common::{no_lfn, slot_kind, LfnView};
use crate::rtc::RtcTime;
use vstd::prelude::*;
use vstd::utf8::encode_utf8;

verus! {

/// A name is found if and only if a slot goes by it that the search gets to: one with no end of the
/// directory and no other such slot in front of it.
pub proof fn names_are_found(d: DiskView, lbas: Seq<int>, target: Seq<u8>)
    ensures
        find_from(d, lbas, 0, no_lfn(), target) is At <==> exists|k: int, lfn: LfnView| #[trigger]
            found_slot(d, lbas, 0, no_lfn(), target, k, lfn),
{
    if find_from(d, lbas, 0, no_lfn(), target) is At {
        let w = find_witness(d, lbas, 0, no_lfn(), target);
        assert(found_slot(d, lbas, 0, no_lfn(), target, w.0, w.1));
    }
    if exists|k: int, lfn: LfnView| #[trigger]
        found_slot(d, lbas, 0, no_lfn(), target, k, lfn) {
        let (k, lfn) = choose|k: int, lfn: LfnView| #[trigger]
            found_slot(d, lbas, 0, no_lfn(), target, k, lfn);
        found_slot_is_found(d, lbas, 0, no_lfn(), target, k, lfn);
    }
}

/// A name that is not found, or a directory that cannot be searched, is refused by every request for
/// something that is there, with the same error, and nothing changes.
pub proof fn missing_names_are_refused(
    st: Store,
    dir: DirLocation,
    name: Seq<char>,
    data: Seq<u8>,
    e: FsError,
)
    requires
        find_entry(st.v, st.d, dir, name) == Err::<(int, int, crate::fat_common::Entry), FsError>(e),
    ensures
        file_contents(st.v, st.d, dir, name) == Err::<Seq<u8>, FsError>(e),
        write_file(st, dir, name, data) == (st, Err::<(), FsError>(e)),
        delete_file(st, dir, name) == (st, Err::<(), FsError>(e)),
        delete_directory(st, dir, name) == (st, Err::<(), FsError>(e)),
{
}

/// A directory is not read, written or deleted as a file, and a file is not deleted as a directory;
/// nothing changes.
pub proof fn kinds_are_not_mixed_up(st: Store, dir: DirLocation, name: Seq<char>, data: Seq<u8>)
    requires
        find_entry(st.v, st.d, dir, name) is Ok,
    ensures
        ({
            let is_dir = find_entry(st.v, st.d, dir, name)->Ok_0.2.is_dir;
            &&& is_dir ==> file_contents(st.v, st.d, dir, name) is Err
            &&& is_dir ==> write_file(st, dir, name, data).1 is Err && write_file(
                st,
                dir,
                name,
                data,
            ).0 == st
            &&& is_dir ==> delete_file(st, dir, name).1 is Err && delete_file(st, dir, name).0 == st
            &&& !is_dir ==> delete_directory(st, dir, name).1 is Err && delete_directory(
                st,
                dir,
                name,
            ).0 == st
        }),
{
}

/// A file that is there, or a name that a directory lists, is not created again, and nothing changes.
pub proof fn names_are_not_used_twice(
    st: Store,
    dir: DirLocation,
    name: Seq<char>,
    data: Seq<u8>,
    time: RtcTime,
)
    ensures
        file_contents(st.v, st.d, dir, name) is Ok ==> create_file(st, dir, name, data, time).1 is Err
            && create_file(st, dir, name, data, time).0 == st,
        (listing(st.v, st.d, dir) matches Ok(es) && listed(es, name)) ==> create_directory(
            st,
            dir,
            name,
            time,
        ).1 is Err && create_directory(st, dir, name, time).0 == st,
{
}

/// A new name is written down as a short name alone if it has up to eight bytes in front of its first
/// dot and up to three behind it, and with long-name entries otherwise, if it has up to 195
/// bytes that a long name can have; any other is refused, and nothing changes.
pub proof fn new_names_fit(
    st: Store,
    dir: DirLocation,
    name: Seq<char>,
    data: Seq<u8>,
    time: RtcTime,
)
    ensures
        ({
            let b = encode_utf8(name);
            let short = 1 <= base_part(b).len() <= 8 && ext_part(b).len() <= 3;
            let long = 1 <= b.len() <= 195 && forall|j: int| 0 <= j < b.len() ==> lfn_byte(
                #[trigger] b[j],
            );
            &&& short ==> (name_entries(st.v, st.d, dir, name) matches Ok((_, entries))
                ==> entries.len() == 0)
            &&& !short && long ==> (name_entries(st.v, st.d, dir, name) matches Ok((_, entries))
                ==> entries.len() == (b.len() + 12) / 13)
            &&& !short && !long ==> create_file(st, dir, name, data, time).1 is Err && create_file(
                st,
                dir,
                name,
                data,
                time,
            ).0 == st
            &&& !short && !long ==> create_directory(st, dir, name, time).1 is Err
                && create_directory(st, dir, name, time).0 == st
        }),
{
}

/// A new name never takes the short name of another entry.
pub proof fn short_names_are_not_used_twice(v: Volume, d: DiskView, dir: DirLocation, name: Seq<char>)
    ensures
        name_entries(v, d, dir, name) matches Ok((short, _)) ==> (short_names(v, d, dir) matches Ok(
            names,
        ) && !names.contains(short)),
{
    if let Ok(names) = short_names(v, d, dir) {
        crate::fat12::spelling::free_alias_is_free(encode_utf8(name), names, 1);
    }
}

/// Clusters are picked if there are enough that are free, and then those with the lowest numbers from 2
/// on: none that is free is passed over.
pub proof fn lowest_clusters_are_picked(v: Volume, count: int, c: int)
    requires
        0 <= count,
        2 <= c < v.total_entries(),
        link(v.fat, c) is Free,
        pick_free(v, count) is Ok,
    ensures
        pick_free(v, count)->Ok_0.len() == count,
        pick_free(v, count)->Ok_0.contains(c) || forall|i: int|
            0 <= i < count ==> #[trigger] pick_free(v, count)->Ok_0[i] < c,
{
    let all = free_below(v.fat, v.total_entries());
    free_below_sound(v.fat, v.total_entries());
    let got = pick_free(v, count)->Ok_0;
    all_free_are_there(v.fat, v.total_entries(), c);
    let k = choose|k: int| 0 <= k < all.len() && all[k] == c;
    if k < count {
        assert(got[k] == c);
    } else {
        assert forall|i: int| 0 <= i < count implies #[trigger] got[i] < c by {
            assert(got[i] == all[i]);
            free_rise(v.fat, v.total_entries(), i, k);
        }
    }
}

proof fn all_free_are_there(fat: Seq<u8>, n: int, c: int)
    requires
        2 <= c < n,
        link(fat, c) is Free,
    ensures
        free_below(fat, n).contains(c),
    decreases n,
{
    let all = free_below(fat, n);
    let before = free_below(fat, n - 1);
    if c == n - 1 {
        assert(all[before.len() as int] == c);
    } else {
        all_free_are_there(fat, n - 1, c);
        let k = choose|k: int| 0 <= k < before.len() && before[k] == c;
        assert(all[k] == c);
    }
}

proof fn free_rise(fat: Seq<u8>, n: int, i: int, k: int)
    requires
        0 <= i < k < free_below(fat, n).len(),
    ensures
        free_below(fat, n)[i] < free_below(fat, n)[k] < n,
    decreases n,
{
    let before = free_below(fat, n - 1);
    if k < before.len() {
        free_rise(fat, n - 1, i, k);
    } else {
        free_is_below(fat, n - 1, i);
    }
}

proof fn free_is_below(fat: Seq<u8>, n: int, i: int)
    requires
        0 <= i < free_below(fat, n).len(),
    ensures
        free_below(fat, n)[i] < n,
    decreases n,
{
    if n > 2 && i < free_below(fat, n - 1).len() {
        free_is_below(fat, n - 1, i);
    }
}

/// Too few free clusters are no reason to take some: none is picked.
pub proof fn full_volumes_are_refused(v: Volume, count: int)
    ensures
        pick_free(v, count) is Err <==> free_below(v.fat, v.total_entries()).len() < count,
{
}

/// A slot can be taken again if nothing is in use from it on, or if its entry was deleted.
pub proof fn free_slots_are_taken_again(raw: Seq<u8>)
    requires
        raw.len() == 32,
    ensures
        free_slot(raw) <==> slot_kind(raw) is Terminator || slot_kind(raw) is Deleted,
{
}

proof fn clusters_are_counted(len: int, spc: int, n: int)
    requires
        0 <= len,
        1 <= spc,
        len == 0 ==> n == 1,
        len > 0 ==> (n - 1) * (512 * spc) < len <= n * (512 * spc),
    ensures
        clusters_needed(len, spc) == n,
{
    no_cluster_too_many(len, spc);
    let m = clusters_needed(len, spc);
    let size = 512 * spc;
    if len > 0 {
        assert(m == n) by (nonlinear_arith)
            requires
                size >= 512,
                (n - 1) * size < len <= n * size,
                (m - 1) * size < len <= m * size,
        ;
    }
}

/// A name that fits and that no other entry has is granted: as it is if it is a short one, and with an
/// alias that is not taken otherwise.
pub proof fn new_names_are_granted(
    v: Volume,
    d: DiskView,
    dir: DirLocation,
    name: Seq<char>,
    names: Seq<Seq<u8>>,
    m: int,
)
    requires
        short_names(v, d, dir) == Ok::<Seq<Seq<u8>>, FsError>(names),
        1 <= m <= 99,
    ensures
        ({
            let b = encode_utf8(name);
            let short = 1 <= base_part(b).len() <= 8 && ext_part(b).len() <= 3;
            let long = 1 <= b.len() <= 195 && forall|j: int| 0 <= j < b.len() ==> lfn_byte(
                #[trigger] b[j],
            );
            &&& short && !names.contains(short_field(b)) ==> name_entries(v, d, dir, name) is Ok
            &&& !short && long && !names.contains(alias(b, m)) ==> name_entries(v, d, dir, name) is Ok
        }),
{
    crate::fat12::spelling::free_alias_is_free(encode_utf8(name), names, 1);
}

/// A new file is granted if its name is not there and can be written down, its directory has room for
/// its entries, and there are as many free clusters as its contents fill.
pub proof fn create_is_granted(
    st: Store,
    dir: DirLocation,
    name: Seq<char>,
    data: Seq<u8>,
    time: RtcTime,
    n: int,
)
    requires
        st.v.sectors_per_cluster >= 1,
        file_contents(st.v, st.d, dir, name) matches Err(FsError::Failed(_)),
        name_entries(st.v, st.d, dir, name) matches Ok((_, long)) && long.len() < 16 && (dir_lbas(
            st.v,
            dir,
        ) matches Ok(lbas) && (find_run(st.d, lbas, 0, (long.len() + 1) as int) matches Ok(Some(_)))),
        data.len() == 0 ==> n == 1,
        data.len() > 0 ==> (n - 1) * (512 * st.v.sectors_per_cluster) < data.len() <= n * (512
            * st.v.sectors_per_cluster),
        pick_free(st.v, n) is Ok,
    ensures
        create_file(st, dir, name, data, time).1 is Ok,
{
    reveal(reserve);
    clusters_are_counted(data.len() as int, st.v.sectors_per_cluster, n);
}

/// A new directory is granted if the name is not there and can be written down, the directory that it
/// goes to has room for its entries, and a cluster is free.
pub proof fn create_directory_is_granted(
    st: Store,
    dir: DirLocation,
    name: Seq<char>,
    time: RtcTime,
)
    requires
        listing(st.v, st.d, dir) matches Ok(es) && !listed(es, name),
        name_entries(st.v, st.d, dir, name) matches Ok((_, long)) && long.len() < 16 && (dir_lbas(
            st.v,
            dir,
        ) matches Ok(lbas) && (find_run(st.d, lbas, 0, (long.len() + 1) as int) matches Ok(Some(_)))),
        pick_free(st.v, 1) is Ok,
    ensures
        create_directory(st, dir, name, time).1 is Ok,
{
    reveal(reserve);
}

/// The root directory does not grow: without room in it nothing is created there, and nothing changes.
pub proof fn full_root_is_refused(
    st: Store,
    name: Seq<char>,
    data: Seq<u8>,
    time: RtcTime,
)
    requires
        name_entries(st.v, st.d, DirLocation::Root, name) matches Ok((_, long)) && (find_run(
            st.d,
            root_sectors(st.v),
            0,
            (long.len() + 1) as int,
        ) matches Ok(None)),
    ensures
        create_file(st, DirLocation::Root, name, data, time).1 is Err,
        create_file(st, DirLocation::Root, name, data, time).0 == st,
        create_directory(st, DirLocation::Root, name, time).1 is Err,
        create_directory(st, DirLocation::Root, name, time).0 == st,
{
    reveal(reserve);
}

/// A write to a file is granted if its chain is whole and there are as many free clusters as it lacks.
pub proof fn write_is_granted(
    st: Store,
    dir: DirLocation,
    name: Seq<char>,
    data: Seq<u8>,
    n: int,
)
    requires
        st.v.sectors_per_cluster >= 1,
        find_entry(st.v, st.d, dir, name) matches Ok((_, _, e)) && !e.is_dir && ({
            let cs = chain(st.v.fat, e.start_cluster as int);
            &&& link(st.v.fat, cs.last()) is End
            &&& n <= cs.len() || pick_free(st.v, n - cs.len()) is Ok
        }),
        data.len() == 0 ==> n == 1,
        data.len() > 0 ==> (n - 1) * (512 * st.v.sectors_per_cluster) < data.len() <= n * (512
            * st.v.sectors_per_cluster),
    ensures
        write_file(st, dir, name, data).1 is Ok,
{
    clusters_are_counted(data.len() as int, st.v.sectors_per_cluster, n);
}

proof fn chain_can_be_freed(st: Store, cs: Seq<int>)
    requires
        st.mounted(),
        cs.len() > 0,
        cs.no_duplicates(),
        forall|i: int| 0 <= i < cs.len() - 1 ==> #[trigger] link(st.v.fat, cs[i]) == Link::Next(cs[i + 1]),
        link(st.v.fat, cs.last()) is End,
    ensures
        free_chain(st, cs[0]).1 is None,
    decreases cs.len(),
{
    let fat = st.v.fat;
    let c = cs[0];
    if cs.len() > 1 {
        assert(link(fat, cs[0]) == Link::Next(cs[1]));
        set_link_mounted(st, c, 0);
        set_entry_links(fat, c, 0);
        let st1 = st.set_link(c, 0);
        assert(st1.v.fat == set_entry(fat, c, 0)) by {
            reveal(Store::set_link);
        }
        let rest = cs.skip(1);
        assert forall|i: int| 0 <= i < rest.len() implies #[trigger] link(st1.v.fat, rest[i]) == link(
            fat,
            rest[i],
        ) by {
            assert(rest[i] == cs[i + 1]);
            assert(cs[i + 1] != cs[0]);
        }
        assert forall|i: int| 0 <= i < rest.len() - 1 implies #[trigger] link(st1.v.fat, rest[i])
            == Link::Next(rest[i + 1]) by {
            assert(link(fat, cs[i + 1]) == Link::Next(cs[i + 2]));
        }
        assert(rest.last() == cs.last());
        assert(link(st1.v.fat, rest[rest.len() - 1]) == link(fat, rest[rest.len() - 1]));
        chain_can_be_freed(st1, rest);
        set_entry_frame(fat, c, 0);
        freeing_decreases(fat, c, fat.len());
    }
}

/// A file whose chain is whole can be deleted, and so can a directory with no more than its first two
/// entries.
pub proof fn delete_is_granted(st: Store, dir: DirLocation, name: Seq<char>)
    requires
        st.mounted(),
        find_entry(st.v, st.d, dir, name) matches Ok((_, _, e)) && ends(
            st.v.fat,
            e.start_cluster as int,
        ) && link(st.v.fat, chain(st.v.fat, e.start_cluster as int).last()) is End,
    ensures
        find_entry(st.v, st.d, dir, name) matches Ok((_, _, e)) && {
            &&& !e.is_dir ==> delete_file(st, dir, name).1 is Ok
            &&& e.is_dir && (listing(st.v, st.d, DirLocation::Cluster(e.start_cluster)) matches Ok(es)
                && es.len() <= 2) ==> delete_directory(st, dir, name).1 is Ok
        },
{
    let (_, _, e) = find_entry(st.v, st.d, dir, name)->Ok_0;
    let cs = chain(st.v.fat, e.start_cluster as int);
    assert(run(st.v.fat, e.start_cluster as int, cs));
    chain_distinct(st.v.fat, e.start_cluster as int);
    chain_can_be_freed(st, cs);
}

} // verus!
