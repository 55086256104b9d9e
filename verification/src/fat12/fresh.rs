//! A directory that was created is there, and there is nothing in it.

use crate::disk::{DiskView, FsError};
use crate::fat12::changes::{
    create_directory, create_directory_ready, data_block, dot_entries, dot_name, lay_chain,
    pick_free, put_entries, reserve, subdir_entry, write_cluster, Store,
};
use crate::fat12::creation::{
    in_reach, made_up_name, name_absent, picked_apart, put_entries_effect, put_then_found,
    reserve_takes, spells,
};
use crate::fat12::frames::{in_cluster, picked};
use crate::fat12::laid::{
    cluster_holds, holds_with_fat, lay_chain_holds, lay_chain_keeps, sector_apart,
};
use crate::fat12::laws::lay_keeps_dir;
use crate::fat12::names::{dir_entry_bytes, fat_datetime, fits_short, name_entries, padded};
use crate::fat12::search::{dir_lbas_distinct, same_slot, scan_agree};
use crate::fat12::spelling::{
    entries_add_up, entry_round_trip, padded_text, plain_short, short_name_round_trip,
    subdir_entry_reads,
};
use crate::fat12::table::{link, Link};
use crate::fat12::volume::{
    cluster_sectors, dir_lbas, dir_listing, empty_listing, find_entry, find_from, list_goes_on,
    list_ready, list_run, list_sectors, listing, sectors_of, DirLocation, Volume,
};
use crate::fat_common::{
    entry_of, list_slots, no_lfn, short_name_of, slot, slot_kind, Entry, LfnView, Listing,
};
use crate::rtc::RtcTime;
use vstd::prelude::*;
use vstd::utf8::encode_utf8;

verus! {

/// An entry of a new directory: one or two dots, for itself or its parent.
pub open spec fn dot_entry(dots: int, cluster: u32, time: RtcTime) -> Entry {
    Entry {
        name: Seq::new(dots as nat, |i: int| '.'),
        is_dir: true,
        size: 0,
        start_cluster: cluster,
        fat_time: fat_datetime(time).0,
        fat_date: fat_datetime(time).1,
    }
}

/// The entry for one or two dots reads as such.
pub proof fn dot_entry_reads(dots: int, cluster: u32, time: RtcTime)
    requires
        dots == 1 || dots == 2,
    ensures
        ({
            let (t, dt) = fat_datetime(time);
            let raw = dir_entry_bytes(dot_name(dots), 0x10, cluster, 0, t, dt);
            &&& raw.len() == 32
            &&& slot_kind(raw) is Short
            &&& forall|lfn: LfnView|
                lfn.chunks.len() == 0 ==> #[trigger] entry_of(raw, lfn) == dot_entry(
                    dots,
                    cluster,
                    time,
                )
        }),
{
    let (t, dt) = fat_datetime(time);
    let raw = dir_entry_bytes(dot_name(dots), 0x10, cluster, 0, t, dt);
    subdir_entry_reads(dot_name(dots), cluster as int, time);
    entry_round_trip(dot_name(dots), 0x10, cluster, 0, t, dt);
    let base = Seq::new(dots as nat, |i: int| 0x2Eu8);
    let f = raw.subrange(0, 8);
    assert forall|j: int| 0 <= j < f.len() implies #[trigger] f[j] == padded(base, j) by {
        assert(raw.subrange(0, 11)[j] == f[j]);
    }
    padded_text(f, base, 0);
    assert(base.skip(0) =~= base);
    assert(raw.subrange(8, 11)[0] == raw.subrange(0, 11)[8]);
    assert(short_name_of(raw) =~= Seq::new(dots as nat, |i: int| '.'));
    assert forall|lfn: LfnView| lfn.chunks.len() == 0 implies #[trigger] entry_of(raw, lfn)
        == dot_entry(dots, cluster, time) by {
        assert(entry_of(raw, lfn) =~= dot_entry(dots, cluster, time));
    }
}

/// The cluster that `..` of a directory in `parent` names.
pub open spec fn parent_cluster(parent: DirLocation) -> u32 {
    match parent {
        DirLocation::Root => 0,
        DirLocation::Cluster(c) => c,
    }
}

/// A cluster that holds the first two entries and zeros lists as these two entries.
pub proof fn fresh_lists(v: Volume, d: DiskView, c: int, parent: DirLocation, time: RtcTime)
    requires
        v.sectors_per_cluster >= 1,
        v.addressable(c),
        cluster_holds(v, d, c, dot_entries(c, parent, time), 0),
    ensures
        list_ready(v, d, c),
        dir_listing(v, d, c) == Ok::<Seq<Entry>, FsError>(
            seq![
                dot_entry(1, c as u32, time),
                dot_entry(2, parent_cluster(parent), time),
            ],
        ),
{
    let data = dot_entries(c, parent, time);
    let (t, dt) = fat_datetime(time);
    let one = dir_entry_bytes(dot_name(1), 0x10, c as u32, 0, t, dt);
    let two = dir_entry_bytes(dot_name(2), 0x10, parent_cluster(parent), 0, t, dt);
    dot_entry_reads(1, c as u32, time);
    dot_entry_reads(2, parent_cluster(parent), time);
    let lba = v.cluster_lba(c);
    assert(in_cluster(v, c, lba));
    let sector = d.at(lba);
    assert(d.has(lba) && sector == data_block(data, 0));
    assert(slot(sector, 0) =~= one);
    assert(slot(sector, 1) =~= two);
    assert(slot(sector, 2)[0] == 0);
    let want = seq![dot_entry(1, c as u32, time), dot_entry(2, parent_cluster(parent), time)];
    let st0 = empty_listing();
    let st1 = Listing {
        entries: st0.entries.push(dot_entry(1, c as u32, time)),
        lfn: no_lfn(),
        done: false,
    };
    let st2 = Listing {
        entries: st1.entries.push(dot_entry(2, parent_cluster(parent), time)),
        lfn: no_lfn(),
        done: false,
    };
    assert(no_lfn().cleared() =~= no_lfn());
    assert(list_slots(sector, 0, st0) == list_slots(sector, 1, st1));
    assert(list_slots(sector, 1, st1) == list_slots(sector, 2, st2));
    let last = Listing { done: true, ..st2 };
    assert(list_slots(sector, 2, st2) == last);
    assert(last.entries =~= want);
    let cs = seq![c];
    let lbas = sectors_of(v, cs);
    assert(cs.drop_last() =~= Seq::<int>::empty());
    assert(sectors_of(v, Seq::<int>::empty()) =~= Seq::<int>::empty());
    assert(lbas =~= cluster_sectors(v, c));
    assert(lbas[0] == lba);
    assert(list_sectors(d, lbas, 1, last) == Ok::<Listing, FsError>(last));
    assert(list_sectors(d, lbas, 0, st0) == Ok::<Listing, FsError>(last));
    assert(!list_goes_on(v, d, cs));
    assert(list_run(v, d, c, cs));
    let chosen = choose|cs: Seq<int>| list_run(v, d, c, cs);
    if chosen.len() > 1 {
        assert(link(v.fat, chosen[0]) == Link::Next(chosen[1]));
        assert(chosen.take(1) =~= cs);
    }
    assert(chosen =~= cs);
}

/// What a name and a volume must be like for a new directory to be found under that
/// name.
pub open spec fn directory_creatable(st: Store, dir: DirLocation, name: Seq<char>) -> bool {
    &&& name_absent(st.v, st.d, dir, name)
    &&& fits_short(encode_utf8(name)) ==> plain_short(encode_utf8(name))
    &&& name_entries(st.v, st.d, dir, name) matches Ok((short, long)) ==> in_reach(
        st,
        dir,
        (long.len() + 1) as int,
    )
}

/// A directory that was created is found under its name, and lists as itself and its
/// parent.
pub proof fn create_directory_then_list(
    st: Store,
    dir: DirLocation,
    name: Seq<char>,
    time: RtcTime,
)
    requires
        create_directory_ready(st, dir),
        create_directory(st, dir, name, time).1 is Ok,
        directory_creatable(st, dir, name),
    ensures
        ({
            let after = create_directory(st, dir, name, time).0;
            find_entry(after.v, after.d, dir, name) matches Ok((_, _, e)) && {
                &&& e.is_dir
                &&& e.size == 0
                &&& list_ready(after.v, after.d, e.start_cluster as int)
                &&& listing(after.v, after.d, DirLocation::Cluster(e.start_cluster)) == Ok::<
                    Seq<Entry>,
                    FsError,
                >(
                    seq![
                        dot_entry(1, e.start_cluster, time),
                        dot_entry(2, parent_cluster(dir), time),
                    ],
                )
            }
        }),
{
    let target = encode_utf8(name);
    let (short, long) = name_entries(st.v, st.d, dir, name)->Ok_0;
    made_up_name(st.v, st.d, dir, name);
    let count = (long.len() + 1) as int;
    let (st1, at) = reserve(st, dir, count);
    let j = reserve_takes(st, dir, count, name);
    let (lba, first) = at->Ok_0;
    let cs = pick_free(st1.v, 1)->Ok_0;
    let c = cs[0];
    picked_apart(st1.v, dir, 1);
    picked(st1.v, 1);
    let data = dot_entries(c, dir, time);
    let st2 = lay_chain(st1, cs, 0, data);
    assert(0 * st1.v.sectors_per_cluster == 0) by (nonlinear_arith);
    let step = write_cluster(st1, c, 0, data, 0).set_link(c, 0xFFF);
    assert(lay_chain(step, cs, 1, data) == step);
    assert(st2 == step);
    lay_keeps_dir(st1, st1, dir, cs, data);
    lay_chain_keeps(st1, cs, 0, data);
    lay_chain_holds(st1, cs, 0, data, 0);
    let lbas = dir_lbas(st1.v, dir)->Ok_0;
    dir_lbas_distinct(st1.v, dir);
    let e = subdir_entry(short, c, time);
    subdir_entry_reads(short, c, time);
    assert(spells(long, e, target)) by {
        if long.len() == 0 {
            short_name_round_trip(target, e);
        }
    }
    let p = 16 * j + first;
    assert forall|m: int| 0 <= m < p implies #[trigger] same_slot(st1.d, st2.d, lbas, m) by {
        assert(st2.d.at(lbas[m / 16]) == st1.d.at(lbas[m / 16]));
    }
    scan_agree(st1.d, st2.d, lbas, 0, p, no_lfn(), target);
    assert(st2.d.at(lbas[j]) == st1.d.at(lbas[j]));
    assert(st1.d.at(lba).len() == 512);
    put_then_found(st2.d, lbas, j, first, long, e, target);
    let after = create_directory(st, dir, name, time).0;
    assert(after.d == put_entries(st2.d, lba, first, long.push(e), 0));
    assert(after.v == st2.v);
    let lfn = choose|lfn: LfnView|
        find_from(after.d, lbas, 0, no_lfn(), target)->At_2 == #[trigger] entry_of(e, lfn);
    let got = entry_of(e, lfn);
    assert(got.is_dir && got.size == 0 && got.start_cluster == c);
    assert(sector_apart(st1.v, cs, 0, lbas[j]));
    assert(!in_cluster(st1.v, cs[0], lba));
    let all = long.push(e);
    assert forall|i: int| 0 <= i < all.len() implies (#[trigger] all[i]).len() == 32 by {
        if i < long.len() {
            entries_add_up(no_lfn(), target, short, i);
        }
    }
    put_entries_effect(st2.d, lba, first, all, 0);
    assert(cluster_holds(st1.v, after.d, c, data, 0)) by {
        assert forall|l: int| in_cluster(st1.v, c, l) implies after.d.has(l) && after.d.at(l)
            == data_block(data, 0 + (l - st1.v.cluster_lba(c))) by {
            assert(l != lba);
            assert(st2.d.has(l));
            assert(after.d.has(l) == st2.d.has(l));
            assert(after.d.at(l) == st2.d.at(l));
        }
    }
    holds_with_fat(st1.v, after.v, after.d, c, data, 0);
    assert(st1.v.addressable(cs[0]));
    fresh_lists(after.v, after.d, c, dir, time);
}

} // verus!
