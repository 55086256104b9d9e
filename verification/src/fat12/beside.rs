//! What a new entry leaves of the other files.

use crate::disk::{DiskView, FsError};
use crate::fat12::changes::{
    clusters_needed, create_directory, create_directory_ready, create_file, create_ready,
    dot_entries, file_entry, find_run, free_slot, grow_directory, lay_chain, pick_free, put_entries,
    reserve, run_at, subdir_entry, write_cluster, Store,
};
use crate::fat12::creation::{
    append_effect, append_sector, grow_effect, grow_sectors, grown_is_zero, lfn_behind, made_up_name,
    old_sector_apart, picked_apart, put_entries_effect, scan_extend, scan_join, scan_long,
    slots_hold,
};
use crate::fat12::frames::{
    cluster_in_data, dir_outside_fat, found_in_dir, in_cluster, layout, outside_fat, picked,
    run_in_dir,
};
use crate::fat12::laid::{
    apart, clusters_suffice, lay_chain_keeps, lay_chain_other_link, lay_chain_other_sector,
    layable, sector_apart,
};
use crate::fat12::laws::{
    chain_in_use, dir_clusters, dir_frame, dir_in_use, dir_sectors_apart, disjoint,
};
use crate::fat12::names::{dir_entry_bytes, fat_datetime, fits_short, name_entries};
use crate::fat12::others::{
    changed_only, cluster_stays, entry_stays, file_clusters, read_clusters,
    read_clusters_addressable, read_frame, slot_changed, untouched,
};
use crate::fat12::search::{
    dir_lbas_distinct, find_witness, found_slot, found_slot_is_found, same_slot, scan, scan_agree,
    sectors_of_with_fat,
};
use crate::fat12::spelling::{attribute_bits, entries_add_up, entry_round_trip};
use crate::fat12::table::{chain, in_table, link, link_error, run, run_is_chain, Link};
use crate::fat12::volume::{
    chain_ready, cluster_sectors, dir_lbas, dir_ready, dir_slot, file_contents, file_ready,
    find_entry, find_from, root_sectors, sectors_of, DirLocation, Find, Volume,
};
use crate::fat_common::{entry_of, goes_by, lfn_after, no_lfn, slot, slot_kind, LfnView};
use crate::rtc::RtcTime;
use vstd::prelude::*;
use vstd::utf8::encode_utf8;

verus! {

/// Two pending long names that no slot tells apart: the same, or none.
pub open spec fn like(a: LfnView, b: LfnView) -> bool {
    a == b || (a.chunks.len() == 0 && b.chunks.len() == 0)
}

/// A long-name entry in slot `m` that follows on no other one has the mark of a new name.
pub open spec fn begins_marked(d: DiskView, lbas: Seq<int>, m: int) -> bool {
    slot_kind(dir_slot(d, lbas, m)) is LongName && (m == 0 || !(slot_kind(dir_slot(d, lbas, m - 1)) is LongName))
        ==> dir_slot(d, lbas, m)[0] & 0x40 != 0
}

/// Each long name of a directory begins with the mark of a new name.
pub open spec fn names_begin(d: DiskView, lbas: Seq<int>) -> bool {
    forall|m: int| 0 <= m < 16 * lbas.len() ==> #[trigger] begins_marked(d, lbas, m)
}

/// A search that gets through slots in two stretches.
proof fn scan_split(
    d: DiskView,
    lbas: Seq<int>,
    k: int,
    k1: int,
    k2: int,
    lfn: LfnView,
    target: Seq<u8>,
)
    requires
        0 <= k <= k1 <= k2,
        scan(d, lbas, k, k2, lfn, target) is Some,
    ensures
        scan(d, lbas, k, k1, lfn, target) matches Some(l) && scan(d, lbas, k1, k2, l, target)
            == scan(d, lbas, k, k2, lfn, target),
    decreases k1 - k,
{
    if k < k1 {
        scan_split(d, lbas, k + 1, k1, k2, lfn_after(lfn, dir_slot(d, lbas, k)), target);
    }
}

/// A search gets through the same slots also with a pending name that no slot tells apart.
proof fn scan_like(
    d: DiskView,
    d2: DiskView,
    lbas: Seq<int>,
    k: int,
    k1: int,
    lfn: LfnView,
    lfn2: LfnView,
    target: Seq<u8>,
)
    requires
        0 < k,
        k1 <= 16 * lbas.len(),
        like(lfn, lfn2),
        lfn.chunks.len() == 0 ==> !(slot_kind(dir_slot(d, lbas, k - 1)) is LongName),
        forall|m: int| k <= m < k1 ==> #[trigger] begins_marked(d, lbas, m),
        forall|m: int| k <= m < k1 ==> #[trigger] same_slot(d, d2, lbas, m),
        scan(d, lbas, k, k1, lfn, target) is Some,
    ensures
        scan(d2, lbas, k, k1, lfn2, target) matches Some(l2) && like(
            scan(d, lbas, k, k1, lfn, target)->0,
            l2,
        ),
    decreases k1 - k,
{
    if k < k1 {
        let raw = dir_slot(d, lbas, k);
        assert(same_slot(d, d2, lbas, k));
        assert(begins_marked(d, lbas, k));
        let a = lfn_after(lfn, raw);
        let b = lfn_after(lfn2, raw);
        if lfn != lfn2 && slot_kind(raw) is LongName {
            assert(a =~= b);
        }
        assert(goes_by(raw, lfn, target) == goes_by(raw, lfn2, target));
        scan_like(d, d2, lbas, k + 1, k1, a, b, target);
    }
}

/// Slots that are free hold no entry.
proof fn free_is_no_entry(sector: Seq<u8>, first: int, count: int, i: int)
    requires
        run_at(sector, first, count),
        first <= i < first + count,
    ensures
        slot_kind(slot(sector, i)) is Terminator || slot_kind(slot(sector, i)) is Deleted,
{
    assert(free_slot(slot(sector, i)));
}

/// New entries in free slots are passed by a search for another name, or found by it.
proof fn found_beside(
    d: DiskView,
    lbas: Seq<int>,
    j: int,
    first: int,
    long: Seq<Seq<u8>>,
    e: Seq<u8>,
    target: Seq<u8>,
    k: int,
    lfn: LfnView,
)
    requires
        lbas.no_duplicates(),
        0 <= j < lbas.len(),
        d.has(lbas[j]),
        d.at(lbas[j]).len() == 512,
        run_at(d.at(lbas[j]), first, (long.len() + 1) as int),
        forall|i: int|
            0 <= i < long.len() ==> slot_kind(#[trigger] long[i]) is LongName && long[i].len() == 32,
        slot_kind(e) is Short || slot_kind(e) is Deleted,
        e.len() == 32,
        found_slot(d, lbas, 0, no_lfn(), target, k, lfn),
        k < 16 * j + first || names_begin(d, lbas),
    ensures
        ({
            let after = put_entries(d, lbas[j], first, long.push(e), 0);
            let found = find_from(after, lbas, 0, no_lfn(), target);
            ||| found == find_from(d, lbas, 0, no_lfn(), target)
            ||| found matches Find::At(l, o, _) && l == lbas[j] && o == 32 * (first + long.len())
        }),
{
    let all = long.push(e);
    let n = long.len() as int;
    let lba = lbas[j];
    let p = 16 * j + first;
    let q = p + n + 1;
    let after = put_entries(d, lba, first, all, 0);
    assert forall|i: int| 0 <= i < all.len() implies (#[trigger] all[i]).len() == 32 by {
        if i < n {
            assert(long[i].len() == 32);
        }
    }
    put_entries_effect(d, lba, first, all, 0);
    assert forall|m: int| 0 <= m < 16 * lbas.len() && !(p <= m < q) implies #[trigger] same_slot(
        d,
        after,
        lbas,
        m,
    ) by {
        assert(after.has(lbas[m / 16]) == d.has(lbas[m / 16]));
        if m / 16 == j {
            assert(slot(after.at(lba), m % 16) == slot(d.at(lba), m % 16));
        } else {
            assert(lbas[m / 16] != lba);
            assert(after.at(lbas[m / 16]) == d.at(lbas[m / 16]));
        }
    }
    assert forall|m: int| p <= m < q implies after.has(lbas[m / 16]) && #[trigger] dir_slot(
        after,
        lbas,
        m,
    ) == all[m - p] && (slot_kind(dir_slot(d, lbas, m)) is Terminator || slot_kind(
        dir_slot(d, lbas, m),
    ) is Deleted) by {
        assert(m / 16 == j && m % 16 == first + (m - p));
        assert(slot(after.at(lba), m % 16) == all[m - p]);
        free_is_no_entry(d.at(lba), first, n + 1, m % 16);
    }
    found_slot_is_found(d, lbas, 0, no_lfn(), target, k, lfn);
    if p <= k < q {
        assert(dir_slot(after, lbas, k) == all[k - p]);
    } else if k < p {
        scan_agree(d, after, lbas, 0, k, no_lfn(), target);
        assert(same_slot(d, after, lbas, k));
        assert(found_slot(after, lbas, 0, no_lfn(), target, k, lfn));
        found_slot_is_found(after, lbas, 0, no_lfn(), target, k, lfn);
    } else {
        scan_split(d, lbas, 0, p, k, no_lfn(), target);
        let l0 = scan(d, lbas, 0, p, no_lfn(), target)->0;
        scan_agree(d, after, lbas, 0, p, no_lfn(), target);
        assert forall|m: int| p <= m < p + n implies after.has(lbas[m / 16]) && #[trigger] dir_slot(
            after,
            lbas,
            m,
        ) == long[m - p] by {
            assert(dir_slot(after, lbas, m) == all[m - p]);
        }
        assert(slots_hold(after, lbas, p, long));
        scan_long(after, lbas, p, long, n, l0, target);
        scan_join(after, lbas, 0, p, p + n, no_lfn(), target);
        let lb = lfn_behind(l0, long, n);
        assert(scan(after, lbas, 0, p + n, no_lfn(), target) == Some(lb));
        assert(dir_slot(after, lbas, p + n) == all[n]);
        assert((p + n) / 16 == j && (p + n) % 16 == first + n);
        if slot_kind(e) is Short && goes_by(e, lb, target) {
            assert(found_slot(after, lbas, 0, no_lfn(), target, p + n, lb));
            found_slot_is_found(after, lbas, 0, no_lfn(), target, p + n, lb);
        } else {
            // Behind the new entries nothing is pending, and nothing was before.
            scan_split(d, lbas, p, q - 1, k, l0, target);
            let lx = scan(d, lbas, p, q - 1, l0, target)->0;
            assert(slot_kind(dir_slot(d, lbas, q - 1)) is Deleted) by {
                assert(dir_slot(after, lbas, q - 1) == all[q - 1 - p]);
            }
            let l1 = lx.cleared();
            assert(scan(d, lbas, q - 1, k, lx, target) == scan(d, lbas, q, k, l1, target));
            let l2 = lb.cleared();
            assert(scan(after, lbas, p + n, q, lb, target) == Some(l2)) by {
                assert(scan(after, lbas, q, q, l2, target) == Some(l2));
            }
            scan_join(after, lbas, 0, p + n, q, no_lfn(), target);
            assert forall|m: int| q <= m < k implies #[trigger] begins_marked(d, lbas, m) by {}
            scan_like(d, after, lbas, q, k, l1, l2, target);
            scan_join(after, lbas, 0, q, k, no_lfn(), target);
            let lfn2 = scan(after, lbas, 0, k, no_lfn(), target)->0;
            assert(same_slot(d, after, lbas, k));
            assert(goes_by(dir_slot(d, lbas, k), lfn2, target));
            assert(found_slot(after, lbas, 0, no_lfn(), target, k, lfn2));
            found_slot_is_found(after, lbas, 0, no_lfn(), target, k, lfn2);
            assert(entry_of(dir_slot(d, lbas, k), lfn2) == entry_of(dir_slot(d, lbas, k), lfn));
        }
    }
}

/// A file whose entry is found again and whose clusters are untouched reads as before.
proof fn contents_stay(st: Store, after: Store, there: DirLocation, other: Seq<char>)
    requires
        after.v == st.v.with_fat(after.v.fat),
        file_contents(st.v, st.d, there, other) is Ok,
        find_entry(after.v, after.d, there, other) == find_entry(st.v, st.d, there, other),
        forall|i: int|
            0 <= i < file_clusters(st.v, st.d, there, other).len() ==> untouched(
                st.v,
                after.v,
                st.d,
                after.d,
                #[trigger] file_clusters(st.v, st.d, there, other)[i],
            ),
    ensures
        file_contents(after.v, after.d, there, other) == file_contents(st.v, st.d, there, other),
        file_clusters(after.v, after.d, there, other) == file_clusters(st.v, st.d, there, other),
        file_ready(st.v, st.d, there, other) && dir_ready(after.v, there) ==> file_ready(
            after.v,
            after.d,
            there,
            other,
        ),
{
    let e = find_entry(st.v, st.d, there, other)->Ok_0.2;
    if !e.is_dir && e.size != 0 {
        let cs = file_clusters(st.v, st.d, there, other);
        assert(cs == read_clusters(
            st.v,
            st.d,
            e.start_cluster as int,
            e.size as int,
            Seq::empty(),
        ));
        read_frame(
            st.v,
            after.v,
            st.d,
            after.d,
            e.start_cluster as int,
            e.size as int,
            Seq::empty(),
        );
    }
}

/// The clusters of a file that can be read are data clusters.
proof fn file_clusters_are_data(v: Volume, d: DiskView, there: DirLocation, other: Seq<char>)
    requires
        file_ready(v, d, there, other),
    ensures
        forall|i: int|
            0 <= i < file_clusters(v, d, there, other).len() ==> #[trigger] file_clusters(
                v,
                d,
                there,
                other,
            )[i] >= 2,
{
    if let Ok((_, _, e)) = find_entry(v, d, there, other) {
        if !e.is_dir && e.size != 0 {
            let cs = file_clusters(v, d, there, other);
            read_clusters_addressable(v, d, e.start_cluster as int, e.size as int, Seq::empty());
            assert forall|i: int| 0 <= i < cs.len() implies #[trigger] cs[i] >= 2 by {
                assert(v.addressable(
                    read_clusters(v, d, e.start_cluster as int, e.size as int, Seq::empty())[i],
                ));
            }
        }
    }
}

/// Clusters that are in use are none of those that are picked.
proof fn picked_beside(v: Volume, count: int, own: Seq<int>)
    requires
        v.wf(),
        v.clusters_fit(),
        count >= 0,
        pick_free(v, count) is Ok,
        forall|i: int| 0 <= i < own.len() ==> !(link(v.fat, #[trigger] own[i]) is Free),
    ensures
        layable(v, pick_free(v, count)->Ok_0),
        disjoint(own, pick_free(v, count)->Ok_0),
{
    picked(v, count);
    let cs = pick_free(v, count)->Ok_0;
    assert forall|i: int, j: int| 0 <= i < own.len() && 0 <= j < cs.len() implies #[trigger] own[i]
        != #[trigger] cs[j] by {
        assert(!(link(v.fat, own[i]) is Free));
        assert(link(v.fat, cs[j]) is Free);
    }
    assert forall|i: int, j: int| 0 <= i < cs.len() && 0 <= j < cs.len() && i != j implies cs[i]
        != cs[j] by {
        if i < j {
            assert(cs[i] < cs[j]);
        } else {
            assert(cs[j] < cs[i]);
        }
    }
}

/// Laying data across free clusters changes those only.
proof fn laying_changes_only(st: Store, cs: Seq<int>, data: Seq<u8>)
    requires
        st.mounted(),
        layable(st.v, cs),
    ensures
        changed_only(st, lay_chain(st, cs, 0, data), cs, cs, -1, 0),
        lay_chain(st, cs, 0, data).mounted(),
{
    let after = lay_chain(st, cs, 0, data);
    lay_chain_keeps(st, cs, 0, data);
    layout(st.v);
    assert forall|x: int| apart(cs, 0, x) implies #[trigger] link(after.v.fat, x) == link(
        st.v.fat,
        x,
    ) by {
        lay_chain_other_link(st, cs, 0, data, x);
    }
    assert forall|l: int|
        #![trigger after.d.at(l)]
        #![trigger after.d.has(l)]
        outside_fat(st.v, l) && sector_apart(st.v, cs, 0, l) implies after.d.has(l) == st.d.has(l)
        && after.d.at(l) == st.d.at(l) by {
        lay_chain_other_sector(st, cs, 0, data, l);
    }
    assert(sector_apart(st.v, cs, 0, -1)) by {
        assert forall|j: int| 0 <= j < cs.len() implies !in_cluster(st.v, #[trigger] cs[j], -1) by {
            cluster_in_data(st.v, cs[j]);
        }
    }
    assert(after.d.at(-1) == st.d.at(-1));
    assert(slot_changed(st.d.at(-1), after.d.at(-1), 0));
}

/// A file stays as it is while data is laid across free clusters.
proof fn laying_keeps_others(
    st: Store,
    count: int,
    data: Seq<u8>,
    there: DirLocation,
    other: Seq<char>,
)
    requires
        st.mounted(),
        st.v.clusters_fit(),
        count >= 0,
        pick_free(st.v, count) is Ok,
        file_ready(st.v, st.d, there, other),
        file_contents(st.v, st.d, there, other) is Ok,
        forall|i: int|
            0 <= i < file_clusters(st.v, st.d, there, other).len() ==> !(link(
                st.v.fat,
                #[trigger] file_clusters(st.v, st.d, there, other)[i],
            ) is Free),
    ensures
        ({
            let cs = pick_free(st.v, count)->Ok_0;
            let after = lay_chain(st, cs, 0, data);
            let lbas = dir_lbas(st.v, there)->Ok_0;
            &&& find_entry(after.v, after.d, there, other) == find_entry(st.v, st.d, there, other)
            &&& file_contents(after.v, after.d, there, other) == file_contents(
                st.v,
                st.d,
                there,
                other,
            )
            &&& file_clusters(after.v, after.d, there, other) == file_clusters(
                st.v,
                st.d,
                there,
                other,
            )
            &&& dir_lbas(after.v, there) == dir_lbas(st.v, there)
            &&& forall|i: int|
                0 <= i < lbas.len() ==> after.d.has(#[trigger] lbas[i]) == st.d.has(lbas[i])
                    && after.d.at(lbas[i]) == st.d.at(lbas[i])
        }),
{
    let cs = pick_free(st.v, count)->Ok_0;
    let after = lay_chain(st, cs, 0, data);
    let own = file_clusters(st.v, st.d, there, other);
    let homes = dir_clusters(st.v, there);
    dir_in_use(st.v, there);
    picked_beside(st.v, count, own);
    picked_beside(st.v, count, homes);
    laying_changes_only(st, cs, data);
    dir_outside_fat(st.v, there);
    layout(st.v);
    let lbas = dir_lbas(st.v, there)->Ok_0;
    found_in_dir(st.d, lbas, 0, no_lfn(), encode_utf8(other));
    let l = find_entry(st.v, st.d, there, other)->Ok_0.0;
    assert(lbas[lbas.index_of(l)] == l);
    entry_stays(st, after, cs, cs, -1, 0, there, other);
    file_clusters_are_data(st.v, st.d, there, other);
    assert forall|i: int| 0 <= i < own.len() implies untouched(
        st.v,
        after.v,
        st.d,
        after.d,
        #[trigger] own[i],
    ) by {
        cluster_in_data(st.v, own[i]);
        assert(apart(cs, 0, own[i]));
        cluster_stays(st, after, cs, cs, -1, 0, own[i]);
    }
    contents_stay(st, after, there, other);
    assert forall|i: int| 0 <= i < homes.len() implies link(after.v.fat, #[trigger] homes[i])
        == link(st.v.fat, homes[i]) by {
        assert(apart(cs, 0, homes[i]));
    }
    dir_frame(st.v, after.v, there);
    dir_sectors_apart(st.v, there, cs);
    assert forall|i: int| 0 <= i < lbas.len() implies after.d.has(#[trigger] lbas[i]) == st.d.has(
        lbas[i],
    ) && after.d.at(lbas[i]) == st.d.at(lbas[i]) by {
        assert(sector_apart(st.v, cs, 0, lbas[i]));
        assert(outside_fat(st.v, lbas[i]));
        assert(lbas[i] != -1);
    }
}

/// Entries that do not end a directory: long-name entries and one that is a short entry,
/// or looks like a deleted one.
pub open spec fn entries_fit(long: Seq<Seq<u8>>, e: Seq<u8>) -> bool {
    &&& forall|i: int|
        0 <= i < long.len() ==> slot_kind(#[trigger] long[i]) is LongName && long[i].len() == 32
    &&& slot_kind(e) is Short || slot_kind(e) is Deleted
    &&& e.len() == 32
}

/// What was found under the name `other` is in front of slot `first` of sector `lba`, or
/// the long names of its directory begin with their mark.
pub open spec fn in_front_or_marked(
    st: Store,
    there: DirLocation,
    other: Seq<char>,
    lba: int,
    first: int,
) -> bool {
    dir_lbas(st.v, there) matches Ok(lbas) ==> forall|k: int, lfn: LfnView, j: int|
        #[trigger] found_slot(st.d, lbas, 0, no_lfn(), encode_utf8(other), k, lfn) && 0 <= j
            < lbas.len() && #[trigger] lbas[j] == lba ==> k < 16 * j + first || names_begin(
            st.d,
            lbas,
        )
}

/// The store once new entries were put into free slots.
pub open spec fn entered(st: Store, lba: int, first: int, long: Seq<Seq<u8>>, e: Seq<u8>) -> Store {
    Store { v: st.v, d: put_entries(st.d, lba, first, long.push(e), 0) }
}

/// A file stays as it is when new entries are put into free slots, unless one of them goes
/// by its name.
proof fn entering_keeps_others(
    st: Store,
    dir: DirLocation,
    lba: int,
    first: int,
    long: Seq<Seq<u8>>,
    e: Seq<u8>,
    there: DirLocation,
    other: Seq<char>,
)
    requires
        st.mounted(),
        dir_ready(st.v, dir),
        dir_lbas(st.v, dir) matches Ok(lbas) && lbas.contains(lba),
        st.d.has(lba),
        run_at(st.d.at(lba), first, (long.len() + 1) as int),
        entries_fit(long, e),
        dir_ready(st.v, there),
        file_contents(st.v, st.d, there, other) is Ok,
        forall|i: int|
            0 <= i < file_clusters(st.v, st.d, there, other).len() ==> #[trigger] file_clusters(
                st.v,
                st.d,
                there,
                other,
            )[i] >= 2,
        disjoint(dir_clusters(st.v, dir), file_clusters(st.v, st.d, there, other)),
        in_front_or_marked(st, there, other, lba, first),
    ensures
        ({
            let after = entered(st, lba, first, long, e);
            ||| file_contents(after.v, after.d, there, other) == file_contents(
                st.v,
                st.d,
                there,
                other,
            )
            ||| find_entry(after.v, after.d, there, other) matches Ok((l, o, _)) && l == lba && o
                == 32 * (first + long.len())
        }),
{
    let after = entered(st, lba, first, long, e);
    let target = encode_utf8(other);
    let lbas = dir_lbas(st.v, there)->Ok_0;
    let all = long.push(e);
    assert(st.d.at(lba).len() == 512);
    assert forall|i: int| 0 <= i < all.len() implies (#[trigger] all[i]).len() == 32 by {
        if i < long.len() {
            assert(long[i].len() == 32);
        }
    }
    put_entries_effect(st.d, lba, first, all, 0);
    dir_lbas_distinct(st.v, there);
    let (k, lfn) = find_witness(st.d, lbas, 0, no_lfn(), target);
    if lbas.contains(lba) {
        let j = lbas.index_of(lba);
        assert(lbas[j] == lba);
        found_beside(st.d, lbas, j, first, long, e, target, k, lfn);
    } else {
        assert forall|m: int| 0 <= m < 16 * lbas.len() implies #[trigger] same_slot(
            st.d,
            after.d,
            lbas,
            m,
        ) by {
            assert(lbas.contains(lbas[m / 16]));
            assert(after.d.has(lbas[m / 16]) == st.d.has(lbas[m / 16]));
            assert(after.d.at(lbas[m / 16]) == st.d.at(lbas[m / 16]));
        }
        scan_agree(st.d, after.d, lbas, 0, k, no_lfn(), target);
        assert(same_slot(st.d, after.d, lbas, k));
        assert(found_slot(after.d, lbas, 0, no_lfn(), target, k, lfn));
        found_slot_is_found(after.d, lbas, 0, no_lfn(), target, k, lfn);
    }
    if find_entry(after.v, after.d, there, other) == find_entry(st.v, st.d, there, other) {
        let own = file_clusters(st.v, st.d, there, other);
        dir_sectors_apart(st.v, dir, own);
        let dl = dir_lbas(st.v, dir)->Ok_0;
        assert(sector_apart(st.v, own, 0, dl[dl.index_of(lba)]));
        assert forall|i: int| 0 <= i < own.len() implies untouched(
            st.v,
            after.v,
            st.d,
            after.d,
            #[trigger] own[i],
        ) by {
            assert(!in_cluster(st.v, own[i], lba));
            assert forall|l: int| in_cluster(st.v, own[i], l) implies after.d.has(l) == st.d.has(l)
                && after.d.at(l) == st.d.at(l) by {
                assert(after.d.has(l) == st.d.has(l));
            }
        }
        contents_stay(st, after, there, other);
    }
}

/// The sectors of a directory once another one, or itself, got the cluster `new` behind its
/// last cluster `tail`: the old sectors, and those of the new cluster if they share `tail`.
proof fn sectors_grow(st: Store, c: int, there: DirLocation) -> (more: Seq<int>)
    requires
        st.mounted(),
        st.v.clusters_fit(),
        chain_ready(st.v, c),
        link_error(link(st.v.fat, chain(st.v.fat, c).last())) is None,
        pick_free(st.v, 1) is Ok,
        (pick_free(st.v, 1)->Ok_0)[0] < 0xFF8,
        dir_ready(st.v, there),
        dir_lbas(st.v, there) is Ok,
    ensures
        ({
            let st1 = grow_directory(st, c).0;
            let new = (pick_free(st.v, 1)->Ok_0)[0];
            let lbas = dir_lbas(st.v, there)->Ok_0;
            &&& dir_ready(st1.v, there)
            &&& dir_lbas(st1.v, there) == Ok::<Seq<int>, FsError>(lbas + more)
            &&& forall|i: int|
                0 <= i < lbas.len() ==> st.d.has(#[trigger] lbas[i]) == st1.d.has(lbas[i])
                    && st.d.at(lbas[i]) == st1.d.at(lbas[i]) && lbas[i] != st.v.cluster_lba(new)
        }),
{
    grow_effect(st, c);
    let st1 = grow_directory(st, c).0;
    let cs = chain(st.v.fat, c);
    let tail = cs.last();
    picked(st.v, 1);
    let new = (pick_free(st.v, 1)->Ok_0)[0];
    assert(link(st.v.fat, new) is Free && in_table(st.v.fat, new) && 2 <= new);
    assert(run(st.v.fat, c, cs));
    chain_in_use(st.v.fat, c);
    assert(in_table(st.v.fat, cs[cs.len() - 1]) && !(link(st.v.fat, cs[cs.len() - 1]) is Free));
    append_effect(st, tail, new);
    let lbas = dir_lbas(st.v, there)->Ok_0;
    dir_outside_fat(st.v, there);
    layout(st.v);
    cluster_in_data(st.v, new);
    assert forall|i: int| 0 <= i < lbas.len() implies st.d.has(#[trigger] lbas[i]) == st1.d.has(
        lbas[i],
    ) && st.d.at(lbas[i]) == st1.d.at(lbas[i]) && lbas[i] != st.v.cluster_lba(new) by {
        match there {
            DirLocation::Root => {},
            DirLocation::Cluster(c2) => {
                old_sector_apart(st.v, c2 as int, new, i);
            },
        }
        assert(!in_cluster(st.v, new, lbas[i]));
        assert(outside_fat(st.v, lbas[i]));
        append_sector(st, tail, new, lbas[i]);
    }
    match there {
        DirLocation::Root => {
            let none = Seq::<int>::empty();
            assert(root_sectors(st1.v) =~= root_sectors(st.v) + none);
            none
        },
        DirLocation::Cluster(c2) => {
            let cs2 = chain(st.v.fat, c2 as int);
            assert(run(st.v.fat, c2 as int, cs2));
            chain_in_use(st.v.fat, c2 as int);
            if cs2.contains(tail) {
                let i = cs2.index_of(tail);
                assert(i == cs2.len() - 1) by {
                    if i < cs2.len() - 1 {
                        assert(link(st.v.fat, cs2[i]) == Link::Next(cs2[i + 1]));
                    }
                }
                let grown = cs2.push(new);
                crate::fat12::table::chain_distinct(st.v.fat, c2 as int);
                assert forall|m: int| 0 <= m < grown.len() - 1 implies #[trigger] link(
                    st1.v.fat,
                    grown[m],
                ) == Link::Next(grown[m + 1]) by {
                    assert(grown[m] == cs2[m]);
                    if m < cs2.len() - 1 {
                        assert(!(link(st.v.fat, cs2[m]) is Free));
                        assert(cs2[m] != cs2[cs2.len() - 1]);
                        assert(link(st1.v.fat, cs2[m]) == link(st.v.fat, cs2[m]));
                        assert(link(st.v.fat, cs2[m]) == Link::Next(cs2[m + 1]));
                    }
                }
                assert(run(st1.v.fat, c2 as int, grown));
                run_is_chain(st1.v.fat, c2 as int, grown);
                assert forall|m: int| 0 <= m < grown.len() implies st1.v.addressable(
                    #[trigger] grown[m],
                ) by {
                    if m < cs2.len() {
                        assert(st.v.addressable(chain(st.v.fat, c2 as int)[m]));
                    } else {
                        assert(st.v.addressable(new));
                    }
                }
                assert(grown.drop_last() =~= cs2);
                sectors_of_with_fat(st.v, st1.v, cs2);
                cluster_sectors(st1.v, new)
            } else {
                let none = Seq::<int>::empty();
                assert forall|m: int| 0 <= m < cs2.len() implies link(
                    st1.v.fat,
                    #[trigger] cs2[m],
                ) == link(st.v.fat, cs2[m]) by {
                    assert(cs2.contains(cs2[m]));
                    assert(!(link(st.v.fat, cs2[m]) is Free));
                }
                assert(dir_clusters(st.v, there) == cs2);
                dir_frame(st.v, st1.v, there);
                assert(lbas + none =~= lbas);
                none
            }
        },
    }
}

/// A cluster that is neither the last one of a directory that grows nor free is untouched.
proof fn growing_untouched(st: Store, c: int, x: int)
    requires
        st.mounted(),
        st.v.clusters_fit(),
        chain_ready(st.v, c),
        link_error(link(st.v.fat, chain(st.v.fat, c).last())) is None,
        pick_free(st.v, 1) is Ok,
        (pick_free(st.v, 1)->Ok_0)[0] < 0xFF8,
        x >= 2,
        x != chain(st.v.fat, c).last(),
        !(link(st.v.fat, x) is Free),
    ensures
        ({
            let st1 = grow_directory(st, c).0;
            untouched(st.v, st1.v, st.d, st1.d, x)
        }),
{
    grow_effect(st, c);
    let st1 = grow_directory(st, c).0;
    let cs = chain(st.v.fat, c);
    let tail = cs.last();
    picked(st.v, 1);
    let new = (pick_free(st.v, 1)->Ok_0)[0];
    assert(link(st.v.fat, new) is Free && in_table(st.v.fat, new) && 2 <= new);
    chain_in_use(st.v.fat, c);
    assert(in_table(st.v.fat, cs[cs.len() - 1]) && !(link(st.v.fat, cs[cs.len() - 1]) is Free));
    append_effect(st, tail, new);
    layout(st.v);
    cluster_in_data(st.v, x);
    assert forall|l: int| in_cluster(st.v, x, l) implies st1.d.has(l) == st.d.has(l) && st1.d.at(l)
        == st.d.at(l) by {
        if in_cluster(st.v, new, l) {
            crate::fat12::frames::clusters_disjoint(
                st.v,
                x,
                new,
                l - st.v.cluster_lba(x),
                l - st.v.cluster_lba(new),
            );
        }
        assert(outside_fat(st.v, l));
        append_sector(st, tail, new, l);
    }
}

/// A file stays as it is when a directory grows.
proof fn growing_keeps_others(st: Store, c: int, there: DirLocation, other: Seq<char>)
    requires
        st.mounted(),
        st.v.clusters_fit(),
        chain_ready(st.v, c),
        link_error(link(st.v.fat, chain(st.v.fat, c).last())) is None,
        pick_free(st.v, 1) is Ok,
        (pick_free(st.v, 1)->Ok_0)[0] < 0xFF8,
        file_ready(st.v, st.d, there, other),
        file_contents(st.v, st.d, there, other) is Ok,
        beside(st.v, st.d, chain(st.v.fat, c), there, other),
    ensures
        ({
            let st1 = grow_directory(st, c).0;
            let new = (pick_free(st.v, 1)->Ok_0)[0];
            &&& file_ready(st1.v, st1.d, there, other)
            &&& file_contents(st1.v, st1.d, there, other) == file_contents(
                st.v,
                st.d,
                there,
                other,
            )
            &&& beside(st1.v, st1.d, chain(st1.v.fat, c), there, other)
            &&& in_front_or_marked(st1, there, other, st.v.cluster_lba(new), 0)
        }),
{
    let st1 = grow_directory(st, c).0;
    grow_effect(st, c);
    picked(st.v, 1);
    let new = (pick_free(st.v, 1)->Ok_0)[0];
    assert(link(st.v.fat, new) is Free);
    let target = encode_utf8(other);
    let lbas = dir_lbas(st.v, there)->Ok_0;
    let more = sectors_grow(st, c, there);
    let all = lbas + more;
    let (k, lfn) = find_witness(st.d, lbas, 0, no_lfn(), target);
    scan_extend(st.d, st1.d, lbas, more, 0, k, no_lfn(), target);
    assert(all[k / 16] == lbas[k / 16]);
    assert(found_slot(st1.d, all, 0, no_lfn(), target, k, lfn));
    found_slot_is_found(st1.d, all, 0, no_lfn(), target, k, lfn);
    let own = file_clusters(st.v, st.d, there, other);
    let cs = chain(st.v.fat, c);
    file_clusters_are_data(st.v, st.d, there, other);
    assert forall|i: int| 0 <= i < own.len() implies untouched(
        st.v,
        st1.v,
        st.d,
        st1.d,
        #[trigger] own[i],
    ) by {
        assert(cs[cs.len() - 1] != own[i]);
        growing_untouched(st, c, own[i]);
    }
    contents_stay(st, st1, there, other);
    let grown = chain(st1.v.fat, c);
    assert forall|i: int, j: int| 0 <= i < grown.len() && 0 <= j < own.len() implies #[trigger] grown[i]
        != #[trigger] own[j] by {
        if i < cs.len() {
            assert(grown[i] == cs[i]);
        } else {
            assert(!(link(st.v.fat, own[j]) is Free));
        }
    }
    assert forall|i: int| 0 <= i < own.len() implies !(link(st1.v.fat, #[trigger] own[i]) is Free) by {
        assert(untouched(st.v, st1.v, st.d, st1.d, own[i]));
    }
    dir_lbas_distinct(st1.v, there);
    let lba = st.v.cluster_lba(new);
    assert forall|k2: int, lfn2: LfnView, j: int|
        #[trigger] found_slot(st1.d, all, 0, no_lfn(), target, k2, lfn2) && 0 <= j < all.len()
            && #[trigger] all[j] == lba implies k2 < 16 * j + 0 || names_begin(st1.d, all) by {
        found_slot_is_found(st1.d, all, 0, no_lfn(), target, k2, lfn2);
        assert(all[k2 / 16] == all[k / 16]);
        assert(k2 / 16 == k / 16);
        if j < lbas.len() {
            assert(lbas[j] == lba);
        }
    }
}

/// The file `other` of the directory `there` shares no cluster with the directory whose
/// clusters are `homes`, and its clusters are in use.
pub open spec fn beside(
    v: Volume,
    d: DiskView,
    homes: Seq<int>,
    there: DirLocation,
    other: Seq<char>,
) -> bool {
    let own = file_clusters(v, d, there, other);
    &&& disjoint(homes, own)
    &&& forall|i: int| 0 <= i < own.len() ==> !(link(v.fat, #[trigger] own[i]) is Free)
}

/// The sector that a directory grew by has free slots only.
pub proof fn grown_sector_is_free(st: Store, c: int, count: int)
    requires
        st.mounted(),
        st.v.clusters_fit(),
        chain_ready(st.v, c),
        link_error(link(st.v.fat, chain(st.v.fat, c).last())) is None,
        pick_free(st.v, 1) is Ok,
        (pick_free(st.v, 1)->Ok_0)[0] < 0xFF8,
        0 <= count <= 16,
    ensures
        ({
            let st1 = grow_directory(st, c).0;
            let new = (pick_free(st.v, 1)->Ok_0)[0];
            run_at(st1.d.at(st.v.cluster_lba(new)), 0, count)
        }),
{
    let st1 = grow_directory(st, c).0;
    let zeros = st1.d.at(st.v.cluster_lba((pick_free(st.v, 1)->Ok_0)[0]));
    grown_is_zero(st, c, 0);
    assert forall|j: int| 0 <= j < count implies free_slot(#[trigger] slot(zeros, j)) by {
        assert(slot(zeros, j)[0] == zeros[32 * j]);
    }
}

/// A cluster that a directory has to grow by has a number that an entry of 12 bits can
/// hold.
pub open spec fn grows_in_range(st: Store, dir: DirLocation, count: int) -> bool {
    dir_lbas(st.v, dir) matches Ok(lbas) && find_run(st.d, lbas, 0, count) == Ok::<
        Option<(int, int)>,
        FsError,
    >(None) && pick_free(st.v, 1) is Ok ==> (pick_free(st.v, 1)->Ok_0)[0] < 0xFF8
}

/// What is known of a file and of the slots of a new entry once they are reserved.
pub open spec fn reserved_beside(
    st: Store,
    st1: Store,
    dir: DirLocation,
    at: (int, int),
    count: int,
    there: DirLocation,
    other: Seq<char>,
) -> bool {
    &&& st1.mounted()
    &&& st1.v == st.v.with_fat(st1.v.fat)
    &&& st1.v.fat.len() == st.v.fat.len()
    &&& dir_ready(st1.v, dir)
    &&& dir_lbas(st1.v, dir) matches Ok(lbas) && lbas.contains(at.0)
    &&& st1.d.has(at.0)
    &&& run_at(st1.d.at(at.0), at.1, count)
    &&& file_ready(st1.v, st1.d, there, other)
    &&& file_contents(st1.v, st1.d, there, other) == file_contents(st.v, st.d, there, other)
    &&& beside(st1.v, st1.d, dir_clusters(st1.v, dir), there, other)
    &&& in_front_or_marked(st1, there, other, at.0, at.1)
}

/// Reserving slots leaves the other files as they are.
proof fn reserving_keeps_others(
    st: Store,
    dir: DirLocation,
    count: int,
    there: DirLocation,
    other: Seq<char>,
)
    requires
        st.mounted(),
        st.v.clusters_fit(),
        dir_ready(st.v, dir),
        1 <= count <= 16,
        reserve(st, dir, count).1 is Ok,
        grows_in_range(st, dir, count),
        file_ready(st.v, st.d, there, other),
        file_contents(st.v, st.d, there, other) is Ok,
        beside(st.v, st.d, dir_clusters(st.v, dir), there, other),
        names_begin(st.d, dir_lbas(st.v, there)->Ok_0),
    ensures
        reserved_beside(
            st,
            reserve(st, dir, count).0,
            dir,
            reserve(st, dir, count).1->Ok_0,
            count,
            there,
            other,
        ),
{
    reveal(reserve);
    let lbas = dir_lbas(st.v, dir)->Ok_0;
    run_in_dir(st.d, lbas, 0, count);
    match find_run(st.d, lbas, 0, count) {
        Ok(Some((lba, first))) => {},
        _ => {
            let c = dir->0 as int;
            grow_effect(st, c);
            grow_sectors(st, c);
            grown_sector_is_free(st, c, count);
            growing_keeps_others(st, c, there, other);
            let st1 = grow_directory(st, c).0;
            let new = (pick_free(st.v, 1)->Ok_0)[0];
            let lba = st.v.cluster_lba(new);
            let old_lbas = sectors_of(st.v, chain(st.v.fat, c));
            let lbas1 = old_lbas + cluster_sectors(st.v, new);
            assert(lbas1[old_lbas.len() as int] == lba);
            assert(lbas1.contains(lba));
            assert(dir_lbas(st1.v, dir) == Ok::<Seq<int>, FsError>(lbas1));
        },
    }
}

/// The same sectors have what was found in the same place.
proof fn in_front_same(
    st: Store,
    after: Store,
    there: DirLocation,
    other: Seq<char>,
    lba: int,
    first: int,
)
    requires
        dir_lbas(st.v, there) is Ok,
        dir_lbas(after.v, there) == dir_lbas(st.v, there),
        forall|i: int|
            0 <= i < (dir_lbas(st.v, there)->Ok_0).len() ==> after.d.has(
                #[trigger] (dir_lbas(st.v, there)->Ok_0)[i],
            ) == st.d.has((dir_lbas(st.v, there)->Ok_0)[i]) && after.d.at(
                (dir_lbas(st.v, there)->Ok_0)[i],
            ) == st.d.at((dir_lbas(st.v, there)->Ok_0)[i]),
        in_front_or_marked(st, there, other, lba, first),
    ensures
        in_front_or_marked(after, there, other, lba, first),
{
    let lbas = dir_lbas(st.v, there)->Ok_0;
    let target = encode_utf8(other);
    assert forall|m: int| 0 <= m < 16 * lbas.len() implies #[trigger] same_slot(
        after.d,
        st.d,
        lbas,
        m,
    ) by {
        assert(after.d.at(lbas[m / 16]) == st.d.at(lbas[m / 16]));
    }
    assert forall|k: int, lfn: LfnView, j: int|
        #[trigger] found_slot(after.d, lbas, 0, no_lfn(), target, k, lfn) && 0 <= j < lbas.len()
            && #[trigger] lbas[j] == lba implies k < 16 * j + first || names_begin(
        after.d,
        lbas,
    ) by {
        scan_agree(after.d, st.d, lbas, 0, k, no_lfn(), target);
        assert(same_slot(after.d, st.d, lbas, k));
        assert(found_slot(st.d, lbas, 0, no_lfn(), target, k, lfn));
        if names_begin(st.d, lbas) {
            assert forall|m: int| 0 <= m < 16 * lbas.len() implies #[trigger] begins_marked(
                after.d,
                lbas,
                m,
            ) by {
                assert(begins_marked(st.d, lbas, m));
                assert(same_slot(after.d, st.d, lbas, m));
                if m > 0 {
                    assert(same_slot(after.d, st.d, lbas, m - 1));
                }
            }
        }
    }
}

/// Whether `name` leads to the slot at `offset` of sector `lba`.
pub open spec fn leads_to(
    st: Store,
    dir: DirLocation,
    name: Seq<char>,
    lba: int,
    offset: int,
) -> bool {
    find_entry(st.v, st.d, dir, name) matches Ok((l, o, _)) && l == lba && o == offset
}

/// Contents and entries that are added leave a file as it is, unless its name leads to the
/// new entry.
proof fn adding_keeps_others(
    st: Store,
    dir: DirLocation,
    long: Seq<Seq<u8>>,
    e: Seq<u8>,
    need: int,
    data: Seq<u8>,
    there: DirLocation,
    other: Seq<char>,
)
    requires
        st.mounted(),
        st.v.clusters_fit(),
        dir_ready(st.v, dir),
        need >= 0,
        reserve(st, dir, (long.len() + 1) as int).1 is Ok,
        long.len() <= 15,
        pick_free(reserve(st, dir, (long.len() + 1) as int).0.v, need) is Ok,
        grows_in_range(st, dir, (long.len() + 1) as int),
        entries_fit(long, e),
        file_ready(st.v, st.d, there, other),
        file_contents(st.v, st.d, there, other) is Ok,
        beside(st.v, st.d, dir_clusters(st.v, dir), there, other),
        names_begin(st.d, dir_lbas(st.v, there)->Ok_0),
    ensures
        ({
            let (st1, at) = reserve(st, dir, (long.len() + 1) as int);
            let (lba, first) = at->Ok_0;
            let st2 = lay_chain(st1, pick_free(st1.v, need)->Ok_0, 0, data);
            let after = entered(st2, lba, first, long, e);
            ||| file_contents(after.v, after.d, there, other) == file_contents(
                st.v,
                st.d,
                there,
                other,
            )
            ||| leads_to(after, there, other, lba, 32 * (first + long.len()))
        }),
{
    let count = (long.len() + 1) as int;
    let (st1, at) = reserve(st, dir, count);
    let (lba, first) = at->Ok_0;
    reserving_keeps_others(st, dir, count, there, other);
    let cs = pick_free(st1.v, need)->Ok_0;
    let st2 = lay_chain(st1, cs, 0, data);
    picked_apart(st1.v, dir, need);
    lay_chain_keeps(st1, cs, 0, data);
    crate::fat12::laws::lay_keeps_dir(st1, st1, dir, cs, data);
    laying_keeps_others(st1, need, data, there, other);
    file_clusters_are_data(st1.v, st1.d, there, other);
    in_front_same(st1, st2, there, other, lba, first);
    let homes = dir_clusters(st1.v, there);
    dir_in_use(st1.v, there);
    picked_beside(st1.v, need, homes);
    laying_changes_only(st1, cs, data);
    assert forall|i: int| 0 <= i < homes.len() implies link(st2.v.fat, #[trigger] homes[i])
        == link(st1.v.fat, homes[i]) by {
        assert(apart(cs, 0, homes[i]));
    }
    dir_frame(st1.v, st2.v, there);
    let dl = dir_lbas(st1.v, dir)->Ok_0;
    assert(st2.d.at(dl[dl.index_of(lba)]) == st1.d.at(dl[dl.index_of(lba)]));
    entering_keeps_others(st2, dir, lba, first, long, e, there, other);
}

/// The entries that a new name has.
pub proof fn name_entries_fit(
    v: Volume,
    d: DiskView,
    dir: DirLocation,
    name: Seq<char>,
    attr: u8,
    cluster: u32,
    size: u32,
    time: RtcTime,
)
    requires
        attr == 0x20 || attr == 0x10,
        name_entries(v, d, dir, name) matches Ok((short, _)) && short[0] != 0,
    ensures
        ({
            let (short, long) = name_entries(v, d, dir, name)->Ok_0;
            let (t, dt) = fat_datetime(time);
            &&& long.len() <= 15
            &&& entries_fit(long, dir_entry_bytes(short, attr, cluster, size, t, dt))
        }),
{
    let b = encode_utf8(name);
    let (short, long) = name_entries(v, d, dir, name)->Ok_0;
    let (t, dt) = fat_datetime(time);
    if !fits_short(b) {
        made_up_name(v, d, dir, name);
        assert forall|i: int| 0 <= i < long.len() implies slot_kind(#[trigger] long[i]) is LongName
            && long[i].len() == 32 by {
            entries_add_up(no_lfn(), b, short, i);
        }
    }
    entry_round_trip(short, attr, cluster, size, t, dt);
    attribute_bits();
}

/// A new file leaves the other files as they are, unless their name leads to the new entry
/// afterwards.
pub proof fn create_keeps_others(
    st: Store,
    dir: DirLocation,
    name: Seq<char>,
    data: Seq<u8>,
    time: RtcTime,
    there: DirLocation,
    other: Seq<char>,
)
    requires
        create_ready(st, dir, name),
        create_file(st, dir, name, data, time).1 is Ok,
        name_entries(st.v, st.d, dir, name) matches Ok((short, long)) && short[0] != 0
            && grows_in_range(st, dir, (long.len() + 1) as int),
        file_ready(st.v, st.d, there, other),
        file_contents(st.v, st.d, there, other) is Ok,
        beside(st.v, st.d, dir_clusters(st.v, dir), there, other),
        names_begin(st.d, dir_lbas(st.v, there)->Ok_0),
    ensures
        ({
            let after = create_file(st, dir, name, data, time).0;
            let long = (name_entries(st.v, st.d, dir, name)->Ok_0).1;
            let (lba, first) = reserve(st, dir, (long.len() + 1) as int).1->Ok_0;
            ||| file_contents(after.v, after.d, there, other) == file_contents(
                st.v,
                st.d,
                there,
                other,
            )
            ||| leads_to(after, there, other, lba, 32 * (first + long.len()))
        }),
{
    let (short, long) = name_entries(st.v, st.d, dir, name)->Ok_0;
    let st1 = reserve(st, dir, (long.len() + 1) as int).0;
    let need = clusters_needed(data.len() as int, st1.v.sectors_per_cluster);
    let cs = pick_free(st1.v, need)->Ok_0;
    let e = file_entry(short, cs[0], data.len(), time);
    name_entries_fit(
        st.v,
        st.d,
        dir,
        name,
        0x20,
        cs[0] as u32,
        data.len() as u32,
        time,
    );
    assert(need >= 0) by {
        reserve_keeps_geometry(st, dir, (long.len() + 1) as int);
        clusters_suffice(data.len() as int, st1.v.sectors_per_cluster);
    }
    adding_keeps_others(st, dir, long, e, need, data, there, other);
}

/// Reserving slots changes nothing about the size of clusters.
pub proof fn reserve_keeps_geometry(st: Store, dir: DirLocation, count: int)
    ensures
        reserve(st, dir, count).0.v.sectors_per_cluster == st.v.sectors_per_cluster,
{
    reveal(reserve);
    if let DirLocation::Cluster(c) = dir {
        grow_keeps_geometry(st, c as int);
    }
}

proof fn grow_keeps_geometry(st: Store, c: int)
    ensures
        grow_directory(st, c).0.v.sectors_per_cluster == st.v.sectors_per_cluster,
{
    reveal(Store::set_link);
    if let Ok(new) = pick_free(st.v, 1) {
        write_keeps_volume(st, new[0], 0, Seq::empty(), 0);
    }
}

proof fn write_keeps_volume(st: Store, c: int, s: int, data: Seq<u8>, k: int)
    ensures
        write_cluster(st, c, s, data, k).v == st.v,
    decreases st.v.sectors_per_cluster - s,
{
    if 0 <= s < st.v.sectors_per_cluster {
        let next = st.put(
            st.v.cluster_lba(c) + s,
            crate::fat12::changes::data_block(data, k + s),
        );
        write_keeps_volume(next, c, s + 1, data, k);
    }
}

/// A new directory leaves the files as they are, unless their name leads to the new entry
/// afterwards.
pub proof fn create_directory_keeps_others(
    st: Store,
    dir: DirLocation,
    name: Seq<char>,
    time: RtcTime,
    there: DirLocation,
    other: Seq<char>,
)
    requires
        create_directory_ready(st, dir),
        create_directory(st, dir, name, time).1 is Ok,
        name_entries(st.v, st.d, dir, name) matches Ok((short, long)) && short[0] != 0
            && grows_in_range(st, dir, (long.len() + 1) as int),
        file_ready(st.v, st.d, there, other),
        file_contents(st.v, st.d, there, other) is Ok,
        beside(st.v, st.d, dir_clusters(st.v, dir), there, other),
        names_begin(st.d, dir_lbas(st.v, there)->Ok_0),
    ensures
        ({
            let after = create_directory(st, dir, name, time).0;
            let long = (name_entries(st.v, st.d, dir, name)->Ok_0).1;
            let (lba, first) = reserve(st, dir, (long.len() + 1) as int).1->Ok_0;
            ||| file_contents(after.v, after.d, there, other) == file_contents(
                st.v,
                st.d,
                there,
                other,
            )
            ||| leads_to(after, there, other, lba, 32 * (first + long.len()))
        }),
{
    let (short, long) = name_entries(st.v, st.d, dir, name)->Ok_0;
    let st1 = reserve(st, dir, (long.len() + 1) as int).0;
    let cs = pick_free(st1.v, 1)->Ok_0;
    let e = subdir_entry(short, cs[0], time);
    name_entries_fit(st.v, st.d, dir, name, 0x10, cs[0] as u32, 0, time);
    let data = dot_entries(cs[0], dir, time);
    let step = write_cluster(st1, cs[0], 0, data, 0).set_link(cs[0], 0xFFF);
    assert(0 * st1.v.sectors_per_cluster == 0) by (nonlinear_arith);
    assert(lay_chain(st1, cs, 0, data) == lay_chain(step, cs, 1, data));
    assert(lay_chain(step, cs, 1, data) == step);
    adding_keeps_others(st, dir, long, e, 1, data, there, other);
}

} // verus!
