//! What a change to one file leaves of the other files.

use crate::bytes::{le32_bytes, splice};
use crate::disk::{DiskView, FsError};
use crate::fat12::changes::{
    create_directory, create_file, delete_directory, delete_directory_ready, delete_file,
    delete_ready, free_chain, free_list, lay_chain, mark_deleted, remove_entry, reserve, resized,
    rewrite, write_file, write_ready, Store,
};
use crate::fat12::frames::{
    cluster_in_data, clusters_disjoint, dir_outside_fat, found_in_dir, in_cluster, layout,
    outside_fat,
};
use crate::fat12::laid::{
    apart, lay_chain_keeps, lay_chain_other_link, lay_chain_other_sector, sector_apart,
};
use crate::fat12::laws::{
    chain_in_use, dir_clusters, dir_frame, dir_in_use, dir_sectors_apart, disjoint,
    free_list_effect, resized_layable, splice_slot,
};
use crate::fat12::removal::free_chain_frees;
use crate::fat12::search::{find_witness, found_slot, found_slot_is_found, scan};
use crate::fat12::table::{chain, link, Link};
use crate::fat12::volume::{
    dir_lbas, dir_ready, dir_slot, file_contents, file_ready, find_entry, find_from, read_chain,
    read_cluster, read_ready, DirLocation, Find, Volume,
};
use crate::fat_common::{lfn_after, no_lfn, slot, slot_kind, LfnView};
use crate::rtc::RtcTime;
use vstd::prelude::*;
use vstd::utf8::encode_utf8;

verus! {

/// The clusters that reading `size` bytes from cluster `c` on looks into.
pub open spec fn read_clusters(v: Volume, d: DiskView, c: int, size: int, acc: Seq<u8>) -> Seq<int>
    decreases size - acc.len(),
{
    match read_cluster(v, d, c, 0, size, acc) {
        Err(_) => seq![c],
        Ok(more) => if more.len() >= size || more.len() <= acc.len() {
            seq![c]
        } else {
            match link(v.fat, c) {
                Link::Next(n) => seq![c] + read_clusters(v, d, n, size, more),
                _ => seq![c],
            }
        },
    }
}

/// Cluster `c` has the same link and the same sectors before and after.
pub open spec fn untouched(v: Volume, v2: Volume, d: DiskView, d2: DiskView, c: int) -> bool {
    &&& link(v2.fat, c) == link(v.fat, c)
    &&& forall|l: int|
        #![trigger d2.at(l)]
        #![trigger d2.has(l)]
        in_cluster(v, c, l) ==> d2.has(l) == d.has(l) && d2.at(l) == d.at(l)
}

/// A cluster whose sectors did not change reads the same.
proof fn read_cluster_frame(
    v: Volume,
    v2: Volume,
    d: DiskView,
    d2: DiskView,
    c: int,
    s: int,
    size: int,
    acc: Seq<u8>,
)
    requires
        v2 == v.with_fat(v2.fat),
        untouched(v, v2, d, d2, c),
        0 <= s,
        read_cluster(v, d, c, s, size, acc) is Ok,
    ensures
        read_cluster(v2, d2, c, s, size, acc) == read_cluster(v, d, c, s, size, acc),
    decreases v.sectors_per_cluster - s,
{
    if s < v.sectors_per_cluster && acc.len() < size {
        let lba = v.cluster_lba(c) + s;
        assert(v2.cluster_lba(c) == v.cluster_lba(c));
        assert(in_cluster(v, c, lba));
        assert(d2.has(lba) == d.has(lba) && d2.at(lba) == d.at(lba));
        let left = size - acc.len();
        let more = acc + d.at(lba).take(if left < 512 { left } else { 512 });
        read_cluster_frame(v, v2, d, d2, c, s + 1, size, more);
    }
}

/// What is read from clusters that did not change is the same.
pub proof fn read_frame(
    v: Volume,
    v2: Volume,
    d: DiskView,
    d2: DiskView,
    c: int,
    size: int,
    acc: Seq<u8>,
)
    requires
        v2 == v.with_fat(v2.fat),
        read_chain(v, d, c, size, acc) is Ok,
        forall|i: int|
            0 <= i < read_clusters(v, d, c, size, acc).len() ==> untouched(
                v,
                v2,
                d,
                d2,
                #[trigger] read_clusters(v, d, c, size, acc)[i],
            ),
    ensures
        read_chain(v2, d2, c, size, acc) == read_chain(v, d, c, size, acc),
        read_clusters(v2, d2, c, size, acc) == read_clusters(v, d, c, size, acc),
        read_ready(v, d, c, size, acc) ==> read_ready(v2, d2, c, size, acc),
    decreases size - acc.len(),
{
    let cs = read_clusters(v, d, c, size, acc);
    assert(cs[0] == c);
    read_cluster_frame(v, v2, d, d2, c, 0, size, acc);
    let more = read_cluster(v, d, c, 0, size, acc)->Ok_0;
    if !(more.len() >= size || more.len() <= acc.len()) {
        if let Link::Next(n) = link(v.fat, c) {
            let rest = read_clusters(v, d, n, size, more);
            assert forall|i: int| 0 <= i < rest.len() implies untouched(
                v,
                v2,
                d,
                d2,
                #[trigger] rest[i],
            ) by {
                assert(cs[i + 1] == rest[i]);
            }
            read_frame(v, v2, d, d2, n, size, more);
        }
    }
}

/// Clusters that can be read can be addressed.
pub proof fn read_clusters_addressable(v: Volume, d: DiskView, c: int, size: int, acc: Seq<u8>)
    requires
        read_ready(v, d, c, size, acc),
    ensures
        forall|i: int|
            0 <= i < read_clusters(v, d, c, size, acc).len() ==> v.addressable(
                #[trigger] read_clusters(v, d, c, size, acc)[i],
            ),
    decreases size - acc.len(),
{
    if let Ok(more) = read_cluster(v, d, c, 0, size, acc) {
        if !(more.len() >= size || more.len() <= acc.len()) {
            if let Link::Next(n) = link(v.fat, c) {
                read_clusters_addressable(v, d, n, size, more);
                let cs = read_clusters(v, d, c, size, acc);
                let rest = read_clusters(v, d, n, size, more);
                assert forall|i: int| 0 <= i < cs.len() implies v.addressable(#[trigger] cs[i]) by {
                    if i > 0 {
                        assert(cs[i] == rest[i - 1]);
                    }
                }
            }
        }
    }
}

/// The clusters that reading the file `name` looks into.
pub open spec fn file_clusters(v: Volume, d: DiskView, dir: DirLocation, name: Seq<char>) -> Seq<int> {
    match find_entry(v, d, dir, name) {
        Ok((_, _, e)) => if e.is_dir || e.size == 0 {
            Seq::empty()
        } else {
            read_clusters(v, d, e.start_cluster as int, e.size as int, Seq::empty())
        },
        Err(_) => Seq::empty(),
    }
}

/// The file `other` of the directory `there` has nothing in common with the clusters
/// `cs` nor with the directory `dir`: its clusters are in use and its own, and the
/// clusters of its directory are none of `cs`.
pub open spec fn separate(
    v: Volume,
    d: DiskView,
    cs: Seq<int>,
    dir: DirLocation,
    there: DirLocation,
    other: Seq<char>,
) -> bool {
    let own = file_clusters(v, d, there, other);
    &&& disjoint(dir_clusters(v, there), cs)
    &&& disjoint(own, cs)
    &&& disjoint(dir_clusters(v, dir), own)
    &&& forall|i: int| 0 <= i < own.len() ==> !(link(v.fat, #[trigger] own[i]) is Free)
}

/// A slot that a search passes as it passed what was there: the same slot, or a short
/// entry that kept its name, or one that was deleted.
pub open spec fn passed_alike(raw: Seq<u8>, raw2: Seq<u8>) -> bool {
    ||| raw2 == raw
    ||| slot_kind(raw) is Short && slot_kind(raw2) is Deleted
    ||| slot_kind(raw) is Short && slot_kind(raw2) is Short && raw.len() == 32 && raw2.len() == 32
        && raw2.subrange(0, 11) == raw.subrange(0, 11)
}

/// A search gets through slots that it passes alike.
pub proof fn scan_alike(
    d: DiskView,
    d2: DiskView,
    lbas: Seq<int>,
    k: int,
    k1: int,
    lfn: LfnView,
    target: Seq<u8>,
)
    requires
        0 <= k,
        scan(d, lbas, k, k1, lfn, target) is Some,
        forall|m: int|
            k <= m < k1 ==> passed_alike(
                #[trigger] dir_slot(d, lbas, m),
                dir_slot(d2, lbas, m),
            ) && d2.has(lbas[m / 16]) == d.has(lbas[m / 16]),
    ensures
        scan(d2, lbas, k, k1, lfn, target) == scan(d, lbas, k, k1, lfn, target),
    decreases k1 - k,
{
    if k < k1 {
        let raw = dir_slot(d, lbas, k);
        let raw2 = dir_slot(d2, lbas, k);
        assert(passed_alike(raw, raw2));
        if raw2 != raw && slot_kind(raw2) is Short {
            let n = raw.subrange(0, 11);
            assert(raw2.subrange(0, 8) =~= raw2.subrange(0, 11).subrange(0, 8));
            assert(raw.subrange(0, 8) =~= n.subrange(0, 8));
            assert(raw2.subrange(8, 11) =~= raw2.subrange(0, 11).subrange(8, 11));
            assert(raw.subrange(8, 11) =~= n.subrange(8, 11));
        }
        scan_alike(d, d2, lbas, k + 1, k1, lfn_after(lfn, raw), target);
    }
}

/// An entry is found again if the slots in front of it are passed alike and its own
/// slot did not change.
proof fn found_again(d: DiskView, d2: DiskView, lbas: Seq<int>, lba: int, offset: int, target: Seq<u8>)
    requires
        find_from(d, lbas, 0, no_lfn(), target) matches Find::At(l, o, _) && (l, o) != (lba, offset),
        forall|m: int|
            0 <= m < 16 * lbas.len() ==> passed_alike(
                #[trigger] dir_slot(d, lbas, m),
                dir_slot(d2, lbas, m),
            ) && d2.has(lbas[m / 16]) == d.has(lbas[m / 16]) && ((lbas[m / 16], 32 * (m % 16)) != (
                lba,
                offset,
            ) ==> dir_slot(d2, lbas, m) == dir_slot(d, lbas, m)),
    ensures
        find_from(d2, lbas, 0, no_lfn(), target) == find_from(d, lbas, 0, no_lfn(), target),
{
    let (k, lfn) = find_witness(d, lbas, 0, no_lfn(), target);
    scan_alike(d, d2, lbas, 0, k, no_lfn(), target);
    assert(dir_slot(d2, lbas, k) == dir_slot(d, lbas, k));
    assert(found_slot(d2, lbas, 0, no_lfn(), target, k, lfn));
    found_slot_is_found(d2, lbas, 0, no_lfn(), target, k, lfn);
}

/// What was found is a short entry in a slot.
proof fn found_slot_is_short(d: DiskView, lbas: Seq<int>, target: Seq<u8>)
    ensures
        find_from(d, lbas, 0, no_lfn(), target) matches Find::At(lba, offset, _) ==> {
            &&& offset % 32 == 0
            &&& 0 <= offset < 512
            &&& slot_kind(slot(d.at(lba), offset / 32)) is Short
        },
{
    if find_from(d, lbas, 0, no_lfn(), target) is At {
        let (k, lfn) = find_witness(d, lbas, 0, no_lfn(), target);
        assert(32 * (k % 16) / 32 == k % 16);
    }
}

/// Two states of a volume between which only the links of the clusters `linked`, the
/// sectors of the clusters `filled`, and one slot of a directory changed.
pub open spec fn changed_only(
    st: Store,
    after: Store,
    linked: Seq<int>,
    filled: Seq<int>,
    lba: int,
    offset: int,
) -> bool {
    &&& after.v == st.v.with_fat(after.v.fat)
    &&& forall|x: int| apart(linked, 0, x) ==> #[trigger] link(after.v.fat, x) == link(st.v.fat, x)
    &&& forall|l: int|
        #![trigger after.d.at(l)]
        #![trigger after.d.has(l)]
        outside_fat(st.v, l) && sector_apart(st.v, filled, 0, l) ==> after.d.has(l) == st.d.has(l)
            && (l != lba ==> after.d.at(l) == st.d.at(l))
    &&& sector_apart(st.v, filled, 0, lba) ==> slot_changed(
        st.d.at(lba),
        after.d.at(lba),
        offset / 32,
    )
    &&& offset % 32 == 0
}

/// Two states of a sector between which only slot `i` changed, and a search passes it
/// as before.
pub open spec fn slot_changed(before: Seq<u8>, after: Seq<u8>, i: int) -> bool {
    &&& 0 <= i < 16
    &&& forall|m: int| 0 <= m < 16 && m != i ==> #[trigger] slot(after, m) == slot(before, m)
    &&& passed_alike(slot(before, i), slot(after, i))
}

/// The entry of a file that has nothing in common with what changed is found again.
pub proof fn entry_stays(
    st: Store,
    after: Store,
    linked: Seq<int>,
    filled: Seq<int>,
    lba: int,
    offset: int,
    there: DirLocation,
    other: Seq<char>,
)
    requires
        st.mounted(),
        forall|j: int| 0 <= j < filled.len() ==> #[trigger] filled[j] >= 2,
        changed_only(st, after, linked, filled, lba, offset),
        dir_ready(st.v, there),
        find_entry(st.v, st.d, there, other) matches Ok((l, o, _)) && (l, o) != (lba, offset),
        disjoint(dir_clusters(st.v, there), linked),
        disjoint(dir_clusters(st.v, there), filled),
    ensures
        find_entry(after.v, after.d, there, other) == find_entry(st.v, st.d, there, other),
{
    let target = encode_utf8(other);
    let lbas = dir_lbas(st.v, there)->Ok_0;
    let homes = dir_clusters(st.v, there);
    assert forall|i: int| 0 <= i < homes.len() implies link(after.v.fat, #[trigger] homes[i])
        == link(st.v.fat, homes[i]) by {
        assert(apart(linked, 0, homes[i]));
    }
    dir_frame(st.v, after.v, there);
    dir_sectors_apart(st.v, there, filled);
    dir_outside_fat(st.v, there);
    assert forall|m: int| 0 <= m < 16 * lbas.len() implies passed_alike(
        #[trigger] dir_slot(st.d, lbas, m),
        dir_slot(after.d, lbas, m),
    ) && after.d.has(lbas[m / 16]) == st.d.has(lbas[m / 16]) && ((lbas[m / 16], 32 * (m % 16)) != (
        lba,
        offset,
    ) ==> dir_slot(after.d, lbas, m) == dir_slot(st.d, lbas, m)) by {
        let l = lbas[m / 16];
        assert(outside_fat(st.v, l) && sector_apart(st.v, filled, 0, l));
        assert(after.d.has(l) == st.d.has(l));
        if l == lba {
            if m % 16 != offset / 32 {
                assert(slot(after.d.at(lba), m % 16) == slot(st.d.at(lba), m % 16));
            }
        } else {
            assert(after.d.at(l) == st.d.at(l));
        }
    }
    found_again(st.d, after.d, lbas, lba, offset, target);
}

/// A cluster that has nothing in common with what changed is untouched.
pub proof fn cluster_stays(
    st: Store,
    after: Store,
    linked: Seq<int>,
    filled: Seq<int>,
    lba: int,
    offset: int,
    x: int,
)
    requires
        st.mounted(),
        changed_only(st, after, linked, filled, lba, offset),
        x >= 2,
        apart(linked, 0, x),
        apart(filled, 0, x),
        !in_cluster(st.v, x, lba),
    ensures
        untouched(st.v, after.v, st.d, after.d, x),
{
    layout(st.v);
    cluster_in_data(st.v, x);
    assert forall|l: int| in_cluster(st.v, x, l) implies after.d.has(l) == st.d.has(l) && after.d.at(l)
        == st.d.at(l) by {
        assert(outside_fat(st.v, l));
        assert forall|j: int| 0 <= j < filled.len() implies !in_cluster(
            st.v,
            #[trigger] filled[j],
            l,
        ) by {
            if in_cluster(st.v, filled[j], l) {
                clusters_disjoint(
                    st.v,
                    x,
                    filled[j],
                    l - st.v.cluster_lba(x),
                    l - st.v.cluster_lba(filled[j]),
                );
            }
        }
        assert(sector_apart(st.v, filled, 0, l));
        assert(after.d.has(l) == st.d.has(l));
    }
}

/// A file that has nothing in common with what changed reads as before.
proof fn others_stay(
    st: Store,
    after: Store,
    dir: DirLocation,
    linked: Seq<int>,
    filled: Seq<int>,
    lba: int,
    offset: int,
    there: DirLocation,
    other: Seq<char>,
)
    requires
        st.mounted(),
        dir_ready(st.v, dir),
        dir_lbas(st.v, dir) matches Ok(lbas) && lbas.contains(lba),
        forall|j: int| 0 <= j < filled.len() ==> #[trigger] filled[j] >= 2,
        changed_only(st, after, linked, filled, lba, offset),
        file_ready(st.v, st.d, there, other),
        file_contents(st.v, st.d, there, other) is Ok,
        find_entry(st.v, st.d, there, other) matches Ok((l, o, _)) && (l, o) != (lba, offset),
        disjoint(dir_clusters(st.v, there), linked),
        disjoint(dir_clusters(st.v, there), filled),
        disjoint(file_clusters(st.v, st.d, there, other), linked),
        disjoint(file_clusters(st.v, st.d, there, other), filled),
        disjoint(dir_clusters(st.v, dir), file_clusters(st.v, st.d, there, other)),
    ensures
        find_entry(after.v, after.d, there, other) == find_entry(st.v, st.d, there, other),
        file_contents(after.v, after.d, there, other) == file_contents(st.v, st.d, there, other),
{
    entry_stays(st, after, linked, filled, lba, offset, there, other);
    let e = find_entry(st.v, st.d, there, other)->Ok_0.2;
    if !e.is_dir && e.size != 0 {
        let c = e.start_cluster as int;
        let size = e.size as int;
        let own = file_clusters(st.v, st.d, there, other);
        read_clusters_addressable(st.v, st.d, c, size, Seq::empty());
        dir_sectors_apart(st.v, dir, own);
        let at = dir_lbas(st.v, dir)->Ok_0.index_of(lba);
        assert(sector_apart(st.v, own, 0, dir_lbas(st.v, dir)->Ok_0[at]));
        assert forall|i: int| 0 <= i < own.len() implies untouched(
            st.v,
            after.v,
            st.d,
            after.d,
            #[trigger] own[i],
        ) by {
            assert(st.v.addressable(own[i]));
            assert(!in_cluster(st.v, own[i], lba));
            assert(apart(linked, 0, own[i]));
            assert(apart(filled, 0, own[i]));
            cluster_stays(st, after, linked, filled, lba, offset, own[i]);
        }
        read_frame(st.v, after.v, st.d, after.d, c, size, Seq::empty());
    }
}

/// What a write to a file changes.
proof fn write_changes_only(st: Store, dir: DirLocation, name: Seq<char>, data: Seq<u8>)
    requires
        write_ready(st, dir, name, data.len() as int),
        write_file(st, dir, name, data).1 is Ok,
    ensures
        find_entry(st.v, st.d, dir, name) matches Ok((lba, offset, e)) && {
            let cs = chain(st.v.fat, e.start_cluster as int);
            let kept = resized(st.v, cs, data.len() as int)->Ok_0;
            &&& resized(st.v, cs, data.len() as int) is Ok
            &&& dir_lbas(st.v, dir) matches Ok(lbas) && lbas.contains(lba)
            &&& changed_only(st, write_file(st, dir, name, data).0, cs + kept, kept, lba, offset)
        },
{
    let (lba, offset, e) = find_entry(st.v, st.d, dir, name)->Ok_0;
    let start = e.start_cluster as int;
    let cs = chain(st.v.fat, start);
    let kept = resized(st.v, cs, data.len() as int)->Ok_0;
    let st1 = free_list(st, cs, kept.len() as int);
    let st2 = lay_chain(st1, kept, 0, data);
    let after = rewrite(st1, lba, offset, kept, data);
    assert(write_file(st, dir, name, data).0 == after);
    resized_layable(st.v, start, data.len() as int, Seq::empty());
    chain_in_use(st.v.fat, start);
    free_list_effect(st, cs, kept.len() as int);
    lay_chain_keeps(st1, kept, 0, data);
    let all = cs + kept;
    let lbas = dir_lbas(st.v, dir)->Ok_0;
    found_in_dir(st.d, lbas, 0, no_lfn(), encode_utf8(name));
    found_slot_is_short(st.d, lbas, encode_utf8(name));
    dir_outside_fat(st.v, dir);
    let at = lbas.index_of(lba);
    assert(outside_fat(st.v, lbas[at]));
    assert forall|x: int| apart(all, 0, x) implies #[trigger] link(after.v.fat, x) == link(
        st.v.fat,
        x,
    ) by {
        assert forall|j: int| 0 <= j < kept.len() implies #[trigger] kept[j] != x by {
            assert(all[cs.len() + j] == kept[j]);
        }
        lay_chain_other_link(st1, kept, 0, data, x);
        assert forall|j: int| kept.len() <= j < cs.len() implies #[trigger] cs[j] != x by {
            assert(all[j] == cs[j]);
        }
        assert(apart(cs, kept.len() as int, x));
    }
    assert forall|l: int| outside_fat(st.v, l) && sector_apart(st.v, kept, 0, l) implies st2.d.has(
        l,
    ) == st.d.has(l) && #[trigger] st2.d.at(l) == st.d.at(l) by {
        assert forall|j: int| 0 <= j < kept.len() implies !in_cluster(
            st1.v,
            #[trigger] kept[j],
            l,
        ) by {
            assert(!in_cluster(st.v, kept[j], l));
        }
        assert(outside_fat(st1.v, l));
        lay_chain_other_sector(st1, kept, 0, data, l);
        assert(st1.d.has(l) == st.d.has(l) && st1.d.at(l) == st.d.at(l));
    }
    let bytes = le32_bytes(data.len() as u32);
    if sector_apart(st.v, kept, 0, lba) {
        assert(st2.d.at(lba) == st.d.at(lba));
        assert(st.d.at(lba).len() == 512);
        splice_slot(st.d.at(lba), offset / 32, 28, bytes);
        assert(after.d.at(lba) == splice(st.d.at(lba), 32 * (offset / 32) + 28, bytes));
        let raw = slot(st.d.at(lba), offset / 32);
        let raw2 = slot(after.d.at(lba), offset / 32);
        assert(raw2 == splice(raw, 28, bytes));
        assert(raw2.subrange(0, 11) =~= raw.subrange(0, 11));
    }
    assert forall|l: int|
        #![trigger after.d.at(l)]
        #![trigger after.d.has(l)]
        outside_fat(st.v, l) && sector_apart(st.v, kept, 0, l) implies after.d.has(l) == st.d.has(l)
        && (l != lba ==> after.d.at(l) == st.d.at(l)) by {
        assert(st2.d.at(l) == st.d.at(l));
        assert(outside_fat(st.v, lba));
    }
}

/// A write to a file leaves the other files as they are.
pub proof fn write_keeps_others(
    st: Store,
    dir: DirLocation,
    name: Seq<char>,
    data: Seq<u8>,
    there: DirLocation,
    other: Seq<char>,
)
    requires
        write_ready(st, dir, name, data.len() as int),
        write_file(st, dir, name, data).1 is Ok,
        file_ready(st.v, st.d, there, other),
        file_contents(st.v, st.d, there, other) is Ok,
        find_entry(st.v, st.d, dir, name) matches Ok((lba, offset, e)) && (find_entry(
            st.v,
            st.d,
            there,
            other,
        ) matches Ok((l, o, _)) && (l, o) != (lba, offset)) && separate(
            st.v,
            st.d,
            chain(st.v.fat, e.start_cluster as int),
            dir,
            there,
            other,
        ),
    ensures
        ({
            let after = write_file(st, dir, name, data).0;
            file_contents(after.v, after.d, there, other) == file_contents(
                st.v,
                st.d,
                there,
                other,
            )
        }),
{
    let (lba, offset, e) = find_entry(st.v, st.d, dir, name)->Ok_0;
    let start = e.start_cluster as int;
    let cs = chain(st.v.fat, start);
    let kept = resized(st.v, cs, data.len() as int)->Ok_0;
    let after = write_file(st, dir, name, data).0;
    write_changes_only(st, dir, name, data);
    let own = file_clusters(st.v, st.d, there, other);
    let homes = dir_clusters(st.v, there);
    dir_in_use(st.v, there);
    resized_layable(st.v, start, data.len() as int, own);
    resized_layable(st.v, start, data.len() as int, homes);
    let all = cs + kept;
    assert(disjoint(own, all)) by {
        disjoint_from_both(own, cs, kept);
    }
    assert(disjoint(homes, all)) by {
        disjoint_from_both(homes, cs, kept);
    }
    others_stay(st, after, dir, all, kept, lba, offset, there, other);
}

proof fn disjoint_from_both(a: Seq<int>, b: Seq<int>, c: Seq<int>)
    requires
        disjoint(a, b),
        disjoint(a, c),
    ensures
        disjoint(a, b + c),
{
    let both = b + c;
    assert forall|i: int, j: int| 0 <= i < a.len() && 0 <= j < both.len() implies #[trigger] a[i]
        != #[trigger] both[j] by {
        if j < b.len() {
            assert(both[j] == b[j]);
        } else {
            assert(both[j] == c[j - b.len()]);
        }
    }
}

/// Removing an entry leaves the files under other entries as they are.
proof fn remove_keeps_others(
    st: Store,
    dir: DirLocation,
    name: Seq<char>,
    there: DirLocation,
    other: Seq<char>,
)
    requires
        st.mounted(),
        dir_ready(st.v, dir),
        file_ready(st.v, st.d, there, other),
        file_contents(st.v, st.d, there, other) is Ok,
        find_entry(st.v, st.d, dir, name) matches Ok((lba, offset, e)) && remove_entry(
            st,
            lba,
            offset,
            e.start_cluster as int,
        ).1 is Ok && (find_entry(st.v, st.d, there, other) matches Ok((l, o, _)) && (l, o) != (
            lba,
            offset,
        )) && separate(
            st.v,
            st.d,
            chain(st.v.fat, e.start_cluster as int),
            dir,
            there,
            other,
        ),
    ensures
        find_entry(st.v, st.d, dir, name) matches Ok((lba, offset, e)) && {
            let after = remove_entry(st, lba, offset, e.start_cluster as int).0;
            file_contents(after.v, after.d, there, other) == file_contents(
                st.v,
                st.d,
                there,
                other,
            )
        },
{
    let (lba, offset, e) = find_entry(st.v, st.d, dir, name)->Ok_0;
    let start = e.start_cluster as int;
    let cs = chain(st.v.fat, start);
    let (st1, _) = free_chain(st, start);
    free_chain_frees(st, start);
    let after = mark_deleted(st1, lba, offset);
    assert(after == remove_entry(st, lba, offset, start).0);
    let lbas = dir_lbas(st.v, dir)->Ok_0;
    found_in_dir(st.d, lbas, 0, no_lfn(), encode_utf8(name));
    found_slot_is_short(st.d, lbas, encode_utf8(name));
    dir_outside_fat(st.v, dir);
    let at = lbas.index_of(lba);
    assert(outside_fat(st.v, lbas[at]));
    assert(st1.d.at(lba) == st.d.at(lba) && st1.d.has(lba) == st.d.has(lba));
    assert(st.d.at(lba).len() == 512);
    let i = offset / 32;
    let mark = seq![0xE5u8];
    splice_slot(st.d.at(lba), i, 0, mark);
    assert(after.d.at(lba) =~= splice(st.d.at(lba), 32 * i + 0, mark));
    assert(slot(after.d.at(lba), i) == splice(slot(st.d.at(lba), i), 0, mark));
    assert(slot(after.d.at(lba), i)[0] == 0xE5);
    assert forall|x: int| apart(cs, 0, x) implies #[trigger] link(after.v.fat, x) == link(
        st.v.fat,
        x,
    ) by {
        if cs.contains(x) {
            assert(cs[cs.index_of(x)] == x);
        }
    }
    let none = Seq::<int>::empty();
    assert forall|l: int|
        #![trigger after.d.at(l)]
        #![trigger after.d.has(l)]
        outside_fat(st.v, l) && sector_apart(st.v, none, 0, l) implies after.d.has(l) == st.d.has(l)
        && (l != lba ==> after.d.at(l) == st.d.at(l)) by {
        assert(st1.d.at(l) == st.d.at(l) && st1.d.has(l) == st.d.has(l));
    }
    others_stay(st, after, dir, cs, none, lba, offset, there, other);
}

/// Deleting a file leaves the other files as they are.
pub proof fn delete_keeps_others(
    st: Store,
    dir: DirLocation,
    name: Seq<char>,
    there: DirLocation,
    other: Seq<char>,
)
    requires
        delete_ready(st, dir, name),
        delete_file(st, dir, name).1 is Ok,
        file_ready(st.v, st.d, there, other),
        file_contents(st.v, st.d, there, other) is Ok,
        find_entry(st.v, st.d, dir, name) matches Ok((lba, offset, e)) && (find_entry(
            st.v,
            st.d,
            there,
            other,
        ) matches Ok((l, o, _)) && (l, o) != (lba, offset)) && separate(
            st.v,
            st.d,
            chain(st.v.fat, e.start_cluster as int),
            dir,
            there,
            other,
        ),
    ensures
        ({
            let after = delete_file(st, dir, name).0;
            file_contents(after.v, after.d, there, other) == file_contents(
                st.v,
                st.d,
                there,
                other,
            )
        }),
{
    remove_keeps_others(st, dir, name, there, other);
}

/// Deleting a directory leaves the files that are not in it as they are.
pub proof fn delete_directory_keeps_others(
    st: Store,
    dir: DirLocation,
    name: Seq<char>,
    there: DirLocation,
    other: Seq<char>,
)
    requires
        delete_directory_ready(st, dir, name),
        delete_directory(st, dir, name).1 is Ok,
        file_ready(st.v, st.d, there, other),
        file_contents(st.v, st.d, there, other) is Ok,
        find_entry(st.v, st.d, dir, name) matches Ok((lba, offset, e)) && (find_entry(
            st.v,
            st.d,
            there,
            other,
        ) matches Ok((l, o, _)) && (l, o) != (lba, offset)) && separate(
            st.v,
            st.d,
            chain(st.v.fat, e.start_cluster as int),
            dir,
            there,
            other,
        ),
    ensures
        ({
            let after = delete_directory(st, dir, name).0;
            file_contents(after.v, after.d, there, other) == file_contents(
                st.v,
                st.d,
                there,
                other,
            )
        }),
{
    remove_keeps_others(st, dir, name, there, other);
}

/// A request that asks for a sector has changed nothing yet, so it can be made again once
/// the sector is there.
pub proof fn asking_changes_nothing(
    st: Store,
    dir: DirLocation,
    name: Seq<char>,
    data: Seq<u8>,
    time: RtcTime,
)
    ensures
        create_file(st, dir, name, data, time).1 matches Err(FsError::Missing(_)) ==> create_file(
            st,
            dir,
            name,
            data,
            time,
        ).0 == st,
        write_file(st, dir, name, data).1 matches Err(FsError::Missing(_)) ==> write_file(
            st,
            dir,
            name,
            data,
        ).0 == st,
        delete_file(st, dir, name).1 matches Err(FsError::Missing(_)) ==> delete_file(
            st,
            dir,
            name,
        ).0 == st,
        create_directory(st, dir, name, time).1 matches Err(FsError::Missing(_))
            ==> create_directory(st, dir, name, time).0 == st,
        delete_directory(st, dir, name).1 matches Err(FsError::Missing(_)) ==> delete_directory(
            st,
            dir,
            name,
        ).0 == st,
{
    reveal(reserve);
}

} // verus!
