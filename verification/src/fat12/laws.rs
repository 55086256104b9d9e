//! What the operations on a volume promise together.

use crate::bytes::{le32, le32_bytes, le32_round_trip, splice};
use crate::disk::{DiskView, FsError};
use crate::fat12::changes::{
    clusters_needed, free_list, lay_chain, pick_free, resized, rewrite, write_file, write_ready,
    Store,
};
use crate::fat12::frames::{
    cluster_in_data, clusters_disjoint, dir_outside_fat, in_cluster, in_clusters, layout,
    outside_fat, picked, same_outside, sectors_of_members, set_link_mounted,
};
use crate::fat12::laid::{
    apart, blocks, cluster_holds, clusters_suffice, holds_with_fat, lay_chain_holds,
    lay_chain_keeps, lay_chain_link, lay_chain_other_link, lay_chain_other_sector, layable,
    read_laid, sector_apart,
};
use crate::fat12::search::{
    dir_lbas_distinct, find_witness, found_slot, found_slot_is_found, run_frame, same_slot,
    scan_agree, sectors_of_with_fat,
};
use crate::fat12::table::{
    chain, chain_distinct, ends, in_table, link, link_error, run, set_entry_links, Link,
};
use crate::fat12::volume::{
    dir_lbas, dir_ready, dir_slot, file_contents, file_ready, find_entry, find_from, read_chain,
    read_ready, root_sectors, DirLocation, Find, Volume,
};
use crate::fat_common::{entry_of, no_lfn, slot, Entry};
use vstd::prelude::*;
use vstd::utf8::encode_utf8;

verus! {

/// The clusters of a directory; the root directory has none.
pub open spec fn dir_clusters(v: Volume, dir: DirLocation) -> Seq<int> {
    match dir {
        DirLocation::Root => Seq::empty(),
        DirLocation::Cluster(c) => chain(v.fat, c as int),
    }
}

/// No cluster is in both.
pub open spec fn disjoint(a: Seq<int>, b: Seq<int>) -> bool {
    forall|i: int, j: int|
        0 <= i < a.len() && 0 <= j < b.len() ==> #[trigger] a[i] != #[trigger] b[j]
}

/// A directory whose clusters keep their links keeps its sectors.
pub proof fn dir_frame(v: Volume, v2: Volume, dir: DirLocation)
    requires
        dir_ready(v, dir),
        v2 == v.with_fat(v2.fat),
        forall|i: int|
            0 <= i < dir_clusters(v, dir).len() ==> link(v2.fat, #[trigger] dir_clusters(v, dir)[i])
                == link(v.fat, dir_clusters(v, dir)[i]),
    ensures
        dir_lbas(v2, dir) == dir_lbas(v, dir),
        dir_ready(v2, dir),
        dir_clusters(v2, dir) == dir_clusters(v, dir),
{
    match dir {
        DirLocation::Root => {
            assert(root_sectors(v) =~= root_sectors(v2));
        },
        DirLocation::Cluster(c) => {
            let cs = chain(v.fat, c as int);
            assert(dir_clusters(v, dir) == cs);
            assert(run(v.fat, c as int, cs));
            run_frame(v.fat, v2.fat, c as int, cs);
            sectors_of_with_fat(v, v2, cs);
            assert(link(v2.fat, cs[cs.len() - 1]) == link(v.fat, cs[cs.len() - 1]));
            assert forall|i: int| 0 <= i < cs.len() implies v2.addressable(#[trigger] cs[i]) by {
                assert(v.addressable(chain(v.fat, c as int)[i]));
            }
        },
    }
}

/// The sectors of a directory are in no cluster that is not its own.
pub proof fn dir_sectors_apart(v: Volume, dir: DirLocation, cs: Seq<int>)
    requires
        v.wf(),
        v.num_fats >= 1,
        dir_ready(v, dir),
        forall|j: int| 0 <= j < cs.len() ==> #[trigger] cs[j] >= 2,
        disjoint(dir_clusters(v, dir), cs),
    ensures
        dir_lbas(v, dir) matches Ok(lbas) ==> forall|i: int|
            0 <= i < lbas.len() ==> sector_apart(v, cs, 0, #[trigger] lbas[i]),
{
    layout(v);
    if let Ok(lbas) = dir_lbas(v, dir) {
        assert forall|i: int| 0 <= i < lbas.len() implies sector_apart(v, cs, 0, #[trigger] lbas[i]) by {
            let l = lbas[i];
            assert forall|j: int| 0 <= j < cs.len() implies !in_cluster(v, #[trigger] cs[j], l) by {
                cluster_in_data(v, cs[j]);
                match dir {
                    DirLocation::Root => {},
                    DirLocation::Cluster(c) => {
                        let own = chain(v.fat, c as int);
                        sectors_of_members(v, own);
                        assert(in_clusters(v, own, l));
                        let m = choose|m: int| 0 <= m < own.len() && #[trigger] in_cluster(v, own[m], l);
                        assert(own[m] != cs[j]);
                        if in_cluster(v, cs[j], l) {
                            clusters_disjoint(
                                v,
                                own[m],
                                cs[j],
                                l - v.cluster_lba(own[m]),
                                l - v.cluster_lba(cs[j]),
                            );
                        }
                    },
                }
            }
        }
    }
}

/// Changing bytes of one slot of a sector leaves its other slots alone.
pub proof fn splice_slot(s: Seq<u8>, i: int, o: int, b: Seq<u8>)
    requires
        s.len() == 512,
        0 <= i < 16,
        0 <= o,
        o + b.len() <= 32,
    ensures
        forall|m: int|
            0 <= m < 16 && m != i ==> #[trigger] slot(splice(s, 32 * i + o, b), m) == slot(s, m),
        slot(splice(s, 32 * i + o, b), i) == splice(slot(s, i), o, b),
{
    let s2 = splice(s, 32 * i + o, b);
    assert forall|m: int| 0 <= m < 16 && m != i implies #[trigger] slot(s2, m) == slot(s, m) by {
        assert(slot(s2, m) =~= slot(s, m));
    }
    assert(slot(s2, i) =~= splice(slot(s, i), o, b));
}

/// Freeing clusters leaves everything but their links alone.
pub proof fn free_list_effect(st: Store, cs: Seq<int>, i: int)
    requires
        st.mounted(),
        0 <= i,
        forall|j: int| 0 <= j < cs.len() ==> in_table(st.v.fat, #[trigger] cs[j]),
    ensures
        ({
            let after = free_list(st, cs, i);
            &&& after.mounted()
            &&& after.v == st.v.with_fat(after.v.fat)
            &&& after.v.fat.len() == st.v.fat.len()
            &&& same_outside(st.v, st.d, after.d)
            &&& forall|x: int| apart(cs, i, x) ==> #[trigger] link(after.v.fat, x) == link(st.v.fat, x)
        }),
    decreases cs.len() - i,
{
    if i < cs.len() {
        set_link_mounted(st, cs[i], 0);
        set_entry_links(st.v.fat, cs[i], 0);
        let st1 = st.set_link(cs[i], 0);
        free_list_effect(st1, cs, i + 1);
        let after = free_list(st, cs, i);
        assert(same_outside(st.v, st.d, after.d)) by {
            assert forall|l: int| outside_fat(st.v, l) implies st.d.has(l) == after.d.has(l)
                && st.d.at(l) == after.d.at(l) by {
                assert(outside_fat(st1.v, l));
                assert(st1.d.at(l) == st.d.at(l));
                assert(st1.d.has(l) == st.d.has(l));
            }
        }
        assert forall|x: int| apart(cs, i, x) implies #[trigger] link(after.v.fat, x) == link(
            st.v.fat,
            x,
        ) by {
            assert(cs[i] != x);
            assert(apart(cs, i + 1, x));
            assert(link(st1.v.fat, x) == link(st.v.fat, x));
        }
    }
}

/// No cluster of a chain that ends well is free.
pub proof fn chain_in_use(fat: Seq<u8>, c: int)
    requires
        ends(fat, c),
        link_error(link(fat, chain(fat, c).last())) is None,
    ensures
        forall|i: int|
            0 <= i < chain(fat, c).len() ==> in_table(fat, #[trigger] chain(fat, c)[i]) && !(link(
                fat,
                chain(fat, c)[i],
            ) is Free),
{
    let cs = chain(fat, c);
    assert(run(fat, c, cs));
    assert forall|i: int| 0 <= i < cs.len() implies in_table(fat, #[trigger] cs[i]) && !(link(
        fat,
        cs[i],
    ) is Free) by {
        if i < cs.len() - 1 {
            assert(link(fat, cs[i]) == Link::Next(cs[i + 1]));
        }
    }
}

/// The clusters of a rewritten file: different data clusters, and none of them a
/// directory's whose clusters the file did not have.
pub proof fn resized_layable(v: Volume, start: int, len: int, own: Seq<int>)
    requires
        v.wf(),
        v.clusters_fit(),
        len >= 0,
        ends(v.fat, start),
        link_error(link(v.fat, chain(v.fat, start).last())) is None,
        resized(v, chain(v.fat, start), len) is Ok,
        forall|i: int|
            0 <= i < chain(v.fat, start).len() && i < clusters_needed(len, v.sectors_per_cluster)
                ==> v.addressable(#[trigger] chain(v.fat, start)[i]),
        disjoint(own, chain(v.fat, start)),
        forall|i: int| 0 <= i < own.len() ==> !(link(v.fat, #[trigger] own[i]) is Free),
    ensures
        ({
            let kept = resized(v, chain(v.fat, start), len)->Ok_0;
            &&& layable(v, kept)
            &&& forall|i: int| 0 <= i < kept.len() ==> v.addressable(#[trigger] kept[i])
            &&& disjoint(own, kept)
            &&& kept.len() == clusters_needed(len, v.sectors_per_cluster)
            &&& kept[0] == start
            &&& kept.len() > 0
        }),
{
    let cs = chain(v.fat, start);
    let need = clusters_needed(len, v.sectors_per_cluster);
    assert(run(v.fat, start, cs));
    chain_distinct(v.fat, start);
    chain_in_use(v.fat, start);
    clusters_suffice(len, v.sectors_per_cluster);
    let kept = resized(v, cs, len)->Ok_0;
    if need > cs.len() {
        picked(v, need - cs.len());
        let extra = pick_free(v, need - cs.len())->Ok_0;
        assert(kept == cs + extra);
        assert forall|i: int| 0 <= i < kept.len() implies v.addressable(#[trigger] kept[i])
            && in_table(v.fat, kept[i]) by {
            if i < cs.len() {
                assert(v.addressable(cs[i]));
            } else {
                assert(kept[i] == extra[i - cs.len()]);
            }
        }
        assert forall|i: int, j: int| 0 <= i < kept.len() && 0 <= j < kept.len() && i != j implies kept[i]
            != kept[j] by {
            if i < cs.len() && j >= cs.len() {
                assert(kept[j] == extra[j - cs.len()]);
                assert(!(link(v.fat, cs[i]) is Free));
            } else if j < cs.len() && i >= cs.len() {
                assert(kept[i] == extra[i - cs.len()]);
                assert(!(link(v.fat, cs[j]) is Free));
            } else if i >= cs.len() {
                assert(kept[i] == extra[i - cs.len()]);
                assert(kept[j] == extra[j - cs.len()]);
            }
        }
        assert forall|i: int, j: int| 0 <= i < own.len() && 0 <= j < kept.len() implies #[trigger] own[i]
            != #[trigger] kept[j] by {
            if j < cs.len() {
                assert(own[i] != cs[j]);
            } else {
                assert(kept[j] == extra[j - cs.len()]);
                assert(!(link(v.fat, own[i]) is Free));
            }
        }
    } else {
        assert(kept == cs.take(need));
        assert forall|i: int| 0 <= i < kept.len() implies v.addressable(#[trigger] kept[i])
            && in_table(v.fat, kept[i]) by {
            assert(v.addressable(cs[i]));
        }
        assert forall|i: int, j: int| 0 <= i < own.len() && 0 <= j < kept.len() implies #[trigger] own[i]
            != #[trigger] kept[j] by {
            assert(own[i] != cs[j]);
        }
    }
}

/// What a file must be like to be read back after it was written: none of its
/// clusters belongs to its directory too, and the clusters it is chained through
/// have numbers that an entry of 12 bits can hold.
pub open spec fn readable_back(st: Store, dir: DirLocation, name: Seq<char>, len: int) -> bool {
    match find_entry(st.v, st.d, dir, name) {
        Ok((_, _, e)) => {
            let cs = chain(st.v.fat, e.start_cluster as int);
            &&& disjoint(dir_clusters(st.v, dir), cs)
            &&& resized(st.v, cs, len) matches Ok(kept) ==> forall|i: int|
                0 < i < kept.len() ==> #[trigger] kept[i] < 0xFF8
        },
        Err(_) => true,
    }
}

/// Laying data across clusters that are not a directory's leaves the directory alone.
pub proof fn lay_keeps_dir(st: Store, st1: Store, dir: DirLocation, cs: Seq<int>, data: Seq<u8>)
    requires
        st.mounted(),
        st1.mounted(),
        st1.v == st.v.with_fat(st1.v.fat),
        same_outside(st.v, st.d, st1.d),
        dir_ready(st.v, dir),
        dir_lbas(st.v, dir) is Ok,
        layable(st1.v, cs),
        disjoint(dir_clusters(st.v, dir), cs),
        forall|i: int|
            0 <= i < dir_clusters(st.v, dir).len() ==> link(
                st1.v.fat,
                #[trigger] dir_clusters(st.v, dir)[i],
            ) == link(st.v.fat, dir_clusters(st.v, dir)[i]),
    ensures
        ({
            let st2 = lay_chain(st1, cs, 0, data);
            let lbas = dir_lbas(st.v, dir)->Ok_0;
            &&& dir_lbas(st2.v, dir) == dir_lbas(st.v, dir)
            &&& dir_ready(st2.v, dir)
            &&& dir_clusters(st2.v, dir) == dir_clusters(st.v, dir)
            &&& forall|i: int|
                0 <= i < lbas.len() ==> st2.d.at(#[trigger] lbas[i]) == st.d.at(lbas[i])
                    && st2.d.has(lbas[i]) == st.d.has(lbas[i])
            &&& forall|i: int| 0 <= i < lbas.len() ==> sector_apart(st.v, cs, 0, #[trigger] lbas[i])
            &&& forall|i: int| 0 <= i < lbas.len() ==> outside_fat(st.v, #[trigger] lbas[i])
        }),
{
    let st2 = lay_chain(st1, cs, 0, data);
    let own = dir_clusters(st.v, dir);
    lay_chain_keeps(st1, cs, 0, data);
    assert forall|i: int| 0 <= i < own.len() implies link(st2.v.fat, #[trigger] own[i]) == link(
        st.v.fat,
        own[i],
    ) by {
        assert forall|j: int| 0 <= j < cs.len() implies #[trigger] cs[j] != own[i] by {}
        lay_chain_other_link(st1, cs, 0, data, own[i]);
    }
    dir_frame(st.v, st2.v, dir);
    let lbas = dir_lbas(st.v, dir)->Ok_0;
    dir_sectors_apart(st.v, dir, cs);
    dir_outside_fat(st.v, dir);
    assert forall|i: int| 0 <= i < lbas.len() implies st2.d.at(#[trigger] lbas[i]) == st.d.at(
        lbas[i],
    ) && st2.d.has(lbas[i]) == st.d.has(lbas[i]) by {
        let l = lbas[i];
        assert(sector_apart(st.v, cs, 0, l));
        assert forall|j: int| 0 <= j < cs.len() implies !in_cluster(st1.v, #[trigger] cs[j], l) by {
            assert(!in_cluster(st.v, cs[j], l));
        }
        assert(outside_fat(st1.v, l));
        assert(st1.d.at(l) == st.d.at(l) && st1.d.has(l) == st.d.has(l));
        lay_chain_other_sector(st1, cs, 0, data, l);
    }
}

/// The slot that a search finds is found again after its size field changed.
pub proof fn found_after_resize(
    d: DiskView,
    d2: DiskView,
    lbas: Seq<int>,
    target: Seq<u8>,
    bytes: Seq<u8>,
)
    requires
        lbas.no_duplicates(),
        bytes.len() == 4,
        find_from(d, lbas, 0, no_lfn(), target) matches Find::At(lba, offset, e) && d.at(lba).len()
            == 512 && d2.at(lba) == splice(d.at(lba), offset + 28, bytes) && forall|i: int|
            0 <= i < lbas.len() ==> d2.has(#[trigger] lbas[i]) == d.has(lbas[i]) && (lbas[i] != lba
                ==> d2.at(lbas[i]) == d.at(lbas[i])),
    ensures
        find_from(d, lbas, 0, no_lfn(), target) matches Find::At(lba, offset, e) && find_from(
            d2,
            lbas,
            0,
            no_lfn(),
            target,
        ) == Find::At(lba, offset, (Entry { size: le32(bytes, 0) as u32, ..e })),
{
    let (k, lfn) = find_witness(d, lbas, 0, no_lfn(), target);
    let j = k / 16;
    let i = k % 16;
    let lba = lbas[j];
    let sector = d.at(lba);
    splice_slot(sector, i, 28, bytes);
    assert(d2.at(lba) == splice(sector, 32 * i + 28, bytes));
    assert forall|m: int| 0 <= m < k implies #[trigger] same_slot(d, d2, lbas, m) by {
        assert(d2.has(lbas[m / 16]) == d.has(lbas[m / 16]));
        if m / 16 == j {
            assert(m % 16 != i);
            assert(slot(d2.at(lba), m % 16) == slot(sector, m % 16));
        } else {
            assert(lbas[m / 16] != lbas[j]);
        }
    }
    scan_agree(d, d2, lbas, 0, k, no_lfn(), target);
    let raw = dir_slot(d, lbas, k);
    let raw2 = dir_slot(d2, lbas, k);
    assert(raw2 == splice(raw, 28, bytes));
    assert(raw2.subrange(0, 11) =~= raw.subrange(0, 11));
    assert(raw2.subrange(0, 8) =~= raw.subrange(0, 8));
    assert(raw2.subrange(8, 11) =~= raw.subrange(8, 11));
    assert(d2.has(lbas[j]) == d.has(lbas[j]));
    assert(found_slot(d2, lbas, 0, no_lfn(), target, k, lfn));
    found_slot_is_found(d2, lbas, 0, no_lfn(), target, k, lfn);
    assert(le32(raw2, 28) == le32(bytes, 0));
    assert(entry_of(raw2, lfn) =~= (Entry { size: le32(bytes, 0) as u32, ..entry_of(raw, lfn) }));
}

/// Data that was laid across clusters is read from them, also after another sector
/// was changed.
pub proof fn reads_back(st1: Store, cs: Seq<int>, data: Seq<u8>, v: Volume, d: DiskView)
    requires
        st1.mounted(),
        layable(st1.v, cs),
        st1.v.sectors_per_cluster >= 1,
        cs.len() == clusters_needed(data.len() as int, st1.v.sectors_per_cluster),
        data.len() > 0,
        v == lay_chain(st1, cs, 0, data).v,
        forall|i: int| 0 <= i < cs.len() ==> st1.v.addressable(#[trigger] cs[i]),
        forall|i: int| 0 < i < cs.len() ==> #[trigger] cs[i] < 0xFF8,
        forall|l: int|
            #![trigger d.at(l)]
            in_clusters(st1.v, cs, l) ==> d.at(l) == lay_chain(st1, cs, 0, data).d.at(l) && (
            lay_chain(st1, cs, 0, data).d.has(l) ==> d.has(l)),
    ensures
        read_chain(v, d, cs[0], data.len() as int, Seq::empty()) == Ok::<Seq<u8>, FsError>(data),
        read_ready(v, d, cs[0], data.len() as int, Seq::empty()),
{
    let n = st1.v.sectors_per_cluster;
    let st2 = lay_chain(st1, cs, 0, data);
    lay_chain_keeps(st1, cs, 0, data);
    clusters_suffice(data.len() as int, n);
    assert forall|m: int| 0 <= m < cs.len() implies cluster_holds(
        v,
        d,
        #[trigger] cs[m],
        data,
        m * v.sectors_per_cluster,
    ) by {
        lay_chain_holds(st1, cs, 0, data, m);
        assert forall|l: int| in_cluster(st1.v, cs[m], l) implies d.has(l) && d.at(l)
            == crate::fat12::changes::data_block(data, m * n + (l - st1.v.cluster_lba(cs[m]))) by {
            assert(in_clusters(st1.v, cs, l));
            assert(d.at(l) == st2.d.at(l));
            assert(st2.d.has(l));
        }
        holds_with_fat(st1.v, v, d, cs[m], data, m * n);
    }
    assert forall|m: int| 0 <= m < cs.len() - 1 implies #[trigger] link(v.fat, cs[m])
        == Link::Next(cs[m + 1]) by {
        lay_chain_link(st1, cs, 0, data, m);
        assert(2 <= cs[m + 1] < 0xFF8);
    }
    assert forall|m: int| 0 <= m < cs.len() implies v.addressable(#[trigger] cs[m]) by {
        assert(st1.v.addressable(cs[m]));
    }
    assert(0 * n == 0) by (nonlinear_arith);
    read_laid(v, d, cs, 0, data);
    assert(blocks(data, 0) =~= Seq::<u8>::empty());
}

/// After a write that succeeds, the file reads as what was written, whether it grew
/// or shrank, and of its entry nothing but the size is another one.
pub proof fn write_then_read(st: Store, dir: DirLocation, name: Seq<char>, data: Seq<u8>)
    requires
        write_ready(st, dir, name, data.len() as int),
        write_file(st, dir, name, data).1 is Ok,
        data.len() <= u32::MAX,
        readable_back(st, dir, name, data.len() as int),
    ensures
        ({
            let after = write_file(st, dir, name, data).0;
            &&& file_contents(after.v, after.d, dir, name) == Ok::<Seq<u8>, FsError>(data)
            &&& file_ready(after.v, after.d, dir, name)
            &&& find_entry(st.v, st.d, dir, name) matches Ok((lba, offset, e)) && find_entry(
                after.v,
                after.d,
                dir,
                name,
            ) == Ok::<(int, int, Entry), FsError>(
                (lba, offset, Entry { size: data.len() as u32, ..e }),
            )
        }),
{
    let (lba, offset, e) = find_entry(st.v, st.d, dir, name)->Ok_0;
    let start = e.start_cluster as int;
    let cs = chain(st.v.fat, start);
    let own = dir_clusters(st.v, dir);
    let kept = resized(st.v, cs, data.len() as int)->Ok_0;
    let st1 = free_list(st, cs, kept.len() as int);
    let st2 = lay_chain(st1, kept, 0, data);
    let after = rewrite(st1, lba, offset, kept, data);
    assert(write_file(st, dir, name, data).0 == after);
    dir_in_use(st.v, dir);
    resized_layable(st.v, start, data.len() as int, own);
    chain_in_use(st.v.fat, start);
    free_list_effect(st, cs, kept.len() as int);
    assert forall|i: int| 0 <= i < own.len() implies link(st1.v.fat, #[trigger] own[i]) == link(
        st.v.fat,
        own[i],
    ) by {
        assert(apart(cs, kept.len() as int, own[i]));
    }
    lay_keeps_dir(st, st1, dir, kept, data);
    let lbas = dir_lbas(st.v, dir)->Ok_0;
    let target = encode_utf8(name);
    let size_bytes = le32_bytes(data.len() as u32);
    crate::fat12::frames::found_in_dir(st.d, lbas, 0, no_lfn(), target);
    let at = lbas.index_of(lba);
    assert(lbas[at] == lba);
    dir_lbas_distinct(st.v, dir);
    assert forall|i: int| 0 <= i < lbas.len() implies after.d.has(#[trigger] lbas[i]) == st.d.has(
        lbas[i],
    ) && (lbas[i] != lba ==> after.d.at(lbas[i]) == st.d.at(lbas[i])) by {
        assert(st2.d.at(lbas[i]) == st.d.at(lbas[i]));
    }
    assert(after.d.at(lba) == splice(st.d.at(lba), offset + 28, size_bytes));
    found_after_resize(st.d, after.d, lbas, target, size_bytes);
    le32_round_trip(data.len() as u32);
    if data.len() > 0 {
        assert(sector_apart(st.v, kept, 0, lbas[at]));
        assert forall|l: int| in_clusters(st1.v, kept, l) implies #[trigger] after.d.at(l)
            == st2.d.at(l) && (st2.d.has(l) ==> after.d.has(l)) by {
            let m = choose|m: int| 0 <= m < kept.len() && #[trigger] in_cluster(st1.v, kept[m], l);
            assert(!in_cluster(st.v, kept[m], lba));
        }
        assert forall|i: int| 0 <= i < kept.len() implies st1.v.addressable(#[trigger] kept[i]) by {
            assert(st.v.addressable(kept[i]));
        }
        reads_back(st1, kept, data, after.v, after.d);
    } else {
        assert(data =~= Seq::<u8>::empty());
    }
}

/// No cluster of a directory that can be searched is free.
pub proof fn dir_in_use(v: Volume, dir: DirLocation)
    requires
        dir_ready(v, dir),
        dir_lbas(v, dir) is Ok,
    ensures
        forall|i: int|
            0 <= i < dir_clusters(v, dir).len() ==> !(link(v.fat, #[trigger] dir_clusters(v, dir)[i]) is Free),
{
    match dir {
        DirLocation::Root => {},
        DirLocation::Cluster(c) => {
            chain_in_use(v.fat, c as int);
        },
    }
}

} // verus!
