//! How a search goes through the slots of a directory.

use crate::disk::DiskView;
use crate::fat12::frames::{clusters_disjoint, in_cluster, in_clusters, sectors_of_members};
use crate::fat12::table::{chain, chain_distinct, link, run, run_is_chain, Link};
use crate::fat12::volume::{
    cluster_sectors, dir_lbas, dir_ready, dir_slot, find_from, root_sectors, sectors_of,
    DirLocation, Find, Volume,
};
use crate::fat_common::{entry_of, goes_by, lfn_after, slot_kind, LfnView};
use vstd::prelude::*;

verus! {

/// The pending long name behind slots `k` to `k1`, if a search for `target` gets
/// through them: none ends the directory, is unknown, or goes by that name.
pub open spec fn scan(
    d: DiskView,
    lbas: Seq<int>,
    k: int,
    k1: int,
    lfn: LfnView,
    target: Seq<u8>,
) -> Option<LfnView>
    decreases k1 - k,
{
    if k >= k1 {
        Some(lfn)
    } else if k < 0 || k >= 16 * lbas.len() || !d.has(lbas[k / 16]) {
        None
    } else {
        let raw = dir_slot(d, lbas, k);
        if slot_kind(raw) is Terminator || (slot_kind(raw) is Short && goes_by(raw, lfn, target)) {
            None
        } else {
            scan(d, lbas, k + 1, k1, lfn_after(lfn, raw), target)
        }
    }
}

/// A search that gets through some slots goes on behind them.
pub proof fn scan_find(
    d: DiskView,
    lbas: Seq<int>,
    k: int,
    k1: int,
    lfn: LfnView,
    target: Seq<u8>,
)
    requires
        0 <= k <= k1,
    ensures
        scan(d, lbas, k, k1, lfn, target) matches Some(l) ==> find_from(d, lbas, k, lfn, target)
            == find_from(d, lbas, k1, l, target),
    decreases k1 - k,
{
    if k < k1 && scan(d, lbas, k, k1, lfn, target) is Some {
        scan_find(d, lbas, k + 1, k1, lfn_after(lfn, dir_slot(d, lbas, k)), target);
    }
}

/// Two disks have the same slot `k`.
pub open spec fn same_slot(d: DiskView, d2: DiskView, lbas: Seq<int>, k: int) -> bool {
    d.has(lbas[k / 16]) == d2.has(lbas[k / 16]) && dir_slot(d, lbas, k) == dir_slot(d2, lbas, k)
}

/// A search depends on the slots it goes through only.
pub proof fn scan_agree(
    d: DiskView,
    d2: DiskView,
    lbas: Seq<int>,
    k: int,
    k1: int,
    lfn: LfnView,
    target: Seq<u8>,
)
    requires
        0 <= k,
        forall|j: int| k <= j < k1 ==> #[trigger] same_slot(d, d2, lbas, j),
    ensures
        scan(d, lbas, k, k1, lfn, target) == scan(d2, lbas, k, k1, lfn, target),
    decreases k1 - k,
{
    if k < k1 {
        assert(same_slot(d, d2, lbas, k));
        scan_agree(d, d2, lbas, k + 1, k1, lfn_after(lfn, dir_slot(d, lbas, k)), target);
    }
}

/// What a search found is a slot that goes by the name, behind slots it got through.
pub open spec fn found_slot(
    d: DiskView,
    lbas: Seq<int>,
    k0: int,
    lfn0: LfnView,
    target: Seq<u8>,
    k: int,
    lfn: LfnView,
) -> bool {
    &&& k0 <= k < 16 * lbas.len()
    &&& d.has(lbas[k / 16])
    &&& scan(d, lbas, k0, k, lfn0, target) == Some(lfn)
    &&& slot_kind(dir_slot(d, lbas, k)) is Short
    &&& goes_by(dir_slot(d, lbas, k), lfn, target)
}

/// A search that finds something does so at a slot that goes by the name.
pub proof fn find_witness(
    d: DiskView,
    lbas: Seq<int>,
    k0: int,
    lfn0: LfnView,
    target: Seq<u8>,
) -> (w: (int, LfnView))
    requires
        0 <= k0,
        find_from(d, lbas, k0, lfn0, target) is At,
    ensures
        found_slot(d, lbas, k0, lfn0, target, w.0, w.1),
        find_from(d, lbas, k0, lfn0, target) == Find::At(
            lbas[w.0 / 16],
            32 * (w.0 % 16),
            entry_of(dir_slot(d, lbas, w.0), w.1),
        ),
    decreases 16 * lbas.len() - k0,
{
    let raw = dir_slot(d, lbas, k0);
    if slot_kind(raw) is Short && goes_by(raw, lfn0, target) {
        (k0, lfn0)
    } else {
        find_witness(d, lbas, k0 + 1, lfn_after(lfn0, raw), target)
    }
}

/// A slot that goes by the name, behind slots the search gets through, is found.
pub proof fn found_slot_is_found(
    d: DiskView,
    lbas: Seq<int>,
    k0: int,
    lfn0: LfnView,
    target: Seq<u8>,
    k: int,
    lfn: LfnView,
)
    requires
        0 <= k0,
        found_slot(d, lbas, k0, lfn0, target, k, lfn),
    ensures
        find_from(d, lbas, k0, lfn0, target) == Find::At(
            lbas[k / 16],
            32 * (k % 16),
            entry_of(dir_slot(d, lbas, k), lfn),
        ),
{
    scan_find(d, lbas, k0, k, lfn0, target);
}

/// The sectors of different clusters are different sectors.
pub proof fn sectors_distinct(v: Volume, cs: Seq<int>)
    requires
        cs.no_duplicates(),
        v.sectors_per_cluster >= 0,
    ensures
        sectors_of(v, cs).no_duplicates(),
    decreases cs.len(),
{
    if cs.len() > 0 {
        let front = cs.drop_last();
        let a = sectors_of(v, front);
        let b = cluster_sectors(v, cs.last());
        assert(front.no_duplicates());
        sectors_distinct(v, front);
        sectors_of_members(v, front);
        let all = a + b;
        assert forall|i: int, j: int| 0 <= i < all.len() && 0 <= j < all.len() && i != j implies all[i]
            != all[j] by {
            if i < a.len() && j >= a.len() {
                in_front_or_last(v, cs, i, j - a.len());
            } else if j < a.len() && i >= a.len() {
                in_front_or_last(v, cs, j, i - a.len());
            }
        }
    }
}

proof fn in_front_or_last(v: Volume, cs: Seq<int>, i: int, s: int)
    requires
        cs.len() > 0,
        cs.no_duplicates(),
        0 <= i < sectors_of(v, cs.drop_last()).len(),
        0 <= s < v.sectors_per_cluster,
    ensures
        sectors_of(v, cs.drop_last())[i] != cluster_sectors(v, cs.last())[s],
{
    let front = cs.drop_last();
    sectors_of_members(v, front);
    let l = sectors_of(v, front)[i];
    assert(in_clusters(v, front, l));
    let j = choose|j: int| 0 <= j < front.len() && #[trigger] in_cluster(v, front[j], l);
    assert(front[j] == cs[j]);
    assert(cs[j] != cs[cs.len() - 1]);
    clusters_disjoint(v, cs[j], cs.last(), l - v.cluster_lba(cs[j]), s);
}

/// A directory has no sector twice.
pub proof fn dir_lbas_distinct(v: Volume, dir: DirLocation)
    requires
        v.wf(),
        dir_ready(v, dir),
    ensures
        dir_lbas(v, dir) matches Ok(lbas) ==> lbas.no_duplicates(),
{
    match dir {
        DirLocation::Root => {
            let lbas = root_sectors(v);
            assert forall|i: int, j: int| 0 <= i < lbas.len() && 0 <= j < lbas.len() && i != j implies lbas[i]
                != lbas[j] by {}
        },
        DirLocation::Cluster(c) => {
            chain_distinct(v.fat, c as int);
            sectors_distinct(v, chain(v.fat, c as int));
        },
    }
}

/// A walk over clusters whose links did not change stays the same.
pub proof fn run_frame(fat: Seq<u8>, fat2: Seq<u8>, c: int, cs: Seq<int>)
    requires
        run(fat, c, cs),
        forall|i: int| 0 <= i < cs.len() ==> link(fat2, #[trigger] cs[i]) == link(fat, cs[i]),
    ensures
        run(fat2, c, cs),
        chain(fat2, c) == cs,
{
    assert forall|i: int| 0 <= i < cs.len() - 1 implies #[trigger] link(fat2, cs[i]) == Link::Next(
        cs[i + 1],
    ) by {
        assert(link(fat2, cs[i]) == link(fat, cs[i]));
        assert(link(fat, cs[i]) == Link::Next(cs[i + 1]));
    }
    assert(link(fat2, cs[cs.len() - 1]) == link(fat, cs[cs.len() - 1]));
    run_is_chain(fat2, c, cs);
}

/// The sectors of clusters depend on the geometry only.
pub proof fn sectors_of_with_fat(v: Volume, v2: Volume, cs: Seq<int>)
    requires
        v2 == v.with_fat(v2.fat),
    ensures
        sectors_of(v, cs) == sectors_of(v2, cs),
    decreases cs.len(),
{
    if cs.len() > 0 {
        sectors_of_with_fat(v, v2, cs.drop_last());
        assert(v.cluster_lba(cs.last()) == v2.cluster_lba(cs.last()));
        assert(cluster_sectors(v, cs.last()) =~= cluster_sectors(v2, cs.last()));
    }
}

} // verus!
