//! What a change to a volume leaves alone.

use crate::disk::DiskView;
use crate::fat12::changes::{
    data_block, find_run, first_run, free_below, pick_free, run_at, write_cluster, Store,
};
use crate::fat12::table::{chain, in_table, link, set_entry, set_entry_frame};
use crate::fat12::volume::{
    dir_lbas, dir_ready, find_entry, find_from, sectors_of, DirLocation, Find, Volume,
};
use crate::fat_common::{lfn_after, no_lfn, LfnView};
use vstd::prelude::*;
use vstd::utf8::encode_utf8;

verus! {

/// Sector `lba` is not one of the first table.
pub open spec fn outside_fat(v: Volume, lba: int) -> bool {
    lba < v.first_fat_sector() || lba >= v.first_fat_sector() + v.fat_size
}

/// The sectors outside the first table are the same on both disks.
pub open spec fn same_outside(v: Volume, a: DiskView, b: DiskView) -> bool {
    forall|l: int|
        #![trigger b.at(l)]
        #![trigger b.has(l)]
        outside_fat(v, l) ==> a.has(l) == b.has(l) && a.at(l) == b.at(l)
}

/// The table is in front of the root directory, and that is in front of the data.
pub proof fn layout(v: Volume)
    requires
        v.wf(),
        v.num_fats >= 1,
    ensures
        v.first_fat_sector() + v.fat_size <= v.first_root_dir_sector(),
        v.first_root_dir_sector() < v.first_data_sector(),
{
    assert(v.num_fats * v.fat_size >= v.fat_size) by (nonlinear_arith)
        requires
            v.num_fats >= 1,
            v.fat_size >= 0,
    ;
}

/// The sectors of data clusters are behind the root directory.
pub proof fn cluster_in_data(v: Volume, c: int)
    requires
        c >= 2,
        v.sectors_per_cluster >= 0,
    ensures
        v.cluster_lba(c) >= v.first_data_sector(),
{
    assert((c - 2) * v.sectors_per_cluster >= 0) by (nonlinear_arith)
        requires
            c >= 2,
            v.sectors_per_cluster >= 0,
    ;
}

/// Different clusters have no sector in common.
pub proof fn clusters_disjoint(v: Volume, a: int, b: int, s: int, t: int)
    requires
        a != b,
        0 <= s < v.sectors_per_cluster,
        0 <= t < v.sectors_per_cluster,
    ensures
        v.cluster_lba(a) + s != v.cluster_lba(b) + t,
{
    let n = v.sectors_per_cluster;
    if a < b {
        assert((b - 2) * n >= (a - 2) * n + n) by (nonlinear_arith)
            requires
                a + 1 <= b,
                n > 0,
        ;
    } else {
        assert((a - 2) * n >= (b - 2) * n + n) by (nonlinear_arith)
            requires
                b + 1 <= a,
                n > 0,
        ;
    }
}

/// A sector outside the table can change without harm to the table.
pub proof fn put_mounted(st: Store, lba: int, bytes: Seq<u8>)
    requires
        st.mounted(),
        bytes.len() == 512,
        outside_fat(st.v, lba),
    ensures
        st.put(lba, bytes).mounted(),
{
    let after = st.put(lba, bytes);
    assert forall|k: int| 0 <= k < st.v.fat_size implies after.d.has(
        #[trigger] after.v.fat_lba(k),
    ) && after.d.at(after.v.fat_lba(k)) == after.v.fat_sector(k) by {
        assert(st.d.has(st.v.fat_lba(k)));
    }
    assert forall|l: int| after.d.has(l) implies (#[trigger] after.d.at(l)).len() == 512 by {
        if l != lba {
            assert(st.d.at(l).len() == 512);
        }
    }
}

/// Setting an entry keeps the table on disk and the one in memory the same.
pub proof fn set_link_mounted(st: Store, c: int, value: int)
    requires
        st.mounted(),
        in_table(st.v.fat, c),
    ensures
        st.set_link(c, value).mounted(),
        st.set_link(c, value).v == st.v.with_fat(set_entry(st.v.fat, c, value)),
        set_entry(st.v.fat, c, value).len() == st.v.fat.len(),
        same_outside(st.v, st.d, st.set_link(c, value).d),
{
    reveal(Store::set_link);
    reveal(set_entry);
    set_entry_frame(st.v.fat, c, value);
    let after = st.set_link(c, value);
    let fat2 = set_entry(st.v.fat, c, value);
    let off = c * 3 / 2;
    let k0 = off / 512;
    assert(0 <= k0 < st.v.fat_size);
    assert(off % 512 == 511 ==> k0 + 1 < st.v.fat_size);
    assert forall|k: int| 0 <= k < st.v.fat_size implies after.d.has(
        #[trigger] after.v.fat_lba(k),
    ) && after.d.at(after.v.fat_lba(k)) == after.v.fat_sector(k) by {
        assert(st.d.has(st.v.fat_lba(k)));
        if k != k0 && !(off % 512 == 511 && k == k0 + 1) {
            assert(after.v.fat_sector(k) =~= st.v.fat_sector(k));
        }
    }
    assert forall|l: int| after.d.has(l) implies (#[trigger] after.d.at(l)).len() == 512 by {
        if st.d.has(l) {
            assert(st.d.at(l).len() == 512);
        }
    }
}

/// The free clusters below `n` are free clusters in ascending order, all of them.
pub proof fn free_below_sound(fat: Seq<u8>, n: int)
    ensures
        forall|i: int|
            0 <= i < free_below(fat, n).len() ==> 2 <= #[trigger] free_below(fat, n)[i] < n && link(
                fat,
                free_below(fat, n)[i],
            ) is Free,
        forall|i: int, j: int|
            0 <= i < j < free_below(fat, n).len() ==> free_below(fat, n)[i] < free_below(fat, n)[j],
        forall|c: int|
            2 <= c < n && #[trigger] link(fat, c) is Free ==> free_below(fat, n).contains(c),
    decreases n,
{
    if n > 2 {
        free_below_sound(fat, n - 1);
        let before = free_below(fat, n - 1);
        let all = free_below(fat, n);
        if link(fat, n - 1) is Free {
            assert forall|c: int| 2 <= c < n && #[trigger] link(fat, c) is Free implies all.contains(
                c,
            ) by {
                if c == n - 1 {
                    assert(all[all.len() - 1] == c);
                } else {
                    let i = before.index_of(c);
                    assert(all[i] == c);
                }
            }
        }
    }
}

/// The free clusters below a smaller number come first.
pub proof fn free_below_prefix(fat: Seq<u8>, n: int, m: int)
    requires
        n <= m,
    ensures
        free_below(fat, n).len() <= free_below(fat, m).len(),
        free_below(fat, m).take(free_below(fat, n).len() as int) == free_below(fat, n),
    decreases m - n,
{
    if n < m {
        free_below_prefix(fat, n, m - 1);
        if m > 2 {
            assert(free_below(fat, m).take(free_below(fat, n).len() as int) =~= free_below(
                fat,
                m - 1,
            ).take(free_below(fat, n).len() as int));
        } else {
            assert(free_below(fat, n) =~= Seq::<int>::empty());
            assert(free_below(fat, m) =~= Seq::<int>::empty());
        }
    } else {
        assert(free_below(fat, m).take(free_below(fat, n).len() as int) =~= free_below(fat, n));
    }
}

/// Clusters that are picked are free, can be addressed, and ascend.
pub proof fn picked(v: Volume, count: int)
    requires
        v.wf(),
        v.clusters_fit(),
        count >= 0,
    ensures
        pick_free(v, count) matches Ok(cs) ==> {
            &&& cs.len() == count
            &&& count <= 0x0155_5555
            &&& forall|i: int|
                0 <= i < cs.len() ==> 2 <= #[trigger] cs[i] < v.total_entries() && v.addressable(
                    cs[i],
                ) && link(v.fat, cs[i]) is Free && in_table(v.fat, cs[i])
            &&& forall|i: int, j: int| 0 <= i < j < cs.len() ==> cs[i] < cs[j]
        },
{
    let total = v.total_entries();
    let all = free_below(v.fat, total);
    free_below_sound(v.fat, total);
    free_below_len(v.fat, total);
    if all.len() >= count {
        let cs = all.take(count);
        assert forall|i: int| 0 <= i < cs.len() implies 2 <= #[trigger] cs[i]
            < v.total_entries() && v.addressable(cs[i]) && link(v.fat, cs[i]) is Free && in_table(
            v.fat,
            cs[i],
        ) by {
            let c = all[i];
            assert(cs[i] == c);
            assert((c - 1) * v.sectors_per_cluster <= total * v.sectors_per_cluster)
                by (nonlinear_arith)
                requires
                    c - 1 <= total,
                    v.sectors_per_cluster >= 0,
            ;
        }
    }
}

/// There are not more free clusters below `n` than numbers.
pub proof fn free_below_len(fat: Seq<u8>, n: int)
    requires
        n >= 0,
    ensures
        free_below(fat, n).len() <= n,
    decreases n,
{
    if n > 2 {
        free_below_len(fat, n - 1);
    }
}

/// Writing the sectors of a data cluster leaves the table and all other sectors alone.
pub proof fn write_cluster_frame(st: Store, c: int, s: int, data: Seq<u8>, k: int)
    requires
        st.mounted(),
        c >= 2,
        0 <= s,
    ensures
        ({
            let after = write_cluster(st, c, s, data, k);
            &&& after.mounted()
            &&& after.v == st.v
            &&& forall|l: int|
                #![trigger after.d.at(l)]
                #![trigger after.d.has(l)]
                if st.v.cluster_lba(c) + s <= l < st.v.cluster_lba(c) + st.v.sectors_per_cluster {
                    after.d.has(l) && after.d.at(l) == data_block(
                        data,
                        k + (l - st.v.cluster_lba(c)),
                    )
                } else {
                    after.d.at(l) == st.d.at(l) && after.d.has(l) == st.d.has(l)
                }
        }),
    decreases st.v.sectors_per_cluster - s,
{
    if s < st.v.sectors_per_cluster {
        let lba = st.v.cluster_lba(c) + s;
        layout(st.v);
        cluster_in_data(st.v, c);
        put_mounted(st, lba, data_block(data, k + s));
        let next = st.put(lba, data_block(data, k + s));
        write_cluster_frame(next, c, s + 1, data, k);
        let after = write_cluster(st, c, s, data, k);
        assert(after == write_cluster(next, c, s + 1, data, k));
        assert forall|l: int|
            if lba <= l < st.v.cluster_lba(c) + st.v.sectors_per_cluster {
                after.d.has(l) && after.d.at(l) == data_block(data, k + (l - st.v.cluster_lba(c)))
            } else {
                after.d.at(l) == st.d.at(l) && after.d.has(l) == st.d.has(l)
            } by {
            if l == lba {
                assert(after.d.at(l) == next.d.at(l));
                assert(after.d.has(l) == next.d.has(l));
            } else {
                assert(after.d.has(l) || !after.d.has(l));
            }
        }
    }
}

/// Sector `l` is one of cluster `c`.
pub open spec fn in_cluster(v: Volume, c: int, l: int) -> bool {
    v.cluster_lba(c) <= l < v.cluster_lba(c) + v.sectors_per_cluster
}

/// Sector `l` is one of a cluster among `cs`.
pub open spec fn in_clusters(v: Volume, cs: Seq<int>, l: int) -> bool {
    exists|j: int| 0 <= j < cs.len() && #[trigger] in_cluster(v, cs[j], l)
}

/// The sectors of clusters are those of each of them.
pub proof fn sectors_of_members(v: Volume, cs: Seq<int>)
    requires
        v.sectors_per_cluster >= 0,
    ensures
        forall|i: int|
            0 <= i < sectors_of(v, cs).len() ==> in_clusters(v, cs, #[trigger] sectors_of(v, cs)[i]),
    decreases cs.len(),
{
    if cs.len() > 0 {
        let front = cs.drop_last();
        sectors_of_members(v, front);
        let a = sectors_of(v, front);
        let all = sectors_of(v, cs);
        assert forall|i: int| 0 <= i < all.len() implies in_clusters(v, cs, #[trigger] all[i]) by {
            if i < a.len() {
                assert(in_clusters(v, front, a[i]));
                let j = choose|j: int| 0 <= j < front.len() && #[trigger] in_cluster(v, front[j], a[i]);
                assert(in_cluster(v, cs[j], all[i]));
            } else {
                assert(all[i] == v.cluster_lba(cs.last()) + (i - a.len()));
                assert(in_cluster(v, cs[cs.len() - 1], all[i]));
            }
        }
    }
}

/// The sectors of a directory are behind the table.
pub proof fn dir_outside_fat(v: Volume, dir: DirLocation)
    requires
        v.wf(),
        v.num_fats >= 1,
        dir_ready(v, dir),
    ensures
        dir_lbas(v, dir) matches Ok(lbas) ==> forall|i: int|
            0 <= i < lbas.len() ==> #[trigger] lbas[i] >= v.first_root_dir_sector() && outside_fat(
                v,
                lbas[i],
            ),
{
    layout(v);
    match dir {
        DirLocation::Root => {},
        DirLocation::Cluster(c) => {
            let cs = chain(v.fat, c as int);
            let lbas = sectors_of(v, cs);
            sectors_of_members(v, cs);
            assert forall|i: int| 0 <= i < lbas.len() implies #[trigger] lbas[i]
                >= v.first_root_dir_sector() && outside_fat(v, lbas[i]) by {
                assert(in_clusters(v, cs, lbas[i]));
                let j = choose|j: int| 0 <= j < cs.len() && #[trigger] in_cluster(v, cs[j], lbas[i]);
                assert(v.addressable(cs[j]));
                cluster_in_data(v, cs[j]);
            }
        },
    }
}

/// What is found is in one of the sectors of the directory.
pub proof fn found_in_dir(d: DiskView, lbas: Seq<int>, k: int, lfn: LfnView, target: Seq<u8>)
    requires
        k >= 0,
    ensures
        find_from(d, lbas, k, lfn, target) matches Find::At(lba, offset, _) ==> lbas.contains(lba)
            && d.has(lba) && 0 <= offset && offset + 32 <= 512,
    decreases 16 * lbas.len() - k,
{
    if k < 16 * lbas.len() && d.has(lbas[k / 16]) {
        let raw = crate::fat12::volume::dir_slot(d, lbas, k);
        assert(lbas.contains(lbas[k / 16]));
        found_in_dir(d, lbas, k + 1, lfn_after(lfn, raw), target);
    }
}

/// The sector of an entry that was found is not one of the table.
pub proof fn found_outside_fat(v: Volume, d: DiskView, dir: DirLocation, name: Seq<char>)
    requires
        v.wf(),
        v.num_fats >= 1,
        dir_ready(v, dir),
    ensures
        find_entry(v, d, dir, name) matches Ok((lba, offset, _)) ==> outside_fat(v, lba) && d.has(
            lba,
        ) && 0 <= offset && offset + 32 <= 512,
{
    dir_outside_fat(v, dir);
    if let Ok(lbas) = dir_lbas(v, dir) {
        found_in_dir(d, lbas, 0, no_lfn(), encode_utf8(name));
    }
}

/// A run of free slots that was found is in one of the sectors searched.
pub proof fn run_in_dir(d: DiskView, lbas: Seq<int>, j: int, count: int)
    requires
        j >= 0,
    ensures
        find_run(d, lbas, j, count) matches Ok(Some((lba, i))) ==> lbas.contains(lba) && d.has(lba)
            && run_at(d.at(lba), i, count),
    decreases lbas.len() - j,
{
    if j < lbas.len() && d.has(lbas[j]) {
        assert(lbas.contains(lbas[j]));
        first_run_sound(d.at(lbas[j]), 0, count);
        run_in_dir(d, lbas, j + 1, count);
    }
}

/// The first run is a run.
pub proof fn first_run_sound(sector: Seq<u8>, i: int, count: int)
    requires
        0 <= i,
    ensures
        first_run(sector, i, count) matches Some(at) ==> run_at(sector, at, count) && i <= at < 16,
        first_run(sector, i, count) is None ==> forall|at: int|
            i <= at < 16 ==> !#[trigger] run_at(sector, at, count),
    decreases 16 - i,
{
    if i < 16 && !run_at(sector, i, count) {
        first_run_sound(sector, i + 1, count);
    }
}

} // verus!
