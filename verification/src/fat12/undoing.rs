//! Deleting a file that was just created takes the creation back.

use crate::disk::{DiskView, FsError};
use crate::fat12::beside::{begins_marked, entries_fit, like};
use crate::fat12::changes::{
    clusters_needed, create_file, create_ready, delete_file, delete_ready, free_chain, free_slot,
    lay_chain, mark_deleted, pick_free, put_entries, reserve, write_cluster, Store,
};
use crate::fat12::creation::{creatable, created_entry, put_entries_effect};
use crate::fat12::frames::{dir_outside_fat, outside_fat, set_link_mounted, write_cluster_frame};
use crate::fat12::gained::{put_slots, reserve_in_order};
use crate::fat12::laid::{
    apart, lay_chain_keeps, lay_step, lay_step_effect, layable, next_value,
};
use crate::fat12::listed::{ends_here, known, orderly};
use crate::fat12::names::name_entries;
use crate::fat12::removal::{delete_then_gone, free_chain_frees, name_unique};
use crate::fat12::resizing::laid_is_chain;
use crate::fat12::search::{
    dir_lbas_distinct, found_slot, found_slot_is_found, same_slot, scan, scan_find,
};
use crate::fat12::table::{
    free_halves, half, halves_decide, link, run, set_entry_halves, set_entry_links, Link,
};
use crate::fat12::volume::{
    dir_lbas, dir_slot, file_contents, find_entry, find_from, not_found, DirLocation,
};
use crate::fat_common::{goes_by, lfn_after, no_lfn, slot, slot_kind, LfnView};
use crate::rtc::RtcTime;
use vstd::prelude::*;
use vstd::utf8::encode_utf8;

verus! {

/// Laying data leaves the halves of other entries alone.
proof fn lay_chain_halves(st: Store, cs: Seq<int>, i: int, data: Seq<u8>, n: int)
    requires
        st.mounted(),
        0 <= i <= cs.len(),
        layable(st.v, cs),
        apart(cs, i, n / 3),
        0 <= n < 2 * st.v.fat.len(),
    ensures
        half(lay_chain(st, cs, i, data).v.fat, n) == half(st.v.fat, n),
    decreases cs.len() - i,
{
    if i < cs.len() {
        lay_step_effect(st, cs, i, data);
        let c = cs[i];
        let k = i * st.v.sectors_per_cluster;
        let st1 = write_cluster(st, c, 0, data, k);
        write_cluster_frame(st, c, 0, data, k);
        set_link_mounted(st1, c, next_value(cs, i));
        assert(cs[i] != n / 3);
        set_entry_halves(st.v.fat, c, next_value(cs, i), n);
        lay_chain_halves(lay_step(st, cs, i, data), cs, i + 1, data, n);
    }
}

/// A chain that ends well is freed, and the halves of other entries are left alone.
proof fn free_chain_halves(st: Store, c: int, cs: Seq<int>, n: int)
    requires
        st.mounted(),
        run(st.v.fat, c, cs),
        link(st.v.fat, cs.last()) is End,
        cs.no_duplicates(),
        0 <= n < 2 * st.v.fat.len(),
    ensures
        free_chain(st, c).1 is None,
        free_chain(st, c).0.v.fat.len() == st.v.fat.len(),
        !cs.contains(n / 3) ==> half(free_chain(st, c).0.v.fat, n) == half(st.v.fat, n),
    decreases cs.len(),
{
    let fat = st.v.fat;
    assert(cs.contains(cs[0]));
    if cs.len() > 1 {
        assert(link(fat, cs[0]) == Link::Next(cs[1]));
    }
    set_link_mounted(st, c, 0);
    set_entry_links(fat, c, 0);
    let st1 = st.set_link(c, 0);
    if !cs.contains(n / 3) {
        set_entry_halves(fat, c, 0, n);
    }
    if cs.len() > 1 {
        let rest = cs.skip(1);
        assert forall|i: int| 0 <= i < rest.len() implies #[trigger] rest[i] != c && link(
            st1.v.fat,
            rest[i],
        ) == link(fat, rest[i]) by {
            assert(rest[i] == cs[i + 1] && cs[i + 1] != cs[0]);
        }
        assert forall|i: int| 0 <= i < rest.len() - 1 implies #[trigger] link(st1.v.fat, rest[i])
            == Link::Next(rest[i + 1]) by {
            assert(rest[i] == cs[i + 1]);
            assert(link(fat, cs[i + 1]) == Link::Next(cs[i + 2]));
        }
        assert(rest.last() == cs.last() && rest[rest.len() - 1] == rest.last());
        assert(run(st1.v.fat, cs[1], rest));
        free_chain_halves(st1, cs[1], rest, n);
        assert(free_chain(st, c) == free_chain(st1, cs[1]));
        if rest.contains(n / 3) {
            let i = rest.index_of(n / 3);
            assert(cs[i + 1] == n / 3);
        }
    }
}

/// Entries that are put outside the table do no harm to it.
proof fn put_entries_mounted(st: Store, lba: int, first: int, long: Seq<Seq<u8>>, e: Seq<u8>)
    requires
        st.mounted(),
        st.d.has(lba),
        outside_fat(st.v, lba),
        0 <= first,
        first + long.len() + 1 <= 16,
        entries_fit(long, e),
    ensures
        (Store { v: st.v, d: put_entries(st.d, lba, first, long.push(e), 0) }).mounted(),
{
    let all = long.push(e);
    assert(st.d.at(lba).len() == 512);
    assert forall|i: int| 0 <= i < all.len() implies (#[trigger] all[i]).len() == 32 by {
        if i < long.len() {
            assert(long[i].len() == 32);
        }
    }
    put_entries_effect(st.d, lba, first, all, 0);
    let d = put_entries(st.d, lba, first, all, 0);
    assert forall|k: int| 0 <= k < st.v.fat_size implies d.has(#[trigger] st.v.fat_lba(k)) && d.at(
        st.v.fat_lba(k),
    ) == st.v.fat_sector(k) by {
        assert(st.d.has(st.v.fat_lba(k)));
        assert(d.at(st.v.fat_lba(k)) == st.d.at(st.v.fat_lba(k)));
    }
    assert forall|l: int| d.has(l) implies (#[trigger] d.at(l)).len() == 512 by {
        assert(st.d.has(l));
        if l != lba {
            assert(st.d.at(l).len() == 512);
        }
    }
}

/// A search that finds nothing in some slots finds nothing in the same slots, also with a
/// pending name that no slot tells apart.
proof fn find_like(
    d: DiskView,
    d2: DiskView,
    lbas: Seq<int>,
    k: int,
    lfn: LfnView,
    lfn2: LfnView,
    target: Seq<u8>,
)
    requires
        0 < k,
        like(lfn, lfn2),
        lfn.chunks.len() == 0 ==> !(slot_kind(dir_slot(d, lbas, k - 1)) is LongName),
        forall|m: int| k <= m < 16 * lbas.len() ==> #[trigger] begins_marked(d, lbas, m),
        forall|m: int| k <= m < 16 * lbas.len() ==> #[trigger] same_slot(d, d2, lbas, m),
        find_from(d, lbas, k, lfn, target) is Absent,
    ensures
        find_from(d2, lbas, k, lfn2, target) is Absent,
    decreases 16 * lbas.len() - k,
{
    if k < 16 * lbas.len() {
        let raw = dir_slot(d, lbas, k);
        assert(same_slot(d, d2, lbas, k));
        assert(begins_marked(d, lbas, k));
        let a = lfn_after(lfn, raw);
        let b = lfn_after(lfn2, raw);
        if lfn != lfn2 && slot_kind(raw) is LongName {
            assert(a =~= b);
        }
        assert(goes_by(raw, lfn, target) == goes_by(raw, lfn2, target));
        if !(slot_kind(raw) is Terminator) {
            find_like(d, d2, lbas, k + 1, a, b, target);
        }
    }
}

/// A search goes through deleted slots, or ends there.
proof fn find_passes_free(
    d: DiskView,
    lbas: Seq<int>,
    k: int,
    q: int,
    lfn: LfnView,
    target: Seq<u8>,
) -> (r: Option<LfnView>)
    requires
        0 <= k <= q <= 16 * lbas.len(),
        known(d, lbas),
        forall|m: int| k <= m < q ==> free_slot(#[trigger] dir_slot(d, lbas, m)),
    ensures
        match r {
            None => exists|t: int| k <= t < q && #[trigger] ends_here(d, lbas, t),
            Some(l) => find_from(d, lbas, k, lfn, target) == find_from(d, lbas, q, l, target) && (
            if k < q {
                l.chunks.len() == 0 && slot_kind(dir_slot(d, lbas, q - 1)) is Deleted
            } else {
                l == lfn
            }),
        },
    decreases q - k,
{
    if k == q {
        Some(lfn)
    } else {
        let raw = dir_slot(d, lbas, k);
        assert(free_slot(raw));
        assert(d.has(lbas[k / 16]));
        if raw[0] == 0 {
            assert(ends_here(d, lbas, k));
            None
        } else {
            find_passes_free(d, lbas, k + 1, q, lfn_after(lfn, raw), target)
        }
    }
}

/// Behind entries that were put into free slots of a directory in order, a search for a name
/// that was not there finds nothing.
proof fn nothing_behind(
    d: DiskView,
    d2: DiskView,
    lbas: Seq<int>,
    p: int,
    q: int,
    lfn: LfnView,
    lfn2: LfnView,
    target: Seq<u8>,
)
    requires
        orderly(d, lbas),
        0 <= p < q <= 16 * lbas.len(),
        find_from(d, lbas, p, lfn, target) is Absent,
        forall|m: int| p <= m < q ==> free_slot(#[trigger] dir_slot(d, lbas, m)),
        forall|m: int| q <= m < 16 * lbas.len() ==> #[trigger] same_slot(d, d2, lbas, m),
        lfn2.chunks.len() == 0,
    ensures
        find_from(d2, lbas, q, lfn2, target) is Absent,
{
    match find_passes_free(d, lbas, p, q, lfn, target) {
        None => {
            let t = choose|t: int| p <= t < q && #[trigger] ends_here(d, lbas, t);
            if q < 16 * lbas.len() {
                assert(ends_here(d, lbas, q));
                assert(same_slot(d, d2, lbas, q));
                assert(d.has(lbas[q / 16]));
            }
        },
        Some(l) => {
            assert forall|m: int| q <= m < 16 * lbas.len() implies #[trigger] begins_marked(
                d,
                lbas,
                m,
            ) by {}
            find_like(d, d2, lbas, q, l, lfn2, target);
        },
    }
}

/// A new file in a directory in order is the only entry that goes by its name.
proof fn new_name_is_unique(
    st: Store,
    dir: DirLocation,
    name: Seq<char>,
    data: Seq<u8>,
    time: RtcTime,
)
    requires
        create_ready(st, dir, name),
        create_file(st, dir, name, data, time).1 is Ok,
        data.len() <= u32::MAX,
        creatable(st, dir, name, data.len() as int),
        dir_lbas(st.v, dir) matches Ok(lbas) && orderly(st.d, lbas),
    ensures
        ({
            let made = create_file(st, dir, name, data, time).0;
            name_unique(made.v, made.d, dir, name)
        }),
{
    let made = create_file(st, dir, name, data, time).0;
    let target = encode_utf8(name);
    let j = created_entry(st, dir, name, data, time);
    let (short, long) = name_entries(st.v, st.d, dir, name)->Ok_0;
    let n = long.len() as int;
    let (st1, at) = reserve(st, dir, n + 1);
    let (lba, first) = at->Ok_0;
    let j2 = reserve_in_order(st, dir, n + 1);
    let lbas = dir_lbas(st1.v, dir)->Ok_0;
    dir_lbas_distinct(st1.v, dir);
    assert(j == j2);
    let need = clusters_needed(data.len() as int, st1.v.sectors_per_cluster);
    let cs = pick_free(st1.v, need)->Ok_0;
    let st2 = lay_chain(st1, cs, 0, data);
    let e = crate::fat12::changes::file_entry(short, cs[0], data.len(), time);
    assert(st2.d.at(lbas[j]) == st1.d.at(lbas[j]) && st1.d.has(lbas[j]));
    put_slots(st2.d, lbas, j, first, long, e);
    let p = 16 * j + first;
    let q = p + n + 1;
    assert forall|m: int| q <= m < 16 * lbas.len() implies #[trigger] same_slot(
        st1.d,
        made.d,
        lbas,
        m,
    ) by {
        assert(same_slot(st2.d, made.d, lbas, m));
        assert(st2.d.at(lbas[m / 16]) == st1.d.at(lbas[m / 16]));
    }
    assert forall|m: int| p <= m < q implies free_slot(#[trigger] dir_slot(st1.d, lbas, m)) by {
        assert(m / 16 == j && m % 16 == first + (m - p));
        assert(free_slot(slot(st1.d.at(lbas[j]), m % 16)));
    }
    scan_find(st1.d, lbas, 0, p, no_lfn(), target);
    let l0 = scan(st1.d, lbas, 0, p, no_lfn(), target)->0;
    assert forall|k: int, lfn: LfnView|
        #[trigger] found_slot(made.d, lbas, 0, no_lfn(), target, k, lfn) implies find_from(
        made.d,
        lbas,
        k + 1,
        lfn.cleared(),
        target,
    ) is Absent by {
        found_slot_is_found(made.d, lbas, 0, no_lfn(), target, k, lfn);
        assert(lbas[k / 16] == lbas[j]);
        assert(k / 16 == j);
        assert(k == p + n);
        nothing_behind(st1.d, made.d, lbas, p, q, l0, lfn.cleared(), target);
    }
}

/// Deleting a file right after it was created succeeds and brings the table back to what it
/// was, in a directory that had to grow to what it was then. Of the entry nothing but its
/// first byte changes. The name is not found any more, if the directory was in order.
pub proof fn delete_undoes_create(
    st: Store,
    dir: DirLocation,
    name: Seq<char>,
    data: Seq<u8>,
    time: RtcTime,
)
    requires
        create_ready(st, dir, name),
        create_file(st, dir, name, data, time).1 is Ok,
        data.len() <= u32::MAX,
        creatable(st, dir, name, data.len() as int),
    ensures
        ({
            let made = create_file(st, dir, name, data, time).0;
            let (gone, r) = delete_file(made, dir, name);
            let long = (name_entries(st.v, st.d, dir, name)->Ok_0).1;
            &&& delete_ready(made, dir, name)
            &&& r == Ok::<(), FsError>(())
            &&& gone.v == reserve(st, dir, (long.len() + 1) as int).0.v
            &&& dir is Root ==> gone.v == st.v
            &&& find_entry(made.v, made.d, dir, name) matches Ok((lba, offset, _)) && {
                &&& gone.d.at(lba) == made.d.at(lba).update(offset, 0xE5)
                &&& forall|l: int|
                    outside_fat(st.v, l) && l != lba ==> #[trigger] gone.d.at(l) == made.d.at(l)
            }
            &&& (dir_lbas(st.v, dir) matches Ok(lbas) && orderly(st.d, lbas)) ==> file_contents(
                gone.v,
                gone.d,
                dir,
                name,
            ) == Err::<Seq<u8>, FsError>(FsError::Failed(not_found(dir)))
        }),
{
    let made = create_file(st, dir, name, data, time).0;
    let j = created_entry(st, dir, name, data, time);
    let (short, long) = name_entries(st.v, st.d, dir, name)->Ok_0;
    let n = long.len() as int;
    let (st1, at) = reserve(st, dir, n + 1);
    let (lba, first) = at->Ok_0;
    let lbas = dir_lbas(st1.v, dir)->Ok_0;
    let need = clusters_needed(data.len() as int, st1.v.sectors_per_cluster);
    let cs = pick_free(st1.v, need)->Ok_0;
    let st2 = lay_chain(st1, cs, 0, data);
    let e = crate::fat12::changes::file_entry(short, cs[0], data.len(), time);
    lay_chain_keeps(st1, cs, 0, data);
    dir_outside_fat(st1.v, dir);
    assert(outside_fat(st1.v, lbas[j]));
    assert(st2.d.has(lbas[j]) == st1.d.has(lbas[j]));
    put_entries_mounted(st2, lba, first, long, e);
    laid_is_chain(st1, cs, data);
    let c = cs[0];
    let (freed_st, failure) = free_chain(made, c);
    free_chain_frees(made, c);
    free_chain_halves(made, c, cs, 0);
    let offset = 32 * (first + n);
    let gone = mark_deleted(freed_st, lba, offset);
    assert(delete_file(made, dir, name) == (gone, Ok::<(), FsError>(())));
    assert forall|x: int| 0 <= x < 2 * st1.v.fat.len() implies #[trigger] half(gone.v.fat, x) == half(
        st1.v.fat,
        x,
    ) by {
        if cs.contains(x / 3) {
            let i = cs.index_of(x / 3);
            assert(link(st1.v.fat, cs[i]) is Free);
            assert(link(gone.v.fat, cs[i]) is Free);
            free_halves(st1.v.fat, cs[i], x);
            free_halves(gone.v.fat, cs[i], x);
        } else {
            assert(apart(cs, 0, x / 3)) by {
                assert forall|m: int| 0 <= m < cs.len() implies #[trigger] cs[m] != x / 3 by {
                    assert(cs.contains(cs[m]));
                }
            }
            lay_chain_halves(st1, cs, 0, data, x);
            free_chain_halves(made, c, cs, x);
        }
    }
    halves_decide(gone.v.fat, st1.v.fat);
    assert(gone.v == st1.v);
    assert(dir is Root ==> st1 == st) by {
        reveal(reserve);
    }
    assert(outside_fat(made.v, lba));
    assert(freed_st.d.at(lba) == made.d.at(lba));
    assert forall|l: int| outside_fat(st.v, l) && l != lba implies #[trigger] gone.d.at(l)
        == made.d.at(l) by {
        assert(outside_fat(made.v, l));
        assert(freed_st.d.at(l) == made.d.at(l));
    }
    if dir_lbas(st.v, dir) matches Ok(l) && orderly(st.d, l) {
        new_name_is_unique(st, dir, name, data, time);
        delete_then_gone(made, dir, name);
    }
}

} // verus!
