//! What deleting and writing do to the listing of a directory.

use crate::bytes::{le32, le32_bytes, le32_round_trip, splice};
use crate::disk::{DiskView, FsError};
use crate::fat12::beside::begins_marked;
use crate::fat12::changes::{
    delete_directory, delete_directory_ready, delete_file, delete_ready, free_chain, free_list,
    lay_chain, mark_deleted, remove_entry, resized, rewrite, write_file, write_ready, Store,
};
use crate::fat12::frames::{dir_outside_fat, outside_fat};
use crate::fat12::laid::apart;
use crate::fat12::laws::{
    chain_in_use, dir_clusters, dir_frame, dir_in_use, disjoint, free_list_effect, lay_keeps_dir,
    readable_back, resized_layable, splice_slot,
};
use crate::fat12::listed::{ends_here, list_from, listing_is, orderly};
use crate::fat12::removal::free_chain_frees;
use crate::fat12::search::{dir_lbas_distinct, find_witness, same_slot, scan};
use crate::fat12::table::{chain, link};
use crate::fat12::volume::{dir_lbas, dir_ready, dir_slot, find_entry, listing, DirLocation};
use crate::fat_common::{entry_of, lfn_after, no_lfn, slot, slot_kind, Entry, LfnView};
use vstd::prelude::*;
use vstd::utf8::encode_utf8;

verus! {

/// The entries behind slot `k` depend on the slots from there on only.
proof fn list_behind(d: DiskView, d2: DiskView, lbas: Seq<int>, k: int, lfn: LfnView)
    requires
        0 <= k,
        forall|m: int| k <= m < 16 * lbas.len() ==> #[trigger] same_slot(d, d2, lbas, m),
    ensures
        list_from(d2, lbas, k, lfn) == list_from(d, lbas, k, lfn),
    decreases 16 * lbas.len() - k,
{
    if k < 16 * lbas.len() {
        assert(same_slot(d, d2, lbas, k));
        list_behind(d, d2, lbas, k + 1, lfn_after(lfn, dir_slot(d, lbas, k)));
    }
}

/// Slot `at` is a short entry that became a deleted one, or stayed a short entry.
pub open spec fn one_slot_changed(d: DiskView, d2: DiskView, lbas: Seq<int>, at: int) -> bool {
    &&& 0 <= at < 16 * lbas.len()
    &&& slot_kind(dir_slot(d, lbas, at)) is Short
    &&& slot_kind(dir_slot(d2, lbas, at)) is Short || slot_kind(dir_slot(d2, lbas, at)) is Deleted
    &&& d2.has(lbas[at / 16]) == d.has(lbas[at / 16])
    &&& forall|m: int|
        0 <= m < 16 * lbas.len() && m != at ==> #[trigger] same_slot(d, d2, lbas, m)
}

/// A listing in which one short entry changed or was deleted.
proof fn list_changed(
    d: DiskView,
    d2: DiskView,
    lbas: Seq<int>,
    k: int,
    at: int,
    lfn: LfnView,
    target: Seq<u8>,
) -> (i: int)
    requires
        0 <= k <= at,
        one_slot_changed(d, d2, lbas, at),
        scan(d, lbas, k, at, lfn, target) is Some,
    ensures
        ({
            let before = list_from(d, lbas, k, lfn);
            let l = scan(d, lbas, k, at, lfn, target)->0;
            let raw = dir_slot(d2, lbas, at);
            &&& 0 <= i < before.len()
            &&& before[i] == entry_of(dir_slot(d, lbas, at), l)
            &&& list_from(d2, lbas, k, lfn) == if slot_kind(raw) is Short {
                before.update(i, entry_of(raw, l))
            } else {
                before.remove(i)
            }
        }),
    decreases at - k,
{
    let raw = dir_slot(d, lbas, k);
    let before = list_from(d, lbas, k, lfn);
    let rest = list_from(d, lbas, k + 1, lfn_after(lfn, raw));
    if k == at {
        let raw2 = dir_slot(d2, lbas, at);
        list_behind(d, d2, lbas, k + 1, lfn.cleared());
        assert(before == seq![entry_of(raw, lfn)] + rest);
        if slot_kind(raw2) is Short {
            assert(before.update(0, entry_of(raw2, lfn)) =~= seq![entry_of(raw2, lfn)] + rest);
        } else {
            assert(before.remove(0) =~= rest);
        }
        0
    } else {
        assert(same_slot(d, d2, lbas, k));
        let i = list_changed(d, d2, lbas, k + 1, at, lfn_after(lfn, raw), target);
        if slot_kind(raw) is Short {
            let x = seq![entry_of(raw, lfn)];
            let l = scan(d, lbas, k, at, lfn, target)->0;
            let e = entry_of(dir_slot(d2, lbas, at), l);
            assert((x + rest).update(i + 1, e) =~= x + rest.update(i, e));
            assert((x + rest).remove(i + 1) =~= x + rest.remove(i));
            i + 1
        } else {
            i
        }
    }
}

/// A directory in order stays in order when one short entry changes or is deleted.
proof fn order_stays(d: DiskView, d2: DiskView, lbas: Seq<int>, at: int)
    requires
        orderly(d, lbas),
        one_slot_changed(d, d2, lbas, at),
    ensures
        orderly(d2, lbas),
{
    assert forall|i: int| 0 <= i < lbas.len() implies d2.has(#[trigger] lbas[i]) by {
        assert(d.has(lbas[i]));
        if 16 * i != at {
            assert(same_slot(d, d2, lbas, 16 * i));
        }
    }
    assert forall|k: int, m: int|
        0 <= k <= m < 16 * lbas.len() && #[trigger] ends_here(d2, lbas, k) implies #[trigger] ends_here(
        d2,
        lbas,
        m,
    ) by {
        assert(same_slot(d, d2, lbas, k));
        assert(ends_here(d, lbas, k));
        assert(ends_here(d, lbas, m));
        assert(m != at);
        assert(same_slot(d, d2, lbas, m));
    }
    assert forall|m: int| 0 <= m < 16 * lbas.len() implies #[trigger] begins_marked(d2, lbas, m) by {
        assert(begins_marked(d, lbas, m));
        if m != at {
            assert(same_slot(d, d2, lbas, m));
            if m > 0 && m - 1 != at {
                assert(same_slot(d, d2, lbas, m - 1));
            }
        }
    }
}

/// Removing an entry takes it out of the listing, and nothing else.
proof fn remove_is_unlisted(st: Store, dir: DirLocation, name: Seq<char>) -> (i: int)
    requires
        st.mounted(),
        dir_ready(st.v, dir),
        dir_lbas(st.v, dir) matches Ok(lbas) && orderly(st.d, lbas),
        find_entry(st.v, st.d, dir, name) matches Ok((lba, offset, e)) && remove_entry(
            st,
            lba,
            offset,
            e.start_cluster as int,
        ).1 is Ok && disjoint(dir_clusters(st.v, dir), chain(st.v.fat, e.start_cluster as int)),
    ensures
        find_entry(st.v, st.d, dir, name) matches Ok((lba, offset, e)) && {
            let after = remove_entry(st, lba, offset, e.start_cluster as int).0;
            &&& listing(st.v, st.d, dir) matches Ok(before) && {
                &&& 0 <= i < before.len()
                &&& before[i] == e
                &&& listing(after.v, after.d, dir) == Ok::<Seq<Entry>, FsError>(before.remove(i))
            }
            &&& dir_ready(after.v, dir)
            &&& dir_lbas(after.v, dir) matches Ok(lbas) && orderly(after.d, lbas)
        },
{
    let target = encode_utf8(name);
    let (lba, offset, e) = find_entry(st.v, st.d, dir, name)->Ok_0;
    let start = e.start_cluster as int;
    let (st1, _) = free_chain(st, start);
    free_chain_frees(st, start);
    let cs = chain(st.v.fat, start);
    let own = dir_clusters(st.v, dir);
    assert forall|x: int| 0 <= x < own.len() implies link(st1.v.fat, #[trigger] own[x]) == link(
        st.v.fat,
        own[x],
    ) by {
        if cs.contains(own[x]) {
            let y = cs.index_of(own[x]);
            assert(own[x] != cs[y]);
        }
    }
    dir_frame(st.v, st1.v, dir);
    let lbas = dir_lbas(st.v, dir)->Ok_0;
    dir_outside_fat(st.v, dir);
    dir_lbas_distinct(st.v, dir);
    let (k, lfn) = find_witness(st.d, lbas, 0, no_lfn(), target);
    let after = mark_deleted(st1, lba, offset);
    assert(after == remove_entry(st, lba, offset, start).0);
    assert(outside_fat(st.v, lbas[k / 16]));
    assert(st1.d.at(lba) == st.d.at(lba) && st1.d.has(lba) == st.d.has(lba));
    let sector = st.d.at(lba);
    assert(sector.len() == 512);
    splice_slot(sector, k % 16, 0, seq![0xE5u8]);
    assert(after.d.at(lba) =~= splice(sector, 32 * (k % 16) + 0, seq![0xE5u8]));
    assert forall|m: int| 0 <= m < 16 * lbas.len() && m != k implies #[trigger] same_slot(
        st.d,
        after.d,
        lbas,
        m,
    ) by {
        assert(outside_fat(st.v, lbas[m / 16]));
        assert(st1.d.at(lbas[m / 16]) == st.d.at(lbas[m / 16]));
        assert(st1.d.has(lbas[m / 16]) == st.d.has(lbas[m / 16]));
        if m / 16 == k / 16 {
            assert(m % 16 != k % 16);
            assert(slot(after.d.at(lba), m % 16) == slot(sector, m % 16));
        } else {
            assert(lbas[m / 16] != lbas[k / 16]);
        }
    }
    let raw2 = dir_slot(after.d, lbas, k);
    assert(raw2 == splice(slot(sector, k % 16), 0, seq![0xE5u8]));
    assert(raw2[0] == 0xE5);
    assert(one_slot_changed(st.d, after.d, lbas, k));
    order_stays(st.d, after.d, lbas, k);
    listing_is(st.v, st.d, dir);
    listing_is(after.v, after.d, dir);
    list_changed(st.d, after.d, lbas, 0, k, no_lfn(), target)
}

/// After a file was deleted, the listing of its directory is that of before without it, and
/// a directory in order stays in order.
pub proof fn delete_is_unlisted(st: Store, dir: DirLocation, name: Seq<char>) -> (i: int)
    requires
        delete_ready(st, dir, name),
        delete_file(st, dir, name).1 is Ok,
        dir_lbas(st.v, dir) matches Ok(lbas) && orderly(st.d, lbas),
        find_entry(st.v, st.d, dir, name) matches Ok((_, _, e)) ==> disjoint(
            dir_clusters(st.v, dir),
            chain(st.v.fat, e.start_cluster as int),
        ),
    ensures
        ({
            let after = delete_file(st, dir, name).0;
            &&& listing(st.v, st.d, dir) matches Ok(before) && {
                &&& 0 <= i < before.len()
                &&& find_entry(st.v, st.d, dir, name) matches Ok((_, _, e)) && before[i] == e
                &&& listing(after.v, after.d, dir) == Ok::<Seq<Entry>, FsError>(before.remove(i))
            }
            &&& dir_lbas(after.v, dir) matches Ok(lbas) && orderly(after.d, lbas)
        }),
{
    remove_is_unlisted(st, dir, name)
}

/// The same of a directory that was deleted.
pub proof fn delete_directory_is_unlisted(st: Store, dir: DirLocation, name: Seq<char>) -> (i: int)
    requires
        delete_directory_ready(st, dir, name),
        delete_directory(st, dir, name).1 is Ok,
        dir_lbas(st.v, dir) matches Ok(lbas) && orderly(st.d, lbas),
        find_entry(st.v, st.d, dir, name) matches Ok((_, _, e)) ==> disjoint(
            dir_clusters(st.v, dir),
            chain(st.v.fat, e.start_cluster as int),
        ),
    ensures
        ({
            let after = delete_directory(st, dir, name).0;
            &&& listing(st.v, st.d, dir) matches Ok(before) && {
                &&& 0 <= i < before.len()
                &&& find_entry(st.v, st.d, dir, name) matches Ok((_, _, e)) && before[i] == e
                &&& listing(after.v, after.d, dir) == Ok::<Seq<Entry>, FsError>(before.remove(i))
            }
            &&& dir_lbas(after.v, dir) matches Ok(lbas) && orderly(after.d, lbas)
        }),
{
    remove_is_unlisted(st, dir, name)
}

/// After a file was written, the listing of its directory is that of before with its new
/// size, and a directory in order stays in order.
pub proof fn write_is_listed(
    st: Store,
    dir: DirLocation,
    name: Seq<char>,
    data: Seq<u8>,
) -> (i: int)
    requires
        write_ready(st, dir, name, data.len() as int),
        write_file(st, dir, name, data).1 is Ok,
        data.len() <= u32::MAX,
        readable_back(st, dir, name, data.len() as int),
        dir_lbas(st.v, dir) matches Ok(lbas) && orderly(st.d, lbas),
    ensures
        ({
            let after = write_file(st, dir, name, data).0;
            &&& listing(st.v, st.d, dir) matches Ok(before) && {
                &&& 0 <= i < before.len()
                &&& find_entry(st.v, st.d, dir, name) matches Ok((_, _, e)) && before[i] == e
                &&& listing(after.v, after.d, dir) == Ok::<Seq<Entry>, FsError>(
                    before.update(i, Entry { size: data.len() as u32, ..before[i] }),
                )
            }
            &&& dir_lbas(after.v, dir) matches Ok(lbas) && orderly(after.d, lbas)
        }),
{
    let target = encode_utf8(name);
    let (lba, offset, e) = find_entry(st.v, st.d, dir, name)->Ok_0;
    let start = e.start_cluster as int;
    let cs = chain(st.v.fat, start);
    let own = dir_clusters(st.v, dir);
    let kept = resized(st.v, cs, data.len() as int)->Ok_0;
    let st1 = free_list(st, cs, kept.len() as int);
    let st2 = lay_chain(st1, kept, 0, data);
    let after = rewrite(st1, lba, offset, kept, data);
    assert(write_file(st, dir, name, data).0 == after);
    dir_in_use(st.v, dir);
    resized_layable(st.v, start, data.len() as int, own);
    chain_in_use(st.v.fat, start);
    free_list_effect(st, cs, kept.len() as int);
    assert forall|x: int| 0 <= x < own.len() implies link(st1.v.fat, #[trigger] own[x]) == link(
        st.v.fat,
        own[x],
    ) by {
        assert(apart(cs, kept.len() as int, own[x]));
    }
    lay_keeps_dir(st, st1, dir, kept, data);
    let lbas = dir_lbas(st.v, dir)->Ok_0;
    dir_lbas_distinct(st.v, dir);
    let (k, lfn) = find_witness(st.d, lbas, 0, no_lfn(), target);
    let bytes = le32_bytes(data.len() as u32);
    let sector = st.d.at(lba);
    assert(st2.d.at(lbas[k / 16]) == sector && st2.d.has(lbas[k / 16]) == st.d.has(lba));
    assert(sector.len() == 512);
    splice_slot(sector, k % 16, 28, bytes);
    assert(after.d.at(lba) == splice(sector, 32 * (k % 16) + 28, bytes));
    assert forall|m: int| 0 <= m < 16 * lbas.len() && m != k implies #[trigger] same_slot(
        st.d,
        after.d,
        lbas,
        m,
    ) by {
        assert(st2.d.at(lbas[m / 16]) == st.d.at(lbas[m / 16]));
        if m / 16 == k / 16 {
            assert(m % 16 != k % 16);
            assert(slot(after.d.at(lba), m % 16) == slot(sector, m % 16));
        } else {
            assert(lbas[m / 16] != lbas[k / 16]);
        }
    }
    let raw = dir_slot(st.d, lbas, k);
    let raw2 = dir_slot(after.d, lbas, k);
    assert(raw2 == splice(raw, 28, bytes));
    assert(raw2.subrange(0, 11) =~= raw.subrange(0, 11));
    assert(raw2.subrange(0, 8) =~= raw.subrange(0, 8));
    assert(raw2.subrange(8, 11) =~= raw.subrange(8, 11));
    le32_round_trip(data.len() as u32);
    assert(le32(raw2, 28) == le32(bytes, 0));
    assert(entry_of(raw2, lfn) =~= (Entry { size: data.len() as u32, ..entry_of(raw, lfn) }));
    assert(one_slot_changed(st.d, after.d, lbas, k));
    order_stays(st.d, after.d, lbas, k);
    listing_is(st.v, st.d, dir);
    listing_is(after.v, after.d, dir);
    list_changed(st.d, after.d, lbas, 0, k, no_lfn(), target)
}

} // verus!
