//! What was created is there.

use crate::bytes::splice;
use crate::disk::{DiskView, FsError};
use crate::fat12::beside::entries_fit;
use crate::fat12::changes::{
    clusters_needed, create_file, create_ready, data_block, file_entry, find_run, grow_directory,
    lay_chain, pick_free, put_entries, reserve, write_cluster, Store,
};
use crate::fat12::frames::{
    cluster_in_data, clusters_disjoint, in_cluster, in_clusters, layout, outside_fat, picked,
    run_in_dir, sectors_of_members, set_link_mounted, write_cluster_frame,
};
use crate::fat12::laid::{clusters_suffice, layable, sector_apart};
use crate::fat12::laws::{
    chain_in_use, dir_clusters, dir_in_use, disjoint, lay_keeps_dir, reads_back, splice_slot,
};
use crate::fat12::names::{
    alias, chunk_count, fits_short, lfn_entries, name_entries, short_field, valid_long,
};
use crate::fat12::search::{
    dir_lbas_distinct, found_slot, found_slot_is_found, same_slot, scan, scan_agree, scan_find,
    sectors_of_with_fat,
};
use crate::fat12::spelling::{
    alias_reads, as_chars, entries_add_up, file_entry_reads, free_alias_is_free, lfn_after_entries,
    long_name_round_trip, plain_short, short_name_round_trip,
};
use crate::fat12::table::{
    chain, in_table, link, link_error, run, run_is_chain, set_entry, set_entry_frame,
    set_entry_links, Link,
};
use crate::fat12::volume::{
    chain_ready, cluster_sectors, dir_lbas, dir_ready, dir_slot, file_contents, file_ready,
    find_entry, find_from, sectors_of, short_names, DirLocation, Find, Volume,
};
use crate::fat_common::{
    entry_of, goes_by, lfn_after, no_lfn, short_name_of, slot, slot_kind, LfnView,
};
use crate::rtc::RtcTime;
use crate::text::{same_name, same_name_is_equivalence};
use vstd::prelude::*;
use vstd::utf8::encode_utf8;

verus! {

/// Entries go to their slots, and all other slots and sectors stay.
pub proof fn put_entries_effect(
    d: DiskView,
    lba: int,
    first: int,
    entries: Seq<Seq<u8>>,
    m: int,
)
    requires
        0 <= first,
        0 <= m <= entries.len(),
        first + entries.len() <= 16,
        d.has(lba),
        d.at(lba).len() == 512,
        forall|i: int| 0 <= i < entries.len() ==> (#[trigger] entries[i]).len() == 32,
    ensures
        ({
            let after = put_entries(d, lba, first, entries, m);
            &&& after.at(lba).len() == 512
            &&& forall|l: int| #![trigger after.has(l)] after.has(l) == d.has(l)
            &&& forall|l: int| #![trigger after.at(l)] l != lba ==> after.at(l) == d.at(l)
            &&& forall|i: int|
                0 <= i < 16 ==> #[trigger] slot(after.at(lba), i) == if first + m <= i < first
                    + entries.len() {
                    entries[i - first]
                } else {
                    slot(d.at(lba), i)
                }
        }),
    decreases entries.len() - m,
{
    if m < entries.len() {
        let i0 = first + m;
        let b = entries[m];
        splice_slot(d.at(lba), i0, 0, b);
        let next = d.put(lba, splice(d.at(lba), 32 * i0, b));
        put_entries_effect(next, lba, first, entries, m + 1);
        assert(splice(slot(d.at(lba), i0), 0, b) =~= b);
        let after = put_entries(d, lba, first, entries, m);
        assert forall|i: int| 0 <= i < 16 implies #[trigger] slot(after.at(lba), i) == if first + m
            <= i < first + entries.len() {
            entries[i - first]
        } else {
            slot(d.at(lba), i)
        } by {
            assert(slot(next.at(lba), i) == if i == i0 {
                b
            } else {
                slot(d.at(lba), i)
            });
        }
    }
}

/// A search that finds nothing gets through all slots in front of the end marker.
pub proof fn absent_scan(
    d: DiskView,
    lbas: Seq<int>,
    k: int,
    p: int,
    lfn: LfnView,
    target: Seq<u8>,
)
    requires
        0 <= k,
        p <= 16 * lbas.len(),
        find_from(d, lbas, k, lfn, target) is Absent,
        open_before(d, lbas, p),
    ensures
        scan(d, lbas, k, p, lfn, target) is Some,
    decreases p - k,
{
    if k < p {
        assert(!(slot_kind(dir_slot(d, lbas, k)) is Terminator));
        absent_scan(d, lbas, k + 1, p, lfn_after(lfn, dir_slot(d, lbas, k)), target);
    }
}

/// None of the first `p` slots ends the directory.
pub open spec fn open_before(d: DiskView, lbas: Seq<int>, p: int) -> bool {
    forall|k: int| 0 <= k < p ==> !(slot_kind(#[trigger] dir_slot(d, lbas, k)) is Terminator)
}

/// A search in the first sectors does not depend on the sectors behind them.
pub proof fn scan_extend(
    d: DiskView,
    d2: DiskView,
    a: Seq<int>,
    b: Seq<int>,
    k: int,
    k1: int,
    lfn: LfnView,
    target: Seq<u8>,
)
    requires
        0 <= k,
        k1 <= 16 * a.len(),
        forall|i: int|
            0 <= i < a.len() ==> d.has(#[trigger] a[i]) == d2.has(a[i]) && d.at(a[i]) == d2.at(a[i]),
    ensures
        scan(d, a, k, k1, lfn, target) == scan(d2, a + b, k, k1, lfn, target),
    decreases k1 - k,
{
    if k < k1 {
        assert((a + b)[k / 16] == a[k / 16]);
        scan_extend(d, d2, a, b, k + 1, k1, lfn_after(lfn, dir_slot(d, a, k)), target);
    }
}

/// What a search for a new name runs into: the long-name entries, if there are any,
/// and the short entry, by one of which it is found.
pub open spec fn spells(long: Seq<Seq<u8>>, e: Seq<u8>, target: Seq<u8>) -> bool {
    &&& e.len() == 32
    &&& slot_kind(e) is Short
    &&& if long.len() == 0 {
        same_name(encode_utf8(short_name_of(e)), target)
    } else {
        valid_long(target) && long == lfn_entries(target, e.subrange(0, 11))
    }
}

/// The pending long name behind the first `m` long-name entries.
pub open spec fn lfn_behind(lfn: LfnView, long: Seq<Seq<u8>>, m: int) -> LfnView
    decreases m,
{
    if m <= 0 {
        lfn
    } else {
        lfn_after(lfn_behind(lfn, long, m - 1), long[m - 1])
    }
}

proof fn lfn_behind_is(lfn: LfnView, b: Seq<u8>, short: Seq<u8>, m: int)
    ensures
        lfn_behind(lfn, lfn_entries(b, short), m) == lfn_after_entries(lfn, b, short, m),
    decreases m,
{
    if m > 0 {
        lfn_behind_is(lfn, b, short, m - 1);
    }
}

/// A new entry goes by the name it was spelled from.
pub proof fn spelled_goes_by(lfn: LfnView, long: Seq<Seq<u8>>, e: Seq<u8>, target: Seq<u8>)
    requires
        spells(long, e, target),
    ensures
        goes_by(e, lfn_behind(lfn, long, long.len() as int), target),
        forall|m: int|
            0 <= m < long.len() ==> slot_kind(#[trigger] long[m]) is LongName && long[m].len() == 32,
        long.len() > 0 ==> entry_of(e, lfn_behind(lfn, long, long.len() as int)).name == as_chars(
            target,
        ),
{
    if long.len() > 0 {
        let short = e.subrange(0, 11);
        let n = chunk_count(target.len() as int);
        assert forall|m: int| 0 <= m < long.len() implies slot_kind(#[trigger] long[m]) is LongName
            && long[m].len() == 32 by {
            entries_add_up(lfn, target, short, m);
        }
        lfn_behind_is(lfn, target, short, n);
        long_name_round_trip(lfn, target, short);
        same_name_is_equivalence(target, target, target);
    }
}

/// The slots from `p` on hold `entries`.
pub open spec fn slots_hold(d: DiskView, lbas: Seq<int>, p: int, entries: Seq<Seq<u8>>) -> bool {
    forall|k: int|
        p <= k < p + entries.len() ==> d.has(lbas[k / 16]) && #[trigger] dir_slot(d, lbas, k)
            == entries[k - p]
}

/// Slots `p` to `p + m` hold the first `m` long-name entries: the search gets through them.
pub proof fn scan_long(
    d: DiskView,
    lbas: Seq<int>,
    p: int,
    long: Seq<Seq<u8>>,
    m: int,
    lfn: LfnView,
    target: Seq<u8>,
)
    requires
        0 <= p,
        0 <= m <= long.len(),
        p + long.len() <= 16 * lbas.len(),
        forall|i: int| 0 <= i < long.len() ==> slot_kind(#[trigger] long[i]) is LongName,
        slots_hold(d, lbas, p, long),
    ensures
        scan(d, lbas, p, p + m, lfn, target) == Some(lfn_behind(lfn, long, m)),
    decreases m,
{
    if m > 0 {
        scan_long(d, lbas, p, long, m - 1, lfn, target);
        assert(dir_slot(d, lbas, p + m - 1) == long[m - 1]);
        scan_step(d, lbas, p, p + m - 1, lfn, target);
    }
}

/// A search that gets through some slots and through the next one gets through all of them.
proof fn scan_step(d: DiskView, lbas: Seq<int>, k: int, k1: int, lfn: LfnView, target: Seq<u8>)
    requires
        0 <= k <= k1 < 16 * lbas.len(),
        scan(d, lbas, k, k1, lfn, target) is Some,
        d.has(lbas[k1 / 16]),
        slot_kind(dir_slot(d, lbas, k1)) is LongName,
    ensures
        scan(d, lbas, k, k1 + 1, lfn, target) == Some(
            lfn_after(scan(d, lbas, k, k1, lfn, target)->0, dir_slot(d, lbas, k1)),
        ),
    decreases k1 - k,
{
    if k < k1 {
        scan_step(d, lbas, k + 1, k1, lfn_after(lfn, dir_slot(d, lbas, k)), target);
    } else {
        assert(scan(d, lbas, k1 + 1, k1 + 1, lfn_after(lfn, dir_slot(d, lbas, k1)), target) is Some);
    }
}

/// A search that gets through two stretches of slots gets through both.
pub proof fn scan_join(
    d: DiskView,
    lbas: Seq<int>,
    k: int,
    k1: int,
    k2: int,
    lfn: LfnView,
    target: Seq<u8>,
)
    requires
        0 <= k <= k1 <= k2,
        scan(d, lbas, k, k1, lfn, target) is Some,
    ensures
        scan(d, lbas, k, k2, lfn, target) == scan(
            d,
            lbas,
            k1,
            k2,
            scan(d, lbas, k, k1, lfn, target)->0,
            target,
        ),
    decreases k1 - k,
{
    if k < k1 {
        scan_join(d, lbas, k + 1, k1, k2, lfn_after(lfn, dir_slot(d, lbas, k)), target);
    }
}

/// Entries that spell a name and were put behind slots that a search for the name
/// gets through are found.
pub proof fn put_then_found(
    d: DiskView,
    lbas: Seq<int>,
    j: int,
    first: int,
    long: Seq<Seq<u8>>,
    e: Seq<u8>,
    target: Seq<u8>,
)
    requires
        lbas.no_duplicates(),
        0 <= j < lbas.len(),
        0 <= first,
        first + long.len() + 1 <= 16,
        d.has(lbas[j]),
        d.at(lbas[j]).len() == 512,
        spells(long, e, target),
        scan(d, lbas, 0, 16 * j + first, no_lfn(), target) is Some,
    ensures
        ({
            let after = put_entries(d, lbas[j], first, long.push(e), 0);
            find_from(after, lbas, 0, no_lfn(), target) matches Find::At(lba, offset, got) && lba
                == lbas[j] && offset == 32 * (first + long.len()) && exists|lfn: LfnView|
                got == #[trigger] entry_of(e, lfn) && (long.len() > 0 ==> got.name == as_chars(
                    target,
                ))
        }),
{
    let all = long.push(e);
    let lba = lbas[j];
    let p = 16 * j + first;
    let after = put_entries(d, lba, first, all, 0);
    let lfn0 = scan(d, lbas, 0, p, no_lfn(), target)->0;
    spelled_goes_by(lfn0, long, e, target);
    assert forall|i: int| 0 <= i < all.len() implies (#[trigger] all[i]).len() == 32 by {
        if i < long.len() {
            assert(long[i].len() == 32);
        }
    }
    put_entries_effect(d, lba, first, all, 0);
    assert forall|m: int| 0 <= m < p implies #[trigger] same_slot(d, after, lbas, m) by {
        if m / 16 == j {
            assert(slot(after.at(lba), m % 16) == slot(d.at(lba), m % 16));
        } else {
            assert(lbas[m / 16] != lba);
        }
    }
    scan_agree(d, after, lbas, 0, p, no_lfn(), target);
    assert forall|k: int| p <= k < p + all.len() implies after.has(lbas[k / 16])
        && #[trigger] dir_slot(after, lbas, k) == all[k - p] by {
        assert(k / 16 == j);
        assert(k % 16 == first + (k - p));
        assert(slot(after.at(lba), k % 16) == all[k - p]);
    }
    let n = long.len() as int;
    assert forall|k: int| p <= k < p + n implies after.has(lbas[k / 16]) && #[trigger] dir_slot(
        after,
        lbas,
        k,
    ) == long[k - p] by {
        assert(dir_slot(after, lbas, k) == all[k - p]);
    }
    assert(slots_hold(after, lbas, p, long));
    scan_long(after, lbas, p, long, n, lfn0, target);
    scan_join(after, lbas, 0, p, p + n, no_lfn(), target);
    let lfn1 = lfn_behind(lfn0, long, n);
    assert(dir_slot(after, lbas, p + n) == all[n]);
    assert((p + n) / 16 == j && (p + n) % 16 == first + n);
    assert(found_slot(after, lbas, 0, no_lfn(), target, p + n, lfn1));
    found_slot_is_found(after, lbas, 0, no_lfn(), target, p + n, lfn1);
}

/// The store after a directory with the last cluster `tail` got the cluster `new`.
pub open spec fn appended(st: Store, tail: int, new: int) -> Store {
    write_cluster(st, new, 0, Seq::empty(), 0).set_link(tail, new).set_link(new, 0xFFF)
}

/// Appending a cluster sets two links, and no others.
pub proof fn append_effect(st: Store, tail: int, new: int)
    requires
        st.mounted(),
        2 <= new < 0xFF8,
        in_table(st.v.fat, new),
        in_table(st.v.fat, tail),
        tail != new,
    ensures
        ({
            let after = appended(st, tail, new);
            &&& after.mounted()
            &&& after.v == st.v.with_fat(after.v.fat)
            &&& after.v.fat.len() == st.v.fat.len()
            &&& link(after.v.fat, tail) == Link::Next(new)
            &&& link(after.v.fat, new) == Link::End
            &&& forall|x: int|
                x != tail && x != new ==> #[trigger] link(after.v.fat, x) == link(st.v.fat, x)
        }),
{
    let a = write_cluster(st, new, 0, Seq::empty(), 0);
    write_cluster_frame(st, new, 0, Seq::empty(), 0);
    let b = a.set_link(tail, new);
    set_link_mounted(a, tail, new);
    let after = b.set_link(new, 0xFFF);
    set_link_mounted(b, new, 0xFFF);
    append_links(a.v.fat, tail, new);
    assert(after.v.fat == set_entry(set_entry(st.v.fat, tail, new), new, 0xFFF));
}

proof fn append_links(fat: Seq<u8>, tail: int, new: int)
    requires
        2 <= new < 0xFF8,
        in_table(fat, new),
        in_table(fat, tail),
        tail != new,
    ensures
        ({
            let after = set_entry(set_entry(fat, tail, new), new, 0xFFF);
            &&& link(after, tail) == Link::Next(new)
            &&& link(after, new) == Link::End
            &&& forall|x: int|
                x != tail && x != new ==> #[trigger] link(after, x) == link(fat, x)
        }),
{
    set_entry_frame(fat, tail, new);
    set_entry_links(fat, tail, new);
    let mid = set_entry(fat, tail, new);
    set_entry_links(mid, new, 0xFFF);
    let after = set_entry(mid, new, 0xFFF);
    assert(link(after, tail) == link(mid, tail));
    assert forall|x: int| x != tail && x != new implies #[trigger] link(after, x) == link(fat, x) by {
        assert(link(after, x) == link(mid, x));
    }
}

/// Appending a cluster fills that cluster, and leaves the other sectors alone.
pub proof fn append_sector(st: Store, tail: int, new: int, l: int)
    requires
        st.mounted(),
        2 <= new,
        in_table(st.v.fat, new),
        in_table(st.v.fat, tail),
        outside_fat(st.v, l),
    ensures
        ({
            let after = appended(st, tail, new);
            if in_cluster(st.v, new, l) {
                after.d.has(l)
            } else {
                after.d.at(l) == st.d.at(l) && after.d.has(l) == st.d.has(l)
            }
        }),
{
    let a = write_cluster(st, new, 0, Seq::empty(), 0);
    write_cluster_frame(st, new, 0, Seq::empty(), 0);
    assert(a.d.at(l) == a.d.at(l) && (a.d.has(l) || !a.d.has(l)));
    let b = a.set_link(tail, new);
    set_link_mounted(a, tail, new);
    assert(outside_fat(a.v, l));
    assert(b.d.at(l) == a.d.at(l) && b.d.has(l) == a.d.has(l));
    let after = b.set_link(new, 0xFFF);
    set_link_mounted(b, new, 0xFFF);
    assert(outside_fat(b.v, l));
    assert(after.d.at(l) == b.d.at(l) && after.d.has(l) == b.d.has(l));
}

/// A directory that grew is its old clusters and the new one.
pub proof fn grow_effect(st: Store, c: int)
    requires
        st.mounted(),
        st.v.clusters_fit(),
        chain_ready(st.v, c),
        link_error(link(st.v.fat, chain(st.v.fat, c).last())) is None,
        pick_free(st.v, 1) is Ok,
        (pick_free(st.v, 1)->Ok_0)[0] < 0xFF8,
    ensures
        ({
            let st1 = grow_directory(st, c).0;
            let cs = chain(st.v.fat, c);
            let new = (pick_free(st.v, 1)->Ok_0)[0];
            &&& grow_directory(st, c).1 == Ok::<int, FsError>(st.v.cluster_lba(new))
            &&& st1 == appended(st, cs.last(), new)
            &&& st1.mounted()
            &&& st1.v == st.v.with_fat(st1.v.fat)
            &&& st1.v.fat.len() == st.v.fat.len()
            &&& chain(st1.v.fat, c) == cs.push(new)
            &&& chain_ready(st1.v, c)
            &&& link_error(link(st1.v.fat, chain(st1.v.fat, c).last())) is None
        }),
{
    let cs = chain(st.v.fat, c);
    let tail = cs.last();
    picked(st.v, 1);
    let new = (pick_free(st.v, 1)->Ok_0)[0];
    assert(link(st.v.fat, new) is Free && in_table(st.v.fat, new) && 2 <= new);
    assert(run(st.v.fat, c, cs));
    chain_in_use(st.v.fat, c);
    assert(in_table(st.v.fat, cs[cs.len() - 1]) && !(link(st.v.fat, cs[cs.len() - 1]) is Free));
    append_effect(st, tail, new);
    let st1 = appended(st, tail, new);
    let grown = cs.push(new);
    crate::fat12::table::chain_distinct(st.v.fat, c);
    assert forall|i: int| 0 <= i < grown.len() - 1 implies #[trigger] link(st1.v.fat, grown[i])
        == Link::Next(grown[i + 1]) by {
        assert(grown[i] == cs[i]);
        if i < cs.len() - 1 {
            assert(!(link(st.v.fat, cs[i]) is Free));
            assert(cs[i] != cs[cs.len() - 1]);
            assert(link(st1.v.fat, cs[i]) == link(st.v.fat, cs[i]));
            assert(link(st.v.fat, cs[i]) == Link::Next(cs[i + 1]));
        }
    }
    assert(run(st1.v.fat, c, grown));
    run_is_chain(st1.v.fat, c, grown);
    assert forall|i: int| 0 <= i < grown.len() implies st1.v.addressable(#[trigger] grown[i]) by {
        if i < cs.len() {
            assert(st.v.addressable(chain(st.v.fat, c)[i]));
        } else {
            assert(st.v.addressable(new));
        }
    }
}

/// The sectors of a directory that grew: the old ones, which did not change, and
/// those of the new cluster.
pub proof fn grow_sectors(st: Store, c: int)
    requires
        st.mounted(),
        st.v.clusters_fit(),
        chain_ready(st.v, c),
        link_error(link(st.v.fat, chain(st.v.fat, c).last())) is None,
        pick_free(st.v, 1) is Ok,
        (pick_free(st.v, 1)->Ok_0)[0] < 0xFF8,
    ensures
        ({
            let st1 = grow_directory(st, c).0;
            let cs = chain(st.v.fat, c);
            let new = (pick_free(st.v, 1)->Ok_0)[0];
            let lbas = sectors_of(st.v, cs);
            &&& sectors_of(st1.v, cs.push(new)) == lbas + cluster_sectors(st.v, new)
            &&& st1.d.has(st.v.cluster_lba(new))
            &&& st1.d.at(st.v.cluster_lba(new)).len() == 512
            &&& forall|i: int|
                0 <= i < lbas.len() ==> st.d.has(#[trigger] lbas[i]) == st1.d.has(lbas[i])
                    && st.d.at(lbas[i]) == st1.d.at(lbas[i])
        }),
{
    grow_effect(st, c);
    let st1 = grow_directory(st, c).0;
    let cs = chain(st.v.fat, c);
    picked(st.v, 1);
    let new = (pick_free(st.v, 1)->Ok_0)[0];
    assert(link(st.v.fat, new) is Free && in_table(st.v.fat, new) && 2 <= new);
    chain_in_use(st.v.fat, c);
    assert(in_table(st.v.fat, cs[cs.len() - 1]) && !(link(st.v.fat, cs[cs.len() - 1]) is Free));
    let lbas = sectors_of(st.v, cs);
    assert(cs.push(new).drop_last() =~= cs);
    sectors_of_with_fat(st.v, st1.v, cs);
    assert(st.v.cluster_lba(new) == st1.v.cluster_lba(new));
    assert(cluster_sectors(st.v, new) =~= cluster_sectors(st1.v, new));
    layout(st.v);
    cluster_in_data(st.v, new);
    let lba = st.v.cluster_lba(new);
    assert(outside_fat(st.v, lba) && in_cluster(st.v, new, lba));
    append_sector(st, cs.last(), new, lba);
    assert(st1.d.has(lba));
    assert forall|i: int| 0 <= i < lbas.len() implies st.d.has(#[trigger] lbas[i]) == st1.d.has(
        lbas[i],
    ) && st.d.at(lbas[i]) == st1.d.at(lbas[i]) by {
        old_sector_apart(st.v, c, new, i);
        append_sector(st, cs.last(), new, lbas[i]);
    }
}

/// A directory grows by a cluster of zeros.
pub proof fn grown_is_zero(st: Store, c: int, s: int)
    requires
        st.mounted(),
        st.v.clusters_fit(),
        chain_ready(st.v, c),
        link_error(link(st.v.fat, chain(st.v.fat, c).last())) is None,
        pick_free(st.v, 1) is Ok,
        (pick_free(st.v, 1)->Ok_0)[0] < 0xFF8,
        0 <= s < st.v.sectors_per_cluster,
    ensures
        ({
            let st1 = grow_directory(st, c).0;
            let l = st.v.cluster_lba((pick_free(st.v, 1)->Ok_0)[0]) + s;
            st1.d.has(l) && st1.d.at(l) == data_block(Seq::empty(), s)
        }),
{
    grow_effect(st, c);
    let cs = chain(st.v.fat, c);
    let tail = cs.last();
    picked(st.v, 1);
    let new = (pick_free(st.v, 1)->Ok_0)[0];
    assert(link(st.v.fat, new) is Free && in_table(st.v.fat, new) && 2 <= new);
    chain_in_use(st.v.fat, c);
    assert(in_table(st.v.fat, cs[cs.len() - 1]) && !(link(st.v.fat, cs[cs.len() - 1]) is Free));
    layout(st.v);
    cluster_in_data(st.v, new);
    let l = st.v.cluster_lba(new) + s;
    let a = write_cluster(st, new, 0, Seq::empty(), 0);
    write_cluster_frame(st, new, 0, Seq::empty(), 0);
    let b = a.set_link(tail, new);
    set_link_mounted(a, tail, new);
    let st1 = b.set_link(new, 0xFFF);
    set_link_mounted(b, new, 0xFFF);
    assert(st1 == grow_directory(st, c).0);
    assert(outside_fat(st.v, l));
    assert(a.d.has(l));
    assert(b.d.has(l) == a.d.has(l) && st1.d.has(l) == b.d.has(l));
    assert(b.d.at(l) == a.d.at(l) && st1.d.at(l) == b.d.at(l));
}

/// A sector of a chain that ends well is in no free cluster.
pub proof fn old_sector_apart(v: Volume, c: int, new: int, i: int)
    requires
        v.wf(),
        v.num_fats >= 1,
        chain_ready(v, c),
        link_error(link(v.fat, chain(v.fat, c).last())) is None,
        link(v.fat, new) is Free,
        0 <= i < sectors_of(v, chain(v.fat, c)).len(),
    ensures
        !in_cluster(v, new, sectors_of(v, chain(v.fat, c))[i]),
        outside_fat(v, sectors_of(v, chain(v.fat, c))[i]),
{
    let cs = chain(v.fat, c);
    let l = sectors_of(v, cs)[i];
    chain_in_use(v.fat, c);
    sectors_of_members(v, cs);
    assert(in_clusters(v, cs, l));
    let m = choose|m: int| 0 <= m < cs.len() && #[trigger] in_cluster(v, cs[m], l);
    assert(v.addressable(cs[m]));
    assert(!(link(v.fat, cs[m]) is Free));
    layout(v);
    cluster_in_data(v, cs[m]);
    if in_cluster(v, new, l) {
        clusters_disjoint(v, cs[m], new, l - v.cluster_lba(cs[m]), l - v.cluster_lba(new));
    }
}

/// The slots that a new entry of `count` slots takes are not behind the end marker
/// of the directory, and a cluster that the directory grows by has a number that an
/// entry of 12 bits can hold.
pub open spec fn in_reach(st: Store, dir: DirLocation, count: int) -> bool {
    match dir_lbas(st.v, dir) {
        Err(_) => true,
        Ok(lbas) => match find_run(st.d, lbas, 0, count) {
            Err(_) => true,
            Ok(Some((lba, first))) => exists|j: int|
                0 <= j < lbas.len() && #[trigger] lbas[j] == lba && open_before(
                    st.d,
                    lbas,
                    16 * j + first,
                ),
            Ok(None) => open_before(st.d, lbas, 16 * lbas.len() as int) && (pick_free(st.v, 1) matches Ok(
                new,
            ) ==> new[0] < 0xFF8),
        },
    }
}

/// A directory has no entry that goes by `name`.
pub open spec fn name_absent(v: Volume, d: DiskView, dir: DirLocation, name: Seq<char>) -> bool {
    dir_lbas(v, dir) matches Ok(lbas) && find_from(d, lbas, 0, no_lfn(), encode_utf8(name)) is Absent
}

/// What is known once the slots of a new entry are taken.
pub open spec fn taken(
    st: Store,
    st1: Store,
    dir: DirLocation,
    at: (int, int),
    count: int,
    j: int,
    target: Seq<u8>,
) -> bool {
    &&& st1.mounted()
    &&& st1.v == st.v.with_fat(st1.v.fat)
    &&& st1.v.fat.len() == st.v.fat.len()
    &&& dir_ready(st1.v, dir)
    &&& dir_lbas(st1.v, dir) matches Ok(lbas) && {
        &&& 0 <= j < lbas.len()
        &&& lbas[j] == at.0
        &&& scan(st1.d, lbas, 0, 16 * j + at.1, no_lfn(), target) is Some
        &&& find_from(st1.d, lbas, 0, no_lfn(), target) is Absent
    }
    &&& st1.d.has(at.0)
    &&& 0 <= at.1
    &&& at.1 + count <= 16
}

/// Slots in reach are behind slots that a search for an absent name gets through.
pub proof fn reserve_takes(st: Store, dir: DirLocation, count: int, name: Seq<char>) -> (j: int)
    requires
        st.mounted(),
        st.v.clusters_fit(),
        dir_ready(st.v, dir),
        1 <= count <= 16,
        reserve(st, dir, count).1 is Ok,
        in_reach(st, dir, count),
        name_absent(st.v, st.d, dir, name),
    ensures
        taken(
            st,
            reserve(st, dir, count).0,
            dir,
            reserve(st, dir, count).1->Ok_0,
            count,
            j,
            encode_utf8(name),
        ),
{
    reveal(reserve);
    let target = encode_utf8(name);
    let lbas = dir_lbas(st.v, dir)->Ok_0;
    run_in_dir(st.d, lbas, 0, count);
    match find_run(st.d, lbas, 0, count) {
        Ok(Some((lba, first))) => {
            let j = choose|j: int|
                0 <= j < lbas.len() && #[trigger] lbas[j] == lba && open_before(
                    st.d,
                    lbas,
                    16 * j + first,
                );
            absent_scan(st.d, lbas, 0, 16 * j + first, no_lfn(), target);
            j
        },
        _ => {
            let c = dir->0 as int;
            grow_effect(st, c);
            grow_sectors(st, c);
            let st1 = grow_directory(st, c).0;
            picked(st.v, 1);
            let new = (pick_free(st.v, 1)->Ok_0)[0];
            let n = lbas.len() as int;
            absent_scan(st.d, lbas, 0, 16 * n, no_lfn(), target);
            let more = cluster_sectors(st.v, new);
            scan_extend(st.d, st1.d, lbas, more, 0, 16 * n, no_lfn(), target);
            assert((lbas + more)[n] == st.v.cluster_lba(new));
            scan_find(st1.d, lbas + more, 0, 16 * n, no_lfn(), target);
            grown_is_zero(st, c, 0);
            let zeros = st1.d.at(st.v.cluster_lba(new));
            assert(slot(zeros, 0)[0] == zeros[0]);
            n
        },
    }
}

/// The short name that is made up for a name can start a slot.
pub proof fn made_up_name(v: Volume, d: DiskView, dir: DirLocation, name: Seq<char>)
    requires
        name_entries(v, d, dir, name) is Ok,
        fits_short(encode_utf8(name)) ==> plain_short(encode_utf8(name)),
    ensures
        ({
            let (short, long) = name_entries(v, d, dir, name)->Ok_0;
            &&& short.len() == 11
            &&& short[0] != 0
            &&& short[0] != 0xE5
            &&& long.len() <= 15
            &&& long.len() > 0 <==> !fits_short(encode_utf8(name))
            &&& long.len() > 0 ==> valid_long(encode_utf8(name)) && long == lfn_entries(
                encode_utf8(name),
                short,
            )
            &&& long.len() == 0 ==> short == short_field(encode_utf8(name))
        }),
{
    let b = encode_utf8(name);
    let (short, long) = name_entries(v, d, dir, name)->Ok_0;
    if fits_short(b) {
        let raw = short_field(b) + Seq::new(21, |i: int| 0u8);
        assert(raw.subrange(0, 11) =~= short_field(b));
        short_name_round_trip(b, raw);
    } else {
        let names = short_names(v, d, dir)->Ok_0;
        free_alias_is_free(b, names, 1);
        let m = choose|m: int| 1 <= m <= 99 && short == #[trigger] alias(b, m);
        alias_reads(b, m);
    }
}

/// What a name and a volume must be like for a new file to be read back under that
/// name: the name is not there yet and reads as it is spelled, the slots of the
/// entry are in reach, and the clusters of the contents have numbers that an entry
/// of 12 bits can hold.
pub open spec fn creatable(st: Store, dir: DirLocation, name: Seq<char>, len: int) -> bool {
    &&& name_absent(st.v, st.d, dir, name)
    &&& fits_short(encode_utf8(name)) ==> plain_short(encode_utf8(name))
    &&& name_entries(st.v, st.d, dir, name) matches Ok((short, long)) ==> {
        let count = (long.len() + 1) as int;
        let st1 = reserve(st, dir, count).0;
        &&& in_reach(st, dir, count)
        &&& pick_free(st1.v, clusters_needed(len, st1.v.sectors_per_cluster)) matches Ok(cs)
            ==> forall|i: int| 0 < i < cs.len() ==> #[trigger] cs[i] < 0xFF8
    }
}

/// Free clusters are none of a directory's.
pub proof fn picked_apart(v: Volume, dir: DirLocation, count: int)
    requires
        v.wf(),
        v.clusters_fit(),
        count >= 0,
        dir_ready(v, dir),
        dir_lbas(v, dir) is Ok,
        pick_free(v, count) is Ok,
    ensures
        layable(v, pick_free(v, count)->Ok_0),
        disjoint(dir_clusters(v, dir), pick_free(v, count)->Ok_0),
        forall|i: int|
            0 <= i < count ==> v.addressable(#[trigger] (pick_free(v, count)->Ok_0)[i]),
        (pick_free(v, count)->Ok_0).len() == count,
{
    picked(v, count);
    dir_in_use(v, dir);
    let cs = pick_free(v, count)->Ok_0;
    let own = dir_clusters(v, dir);
    assert forall|i: int, j: int| 0 <= i < own.len() && 0 <= j < cs.len() implies #[trigger] own[i]
        != #[trigger] cs[j] by {
        assert(!(link(v.fat, own[i]) is Free));
        assert(link(v.fat, cs[j]) is Free);
    }
    assert forall|i: int, j: int| 0 <= i < cs.len() && 0 <= j < cs.len() && i != j implies cs[i]
        != cs[j] by {
        if i < j {
            assert(cs[i] < cs[j]);
        } else {
            assert(cs[j] < cs[i]);
        }
    }
}

/// Where the entry of a new file is, and where its contents are.
pub proof fn created_entry(
    st: Store,
    dir: DirLocation,
    name: Seq<char>,
    data: Seq<u8>,
    time: RtcTime,
) -> (j: int)
    requires
        create_ready(st, dir, name),
        create_file(st, dir, name, data, time).1 is Ok,
        data.len() <= u32::MAX,
        creatable(st, dir, name, data.len() as int),
    ensures
        ({
            let after = create_file(st, dir, name, data, time).0;
            let (short, long) = name_entries(st.v, st.d, dir, name)->Ok_0;
            let count = (long.len() + 1) as int;
            let (st1, at) = reserve(st, dir, count);
            let (lba, first) = at->Ok_0;
            let need = clusters_needed(data.len() as int, st1.v.sectors_per_cluster);
            let cs = pick_free(st1.v, need)->Ok_0;
            let st2 = lay_chain(st1, cs, 0, data);
            let e = file_entry(short, cs[0], data.len(), time);
            &&& count <= 16
            &&& taken(st, st1, dir, (lba, first), count, j, encode_utf8(name))
            &&& cs.len() == need >= 1
            &&& layable(st1.v, cs)
            &&& disjoint(dir_clusters(st1.v, dir), cs)
            &&& forall|i: int| 0 <= i < cs.len() ==> link(st1.v.fat, #[trigger] cs[i]) is Free
            &&& cs[0] <= 0x5555_5555
            &&& after.v == st2.v
            &&& after.d == put_entries(st2.d, lba, first, long.push(e), 0)
            &&& entries_fit(long, e)
            &&& slot_kind(e) is Short
            &&& dir_lbas(after.v, dir) == dir_lbas(st1.v, dir)
            &&& dir_clusters(after.v, dir) == dir_clusters(st1.v, dir)
            &&& dir_ready(after.v, dir)
            &&& forall|i: int|
                0 <= i < (dir_lbas(st1.v, dir)->Ok_0).len() ==> st2.d.at(
                    #[trigger] (dir_lbas(st1.v, dir)->Ok_0)[i],
                ) == st1.d.at((dir_lbas(st1.v, dir)->Ok_0)[i]) && st2.d.has(
                    (dir_lbas(st1.v, dir)->Ok_0)[i],
                ) == st1.d.has((dir_lbas(st1.v, dir)->Ok_0)[i])
            &&& file_contents(after.v, after.d, dir, name) == Ok::<Seq<u8>, FsError>(data)
            &&& file_ready(after.v, after.d, dir, name)
            &&& find_entry(after.v, after.d, dir, name) matches Ok((l, o, got)) && l == lba && o
                == 32 * (first + long.len()) && !got.is_dir && got.size == data.len()
                && got.start_cluster == cs[0] && (got.fat_time, got.fat_date)
                == crate::fat12::names::fat_datetime(time)
        }),
{
    let target = encode_utf8(name);
    let (short, long) = name_entries(st.v, st.d, dir, name)->Ok_0;
    made_up_name(st.v, st.d, dir, name);
    let count = (long.len() + 1) as int;
    let (st1, at) = reserve(st, dir, count);
    let j = reserve_takes(st, dir, count, name);
    let (lba, first) = at->Ok_0;
    let n = st1.v.sectors_per_cluster;
    let need = clusters_needed(data.len() as int, n);
    clusters_suffice(data.len() as int, n);
    let cs = pick_free(st1.v, need)->Ok_0;
    picked_apart(st1.v, dir, need);
    picked(st1.v, need);
    let st2 = lay_chain(st1, cs, 0, data);
    lay_keeps_dir(st1, st1, dir, cs, data);
    let lbas = dir_lbas(st1.v, dir)->Ok_0;
    dir_lbas_distinct(st1.v, dir);
    let e = file_entry(short, cs[0], data.len(), time);
    file_entry_reads(short, cs[0], data.len(), time);
    assert(spells(long, e, target)) by {
        if long.len() == 0 {
            short_name_round_trip(target, e);
        }
    }
    let p = 16 * j + first;
    assert forall|m: int| 0 <= m < p implies #[trigger] same_slot(st1.d, st2.d, lbas, m) by {
        assert(st2.d.at(lbas[m / 16]) == st1.d.at(lbas[m / 16]));
    }
    scan_agree(st1.d, st2.d, lbas, 0, p, no_lfn(), target);
    assert(st2.d.at(lbas[j]) == st1.d.at(lbas[j]));
    assert(st1.d.at(lba).len() == 512);
    put_then_found(st2.d, lbas, j, first, long, e, target);
    let after = create_file(st, dir, name, data, time).0;
    assert(after.d == put_entries(st2.d, lba, first, long.push(e), 0));
    assert(after.v == st2.v);
    let lfn = choose|lfn: LfnView|
        find_from(after.d, lbas, 0, no_lfn(), target)->At_2 == #[trigger] entry_of(e, lfn);
    let got = entry_of(e, lfn);
    assert(!got.is_dir && got.size == data.len() && got.start_cluster == cs[0]);
    assert forall|i: int| 0 <= i < long.len() implies slot_kind(#[trigger] long[i]) is LongName
        && long[i].len() == 32 by {
        entries_add_up(no_lfn(), target, short, i);
    }
    if data.len() > 0 {
        assert(sector_apart(st1.v, cs, 0, lbas[j]));
        let all = long.push(e);
        assert forall|i: int| 0 <= i < all.len() implies (#[trigger] all[i]).len() == 32 by {
            if i < long.len() {
                assert(long[i].len() == 32);
            }
        }
        put_entries_effect(st2.d, lba, first, all, 0);
        assert forall|l: int| in_clusters(st1.v, cs, l) implies #[trigger] after.d.at(l)
            == st2.d.at(l) && (st2.d.has(l) ==> after.d.has(l)) by {
            let m = choose|m: int| 0 <= m < cs.len() && #[trigger] in_cluster(st1.v, cs[m], l);
            assert(!in_cluster(st1.v, cs[m], lba));
            assert(l != lba);
            assert(after.d.has(l) == st2.d.has(l));
        }
        reads_back(st1, cs, data, after.v, after.d);
    } else {
        assert(data =~= Seq::<u8>::empty());
    }
    j
}

/// A file that was created reads as what it was created with, also under a long
/// name and in a directory that had to grow for it.
pub proof fn create_then_read(
    st: Store,
    dir: DirLocation,
    name: Seq<char>,
    data: Seq<u8>,
    time: RtcTime,
)
    requires
        create_ready(st, dir, name),
        create_file(st, dir, name, data, time).1 is Ok,
        data.len() <= u32::MAX,
        creatable(st, dir, name, data.len() as int),
    ensures
        ({
            let after = create_file(st, dir, name, data, time).0;
            &&& file_contents(after.v, after.d, dir, name) == Ok::<Seq<u8>, FsError>(data)
            &&& file_ready(after.v, after.d, dir, name)
            &&& find_entry(after.v, after.d, dir, name) matches Ok((_, _, e)) && !e.is_dir
                && e.size == data.len() && (e.fat_time, e.fat_date)
                == crate::fat12::names::fat_datetime(time)
        }),
{
    created_entry(st, dir, name, data, time);
}

} // verus!
