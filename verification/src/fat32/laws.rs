//! Which entries a listing has, and how a volume is laid out.

use crate::bytes::{
    bytes_stand_for_number, fields_of_four_bytes, fields_of_two_bytes, le16_bytes, le32_bytes,
};
use crate::disk::{DiskView, FsError};
use crate::fat32::{
    boot_error, boot_volume, dir_listing, entry_of, is_entry, list_begins, list_clusters,
    list_goes_on, list_prefix, list_ready, list_run, list_sectors, list_slots, Fat32Info,
    ShortEntry, Step,
};
use crate::fat_common::layout::{
    filled_up, short_name_is_read, short_slot, short_slot_is_read, text_of_bytes,
};
use crate::fat_common::{no_lfn, slot};
use vstd::prelude::*;

verus! {

/// The sectors of some clusters: all sectors of the first one, all of the next one, and so on.
pub open spec fn all_sectors(info: Fat32Info, cs: Seq<int>) -> Seq<int>
    decreases cs.len(),
{
    if cs.len() == 0 {
        Seq::empty()
    } else {
        all_sectors(info, cs.drop_last()) + Seq::new(
            info.sectors_per_cluster as nat,
            |s: int| info.lba_of(cs.last()) + s,
        )
    }
}

/// Slot `k`, counted over all these sectors, each of which has sixteen of 32 bytes.
pub open spec fn slot_at(d: DiskView, lbas: Seq<int>, k: int) -> Seq<u8> {
    d.at(lbas[k / 16]).subrange(32 * (k % 16), 32 * (k % 16) + 32)
}

/// Nothing is in use from slot `k` on.
pub open spec fn end_at(d: DiskView, lbas: Seq<int>, k: int) -> bool {
    slot_at(d, lbas, k)[0] == 0
}

/// Slot `k` is that of a file or a directory: it was not deleted, and bit 3 of its attributes,
/// which labels and parts of long names have, is not set.
pub open spec fn file_at(d: DiskView, lbas: Seq<int>, k: int) -> bool {
    let raw = slot_at(d, lbas, k);
    raw[0] != 0xE5 && raw[11] / 8 % 2 == 0
}

/// The entries in the first `k` slots, in order.
pub open spec fn files_below(d: DiskView, lbas: Seq<int>, k: int) -> Seq<ShortEntry>
    decreases k,
{
    if k <= 0 {
        Seq::empty()
    } else if file_at(d, lbas, k - 1) {
        files_below(d, lbas, k - 1).push(entry_of(slot_at(d, lbas, k - 1)))
    } else {
        files_below(d, lbas, k - 1)
    }
}

/// The first slot from `k` on that ends the directory, or how many slots there are.
spec fn end_from(d: DiskView, lbas: Seq<int>, k: int) -> int
    decreases 16 * lbas.len() - k,
{
    if k >= 16 * lbas.len() || end_at(d, lbas, k) {
        k
    } else {
        end_from(d, lbas, k + 1)
    }
}

proof fn end_from_is(d: DiskView, lbas: Seq<int>, k: int, m: int)
    requires
        0 <= k <= m <= 16 * lbas.len(),
        forall|j: int| k <= j < m ==> !#[trigger] end_at(d, lbas, j),
        m < 16 * lbas.len() ==> end_at(d, lbas, m),
    ensures
        end_from(d, lbas, k) == m,
    decreases m - k,
{
    if k < m {
        assert(!end_at(d, lbas, k));
        end_from_is(d, lbas, k + 1, m);
    }
}

proof fn attributes_bit(raw: Seq<u8>)
    ensures
        is_entry(raw) == (raw[0] != 0xE5 && raw[11] / 8 % 2 == 0),
{
    let a = raw[11];
    assert((a & 0x08 != 0) == (a / 8 % 2 == 1)) by (bit_vector);
}

spec fn least(a: int, b: int) -> int {
    if a < b {
        a
    } else {
        b
    }
}

proof fn slots_list(d: DiskView, lbas: Seq<int>, j: int, i: int)
    requires
        0 <= j < lbas.len(),
        0 <= i <= 16,
    ensures
        ({
            let m = end_from(d, lbas, 16 * j + i);
            list_slots(d.at(lbas[j]), i, files_below(d, lbas, 16 * j + i)) == (
                files_below(d, lbas, least(m, 16 * (j + 1))),
                m < 16 * (j + 1),
            )
        }),
        16 * j + i <= end_from(d, lbas, 16 * j + i),
    decreases 16 - i,
{
    let k = 16 * j + i;
    if i < 16 {
        assert(k / 16 == j && k % 16 == i);
        assert(slot(d.at(lbas[j]), i) == slot_at(d, lbas, k));
        attributes_bit(slot_at(d, lbas, k));
        if !end_at(d, lbas, k) {
            slots_list(d, lbas, j, i + 1);
            assert(k + 1 == 16 * j + (i + 1));
        }
    } else {
        end_from_grows(d, lbas, k);
    }
}

proof fn end_from_grows(d: DiskView, lbas: Seq<int>, k: int)
    ensures
        k <= end_from(d, lbas, k),
    decreases 16 * lbas.len() - k,
{
    if k < 16 * lbas.len() && !end_at(d, lbas, k) {
        end_from_grows(d, lbas, k + 1);
    }
}

proof fn end_from_skips(d: DiskView, lbas: Seq<int>, k: int, j: int)
    requires
        k <= j,
        end_from(d, lbas, k) >= j,
    ensures
        end_from(d, lbas, k) == end_from(d, lbas, j),
    decreases j - k,
{
    if k < j {
        end_from_skips(d, lbas, k + 1, j);
    }
}

proof fn cluster_lists(info: Fat32Info, d: DiskView, lbas: Seq<int>, b: int, c: int, s: int)
    requires
        0 <= b,
        0 <= s <= info.sectors_per_cluster,
        b + info.sectors_per_cluster <= lbas.len(),
        forall|j: int|
            0 <= j < info.sectors_per_cluster ==> #[trigger] lbas[b + j] == info.lba_of(c) + j,
        forall|j: int| 0 <= j < lbas.len() ==> d.has(#[trigger] lbas[j]),
    ensures
        ({
            let m = end_from(d, lbas, 16 * (b + s));
            let end = 16 * (b + info.sectors_per_cluster);
            list_sectors(info, d, c, s, files_below(d, lbas, 16 * (b + s))) == Ok::<
                (Seq<ShortEntry>, bool),
                FsError,
            >((files_below(d, lbas, least(m, end)), m < end))
        }),
    decreases info.sectors_per_cluster - s,
{
    if s < info.sectors_per_cluster {
        assert(lbas[b + s] == info.lba_of(c) + s);
        assert(d.has(lbas[b + s]));
        slots_list(d, lbas, b + s, 0);
        let m = end_from(d, lbas, 16 * (b + s));
        if m >= 16 * (b + s + 1) {
            end_from_skips(d, lbas, 16 * (b + s), 16 * (b + s + 1));
            assert(16 * (b + (s + 1)) == 16 * (b + s + 1));
            cluster_lists(info, d, lbas, b, c, s + 1);
        }
    } else {
        end_from_grows(d, lbas, 16 * (b + s));
    }
}

/// The sectors of the first clusters come first.
proof fn sectors_begin(info: Fat32Info, cs: Seq<int>, n: int)
    requires
        0 <= n <= cs.len(),
    ensures
        all_sectors(info, cs.take(n)).len() == n * info.sectors_per_cluster,
        n * info.sectors_per_cluster <= all_sectors(info, cs).len(),
        all_sectors(info, cs.take(n)) == all_sectors(info, cs).take(n * info.sectors_per_cluster),
    decreases cs.len(),
{
    let spc = info.sectors_per_cluster as int;
    if n == cs.len() {
        assert(cs.take(n) =~= cs);
        if n > 0 {
            sectors_begin(info, cs.drop_last(), n - 1);
            assert(cs.drop_last().take(n - 1) =~= cs.drop_last());
            assert(n * spc == (n - 1) * spc + spc) by (nonlinear_arith);
        } else {
            assert(0 * spc == 0);
        }
        let all = all_sectors(info, cs);
        assert(all.take(all.len() as int) =~= all);
    } else {
        let front = cs.drop_last();
        sectors_begin(info, front, n);
        assert(front.take(n) =~= cs.take(n));
        let a = all_sectors(info, front);
        let all = all_sectors(info, cs);
        assert(all.take(n * spc) =~= a.take(n * spc));
    }
}

/// Sector number `i * sectors_per_cluster + s` of some clusters is sector `s` of cluster `i`.
pub proof fn sectors_are_in_order(info: Fat32Info, cs: Seq<int>, i: int, s: int)
    requires
        0 <= i < cs.len(),
        0 <= s < info.sectors_per_cluster,
    ensures
        all_sectors(info, cs).len() == cs.len() * info.sectors_per_cluster,
        i * info.sectors_per_cluster + s < all_sectors(info, cs).len(),
        all_sectors(info, cs)[i * info.sectors_per_cluster + s] == info.lba_of(cs[i]) + s,
{
    let spc = info.sectors_per_cluster as int;
    sectors_begin(info, cs, cs.len() as int);
    assert(cs.take(cs.len() as int) =~= cs);
    sectors_begin(info, cs, i);
    sectors_begin(info, cs, i + 1);
    assert(cs.take(i + 1).drop_last() =~= cs.take(i));
    assert((i + 1) * spc == i * spc + spc) by (nonlinear_arith);
    assert(all_sectors(info, cs.take(i + 1))[i * spc + s] == info.lba_of(cs[i]) + s);
    assert(0 <= i * spc) by (nonlinear_arith)
        requires
            0 <= i,
            0 <= spc,
    ;
}

proof fn clusters_list(info: Fat32Info, d: DiskView, cs: Seq<int>, n: int)
    requires
        0 <= n <= cs.len(),
        forall|j: int|
            0 <= j < all_sectors(info, cs).len() ==> d.has(#[trigger] all_sectors(info, cs)[j]),
    ensures
        ({
            let lbas = all_sectors(info, cs);
            let m = end_from(d, lbas, 0);
            let end = 16 * (n * info.sectors_per_cluster);
            list_clusters(info, d, cs.take(n), Seq::empty()) == Ok::<
                (Seq<ShortEntry>, bool),
                FsError,
            >((files_below(d, lbas, least(m, end)), m < end))
        }),
    decreases n,
{
    let lbas = all_sectors(info, cs);
    let spc = info.sectors_per_cluster as int;
    let m = end_from(d, lbas, 0);
    end_from_grows(d, lbas, 0);
    if n == 0 {
        assert(0 * spc == 0);
    } else {
        clusters_list(info, d, cs, n - 1);
        assert(cs.take(n).drop_last() =~= cs.take(n - 1));
        let b = (n - 1) * spc;
        assert(n * spc == b + spc) by (nonlinear_arith)
            requires
                b == (n - 1) * spc,
        ;
        assert(0 <= b) by (nonlinear_arith)
            requires
                b == (n - 1) * spc,
                n >= 1,
                spc >= 0,
        ;
        sectors_begin(info, cs, n);
        if m >= 16 * b {
            let c = cs[n - 1];
            assert forall|j: int| 0 <= j < spc implies #[trigger] lbas[b + j] == info.lba_of(c) + j by {
                sectors_are_in_order(info, cs, n - 1, j);
            }
            end_from_skips(d, lbas, 0, 16 * b);
            cluster_lists(info, d, lbas, b, c, 0);
        }
    }
}

/// `cs` is the whole chain of a directory: each cluster names the next one in the table, the
/// last one ends it, and all of them can be addressed.
pub open spec fn whole_chain(info: Fat32Info, d: DiskView, c: int, cs: Seq<int>) -> bool {
    &&& cs.len() > 0
    &&& cs[0] == c
    &&& forall|i: int| 0 <= i < cs.len() - 1 ==> #[trigger] info.step(d, cs[i]) == Step::Next(cs[i + 1])
    &&& info.step(d, cs.last()) is End
    &&& forall|i: int| 0 <= i < cs.len() ==> info.addressable(#[trigger] cs[i])
}

proof fn one_run(info: Fat32Info, d: DiskView, c: int, a: Seq<int>, b: Seq<int>)
    requires
        list_run(info, d, c, a),
        list_run(info, d, c, b),
    ensures
        a == b,
{
    assert(list_begins(info, d, c, a)) by {
        assert forall|i: int| 0 <= i < a.len() - 1 implies #[trigger] info.step(d, a[i])
            == Step::Next(a[i + 1]) && list_goes_on(info, d, a.take(i + 1)) && info.addressable(
            a[i],
        ) by {}
    }
    assert(list_begins(info, d, c, b)) by {
        assert forall|i: int| 0 <= i < b.len() - 1 implies #[trigger] info.step(d, b[i])
            == Step::Next(b[i + 1]) && list_goes_on(info, d, b.take(i + 1)) && info.addressable(
            b[i],
        ) by {}
    }
    list_prefix(info, d, c, a, b, a.len() as int);
    list_prefix(info, d, c, b, a, b.len() as int);
    assert(a.take(a.len() as int) =~= a);
    assert(b.take(b.len() as int) =~= b);
}

/// How many clusters hold the slots up to number `m`.
proof fn clusters_up_to(spc: int, m: int, most: int) -> (n: int)
    requires
        0 <= m < 16 * (most * spc),
        0 <= spc,
        0 < most,
    ensures
        0 < n <= most,
        16 * ((n - 1) * spc) <= m < 16 * (n * spc),
    decreases most,
{
    if 16 * ((most - 1) * spc) <= m {
        most
    } else {
        assert(most > 1) by {
            if most == 1 {
                assert(0 * spc == 0);
            }
        }
        clusters_up_to(spc, m, most - 1)
    }
}

/// A directory whose chain ends and whose sectors are all known can be listed, and the listing is
/// the entries of all its slots in front of the first one that ends it, in order: no sector
/// of a cluster and no cluster is left out.
pub proof fn listing_is_complete(info: Fat32Info, d: DiskView, c: int, cs: Seq<int>, m: int)
    requires
        whole_chain(info, d, c, cs),
        forall|j: int|
            0 <= j < all_sectors(info, cs).len() ==> d.has(#[trigger] all_sectors(info, cs)[j]),
        0 <= m <= 16 * all_sectors(info, cs).len(),
        forall|j: int| 0 <= j < m ==> !#[trigger] end_at(d, all_sectors(info, cs), j),
        m < 16 * all_sectors(info, cs).len() ==> end_at(d, all_sectors(info, cs), m),
    ensures
        list_ready(info, d, c),
        dir_listing(info, d, c) == Ok::<Seq<ShortEntry>, FsError>(
            files_below(d, all_sectors(info, cs), m),
        ),
{
    let lbas = all_sectors(info, cs);
    let spc = info.sectors_per_cluster as int;
    let total = cs.len() as int;
    end_from_is(d, lbas, 0, m);
    sectors_begin(info, cs, total);
    assert(cs.take(total) =~= cs);
    let n = if m < 16 * lbas.len() {
        clusters_up_to(spc, m, total)
    } else {
        total
    };
    let run = cs.take(n);
    assert forall|i: int| 0 <= i < n - 1 implies #[trigger] info.step(d, run[i]) == Step::Next(
        run[i + 1],
    ) && list_goes_on(info, d, run.take(i + 1)) by {
        assert(info.step(d, cs[i]) == Step::Next(cs[i + 1]));
        assert(run.take(i + 1) =~= cs.take(i + 1));
        clusters_list(info, d, cs, i + 1);
        assert((i + 1) * spc <= (n - 1) * spc) by (nonlinear_arith)
            requires
                i + 1 <= n - 1,
                spc >= 0,
        ;
        assert((n - 1) * spc <= total * spc) by (nonlinear_arith)
            requires
                n - 1 <= total,
                spc >= 0,
        ;
    }
    clusters_list(info, d, cs, n);
    assert forall|i: int| 0 <= i < run.len() implies info.addressable(#[trigger] run[i]) by {
        assert(info.addressable(cs[i]));
    }
    if list_goes_on(info, d, run) {
        assert(n == total);
        assert(run =~= cs);
    }
    assert(list_run(info, d, c, run));
    let picked = choose|r: Seq<int>| list_run(info, d, c, r);
    one_run(info, d, c, run, picked);
}

/// An entry that no end marker stands in front of is in the listing, and its place there is the
/// number of entries in front of it.
pub proof fn entry_is_listed(
    info: Fat32Info,
    d: DiskView,
    c: int,
    cs: Seq<int>,
    m: int,
    k: int,
)
    requires
        whole_chain(info, d, c, cs),
        forall|j: int|
            0 <= j < all_sectors(info, cs).len() ==> d.has(#[trigger] all_sectors(info, cs)[j]),
        0 <= k < m <= 16 * all_sectors(info, cs).len(),
        forall|j: int| 0 <= j < m ==> !#[trigger] end_at(d, all_sectors(info, cs), j),
        m < 16 * all_sectors(info, cs).len() ==> end_at(d, all_sectors(info, cs), m),
        file_at(d, all_sectors(info, cs), k),
    ensures
        dir_listing(info, d, c) matches Ok(es) && ({
            let place = files_below(d, all_sectors(info, cs), k).len() as int;
            place < es.len() && es[place] == entry_of(slot_at(d, all_sectors(info, cs), k))
        }),
{
    listing_is_complete(info, d, c, cs, m);
    files_stay(d, all_sectors(info, cs), k + 1, m);
    let es = files_below(d, all_sectors(info, cs), m);
    let up_to = files_below(d, all_sectors(info, cs), k + 1);
    assert(up_to[up_to.len() - 1] == entry_of(slot_at(d, all_sectors(info, cs), k)));
    assert(es.take(up_to.len() as int)[up_to.len() - 1] == es[up_to.len() - 1]);
}

proof fn files_stay(d: DiskView, lbas: Seq<int>, k: int, m: int)
    requires
        0 <= k <= m,
    ensures
        files_below(d, lbas, k).len() <= files_below(d, lbas, m).len(),
        files_below(d, lbas, m).take(files_below(d, lbas, k).len() as int) == files_below(
            d,
            lbas,
            k,
        ),
    decreases m - k,
{
    let a = files_below(d, lbas, k);
    if k < m {
        files_stay(d, lbas, k, m - 1);
        let b = files_below(d, lbas, m - 1);
        assert(files_below(d, lbas, m).take(a.len() as int) =~= b.take(a.len() as int));
    } else {
        assert(a.take(a.len() as int) =~= a);
    }
}

/// An entry is read as what it was made of, under its short name.
pub proof fn entry_is_read(
    name: Seq<u8>,
    ext: Seq<u8>,
    attributes: u8,
    other: Seq<u8>,
    time: u16,
    date: u16,
    cluster: u32,
    size: u32,
)
    requires
        name.len() <= 8,
        ext.len() <= 3,
        other.len() == 8,
        forall|j: int| 0 <= j < name.len() ==> #[trigger] name[j] != 0x20,
        forall|j: int| 0 <= j < ext.len() ==> #[trigger] ext[j] != 0x20,
    ensures
        entry_of(
            short_slot(
                filled_up(name, 8),
                filled_up(ext, 3),
                attributes,
                other,
                time,
                date,
                cluster,
                size,
            ),
        ) == (ShortEntry {
            name: text_of_bytes(name) + (if ext.len() == 0 {
                Seq::empty()
            } else {
                seq!['.'] + text_of_bytes(ext)
            }),
            is_dir: attributes / 16 % 2 == 1,
            size,
            start_cluster: cluster,
        }),
{
    short_name_is_read(name, ext);
    short_slot_is_read(
        filled_up(name, 8),
        filled_up(ext, 3),
        attributes,
        other,
        time,
        date,
        cluster,
        size,
        no_lfn(),
    );
}

/// The data begins behind all the tables with cluster 2, and each cluster begins where the one
/// before it ends.
pub proof fn clusters_are_in_a_row(info: Fat32Info, c: int)
    ensures
        info.lba_of(2) == info.partition_start_lba + info.reserved_sector_count + info.num_fats
            * info.fat_size_32,
        info.lba_of(c + 1) == info.lba_of(c) + info.sectors_per_cluster,
{
    let spc = info.sectors_per_cluster as int;
    assert((c + 1 - 2) * spc == (c - 2) * spc + spc) by (nonlinear_arith);
    assert(0 * spc == 0);
}

/// The entry of a cluster is the four bytes at that place of the first table, which begins behind
/// the reserved sectors; the top four bits do not count. Zero is no link, 0x0FFFFFF8 and above
/// end the chain, and all others name the next cluster.
pub proof fn links_are_read(
    info: Fat32Info,
    d: DiskView,
    sector: int,
    before: Seq<u8>,
    place: int,
    top: u32,
    value: u32,
    after: Seq<u8>,
)
    requires
        0 <= sector,
        0 <= place < 128,
        before.len() == 4 * place,
        top < 16,
        value < 0x1000_0000,
        d.has(info.partition_start_lba + info.reserved_sector_count + sector),
        d.at(info.partition_start_lba + info.reserved_sector_count + sector) == before + le32_bytes(
            (top * 0x1000_0000 + value) as u32,
        ) + after,
    ensures
        ({
            let step = info.step(d, 128 * sector + place);
            &&& value == 0 <==> step is Stop
            &&& value >= 0x0FFF_FFF8 <==> step is End
            &&& step matches Step::Next(n) ==> n == value
        }),
{
    let c = 128 * sector + place;
    let x = (top * 0x1000_0000 + value) as u32;
    let s = before + le32_bytes(x) + after;
    assert(c * 4 / 512 == sector && c * 4 % 512 == 4 * place);
    assert(s.subrange(4 * place, 4 * place + 4) =~= le32_bytes(x));
    fields_of_four_bytes(s, 4 * place);
    bytes_stand_for_number(0, x, 0);
    assert(x as int % 0x1000_0000 == value);
}

/// A boot sector: eleven bytes that are not looked at, the size of a sector, the sectors of a
/// cluster, the reserved sectors, the number of tables, zeros where other volumes have the
/// size of their root directory, seventeen bytes, the sectors of a table, four bytes, the first
/// cluster of the root directory, and a mark at the end.
pub open spec fn boot_sector(
    a: Seq<u8>,
    sectors_per_cluster: u8,
    reserved: u16,
    num_fats: u8,
    b: Seq<u8>,
    fat_size: u32,
    e: Seq<u8>,
    root_cluster: u32,
    f: Seq<u8>,
) -> Seq<u8> {
    a + le16_bytes(512) + seq![sectors_per_cluster] + le16_bytes(reserved) + seq![num_fats]
        + le16_bytes(0) + b + le32_bytes(fat_size) + e + le32_bytes(root_cluster) + f + seq![
        0x55u8,
        0xAA,
    ]
}

/// It is read as what it was made of.
pub proof fn boot_sector_is_read(
    a: Seq<u8>,
    sectors_per_cluster: u8,
    reserved: u16,
    num_fats: u8,
    b: Seq<u8>,
    fat_size: u32,
    e: Seq<u8>,
    root_cluster: u32,
    f: Seq<u8>,
    start: u32,
)
    requires
        a.len() == 11,
        b.len() == 17,
        e.len() == 4,
        f.len() == 462,
    ensures
        ({
            let s = boot_sector(
                a,
                sectors_per_cluster,
                reserved,
                num_fats,
                b,
                fat_size,
                e,
                root_cluster,
                f,
            );
            &&& s.len() == 512
            &&& boot_error(s) is None <==> fat_size != 0
            &&& boot_volume(s, start) == (Fat32Info {
                sectors_per_cluster,
                reserved_sector_count: reserved,
                num_fats,
                fat_size_32: fat_size,
                root_cluster,
                partition_start_lba: start,
            })
        }),
{
    let s = boot_sector(a, sectors_per_cluster, reserved, num_fats, b, fat_size, e, root_cluster, f);
    assert(s.len() == 512);
    assert(s.subrange(11, 13) =~= le16_bytes(512));
    assert(s.subrange(14, 16) =~= le16_bytes(reserved));
    assert(s.subrange(17, 19) =~= le16_bytes(0));
    assert(s.subrange(36, 40) =~= le32_bytes(fat_size));
    assert(s.subrange(44, 48) =~= le32_bytes(root_cluster));
    fields_of_two_bytes(s, 11);
    fields_of_two_bytes(s, 14);
    fields_of_two_bytes(s, 17);
    fields_of_four_bytes(s, 36);
    fields_of_four_bytes(s, 44);
    bytes_stand_for_number(512, fat_size, 0);
    bytes_stand_for_number(reserved, root_cluster, 0);
    bytes_stand_for_number(0, 0, 0);
    assert(s[13] == sectors_per_cluster && s[16] == num_fats && s[510] == 0x55 && s[511] == 0xAA);
}

proof fn slots_go_on(sector: Seq<u8>, i: int, acc: Seq<ShortEntry>)
    requires
        0 <= i,
        forall|k: int| i <= k < 16 ==> (#[trigger] slot(sector, k))[0] != 0,
    ensures
        !list_slots(sector, i, acc).1,
    decreases 16 - i,
{
    if i < 16 {
        assert(slot(sector, i)[0] != 0);
        slots_go_on(sector, i + 1, acc);
        slots_go_on(sector, i + 1, acc.push(entry_of(slot(sector, i))));
    }
}

proof fn cluster_stops(
    info: Fat32Info,
    d: DiskView,
    lbas: Seq<int>,
    b: int,
    c: int,
    s: int,
    stop: int,
    acc: Seq<ShortEntry>,
)
    requires
        0 <= b,
        0 <= s <= stop < info.sectors_per_cluster,
        b + stop < lbas.len(),
        forall|j: int| 0 <= j <= stop ==> #[trigger] lbas[b + j] == info.lba_of(c) + j,
        forall|j: int| 0 <= j < b + stop ==> d.has(#[trigger] lbas[j]),
        forall|k: int| 0 <= k < 16 * (b + stop) ==> !#[trigger] end_at(d, lbas, k),
        !d.has(lbas[b + stop]),
    ensures
        list_sectors(info, d, c, s, acc) == Err::<(Seq<ShortEntry>, bool), FsError>(
            d.read_error(lbas[b + stop]),
        ),
    decreases stop - s,
{
    assert(lbas[b + s] == info.lba_of(c) + s);
    if s < stop {
        let sector = d.at(lbas[b + s]);
        assert(d.has(lbas[b + s]));
        assert forall|i: int| 0 <= i < 16 implies (#[trigger] slot(sector, i))[0] != 0 by {
            let k = 16 * (b + s) + i;
            assert(k / 16 == b + s && k % 16 == i);
            assert(!end_at(d, lbas, k));
            assert(slot(sector, i) == slot_at(d, lbas, k));
        }
        slots_go_on(sector, 0, acc);
        cluster_stops(info, d, lbas, b, c, s + 1, stop, list_slots(sector, 0, acc).0);
    }
}

proof fn front_goes_on(info: Fat32Info, d: DiskView, cs: Seq<int>, n: int, i: int)
    requires
        0 <= i <= n <= cs.len(),
        forall|j: int|
            0 <= j < n * info.sectors_per_cluster ==> d.has(#[trigger] all_sectors(info, cs)[j]),
        forall|k: int|
            0 <= k < 16 * (n * info.sectors_per_cluster) ==> !#[trigger] end_at(
                d,
                all_sectors(info, cs),
                k,
            ),
    ensures
        list_goes_on(info, d, cs.take(i)),
{
    let spc = info.sectors_per_cluster as int;
    let lbas = all_sectors(info, cs);
    sectors_begin(info, cs, i);
    assert(i * spc <= n * spc) by (nonlinear_arith)
        requires
            i <= n,
            spc >= 0,
    ;
    let front = cs.take(i);
    let some = all_sectors(info, front);
    assert forall|j: int| 0 <= j < some.len() implies d.has(#[trigger] some[j]) by {
        assert(some[j] == lbas[j]);
    }
    assert forall|k: int| 0 <= k < 16 * some.len() implies !#[trigger] end_at(d, some, k) by {
        assert(some[k / 16] == lbas[k / 16]);
        assert(!end_at(d, lbas, k));
    }
    end_from_is(d, some, 0, 16 * (some.len() as int));
    clusters_list(info, d, front, i);
    assert(front.take(i) =~= front);
}

/// A sector that is not known is asked for: a listing that reaches it comes to the error of
/// reading it, whatever entries there are in front of it.
pub proof fn unknown_sector_is_asked_for(
    info: Fat32Info,
    d: DiskView,
    c: int,
    cs: Seq<int>,
    s: int,
)
    requires
        cs.len() > 0,
        cs[0] == c,
        forall|i: int|
            0 <= i < cs.len() - 1 ==> #[trigger] info.step(d, cs[i]) == Step::Next(cs[i + 1]),
        forall|i: int| 0 <= i < cs.len() ==> info.addressable(#[trigger] cs[i]),
        0 <= s < info.sectors_per_cluster,
        ({
            let at = (cs.len() - 1) * info.sectors_per_cluster + s;
            let lbas = all_sectors(info, cs);
            &&& forall|j: int| 0 <= j < at ==> d.has(#[trigger] lbas[j])
            &&& forall|k: int| 0 <= k < 16 * at ==> !#[trigger] end_at(d, lbas, k)
        }),
        !d.has(info.lba_of(cs.last()) + s),
    ensures
        list_ready(info, d, c),
        dir_listing(info, d, c) == Err::<Seq<ShortEntry>, FsError>(
            d.read_error(info.lba_of(cs.last()) + s),
        ),
{
    let spc = info.sectors_per_cluster as int;
    let n = cs.len() as int;
    let lbas = all_sectors(info, cs);
    let b = (n - 1) * spc;
    assert(0 <= b) by (nonlinear_arith)
        requires
            b == (n - 1) * spc,
            n >= 1,
            spc >= 0,
    ;
    assert forall|i: int| 0 <= i < n - 1 implies #[trigger] info.step(d, cs[i]) == Step::Next(
        cs[i + 1],
    ) && list_goes_on(info, d, cs.take(i + 1)) by {
        front_goes_on(info, d, cs, n - 1, i + 1);
    }
    front_goes_on(info, d, cs, n - 1, n - 1);
    assert(cs.take(n - 1) =~= cs.drop_last());
    sectors_are_in_order(info, cs, n - 1, s);
    assert forall|j: int| 0 <= j <= s implies #[trigger] lbas[b + j] == info.lba_of(cs.last()) + j by {
        sectors_are_in_order(info, cs, n - 1, j);
    }
    let es = list_clusters(info, d, cs.drop_last(), Seq::empty())->Ok_0.0;
    cluster_stops(info, d, lbas, b, cs.last(), 0, s, es);
    assert(list_run(info, d, c, cs));
    let picked = choose|r: Seq<int>| list_run(info, d, c, r);
    one_run(info, d, c, cs, picked);
}

/// A directory without an end marker whose chain breaks off is not listed: the listing comes to
/// what stopped the chain.
pub proof fn broken_chain_is_told(info: Fat32Info, d: DiskView, c: int, cs: Seq<int>, e: FsError)
    requires
        cs.len() > 0,
        cs[0] == c,
        forall|i: int|
            0 <= i < cs.len() - 1 ==> #[trigger] info.step(d, cs[i]) == Step::Next(cs[i + 1]),
        forall|i: int| 0 <= i < cs.len() ==> info.addressable(#[trigger] cs[i]),
        info.step(d, cs.last()) == Step::Stop(e),
        forall|j: int|
            0 <= j < cs.len() * info.sectors_per_cluster ==> d.has(
                #[trigger] all_sectors(info, cs)[j],
            ),
        forall|k: int|
            0 <= k < 16 * (cs.len() * info.sectors_per_cluster) ==> !#[trigger] end_at(
                d,
                all_sectors(info, cs),
                k,
            ),
    ensures
        list_ready(info, d, c),
        dir_listing(info, d, c) == Err::<Seq<ShortEntry>, FsError>(e),
{
    let n = cs.len() as int;
    assert forall|i: int| 0 <= i < n - 1 implies #[trigger] info.step(d, cs[i]) == Step::Next(
        cs[i + 1],
    ) && list_goes_on(info, d, cs.take(i + 1)) by {
        front_goes_on(info, d, cs, n, i + 1);
    }
    front_goes_on(info, d, cs, n, n);
    assert(cs.take(n) =~= cs);
    assert(list_run(info, d, c, cs));
    let picked = choose|r: Seq<int>| list_run(info, d, c, r);
    one_run(info, d, c, cs, picked);
}

} // verus!
