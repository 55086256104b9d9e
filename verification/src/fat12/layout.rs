//! How a volume is laid out on disk, and what a volume that another system wrote reads as.

use crate::bytes::{
    bytes_stand_for_number, fields_of_two_bytes, le16, le16_bytes,
};
use crate::disk::{DiskView, FsError};
use crate::fat12::changes::{clusters_needed, data_block, find_run, first_run, run_at};
use crate::fat12::table::{entry, in_table, link, link_error, Link};
use crate::fat12::volume::{
    boot_error, boot_volume, cluster_sectors, dir_slot, read_chain, read_cluster, root_sectors,
    sectors_of, short_names_from, Volume,
};
use crate::fat_common::slot_kind;
use vstd::prelude::*;

verus! {

/// A boot sector: eleven bytes that are not looked at, the size of a sector, the sectors of a
/// cluster, the reserved sectors, the number of tables, the entries of the root directory, three
/// bytes, the sectors of a table, and a mark at the end.
pub open spec fn boot_sector(
    a: Seq<u8>,
    sectors_per_cluster: u8,
    reserved: u16,
    num_fats: u8,
    root_entries: u16,
    b: Seq<u8>,
    fat_size: u16,
    c: Seq<u8>,
) -> Seq<u8> {
    a + le16_bytes(512) + seq![sectors_per_cluster] + le16_bytes(reserved) + seq![num_fats]
        + le16_bytes(root_entries) + b + le16_bytes(fat_size) + c + seq![0x55u8, 0xAA]
}

proof fn number_at(s: Seq<u8>, at: int, x: u16)
    requires
        0 <= at,
        at + 2 <= s.len(),
        s.subrange(at, at + 2) == le16_bytes(x),
    ensures
        le16(s, at) == x,
{
    fields_of_two_bytes(s, at);
    bytes_stand_for_number(x, 0, 0);
}

/// It is read as what it was made of, and the table in memory is the first one, which begins behind
/// the reserved sectors, sector by sector.
pub proof fn boot_sector_is_read(
    a: Seq<u8>,
    sectors_per_cluster: u8,
    reserved: u16,
    num_fats: u8,
    root_entries: u16,
    b: Seq<u8>,
    fat_size: u16,
    c: Seq<u8>,
    start: int,
    d: DiskView,
    k: int,
    j: int,
)
    requires
        a.len() == 11,
        b.len() == 3,
        c.len() == 486,
        0 <= k < fat_size,
        0 <= j < 512,
    ensures
        ({
            let s = boot_sector(
                a,
                sectors_per_cluster,
                reserved,
                num_fats,
                root_entries,
                b,
                fat_size,
                c,
            );
            let v = boot_volume(s, start, d);
            &&& s.len() == 512
            &&& boot_error(s) is None <==> root_entries != 0 && fat_size != 0
            &&& v.sectors_per_cluster == sectors_per_cluster
            &&& v.num_fats == num_fats
            &&& v.fat_size == fat_size
            &&& v.root_entries == root_entries
            &&& v.reserved == reserved
            &&& v.start == start
            &&& v.fat.len() == 512 * fat_size
            &&& v.fat[512 * k + j] == d.at(start + reserved + k)[j]
        }),
{
    let s = boot_sector(a, sectors_per_cluster, reserved, num_fats, root_entries, b, fat_size, c);
    assert(s.len() == 512);
    assert(s.subrange(11, 13) =~= le16_bytes(512));
    assert(s.subrange(14, 16) =~= le16_bytes(reserved));
    assert(s.subrange(17, 19) =~= le16_bytes(root_entries));
    assert(s.subrange(22, 24) =~= le16_bytes(fat_size));
    number_at(s, 11, 512);
    number_at(s, 14, reserved);
    number_at(s, 17, root_entries);
    number_at(s, 22, fat_size);
    assert(s[13] == sectors_per_cluster && s[16] == num_fats && s[510] == 0x55 && s[511] == 0xAA);
    assert((512 * k + j) / 512 == k && (512 * k + j) % 512 == j);
}

/// The tables are behind the reserved sectors, the root directory is behind all the tables and has
/// as many sectors as its entries fill, of 16 in a sector; the data begins behind it
/// with cluster 2, and each cluster begins where the one before it ends.
pub proof fn parts_are_in_a_row(v: Volume, c: int)
    requires
        v.wf(),
    ensures
        v.fat_lba(0) == v.start + v.reserved,
        v.fat_lba(c + 1) == v.fat_lba(c) + 1,
        v.first_root_dir_sector() == v.start + v.reserved + v.num_fats * v.fat_size,
        16 * (v.root_dir_sectors() - 1) < v.root_entries <= 16 * v.root_dir_sectors(),
        v.cluster_lba(2) == v.first_root_dir_sector() + v.root_dir_sectors(),
        v.cluster_lba(c + 1) == v.cluster_lba(c) + v.sectors_per_cluster,
{
    let spc = v.sectors_per_cluster;
    assert((c + 1 - 2) * spc == (c - 2) * spc + spc) by (nonlinear_arith);
    assert(0 * spc == 0);
}

/// The sectors of the root directory are all of its sectors, in order.
pub proof fn root_is_all_its_sectors(v: Volume, s: int)
    requires
        v.wf(),
        0 <= s < v.root_dir_sectors(),
    ensures
        root_sectors(v).len() == v.root_dir_sectors(),
        root_sectors(v)[s] == v.first_root_dir_sector() + s,
{
}

/// The sectors of the first clusters come first.
pub proof fn sectors_begin(v: Volume, cs: Seq<int>, n: int)
    requires
        v.sectors_per_cluster >= 0,
        0 <= n <= cs.len(),
    ensures
        sectors_of(v, cs.take(n)).len() == n * v.sectors_per_cluster,
        n * v.sectors_per_cluster <= sectors_of(v, cs).len(),
        sectors_of(v, cs.take(n)) == sectors_of(v, cs).take(n * v.sectors_per_cluster),
    decreases cs.len(),
{
    let spc = v.sectors_per_cluster;
    if n == cs.len() {
        assert(cs.take(n) =~= cs);
        if n > 0 {
            sectors_begin(v, cs.drop_last(), n - 1);
            assert(cs.drop_last().take(n - 1) =~= cs.drop_last());
            assert(n * spc == (n - 1) * spc + spc) by (nonlinear_arith);
        } else {
            assert(0 * spc == 0);
        }
        let all = sectors_of(v, cs);
        assert(all.take(all.len() as int) =~= all);
    } else {
        let front = cs.drop_last();
        sectors_begin(v, front, n);
        assert(front.take(n) =~= cs.take(n));
        let a = sectors_of(v, front);
        let all = sectors_of(v, cs);
        assert(all.take(n * spc) =~= a.take(n * spc));
    }
}

/// Sector number `i * sectors_per_cluster + s` of some clusters is sector `s` of cluster `i`: none
/// is left out.
pub proof fn sectors_are_in_order(v: Volume, cs: Seq<int>, i: int, s: int)
    requires
        0 <= i < cs.len(),
        0 <= s < v.sectors_per_cluster,
    ensures
        sectors_of(v, cs).len() == cs.len() * v.sectors_per_cluster,
        0 <= i * v.sectors_per_cluster + s < sectors_of(v, cs).len(),
        sectors_of(v, cs)[i * v.sectors_per_cluster + s] == v.cluster_lba(cs[i]) + s,
{
    let spc = v.sectors_per_cluster;
    sectors_begin(v, cs, cs.len() as int);
    assert(cs.take(cs.len() as int) =~= cs);
    sectors_begin(v, cs, i);
    sectors_begin(v, cs, i + 1);
    assert(cs.take(i + 1).drop_last() =~= cs.take(i));
    assert((i + 1) * spc == i * spc + spc) by (nonlinear_arith);
    assert(sectors_of(v, cs.take(i + 1))[i * spc + s] == cluster_sectors(v, cs[i])[s]);
    assert(0 <= i * spc) by (nonlinear_arith)
        requires
            0 <= i,
            0 <= spc,
    ;
}

/// Two entries of the table share three bytes: the first byte and the low half of the second are the
/// even one, and the high half of the second and the third byte are the odd one.
pub proof fn entries_share_three_bytes(before: Seq<u8>, n: int, even: int, odd: int, after: Seq<u8>)
    requires
        0 <= n,
        before.len() == 3 * n,
        0 <= even < 4096,
        0 <= odd < 4096,
    ensures
        ({
            let fat = before + seq![
                (even % 256) as u8,
                (even / 256 + 16 * (odd % 16)) as u8,
                (odd / 16) as u8,
            ] + after;
            &&& in_table(fat, 2 * n)
            &&& in_table(fat, 2 * n + 1)
            &&& entry(fat, 2 * n) == even
            &&& entry(fat, 2 * n + 1) == odd
        }),
{
    reveal(entry);
    let fat = before + seq![
        (even % 256) as u8,
        (even / 256 + 16 * (odd % 16)) as u8,
        (odd / 16) as u8,
    ] + after;
    assert((2 * n) * 3 / 2 == 3 * n && (2 * n + 1) * 3 / 2 == 3 * n + 1);
    assert((2 * n) % 2 == 0 && (2 * n + 1) % 2 == 1);
    assert(fat[3 * n] == even % 256);
    assert(fat[3 * n + 1] == even / 256 + 16 * (odd % 16));
    assert(fat[3 * n + 2] == odd / 16);
    let h = even / 256;
    let l = odd % 16;
    assert(0 <= h < 16 && 0 <= l < 16);
    assert(even % 256 + 256 * (h + 16 * l) == even + 4096 * l);
    assert((even + 4096 * l) % 4096 == even);
    assert(h + 16 * l + 256 * (odd / 16) == h + 16 * odd);
    assert((h + 16 * odd) / 16 == odd);
}

/// An entry of zero is that of a free cluster, 0xFF8 and above end a chain, and all others name the
/// next cluster.
pub proof fn links_are_entries(fat: Seq<u8>, c: int)
    requires
        in_table(fat, c),
    ensures
        link(fat, c) is Free <==> entry(fat, c) == 0,
        link(fat, c) is End <==> 0xFF8 <= entry(fat, c) <= 0xFFF,
        0 < entry(fat, c) < 0xFF8 <==> link(fat, c) is Next,
        link(fat, c) matches Link::Next(n) ==> n == entry(fat, c),
{
    crate::fat12::table::entry_bits(fat, c);
}

/// The bytes of sectors, one behind the other.
pub open spec fn bytes_of_sectors(d: DiskView, lbas: Seq<int>) -> Seq<u8> {
    Seq::new(512 * lbas.len(), |j: int| d.at(lbas[j / 512])[j % 512])
}

spec fn least(a: int, b: int) -> int {
    if a < b {
        a
    } else {
        b
    }
}

proof fn cluster_is_read(v: Volume, d: DiskView, lbas: Seq<int>, b: int, c: int, s: int, size: int)
    requires
        d.wf(),
        0 <= b,
        0 <= s <= v.sectors_per_cluster,
        b + v.sectors_per_cluster <= lbas.len(),
        forall|j: int|
            0 <= j < v.sectors_per_cluster ==> #[trigger] lbas[b + j] == v.cluster_lba(c) + j,
        forall|j: int| 0 <= j < lbas.len() ==> d.has(#[trigger] lbas[j]),
        0 <= size,
    ensures
        ({
            let w = bytes_of_sectors(d, lbas);
            read_cluster(v, d, c, s, size, w.take(least(size, 512 * (b + s)))) == Ok::<
                Seq<u8>,
                FsError,
            >(w.take(least(size, 512 * (b + v.sectors_per_cluster))))
        }),
    decreases v.sectors_per_cluster - s,
{
    let w = bytes_of_sectors(d, lbas);
    let k = 512 * (b + s);
    let acc = w.take(least(size, k));
    if s < v.sectors_per_cluster && k < size {
        let lba = v.cluster_lba(c) + s;
        assert(lbas[b + s] == lba);
        assert(d.has(lbas[b + s]));
        assert(d.at(lba).len() == 512);
        let left = size - k;
        let more = d.at(lba).take(if left < 512 {
            left
        } else {
            512
        });
        assert forall|j: int| 0 <= j < more.len() implies more[j] == w[k + j] by {
            assert((k + j) / 512 == b + s && (k + j) % 512 == j);
        }
        assert(acc + more =~= w.take(least(size, 512 * (b + (s + 1)))));
        cluster_is_read(v, d, lbas, b, c, s + 1, size);
    }
}

proof fn rest_is_read(v: Volume, d: DiskView, cs: Seq<int>, i: int, size: int)
    requires
        d.wf(),
        v.sectors_per_cluster >= 1,
        0 <= i < cs.len(),
        forall|j: int| 0 <= j < cs.len() - 1 ==> #[trigger] link(v.fat, cs[j]) == Link::Next(cs[j + 1]),
        forall|j: int|
            0 <= j < sectors_of(v, cs).len() ==> d.has(#[trigger] sectors_of(v, cs)[j]),
        512 * (i * v.sectors_per_cluster) < size <= 512 * sectors_of(v, cs).len(),
    ensures
        ({
            let w = bytes_of_sectors(d, sectors_of(v, cs));
            read_chain(v, d, cs[i], size, w.take(512 * (i * v.sectors_per_cluster))) == Ok::<
                Seq<u8>,
                FsError,
            >(w.take(size))
        }),
    decreases cs.len() - i,
{
    let lbas = sectors_of(v, cs);
    let w = bytes_of_sectors(d, lbas);
    let spc = v.sectors_per_cluster;
    let b = i * spc;
    assert(0 <= b) by (nonlinear_arith)
        requires
            b == i * spc,
            i >= 0,
            spc >= 1,
    ;
    assert((i + 1) * spc == b + spc) by (nonlinear_arith)
        requires
            b == i * spc,
    ;
    sectors_begin(v, cs, cs.len() as int);
    sectors_begin(v, cs, i + 1);
    assert forall|j: int| 0 <= j < spc implies #[trigger] lbas[b + j] == v.cluster_lba(cs[i]) + j by {
        sectors_are_in_order(v, cs, i, j);
    }
    cluster_is_read(v, d, lbas, b, cs[i], 0, size);
    assert(least(size, 512 * (b + 0)) == 512 * b);
    let end = 512 * (b + spc);
    if end < size {
        assert(i < cs.len() - 1) by {
            if i == cs.len() - 1 {
                assert(cs.take(cs.len() as int) =~= cs);
                assert(lbas.len() == b + spc);
            }
        }
        assert(link(v.fat, cs[i]) == Link::Next(cs[i + 1]));
        rest_is_read(v, d, cs, i + 1, size);
    }
}

/// A file whose clusters name one another and whose sectors are known reads as the bytes of all these
/// sectors, one behind the other, up to its size, whatever stands behind that.
pub proof fn file_is_its_sectors(v: Volume, d: DiskView, cs: Seq<int>, size: int)
    requires
        d.wf(),
        v.sectors_per_cluster >= 1,
        cs.len() > 0,
        forall|j: int| 0 <= j < cs.len() - 1 ==> #[trigger] link(v.fat, cs[j]) == Link::Next(cs[j + 1]),
        forall|j: int|
            0 <= j < sectors_of(v, cs).len() ==> d.has(#[trigger] sectors_of(v, cs)[j]),
        0 < size <= 512 * (cs.len() * v.sectors_per_cluster),
    ensures
        read_chain(v, d, cs[0], size, Seq::empty()) == Ok::<Seq<u8>, FsError>(
            bytes_of_sectors(d, sectors_of(v, cs)).take(size),
        ),
{
    sectors_begin(v, cs, cs.len() as int);
    assert(cs.take(cs.len() as int) =~= cs);
    assert(0 * v.sectors_per_cluster == 0);
    rest_is_read(v, d, cs, 0, size);
    let w = bytes_of_sectors(d, sectors_of(v, cs));
    assert(w.take(0) =~= Seq::empty());
}

/// What is read of a chain that ends in front of byte `size`.
proof fn rest_falls_short(v: Volume, d: DiskView, cs: Seq<int>, i: int, size: int)
    requires
        d.wf(),
        v.sectors_per_cluster >= 1,
        0 <= i < cs.len(),
        forall|j: int| 0 <= j < cs.len() - 1 ==> #[trigger] link(v.fat, cs[j]) == Link::Next(cs[j + 1]),
        !(link(v.fat, cs.last()) is Next),
        forall|j: int|
            0 <= j < sectors_of(v, cs).len() ==> d.has(#[trigger] sectors_of(v, cs)[j]),
        512 * sectors_of(v, cs).len() < size,
    ensures
        ({
            let w = bytes_of_sectors(d, sectors_of(v, cs));
            let got = read_chain(v, d, cs[i], size, w.take(512 * (i * v.sectors_per_cluster)));
            match link_error(link(v.fat, cs.last())) {
                None => got == Ok::<Seq<u8>, FsError>(w),
                Some(m) => got == Err::<Seq<u8>, FsError>(FsError::Failed(m)),
            }
        }),
    decreases cs.len() - i,
{
    let lbas = sectors_of(v, cs);
    let w = bytes_of_sectors(d, lbas);
    let spc = v.sectors_per_cluster;
    let b = i * spc;
    assert(0 <= b) by (nonlinear_arith)
        requires
            b == i * spc,
            i >= 0,
            spc >= 1,
    ;
    assert((i + 1) * spc == b + spc) by (nonlinear_arith)
        requires
            b == i * spc,
    ;
    sectors_begin(v, cs, i + 1);
    assert forall|j: int| 0 <= j < spc implies #[trigger] lbas[b + j] == v.cluster_lba(cs[i]) + j by {
        sectors_are_in_order(v, cs, i, j);
    }
    cluster_is_read(v, d, lbas, b, cs[i], 0, size);
    assert(least(size, 512 * (b + 0)) == 512 * b);
    let end = 512 * (b + spc);
    if i < cs.len() - 1 {
        assert(link(v.fat, cs[i]) == Link::Next(cs[i + 1]));
        rest_falls_short(v, d, cs, i + 1, size);
    } else {
        sectors_begin(v, cs, cs.len() as int);
        assert(cs.take(cs.len() as int) =~= cs);
        assert(w.take(end) =~= w);
    }
}

/// A file whose chain ends in front of its size reads as what is there, and one whose chain breaks
/// off is not read.
pub proof fn short_chains_are_read_to_their_end(v: Volume, d: DiskView, cs: Seq<int>, size: int)
    requires
        d.wf(),
        v.sectors_per_cluster >= 1,
        cs.len() > 0,
        forall|j: int| 0 <= j < cs.len() - 1 ==> #[trigger] link(v.fat, cs[j]) == Link::Next(cs[j + 1]),
        !(link(v.fat, cs.last()) is Next),
        forall|j: int|
            0 <= j < sectors_of(v, cs).len() ==> d.has(#[trigger] sectors_of(v, cs)[j]),
        512 * (cs.len() * v.sectors_per_cluster) < size,
    ensures
        link(v.fat, cs.last()) is End ==> read_chain(v, d, cs[0], size, Seq::empty()) == Ok::<
            Seq<u8>,
            FsError,
        >(bytes_of_sectors(d, sectors_of(v, cs))),
        !(link(v.fat, cs.last()) is End) ==> read_chain(v, d, cs[0], size, Seq::empty()) is Err,
{
    sectors_begin(v, cs, cs.len() as int);
    assert(cs.take(cs.len() as int) =~= cs);
    assert(0 * v.sectors_per_cluster == 0);
    rest_falls_short(v, d, cs, 0, size);
    let w = bytes_of_sectors(d, sectors_of(v, cs));
    assert(w.take(0) =~= Seq::empty());
}

/// Contents take as many clusters as they fill, and an empty file takes one.
pub proof fn no_cluster_too_many(len: int, spc: int)
    requires
        0 <= len,
        1 <= spc,
    ensures
        len == 0 ==> clusters_needed(len, spc) == 1,
        len > 0 ==> (clusters_needed(len, spc) - 1) * (512 * spc) < len <= clusters_needed(len, spc)
            * (512 * spc),
{
    let size = 512 * spc;
    vstd::arithmetic::div_mod::lemma_fundamental_div_mod(len, size);
    vstd::arithmetic::div_mod::lemma_mod_bound(len, size);
    let q = len / size;
    assert(q * size == size * q) by (nonlinear_arith);
    assert((q + 1) * size == size * q + size) by (nonlinear_arith);
    assert((q - 1) * size == size * q - size) by (nonlinear_arith);
}

/// The blocks of contents are 512 bytes of them each, one behind the other, with zeros behind the end.
pub proof fn blocks_are_in_order(data: Seq<u8>, k: int, j: int)
    requires
        0 <= k,
        0 <= j < 512,
    ensures
        data_block(data, k).len() == 512,
        data_block(data, k)[j] == (data + Seq::new(
            (512 * (k + 1)) as nat,
            |i: int| 0u8,
        ))[512 * k + j],
{
}

/// The place that is taken in a sector is the first one with room.
pub proof fn first_room_is_taken(sector: Seq<u8>, i: int, count: int)
    requires
        0 <= i,
    ensures
        first_run(sector, i, count) matches Some(k) ==> i <= k && run_at(sector, k, count),
        forall|j: int|
            i <= j < 16 && #[trigger] run_at(sector, j, count) ==> (first_run(sector, i, count) matches
                Some(k) && k <= j),
    decreases 16 - i,
{
    if i < 16 && !run_at(sector, i, count) {
        first_room_is_taken(sector, i + 1, count);
    }
}

/// The sector that is taken of a directory is the first one with room.
pub proof fn first_sector_is_taken(d: DiskView, lbas: Seq<int>, j: int, count: int)
    requires
        0 <= j <= lbas.len(),
        forall|i: int| 0 <= i < lbas.len() ==> d.has(#[trigger] lbas[i]),
    ensures
        match find_run(d, lbas, j, count) {
            Err(_) => false,
            Ok(None) => forall|i: int|
                j <= i < lbas.len() ==> first_run(d.at(#[trigger] lbas[i]), 0, count) is None,
            Ok(Some((lba, k))) => exists|i: int|
                {
                    &&& j <= i < lbas.len()
                    &&& #[trigger] lbas[i] == lba
                    &&& first_run(d.at(lba), 0, count) == Some(k)
                    &&& forall|m: int|
                        j <= m < i ==> first_run(d.at(#[trigger] lbas[m]), 0, count) is None
                },
        },
    decreases lbas.len() - j,
{
    if j < lbas.len() {
        assert(d.has(lbas[j]));
        if first_run(d.at(lbas[j]), 0, count) is None {
            first_sector_is_taken(d, lbas, j + 1, count);
            match find_run(d, lbas, j + 1, count) {
                Ok(Some((lba, k))) => {
                    let i = choose|i: int|
                        {
                            &&& j + 1 <= i < lbas.len()
                            &&& #[trigger] lbas[i] == lba
                            &&& first_run(d.at(lba), 0, count) == Some(k)
                            &&& forall|m: int|
                                j + 1 <= m < i ==> first_run(d.at(#[trigger] lbas[m]), 0, count) is None
                        };
                    assert(lbas[i] == lba);
                },
                _ => {},
            }
        } else {
            assert(lbas[j] == lbas[j]);
        }
    }
}

/// Every short name in front of the end of a directory is among those that a new name is held
/// against.
pub proof fn short_names_are_all_there(
    d: DiskView,
    lbas: Seq<int>,
    k: int,
    acc: Seq<Seq<u8>>,
    m: int,
)
    requires
        0 <= k <= m < 16 * lbas.len(),
        forall|i: int| 0 <= i < lbas.len() ==> d.has(#[trigger] lbas[i]),
        forall|i: int| k <= i <= m ==> !(slot_kind(#[trigger] dir_slot(d, lbas, i)) is Terminator),
        slot_kind(dir_slot(d, lbas, m)) is Short,
    ensures
        short_names_from(d, lbas, k, acc) matches Ok(names) && names.contains(
            dir_slot(d, lbas, m).subrange(0, 11),
        ),
    decreases m - k,
{
    let raw = dir_slot(d, lbas, k);
    assert(d.has(lbas[k / 16]));
    assert(!(slot_kind(raw) is Terminator));
    let own = raw.subrange(0, 11);
    let next = if slot_kind(raw) is Short {
        acc.push(own)
    } else {
        acc
    };
    if k < m {
        short_names_are_all_there(d, lbas, k + 1, next, m);
    } else {
        assert(next[acc.len() as int] == own);
        names_stay(d, lbas, k + 1, next, own);
    }
}

proof fn names_stay(d: DiskView, lbas: Seq<int>, k: int, acc: Seq<Seq<u8>>, name: Seq<u8>)
    requires
        0 <= k,
        forall|i: int| 0 <= i < lbas.len() ==> d.has(#[trigger] lbas[i]),
        acc.contains(name),
    ensures
        short_names_from(d, lbas, k, acc) matches Ok(names) && names.contains(name),
    decreases 16 * lbas.len() - k,
{
    if k < 16 * lbas.len() {
        assert(d.has(lbas[k / 16]));
        let raw = dir_slot(d, lbas, k);
        if !(slot_kind(raw) is Terminator) {
            let next = if slot_kind(raw) is Short {
                acc.push(raw.subrange(0, 11))
            } else {
                acc
            };
            let i = choose|i: int| 0 <= i < acc.len() && acc[i] == name;
            assert(next[i] == name);
            names_stay(d, lbas, k + 1, next, name);
        }
    }
}

} // verus!
