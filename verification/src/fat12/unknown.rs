//! Sectors that are not known are asked for, and chains that break off are told.

use crate::disk::{DiskView, FsError};
use crate::fat12::layout::{sectors_are_in_order, sectors_begin};
use crate::fat12::search::{scan, scan_find};
use crate::fat12::table::{link, link_error, Link};
use crate::fat12::volume::{
    dir_lbas, dir_slot, empty_listing, file_contents, find_entry, list_goes_on, list_ready, list_run,
    list_sectors, listing, read_chain, read_cluster, root_sectors, sectors_of, short_names,
    short_names_from, DirLocation, Volume,
};
use crate::fat_common::{
    entry_of, lfn_after, list_slots, no_lfn, slot, slot_kind, Entry, Listing,
};
use vstd::prelude::*;
use vstd::utf8::encode_utf8;

verus! {

/// The first `n` sectors of `lbas` are known, and none of their slots ends the directory.
pub open spec fn passes(d: DiskView, lbas: Seq<int>, n: int) -> bool {
    &&& forall|j: int| 0 <= j < n ==> d.has(#[trigger] lbas[j])
    &&& forall|k: int| 0 <= k < 16 * n ==> !(slot_kind(#[trigger] dir_slot(d, lbas, k)) is Terminator)
}

/// A search that gets as far as a sector that is not known comes to the error of reading it.
pub proof fn search_asks_for_sectors(
    v: Volume,
    d: DiskView,
    dir: DirLocation,
    name: Seq<char>,
    n: int,
)
    requires
        dir_lbas(v, dir) matches Ok(lbas) && 0 <= n < lbas.len() && !d.has(lbas[n]) && scan(
            d,
            lbas,
            0,
            16 * n,
            no_lfn(),
            encode_utf8(name),
        ) is Some,
    ensures
        find_entry(v, d, dir, name) == Err::<(int, int, Entry), FsError>(
            d.read_error(dir_lbas(v, dir)->Ok_0[n]),
        ),
{
    let lbas = dir_lbas(v, dir)->Ok_0;
    scan_find(d, lbas, 0, 16 * n, no_lfn(), encode_utf8(name));
    assert((16 * n) / 16 == n);
}

proof fn short_names_stop(d: DiskView, lbas: Seq<int>, k: int, n: int, acc: Seq<Seq<u8>>)
    requires
        0 <= k <= 16 * n,
        0 <= n < lbas.len(),
        passes(d, lbas, n),
        !d.has(lbas[n]),
    ensures
        short_names_from(d, lbas, k, acc) == Err::<Seq<Seq<u8>>, FsError>(d.read_error(lbas[n])),
    decreases 16 * n - k,
{
    if k < 16 * n {
        assert(d.has(lbas[k / 16]));
        let raw = dir_slot(d, lbas, k);
        assert(!(slot_kind(raw) is Terminator));
        short_names_stop(d, lbas, k + 1, n, acc);
        short_names_stop(d, lbas, k + 1, n, acc.push(raw.subrange(0, 11)));
    } else {
        assert(k / 16 == n);
    }
}

/// The short names of a directory are not told while a sector of it is not known.
pub proof fn short_names_ask_for_sectors(v: Volume, d: DiskView, dir: DirLocation, n: int)
    requires
        dir_lbas(v, dir) matches Ok(lbas) && 0 <= n < lbas.len() && !d.has(lbas[n]) && passes(
            d,
            lbas,
            n,
        ),
    ensures
        short_names(v, d, dir) == Err::<Seq<Seq<u8>>, FsError>(
            d.read_error(dir_lbas(v, dir)->Ok_0[n]),
        ),
{
    short_names_stop(d, dir_lbas(v, dir)->Ok_0, 0, n, Seq::empty());
}

proof fn slots_pass(sector: Seq<u8>, i: int, st: Listing)
    requires
        0 <= i,
        !st.done,
        forall|k: int| i <= k < 16 ==> !(slot_kind(#[trigger] slot(sector, k)) is Terminator),
    ensures
        !list_slots(sector, i, st).done,
    decreases 16 - i,
{
    if i < 16 {
        let raw = slot(sector, i);
        assert(!(slot_kind(raw) is Terminator));
        let next = if slot_kind(raw) is Short {
            Listing {
                entries: st.entries.push(entry_of(raw, st.lfn)),
                lfn: lfn_after(st.lfn, raw),
                done: false,
            }
        } else {
            Listing { lfn: lfn_after(st.lfn, raw), ..st }
        };
        slots_pass(sector, i + 1, next);
    }
}

/// What a listing comes to that passes the first `n` sectors.
proof fn sectors_pass(d: DiskView, lbas: Seq<int>, j: int, n: int, st: Listing)
    requires
        0 <= j <= n <= lbas.len(),
        !st.done,
        passes(d, lbas, n),
    ensures
        n < lbas.len() && !d.has(lbas[n]) ==> list_sectors(d, lbas, j, st) == Err::<
            Listing,
            FsError,
        >(d.read_error(lbas[n])),
        n == lbas.len() ==> (list_sectors(d, lbas, j, st) matches Ok(end) && !end.done),
    decreases n - j,
{
    if j < n {
        let sector = d.at(lbas[j]);
        assert(d.has(lbas[j]));
        assert forall|i: int| 0 <= i < 16 implies !(slot_kind(#[trigger] slot(sector, i))
            is Terminator) by {
            let k = 16 * j + i;
            assert(k / 16 == j && k % 16 == i);
            assert(!(slot_kind(dir_slot(d, lbas, k)) is Terminator));
        }
        slots_pass(sector, 0, st);
        sectors_pass(d, lbas, j + 1, n, list_slots(sector, 0, st));
    }
}

proof fn runs_agree(v: Volume, d: DiskView, c: int, a: Seq<int>, b: Seq<int>, i: int)
    requires
        list_run(v, d, c, a),
        list_run(v, d, c, b),
        0 <= i < a.len(),
        i < b.len(),
    ensures
        a[i] == b[i],
    decreases i,
{
    if i > 0 {
        runs_agree(v, d, c, a, b, i - 1);
        assert(link(v.fat, a[i - 1]) == Link::Next(a[i - 1 + 1]));
        assert(link(v.fat, b[i - 1]) == Link::Next(b[i - 1 + 1]));
    }
}

proof fn no_longer(v: Volume, d: DiskView, c: int, a: Seq<int>, b: Seq<int>)
    requires
        list_run(v, d, c, a),
        list_run(v, d, c, b),
    ensures
        b.len() <= a.len(),
{
    if a.len() < b.len() {
        let i = a.len() - 1;
        assert forall|k: int| 0 <= k < a.len() implies a[k] == b[k] by {
            runs_agree(v, d, c, a, b, k);
        }
        assert(link(v.fat, b[i]) == Link::Next(b[i + 1]));
        assert(b.take(i + 1) =~= a);
    }
}

proof fn one_run(v: Volume, d: DiskView, c: int, a: Seq<int>, b: Seq<int>)
    requires
        list_run(v, d, c, a),
        list_run(v, d, c, b),
    ensures
        a == b,
{
    no_longer(v, d, c, a, b);
    no_longer(v, d, c, b, a);
    assert forall|k: int| 0 <= k < a.len() implies a[k] == b[k] by {
        runs_agree(v, d, c, a, b, k);
    }
    assert(a =~= b);
}

/// The clusters `cs` name one another in the table, from `c` on, and can be addressed.
pub open spec fn linked(v: Volume, c: int, cs: Seq<int>) -> bool {
    &&& cs.len() > 0
    &&& cs[0] == c
    &&& forall|i: int| 0 <= i < cs.len() - 1 ==> #[trigger] link(v.fat, cs[i]) == Link::Next(cs[i + 1])
    &&& forall|i: int| 0 <= i < cs.len() ==> v.addressable(#[trigger] cs[i])
}

proof fn front_goes_on(v: Volume, d: DiskView, cs: Seq<int>, n: int, i: int)
    requires
        v.sectors_per_cluster >= 1,
        0 <= i <= n <= cs.len(),
        passes(d, sectors_of(v, cs), n * v.sectors_per_cluster),
    ensures
        list_goes_on(v, d, cs.take(i)),
{
    let spc = v.sectors_per_cluster;
    let lbas = sectors_of(v, cs);
    sectors_begin(v, cs, i);
    assert(i * spc <= n * spc) by (nonlinear_arith)
        requires
            i <= n,
            spc >= 1,
    ;
    let some = sectors_of(v, cs.take(i));
    assert forall|j: int| 0 <= j < some.len() implies d.has(#[trigger] some[j]) by {
        assert(some[j] == lbas[j]);
    }
    assert forall|k: int| 0 <= k < 16 * some.len() implies !(slot_kind(
        #[trigger] dir_slot(d, some, k),
    ) is Terminator) by {
        assert(some[k / 16] == lbas[k / 16]);
        assert(!(slot_kind(dir_slot(d, lbas, k)) is Terminator));
    }
    sectors_pass(d, some, 0, some.len() as int, empty_listing());
}

/// A listing of the root directory that gets as far as a sector that is not known comes to the
/// error of reading it.
pub proof fn root_listing_asks_for_sectors(v: Volume, d: DiskView, n: int)
    requires
        0 <= n < root_sectors(v).len(),
        passes(d, root_sectors(v), n),
        !d.has(root_sectors(v)[n]),
    ensures
        listing(v, d, DirLocation::Root) == Err::<Seq<Entry>, FsError>(
            d.read_error(root_sectors(v)[n]),
        ),
{
    sectors_pass(d, root_sectors(v), 0, n, empty_listing());
}

/// A listing of another directory that gets as far as a sector that is not known comes to the
/// error of reading it.
pub proof fn listing_asks_for_sectors(v: Volume, d: DiskView, c: u32, cs: Seq<int>, s: int)
    requires
        linked(v, c as int, cs),
        0 <= s < v.sectors_per_cluster,
        passes(d, sectors_of(v, cs), (cs.len() - 1) * v.sectors_per_cluster + s),
        !d.has(v.cluster_lba(cs.last()) + s),
    ensures
        list_ready(v, d, c as int),
        listing(v, d, DirLocation::Cluster(c)) == Err::<Seq<Entry>, FsError>(
            d.read_error(v.cluster_lba(cs.last()) + s),
        ),
{
    let spc = v.sectors_per_cluster;
    let n = cs.len() as int;
    assert forall|i: int| 0 <= i < n - 1 implies #[trigger] link(v.fat, cs[i]) == Link::Next(
        cs[i + 1],
    ) && list_goes_on(v, d, cs.take(i + 1)) by {
        front_goes_on(v, d, cs, n - 1, i + 1);
    }
    sectors_are_in_order(v, cs, n - 1, s);
    sectors_pass(d, sectors_of(v, cs), 0, (n - 1) * spc + s, empty_listing());
    assert(list_run(v, d, c as int, cs));
    let picked = choose|r: Seq<int>| list_run(v, d, c as int, r);
    one_run(v, d, c as int, cs, picked);
}

/// A directory without an end marker whose chain breaks off is not listed.
pub proof fn broken_directory_is_told(
    v: Volume,
    d: DiskView,
    c: u32,
    cs: Seq<int>,
    m: &'static str,
)
    requires
        v.sectors_per_cluster >= 1,
        linked(v, c as int, cs),
        passes(d, sectors_of(v, cs), cs.len() * v.sectors_per_cluster),
        link_error(link(v.fat, cs.last())) == Some(m),
    ensures
        list_ready(v, d, c as int),
        listing(v, d, DirLocation::Cluster(c)) == Err::<Seq<Entry>, FsError>(FsError::Failed(m)),
{
    let n = cs.len() as int;
    assert forall|i: int| 0 <= i < n - 1 implies #[trigger] link(v.fat, cs[i]) == Link::Next(
        cs[i + 1],
    ) && list_goes_on(v, d, cs.take(i + 1)) by {
        front_goes_on(v, d, cs, n, i + 1);
    }
    front_goes_on(v, d, cs, n, n);
    assert(cs.take(n) =~= cs);
    assert(list_run(v, d, c as int, cs));
    let picked = choose|r: Seq<int>| list_run(v, d, c as int, r);
    one_run(v, d, c as int, cs, picked);
}

proof fn cluster_reads_on(
    v: Volume,
    d: DiskView,
    lbas: Seq<int>,
    b: int,
    c: int,
    s: int,
    stop: int,
    size: int,
    acc: Seq<u8>,
)
    requires
        d.wf(),
        0 <= b,
        0 <= s <= stop <= v.sectors_per_cluster,
        b + stop <= lbas.len(),
        stop < v.sectors_per_cluster ==> b + stop < lbas.len() && !d.has(lbas[b + stop]),
        forall|j: int|
            0 <= j < v.sectors_per_cluster && b + j < lbas.len() ==> #[trigger] lbas[b + j]
                == v.cluster_lba(c) + j,
        forall|j: int| 0 <= j < b + stop ==> d.has(#[trigger] lbas[j]),
        acc.len() == 512 * (b + s),
        512 * (b + stop) < size,
    ensures
        stop < v.sectors_per_cluster ==> read_cluster(v, d, c, s, size, acc) == Err::<
            Seq<u8>,
            FsError,
        >(d.read_error(lbas[b + stop])),
        stop == v.sectors_per_cluster ==> (read_cluster(v, d, c, s, size, acc) matches Ok(more)
            && more.len() == 512 * (b + stop)),
    decreases stop - s,
{
    if s < stop {
        assert(d.has(lbas[b + s]));
        let lba = v.cluster_lba(c) + s;
        assert(lbas[b + s] == lba);
        assert(d.at(lba).len() == 512);
        let left = size - acc.len();
        assert(left >= 512);
        cluster_reads_on(v, d, lbas, b, c, s + 1, stop, size, acc + d.at(lba).take(512));
    } else if s < v.sectors_per_cluster {
        assert(lbas[b + s] == v.cluster_lba(c) + s);
    }
}

proof fn chain_reads_on(
    v: Volume,
    d: DiskView,
    cs: Seq<int>,
    i: int,
    s: int,
    size: int,
    acc: Seq<u8>,
)
    requires
        d.wf(),
        0 <= i < cs.len(),
        forall|j: int| 0 <= j < cs.len() - 1 ==> #[trigger] link(v.fat, cs[j]) == Link::Next(cs[j + 1]),
        0 <= s < v.sectors_per_cluster,
        forall|j: int|
            0 <= j < (cs.len() - 1) * v.sectors_per_cluster + s ==> d.has(
                #[trigger] sectors_of(v, cs)[j],
            ),
        !d.has(v.cluster_lba(cs.last()) + s),
        acc.len() == 512 * (i * v.sectors_per_cluster),
        512 * ((cs.len() - 1) * v.sectors_per_cluster + s) < size,
    ensures
        read_chain(v, d, cs[i], size, acc) == Err::<Seq<u8>, FsError>(
            d.read_error(v.cluster_lba(cs.last()) + s),
        ),
    decreases cs.len() - i,
{
    let lbas = sectors_of(v, cs);
    let spc = v.sectors_per_cluster;
    let n = cs.len() as int;
    let b = i * spc;
    assert(0 <= b) by (nonlinear_arith)
        requires
            b == i * spc,
            i >= 0,
            spc >= 1,
    ;
    assert((i + 1) * spc == b + spc) by (nonlinear_arith)
        requires
            b == i * spc,
    ;
    sectors_begin(v, cs, i + 1);
    assert forall|j: int| 0 <= j < spc && b + j < lbas.len() implies #[trigger] lbas[b + j]
        == v.cluster_lba(cs[i]) + j by {
        sectors_are_in_order(v, cs, i, j);
    }
    if i < n - 1 {
        assert((i + 1) * spc <= (n - 1) * spc) by (nonlinear_arith)
            requires
                i + 1 <= n - 1,
                spc >= 1,
        ;
        cluster_reads_on(v, d, lbas, b, cs[i], 0, spc, size, acc);
        assert(link(v.fat, cs[i]) == Link::Next(cs[i + 1]));
        let more = read_cluster(v, d, cs[i], 0, size, acc)->Ok_0;
        chain_reads_on(v, d, cs, i + 1, s, size, more);
    } else {
        assert(lbas[b + s] == v.cluster_lba(cs[i]) + s);
        cluster_reads_on(v, d, lbas, b, cs[i], 0, s, size, acc);
    }
}

/// A file that is long enough to reach a sector that is not known comes to the error of reading
/// that sector.
pub proof fn file_asks_for_sectors(v: Volume, d: DiskView, cs: Seq<int>, s: int, size: int)
    requires
        d.wf(),
        cs.len() > 0,
        forall|j: int| 0 <= j < cs.len() - 1 ==> #[trigger] link(v.fat, cs[j]) == Link::Next(cs[j + 1]),
        0 <= s < v.sectors_per_cluster,
        forall|j: int|
            0 <= j < (cs.len() - 1) * v.sectors_per_cluster + s ==> d.has(
                #[trigger] sectors_of(v, cs)[j],
            ),
        !d.has(v.cluster_lba(cs.last()) + s),
        512 * ((cs.len() - 1) * v.sectors_per_cluster + s) < size,
    ensures
        read_chain(v, d, cs[0], size, Seq::empty()) == Err::<Seq<u8>, FsError>(
            d.read_error(v.cluster_lba(cs.last()) + s),
        ),
{
    assert(0 * v.sectors_per_cluster == 0);
    chain_reads_on(v, d, cs, 0, s, size, Seq::empty());
}

/// A file reads as its chain does, up to its size: an empty one takes no sector, and a directory is
/// no file.
pub proof fn files_are_their_chains(v: Volume, d: DiskView, dir: DirLocation, name: Seq<char>)
    requires
        find_entry(v, d, dir, name) is Ok,
    ensures
        find_entry(v, d, dir, name) matches Ok((_, _, e)) && {
            &&& e.is_dir ==> (file_contents(v, d, dir, name) matches Err(FsError::Failed(_)))
            &&& !e.is_dir && e.size == 0 ==> file_contents(v, d, dir, name) == Ok::<
                Seq<u8>,
                FsError,
            >(Seq::empty())
            &&& !e.is_dir && e.size > 0 ==> file_contents(v, d, dir, name) == read_chain(
                v,
                d,
                e.start_cluster as int,
                e.size as int,
                Seq::empty(),
            )
        },
{
}

} // verus!
