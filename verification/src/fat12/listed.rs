//! A listing slot by slot, over all sectors of a directory.

use crate::disk::{DiskView, FsError};
use crate::fat12::beside::{begins_marked, like, names_begin};
use crate::fat12::checks::chain_listable;
use crate::fat12::reading::list_sectors_split;
use crate::fat12::search::same_slot;
use crate::fat12::table::{chain, link, link_error, run, Link};
use crate::fat12::volume::{
    chain_ready, dir_lbas, dir_listing, dir_ready, dir_slot, empty_listing, list_goes_on,
    list_ready, list_run, list_sectors, listing, sectors_of, DirLocation, Volume,
};
use crate::fat_common::{
    entry_of, lfn_after, list_slots, no_lfn, slot, slot_kind, Entry, LfnView, Listing,
};
use vstd::prelude::*;

verus! {

/// The entries from slot `k` on, up to the end marker, with `lfn` pending.
pub open spec fn list_from(d: DiskView, lbas: Seq<int>, k: int, lfn: LfnView) -> Seq<Entry>
    decreases 16 * lbas.len() - k,
{
    if k < 0 || k >= 16 * lbas.len() {
        Seq::empty()
    } else {
        let raw = dir_slot(d, lbas, k);
        if slot_kind(raw) is Terminator {
            Seq::empty()
        } else if slot_kind(raw) is Short {
            seq![entry_of(raw, lfn)] + list_from(d, lbas, k + 1, lfn_after(lfn, raw))
        } else {
            list_from(d, lbas, k + 1, lfn_after(lfn, raw))
        }
    }
}

/// The long name that is pending in front of slot `k`.
pub open spec fn pending(d: DiskView, lbas: Seq<int>, k: int) -> LfnView
    decreases k,
{
    if k <= 0 {
        no_lfn()
    } else {
        lfn_after(pending(d, lbas, k - 1), dir_slot(d, lbas, k - 1))
    }
}

/// All these sectors are known.
pub open spec fn known(d: DiskView, lbas: Seq<int>) -> bool {
    forall|i: int| 0 <= i < lbas.len() ==> d.has(#[trigger] lbas[i])
}

/// Slot `k` ends the directory.
pub open spec fn ends_here(d: DiskView, lbas: Seq<int>, k: int) -> bool {
    slot_kind(dir_slot(d, lbas, k)) is Terminator
}

/// The sectors of a directory are known, there is nothing but end markers behind an end
/// marker, and each long name begins with the mark of a new name.
pub open spec fn orderly(d: DiskView, lbas: Seq<int>) -> bool {
    &&& known(d, lbas)
    &&& forall|k: int, m: int|
        0 <= k <= m < 16 * lbas.len() && #[trigger] ends_here(d, lbas, k) ==> #[trigger] ends_here(
            d,
            lbas,
            m,
        )
    &&& names_begin(d, lbas)
}

/// What one sector adds to a listing is what its slots add.
proof fn list_slots_is(d: DiskView, lbas: Seq<int>, j: int, i: int, st: Listing)
    requires
        0 <= j < lbas.len(),
        0 <= i <= 16,
        !st.done,
    ensures
        ({
            let out = list_slots(d.at(lbas[j]), i, st);
            st.entries + list_from(d, lbas, 16 * j + i, st.lfn) == if out.done {
                out.entries
            } else {
                out.entries + list_from(d, lbas, 16 * (j + 1), out.lfn)
            }
        }),
    decreases 16 - i,
{
    if i < 16 {
        let k = 16 * j + i;
        assert(k / 16 == j && k % 16 == i);
        let raw = slot(d.at(lbas[j]), i);
        assert(raw == dir_slot(d, lbas, k));
        if slot_kind(raw) is Terminator {
            assert(st.entries + Seq::<Entry>::empty() =~= st.entries);
        } else if slot_kind(raw) is Short {
            let next = Listing {
                entries: st.entries.push(entry_of(raw, st.lfn)),
                lfn: lfn_after(st.lfn, raw),
                done: false,
            };
            list_slots_is(d, lbas, j, i + 1, next);
            assert(st.entries + list_from(d, lbas, k, st.lfn) =~= next.entries + list_from(
                d,
                lbas,
                k + 1,
                next.lfn,
            ));
        } else {
            list_slots_is(d, lbas, j, i + 1, Listing { lfn: lfn_after(st.lfn, raw), ..st });
        }
    }
}

/// What sectors that are known add to a listing is what their slots add.
proof fn list_sectors_is(d: DiskView, lbas: Seq<int>, j: int, st: Listing)
    requires
        0 <= j <= lbas.len(),
        known(d, lbas),
        !st.done,
    ensures
        list_sectors(d, lbas, j, st) matches Ok(out) && out.entries == st.entries + list_from(
            d,
            lbas,
            16 * j,
            st.lfn,
        ),
    decreases lbas.len() - j,
{
    if j < lbas.len() {
        list_slots_is(d, lbas, j, 0, st);
        let out = list_slots(d.at(lbas[j]), 0, st);
        assert(d.has(lbas[j]));
        if out.done {
            assert(list_sectors(d, lbas, j + 1, out) == Ok::<Listing, FsError>(out));
        } else {
            list_sectors_is(d, lbas, j + 1, out);
        }
    } else {
        assert(st.entries + Seq::<Entry>::empty() =~= st.entries);
    }
}

/// The sectors of clusters in two parts.
proof fn sectors_of_parts(v: Volume, a: Seq<int>, b: Seq<int>)
    ensures
        sectors_of(v, a + b) == sectors_of(v, a) + sectors_of(v, b),
    decreases b.len(),
{
    if b.len() == 0 {
        assert(a + b =~= a);
        assert(sectors_of(v, a) + sectors_of(v, b) =~= sectors_of(v, a));
    } else {
        assert((a + b).drop_last() =~= a + b.drop_last());
        sectors_of_parts(v, a, b.drop_last());
        assert(sectors_of(v, a + b) =~= sectors_of(v, a) + sectors_of(v, b));
    }
}

/// Clusters that name one another from `c` on are the first ones of its chain.
proof fn prefix_of_chain(fat: Seq<u8>, c: int, cs: Seq<int>, r: Seq<int>, i: int)
    requires
        run(fat, c, cs),
        r.len() > 0,
        r[0] == c,
        forall|m: int| 0 <= m < r.len() - 1 ==> #[trigger] link(fat, r[m]) == Link::Next(r[m + 1]),
        0 <= i < r.len(),
    ensures
        i < cs.len(),
        r[i] == cs[i],
    decreases i,
{
    if i > 0 {
        prefix_of_chain(fat, c, cs, r, i - 1);
        assert(link(fat, r[i - 1]) == Link::Next(r[i]));
        if i - 1 < cs.len() - 1 {
            assert(link(fat, cs[i - 1]) == Link::Next(cs[i]));
        }
    }
}

/// The listing of the directory at `c` is that of all slots of its chain.
proof fn dir_listing_is(v: Volume, d: DiskView, c: int)
    requires
        chain_ready(v, c),
        link_error(link(v.fat, chain(v.fat, c).last())) is None,
        known(d, sectors_of(v, chain(v.fat, c))),
    ensures
        list_ready(v, d, c),
        dir_listing(v, d, c) == Ok::<Seq<Entry>, FsError>(
            list_from(d, sectors_of(v, chain(v.fat, c)), 0, no_lfn()),
        ),
{
    let cs = chain(v.fat, c);
    assert(run(v.fat, c, cs));
    chain_listable(v, d, c);
    let r = choose|r: Seq<int>| list_run(v, d, c, r);
    assert(list_run(v, d, c, r));
    prefix_of_chain(v.fat, c, cs, r, r.len() - 1);
    let rest = cs.skip(r.len() as int);
    assert(r + rest =~= cs) by {
        assert forall|i: int| 0 <= i < r.len() implies r[i] == cs[i] by {
            prefix_of_chain(v.fat, c, cs, r, i);
        }
    }
    sectors_of_parts(v, r, rest);
    let a = sectors_of(v, r);
    let b = sectors_of(v, rest);
    let all = sectors_of(v, cs);
    assert forall|i: int| 0 <= i < a.len() implies d.has(#[trigger] a[i]) by {
        assert(all[i] == a[i]);
    }
    list_sectors_is(d, a, 0, empty_listing());
    list_sectors_is(d, all, 0, empty_listing());
    list_sectors_split(d, a, b, empty_listing());
    let mid = list_sectors(d, a, 0, empty_listing())->Ok_0;
    let want = list_from(d, all, 0, no_lfn());
    assert(empty_listing().entries + want =~= want);
    if mid.done {
        assert(list_sectors(d, b, 0, mid) == Ok::<Listing, FsError>(mid));
    } else {
        assert(list_goes_on(v, d, r));
        assert(r.len() == cs.len()) by {
            if r.len() < cs.len() {
                let i = r.len() - 1;
                assert(link(v.fat, cs[i]) == Link::Next(cs[i + 1]));
                assert(r[i] == cs[i]);
            }
        }
        assert(rest =~= Seq::<int>::empty());
        assert(b =~= Seq::<int>::empty());
        assert(list_sectors(d, b, 0, mid) == Ok::<Listing, FsError>(mid));
        assert(r.last() == cs.last());
    }
}

/// The listing of a directory is that of all its slots.
pub proof fn listing_is(v: Volume, d: DiskView, dir: DirLocation)
    requires
        dir_ready(v, dir),
        dir_lbas(v, dir) matches Ok(lbas) && known(d, lbas),
    ensures
        listing(v, d, dir) == Ok::<Seq<Entry>, FsError>(
            list_from(d, dir_lbas(v, dir)->Ok_0, 0, no_lfn()),
        ),
        dir matches DirLocation::Cluster(c) ==> list_ready(v, d, c as int),
{
    let lbas = dir_lbas(v, dir)->Ok_0;
    match dir {
        DirLocation::Root => {
            list_sectors_is(d, lbas, 0, empty_listing());
            let want = list_from(d, lbas, 0, no_lfn());
            assert(empty_listing().entries + want =~= want);
        },
        DirLocation::Cluster(c) => {
            dir_listing_is(v, d, c as int);
        },
    }
}

/// The entries behind slots that are the same are the same, also with a pending name that
/// no slot tells apart.
pub proof fn list_like(
    d: DiskView,
    d2: DiskView,
    lbas: Seq<int>,
    k: int,
    lfn: LfnView,
    lfn2: LfnView,
)
    requires
        0 < k,
        like(lfn, lfn2),
        lfn.chunks.len() == 0 ==> !(slot_kind(dir_slot(d, lbas, k - 1)) is LongName),
        forall|m: int| k <= m < 16 * lbas.len() ==> #[trigger] begins_marked(d, lbas, m),
        forall|m: int| k <= m < 16 * lbas.len() ==> #[trigger] same_slot(d, d2, lbas, m),
    ensures
        list_from(d2, lbas, k, lfn2) == list_from(d, lbas, k, lfn),
    decreases 16 * lbas.len() - k,
{
    if k < 16 * lbas.len() {
        let raw = dir_slot(d, lbas, k);
        assert(same_slot(d, d2, lbas, k));
        assert(begins_marked(d, lbas, k));
        let a = lfn_after(lfn, raw);
        let b = lfn_after(lfn2, raw);
        if lfn != lfn2 && slot_kind(raw) is LongName {
            assert(a =~= b);
        }
        assert(entry_of(raw, lfn) == entry_of(raw, lfn2));
        list_like(d, d2, lbas, k + 1, a, b);
    }
}

/// Sectors that hold end markers only add nothing to a listing.
pub proof fn list_extended(
    d: DiskView,
    d2: DiskView,
    a: Seq<int>,
    b: Seq<int>,
    k: int,
    lfn: LfnView,
)
    requires
        0 <= k,
        forall|i: int| 0 <= i < a.len() ==> #[trigger] d.at(a[i]) == d2.at(a[i]),
        forall|m: int|
            16 * a.len() <= m < 16 * (a + b).len() ==> #[trigger] ends_here(d2, a + b, m),
    ensures
        list_from(d2, a + b, k, lfn) == list_from(d, a, k, lfn),
    decreases 16 * a.len() - k,
{
    if k < 16 * a.len() {
        assert((a + b)[k / 16] == a[k / 16]);
        assert(d.at(a[k / 16]) == d2.at(a[k / 16]));
        list_extended(d, d2, a, b, k + 1, lfn_after(lfn, dir_slot(d, a, k)));
    } else if k < 16 * (a + b).len() {
        assert(ends_here(d2, a + b, k));
    }
}

} // verus!
