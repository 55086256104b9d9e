//! A new entry shows in the listing of its directory, and the others stay as they are.

use crate::disk::{DiskView, FsError};
use crate::fat12::beside::{
    begins_marked, entered, entries_fit, grown_sector_is_free, name_entries_fit,
};
use crate::fat12::changes::{
    clusters_needed, create_directory, create_directory_ready, create_file, create_ready,
    data_block, dot_entries, dot_name, file_entry, find_run, free_slot, grow_directory, lay_chain,
    pick_free, put_entries, reserve, run_at, subdir_entry, write_cluster, Store,
};
use crate::fat12::creation::{
    append_effect, grow_effect, grow_sectors, grown_is_zero, in_reach, lfn_behind, made_up_name,
    name_absent, open_before, picked_apart, put_entries_effect, spelled_goes_by, spells,
};
use crate::fat12::frames::{in_cluster, picked, run_in_dir};
use crate::fat12::fresh::{dot_entry, dot_entry_reads, fresh_lists, parent_cluster};
use crate::fat12::laid::{
    cluster_holds, clusters_suffice, holds_with_fat, lay_chain_holds, lay_chain_keeps,
    sector_apart,
};
use crate::fat12::laws::{chain_in_use, lay_keeps_dir};
use crate::fat12::listed::{
    ends_here, list_extended, list_from, list_like, listing_is, orderly, pending,
};
use crate::fat12::names::{
    dir_entry_bytes, fat_datetime, fits_short, lfn_byte, lfn_entries, name_entries, short_field,
    uppered, valid_long,
};
use crate::fat12::resizing::laid_is_chain;
use crate::fat12::search::{dir_lbas_distinct, same_slot};
use crate::fat12::spelling::{
    as_chars, ascii_name, entries_add_up, file_entry_reads, lfn_after_entries, plain_short,
    short_name_spelled, subdir_entry_reads,
};
use crate::fat12::table::{chain, ends, in_table, link};
use crate::fat12::volume::{
    chain_ready, cluster_sectors, dir_lbas, dir_ready, dir_slot, find_from, listing, sectors_of,
    DirLocation, Volume,
};
use crate::fat_common::{entry_of, lfn_after, no_lfn, slot, slot_kind, Entry, LfnView};
use crate::rtc::RtcTime;
use crate::text::same_name;
use vstd::prelude::*;
use vstd::utf8::encode_utf8;

verus! {

/// What putting entries into a sector does to the slots of the directory.
pub proof fn put_slots(
    d: DiskView,
    lbas: Seq<int>,
    j: int,
    first: int,
    long: Seq<Seq<u8>>,
    e: Seq<u8>,
)
    requires
        lbas.no_duplicates(),
        0 <= j < lbas.len(),
        d.has(lbas[j]),
        d.at(lbas[j]).len() == 512,
        0 <= first,
        first + long.len() + 1 <= 16,
        entries_fit(long, e),
    ensures
        ({
            let after = put_entries(d, lbas[j], first, long.push(e), 0);
            let p = 16 * j + first;
            &&& forall|l: int| #![trigger after.has(l)] after.has(l) == d.has(l)
            &&& forall|m: int|
                0 <= m < 16 * lbas.len() && !(p <= m <= p + long.len()) ==> #[trigger] same_slot(
                    d,
                    after,
                    lbas,
                    m,
                )
            &&& forall|m: int|
                p <= m < p + long.len() ==> #[trigger] dir_slot(after, lbas, m) == long[m - p]
            &&& dir_slot(after, lbas, p + long.len()) == e
        }),
{
    let all = long.push(e);
    let n = long.len() as int;
    let lba = lbas[j];
    let p = 16 * j + first;
    let after = put_entries(d, lba, first, all, 0);
    assert forall|i: int| 0 <= i < all.len() implies (#[trigger] all[i]).len() == 32 by {
        if i < n {
            assert(long[i].len() == 32);
        }
    }
    put_entries_effect(d, lba, first, all, 0);
    assert forall|m: int| 0 <= m < 16 * lbas.len() && !(p <= m <= p + n) implies #[trigger] same_slot(
        d,
        after,
        lbas,
        m,
    ) by {
        assert(after.has(lbas[m / 16]) == d.has(lbas[m / 16]));
        if m / 16 == j {
            assert(slot(after.at(lba), m % 16) == slot(d.at(lba), m % 16));
        } else {
            assert(lbas[m / 16] != lba);
            assert(after.at(lbas[m / 16]) == d.at(lbas[m / 16]));
        }
    }
    assert forall|m: int| p <= m <= p + n implies #[trigger] dir_slot(after, lbas, m) == all[m - p] by {
        assert(m / 16 == j && m % 16 == first + (m - p));
        assert(slot(after.at(lba), m % 16) == all[m - p]);
    }
    assert forall|m: int| p <= m < p + n implies #[trigger] dir_slot(after, lbas, m) == long[m - p] by {
        assert(dir_slot(after, lbas, m) == all[m - p]);
    }
    assert(dir_slot(after, lbas, p + n) == all[n]);
}

/// In front of a new entry a listing goes on as before, and there it has one more.
proof fn inserted(d: DiskView, after: DiskView, lbas: Seq<int>, k: int, p: int, new: Entry) -> (i:
    int)
    requires
        0 <= k <= p <= 16 * lbas.len(),
        forall|m: int| 0 <= m < p ==> #[trigger] same_slot(d, after, lbas, m),
        open_before(d, lbas, p),
        list_from(after, lbas, p, pending(d, lbas, p)) == seq![new] + list_from(
            d,
            lbas,
            p,
            pending(d, lbas, p),
        ),
    ensures
        0 <= i <= list_from(d, lbas, k, pending(d, lbas, k)).len(),
        list_from(after, lbas, k, pending(d, lbas, k)) == list_from(
            d,
            lbas,
            k,
            pending(d, lbas, k),
        ).insert(i, new),
    decreases p - k,
{
    let l = pending(d, lbas, k);
    let before = list_from(d, lbas, k, l);
    if k == p {
        assert(seq![new] + before =~= before.insert(0, new));
        0
    } else {
        let i = inserted(d, after, lbas, k + 1, p, new);
        let raw = dir_slot(d, lbas, k);
        assert(same_slot(d, after, lbas, k));
        assert(!(slot_kind(raw) is Terminator));
        assert(pending(d, lbas, k + 1) == lfn_after(l, raw));
        if slot_kind(raw) is Short {
            let rest = list_from(d, lbas, k + 1, lfn_after(l, raw));
            assert(before.insert(i + 1, new) =~= seq![entry_of(raw, l)] + rest.insert(i, new));
            i + 1
        } else {
            i
        }
    }
}

/// A listing goes through long-name entries.
proof fn passes_long(
    d: DiskView,
    lbas: Seq<int>,
    p: int,
    long: Seq<Seq<u8>>,
    m: int,
    lfn: LfnView,
)
    requires
        0 <= p,
        0 <= m <= long.len(),
        p + long.len() <= 16 * lbas.len(),
        forall|i: int| 0 <= i < long.len() ==> slot_kind(#[trigger] long[i]) is LongName,
        forall|k: int|
            p <= k < p + long.len() ==> #[trigger] dir_slot(d, lbas, k) == long[k - p],
    ensures
        list_from(d, lbas, p, lfn) == list_from(d, lbas, p + m, lfn_behind(lfn, long, m)),
    decreases m,
{
    if m > 0 {
        passes_long(d, lbas, p, long, m - 1, lfn);
        assert(dir_slot(d, lbas, p + m - 1) == long[m - 1]);
    }
}

/// A listing goes through deleted slots, or ends there.
proof fn passes_free(d: DiskView, lbas: Seq<int>, k: int, q: int, lfn: LfnView) -> (r: Option<LfnView>)
    requires
        0 <= k <= q <= 16 * lbas.len(),
        forall|m: int| k <= m < q ==> free_slot(#[trigger] dir_slot(d, lbas, m)),
    ensures
        match r {
            None => list_from(d, lbas, k, lfn) == Seq::<Entry>::empty() && exists|t: int|
                k <= t < q && #[trigger] ends_here(d, lbas, t),
            Some(l) => list_from(d, lbas, k, lfn) == list_from(d, lbas, q, l) && (if k < q {
                l.chunks.len() == 0 && slot_kind(dir_slot(d, lbas, q - 1)) is Deleted
            } else {
                l == lfn
            }),
        },
    decreases q - k,
{
    if k == q {
        Some(lfn)
    } else {
        let raw = dir_slot(d, lbas, k);
        assert(free_slot(raw));
        if raw[0] == 0 {
            assert(ends_here(d, lbas, k));
            None
        } else {
            passes_free(d, lbas, k + 1, q, lfn_after(lfn, raw))
        }
    }
}

/// The long-name entries of a new name begin with the mark of one.
pub open spec fn marked(long: Seq<Seq<u8>>) -> bool {
    long.len() > 0 ==> long[0][0] & 0x40 != 0
}

/// Entries that are put into free slots, of which none is behind the end marker, add one
/// entry to the listing, and leave the directory in order.
proof fn put_is_listed(
    d: DiskView,
    lbas: Seq<int>,
    j: int,
    first: int,
    long: Seq<Seq<u8>>,
    e: Seq<u8>,
) -> (i: int)
    requires
        lbas.no_duplicates(),
        0 <= j < lbas.len(),
        orderly(d, lbas),
        d.at(lbas[j]).len() == 512,
        run_at(d.at(lbas[j]), first, (long.len() + 1) as int),
        open_before(d, lbas, 16 * j + first),
        entries_fit(long, e),
        slot_kind(e) is Short,
        marked(long),
    ensures
        ({
            let after = put_entries(d, lbas[j], first, long.push(e), 0);
            let before = list_from(d, lbas, 0, no_lfn());
            let lfn = lfn_behind(
                pending(d, lbas, 16 * j + first),
                long,
                long.len() as int,
            );
            &&& orderly(after, lbas)
            &&& 0 <= i <= before.len()
            &&& list_from(after, lbas, 0, no_lfn()) == before.insert(i, entry_of(e, lfn))
        }),
{
    let n = long.len() as int;
    let p = 16 * j + first;
    let q = p + n + 1;
    let after = put_entries(d, lbas[j], first, long.push(e), 0);
    assert(d.has(lbas[j]));
    put_slots(d, lbas, j, first, long, e);
    let l0 = pending(d, lbas, p);
    let lb = lfn_behind(l0, long, n);
    passes_long(after, lbas, p, long, n, l0);
    let new = entry_of(e, lb);
    assert(list_from(after, lbas, p + n, lb) == seq![new] + list_from(after, lbas, q, lb.cleared()));
    assert forall|m: int| p <= m < q implies free_slot(#[trigger] dir_slot(d, lbas, m)) by {
        assert(m / 16 == j && m % 16 == first + (m - p));
        assert(free_slot(slot(d.at(lbas[j]), m % 16)));
    }
    let r = passes_free(d, lbas, p, q, l0);
    assert(list_from(after, lbas, q, lb.cleared()) == list_from(d, lbas, p, l0)) by {
        match r {
            None => {
                let t = choose|t: int| p <= t < q && #[trigger] ends_here(d, lbas, t);
                if q < 16 * lbas.len() {
                    assert(ends_here(d, lbas, q));
                    assert(same_slot(d, after, lbas, q));
                }
            },
            Some(l) => {
                assert forall|m: int| q <= m < 16 * lbas.len() implies #[trigger] begins_marked(
                    d,
                    lbas,
                    m,
                ) by {}
                list_like(d, after, lbas, q, l, lb.cleared());
            },
        }
    }
    assert forall|m: int| 0 <= m < 16 * lbas.len() implies #[trigger] begins_marked(
        after,
        lbas,
        m,
    ) by {
        assert(begins_marked(d, lbas, m));
        if p <= m < p + n {
            assert(dir_slot(after, lbas, m) == long[m - p]);
            if m > p {
                assert(dir_slot(after, lbas, m - 1) == long[m - 1 - p]);
            }
        } else if m != p + n {
            assert(same_slot(d, after, lbas, m));
            if m == q {
                assert(free_slot(dir_slot(d, lbas, q - 1)));
            } else if m > 0 {
                assert(same_slot(d, after, lbas, m - 1));
            }
        }
    }
    assert forall|k: int, m: int|
        0 <= k <= m < 16 * lbas.len() && #[trigger] ends_here(after, lbas, k) implies #[trigger] ends_here(
        after,
        lbas,
        m,
    ) by {
        if k < p {
            assert(same_slot(d, after, lbas, k));
            assert(!(slot_kind(dir_slot(d, lbas, k)) is Terminator));
        } else if k < p + n {
            assert(dir_slot(after, lbas, k) == long[k - p]);
        } else if k >= q {
            assert(same_slot(d, after, lbas, k));
            assert(ends_here(d, lbas, k));
            assert(ends_here(d, lbas, m));
            assert(same_slot(d, after, lbas, m));
        }
    }
    assert forall|x: int| 0 <= x < lbas.len() implies after.has(#[trigger] lbas[x]) by {
        assert(d.has(lbas[x]));
    }
    inserted(d, after, lbas, 0, p, new)
}

/// What is known once slots are reserved in a directory that is in order.
pub open spec fn reserved_in_order(
    st: Store,
    st1: Store,
    dir: DirLocation,
    at: (int, int),
    count: int,
    j: int,
) -> bool {
    &&& st1.mounted()
    &&& st1.v == st.v.with_fat(st1.v.fat)
    &&& st1.v.fat.len() == st.v.fat.len()
    &&& dir_ready(st1.v, dir)
    &&& dir is Root ==> st1 == st
    &&& forall|x: int| #[trigger] link(st1.v.fat, x) is Free ==> link(st.v.fat, x) is Free
    &&& run_at(st1.d.at(at.0), at.1, count)
    &&& dir_lbas(st1.v, dir) matches Ok(lbas) && {
        &&& 0 <= j < lbas.len()
        &&& lbas[j] == at.0
        &&& lbas.index_of(at.0) == j
        &&& orderly(st1.d, lbas)
        &&& open_before(st1.d, lbas, 16 * j + at.1)
        &&& list_from(st1.d, lbas, 0, no_lfn()) == list_from(
            st.d,
            dir_lbas(st.v, dir)->Ok_0,
            0,
            no_lfn(),
        )
    }
}

/// A directory in order that grows stays in order, and lists the same.
proof fn growing_keeps_order(st: Store, c: u32)
    requires
        st.mounted(),
        st.v.clusters_fit(),
        chain_ready(st.v, c as int),
        dir_lbas(st.v, DirLocation::Cluster(c)) matches Ok(lbas) && orderly(st.d, lbas)
            && open_before(st.d, lbas, 16 * lbas.len() as int),
        pick_free(st.v, 1) is Ok,
        (pick_free(st.v, 1)->Ok_0)[0] < 0xFF8,
    ensures
        ({
            let dir = DirLocation::Cluster(c);
            let st1 = grow_directory(st, c as int).0;
            let lbas = dir_lbas(st.v, dir)->Ok_0;
            let new = (pick_free(st.v, 1)->Ok_0)[0];
            let lbas1 = lbas + cluster_sectors(st.v, new);
            &&& dir_lbas(st1.v, dir) == Ok::<Seq<int>, FsError>(lbas1)
            &&& orderly(st1.d, lbas1)
            &&& open_before(st1.d, lbas1, 16 * lbas.len() as int)
            &&& list_from(st1.d, lbas1, 0, no_lfn()) == list_from(st.d, lbas, 0, no_lfn())
        }),
{
    let dir = DirLocation::Cluster(c);
    let st1 = grow_directory(st, c as int).0;
    let lbas = dir_lbas(st.v, dir)->Ok_0;
    let new = (pick_free(st.v, 1)->Ok_0)[0];
    let more = cluster_sectors(st.v, new);
    let lbas1 = lbas + more;
    grow_effect(st, c as int);
    grow_sectors(st, c as int);
    let n = 16 * lbas.len() as int;
    assert forall|m: int| 0 <= m < n implies dir_slot(st1.d, lbas1, m) == #[trigger] dir_slot(
        st.d,
        lbas,
        m,
    ) by {
        assert(lbas1[m / 16] == lbas[m / 16]);
        assert(st.d.at(lbas[m / 16]) == st1.d.at(lbas[m / 16]));
    }
    assert forall|m: int| n <= m < 16 * lbas1.len() implies #[trigger] ends_here(
        st1.d,
        lbas1,
        m,
    ) by {
        let s = m / 16 - lbas.len();
        assert(lbas1[m / 16] == more[s]);
        grown_is_zero(st, c as int, s);
        let zeros = st1.d.at(lbas1[m / 16]);
        assert(slot(zeros, m % 16)[0] == zeros[32 * (m % 16)]);
    }
    assert forall|i: int| 0 <= i < lbas1.len() implies st1.d.has(#[trigger] lbas1[i]) by {
        if i < lbas.len() {
            assert(lbas1[i] == lbas[i]);
            assert(st.d.has(lbas[i]));
        } else {
            assert(lbas1[i] == more[i - lbas.len()]);
            grown_is_zero(st, c as int, i - lbas.len());
        }
    }
    assert forall|m: int| 0 <= m < n implies !(slot_kind(
        #[trigger] dir_slot(st1.d, lbas1, m),
    ) is Terminator) by {
        assert(!(slot_kind(dir_slot(st.d, lbas, m)) is Terminator));
    }
    assert forall|k: int, m: int|
        0 <= k <= m < 16 * lbas1.len() && #[trigger] ends_here(st1.d, lbas1, k) implies #[trigger] ends_here(
        st1.d,
        lbas1,
        m,
    ) by {
        if k < n {
            assert(!(slot_kind(dir_slot(st1.d, lbas1, k)) is Terminator));
        }
    }
    assert forall|m: int| 0 <= m < 16 * lbas1.len() implies #[trigger] begins_marked(
        st1.d,
        lbas1,
        m,
    ) by {
        if m < n {
            assert(begins_marked(st.d, lbas, m));
            assert(dir_slot(st1.d, lbas1, m) == dir_slot(st.d, lbas, m));
            if m > 0 {
                assert(dir_slot(st1.d, lbas1, m - 1) == dir_slot(st.d, lbas, m - 1));
            }
        } else {
            assert(ends_here(st1.d, lbas1, m));
        }
    }
    list_extended(st.d, st1.d, lbas, more, 0, no_lfn());
}

/// Reserving slots in a directory in order leaves it in order.
pub proof fn reserve_in_order(st: Store, dir: DirLocation, count: int) -> (j: int)
    requires
        st.mounted(),
        st.v.clusters_fit(),
        dir_ready(st.v, dir),
        1 <= count <= 16,
        reserve(st, dir, count).1 is Ok,
        in_reach(st, dir, count),
        dir_lbas(st.v, dir) matches Ok(lbas) && orderly(st.d, lbas),
    ensures
        reserved_in_order(
            st,
            reserve(st, dir, count).0,
            dir,
            reserve(st, dir, count).1->Ok_0,
            count,
            j,
        ),
{
    reveal(reserve);
    let lbas = dir_lbas(st.v, dir)->Ok_0;
    run_in_dir(st.d, lbas, 0, count);
    dir_lbas_distinct(st.v, dir);
    match find_run(st.d, lbas, 0, count) {
        Ok(Some((lba, first))) => {
            let j = choose|j: int|
                0 <= j < lbas.len() && #[trigger] lbas[j] == lba && open_before(
                    st.d,
                    lbas,
                    16 * j + first,
                );
            assert(lbas[lbas.index_of(lba)] == lba);
            j
        },
        _ => {
            let c = dir->0;
            grow_effect(st, c as int);
            growing_keeps_order(st, c);
            grown_sector_is_free(st, c as int, count);
            let st1 = grow_directory(st, c as int).0;
            picked(st.v, 1);
            let new = (pick_free(st.v, 1)->Ok_0)[0];
            assert(link(st.v.fat, new) is Free && in_table(st.v.fat, new) && 2 <= new);
            let cs = chain(st.v.fat, c as int);
            chain_in_use(st.v.fat, c as int);
            assert(in_table(st.v.fat, cs[cs.len() - 1]) && !(link(st.v.fat, cs[cs.len() - 1]) is Free));
            append_effect(st, cs.last(), new);
            assert forall|x: int| #[trigger] link(st1.v.fat, x) is Free implies link(
                st.v.fat,
                x,
            ) is Free by {}
            let lbas1 = lbas + cluster_sectors(st.v, new);
            let n = lbas.len() as int;
            assert(lbas1[n] == st.v.cluster_lba(new));
            dir_lbas_distinct(st1.v, dir);
            assert(lbas1[lbas1.index_of(lbas1[n])] == lbas1[n]);
            n
        },
    }
}

/// What is pending in front of a slot depends on the slots in front of it only.
proof fn pending_agree(d: DiskView, d2: DiskView, lbas: Seq<int>, k: int)
    requires
        forall|m: int| 0 <= m < k ==> #[trigger] same_slot(d, d2, lbas, m),
    ensures
        pending(d2, lbas, k) == pending(d, lbas, k),
    decreases k,
{
    if k > 0 {
        pending_agree(d, d2, lbas, k - 1);
        assert(same_slot(d, d2, lbas, k - 1));
    }
}

/// The entries of a directory depend on its slots only.
proof fn list_agree(d: DiskView, d2: DiskView, lbas: Seq<int>, k: int, lfn: LfnView)
    requires
        0 <= k,
        forall|m: int| 0 <= m < 16 * lbas.len() ==> #[trigger] same_slot(d, d2, lbas, m),
    ensures
        list_from(d2, lbas, k, lfn) == list_from(d, lbas, k, lfn),
    decreases 16 * lbas.len() - k,
{
    if k < 16 * lbas.len() {
        assert(same_slot(d, d2, lbas, k));
        list_agree(d, d2, lbas, k + 1, lfn_after(lfn, dir_slot(d, lbas, k)));
    }
}

/// A directory with the same slots is in order too.
proof fn order_agrees(d: DiskView, d2: DiskView, lbas: Seq<int>)
    requires
        orderly(d, lbas),
        forall|m: int| 0 <= m < 16 * lbas.len() ==> #[trigger] same_slot(d, d2, lbas, m),
    ensures
        orderly(d2, lbas),
{
    assert forall|i: int| 0 <= i < lbas.len() implies d2.has(#[trigger] lbas[i]) by {
        assert(same_slot(d, d2, lbas, 16 * i));
        assert(d.has(lbas[i]));
    }
    assert forall|k: int, m: int|
        0 <= k <= m < 16 * lbas.len() && #[trigger] ends_here(d2, lbas, k) implies #[trigger] ends_here(
        d2,
        lbas,
        m,
    ) by {
        assert(same_slot(d, d2, lbas, k) && same_slot(d, d2, lbas, m));
        assert(ends_here(d, lbas, k));
        assert(ends_here(d, lbas, m));
    }
    assert forall|m: int| 0 <= m < 16 * lbas.len() implies #[trigger] begins_marked(d2, lbas, m) by {
        assert(begins_marked(d, lbas, m));
        assert(same_slot(d, d2, lbas, m));
        if m > 0 {
            assert(same_slot(d, d2, lbas, m - 1));
        }
    }
}

/// What is pending in front of the slots that are reserved for a new entry.
pub open spec fn pending_at(st: Store, dir: DirLocation, count: int) -> LfnView {
    let (st1, at) = reserve(st, dir, count);
    let lbas = dir_lbas(st1.v, dir)->Ok_0;
    pending(st1.d, lbas, 16 * lbas.index_of((at->Ok_0).0) + (at->Ok_0).1)
}

/// Contents and entries that are added to a directory in order add one entry to its listing,
/// and leave it in order.
pub proof fn added_is_listed(
    st: Store,
    dir: DirLocation,
    long: Seq<Seq<u8>>,
    e: Seq<u8>,
    need: int,
    data: Seq<u8>,
) -> (i: int)
    requires
        st.mounted(),
        st.v.clusters_fit(),
        dir_ready(st.v, dir),
        need >= 0,
        long.len() <= 15,
        reserve(st, dir, (long.len() + 1) as int).1 is Ok,
        pick_free(reserve(st, dir, (long.len() + 1) as int).0.v, need) is Ok,
        in_reach(st, dir, (long.len() + 1) as int),
        dir_lbas(st.v, dir) matches Ok(lbas) && orderly(st.d, lbas),
        entries_fit(long, e),
        slot_kind(e) is Short,
        marked(long),
    ensures
        ({
            let count = (long.len() + 1) as int;
            let (st1, at) = reserve(st, dir, count);
            let (lba, first) = at->Ok_0;
            let st2 = lay_chain(st1, pick_free(st1.v, need)->Ok_0, 0, data);
            let after = entered(st2, lba, first, long, e);
            let lfn = lfn_behind(pending_at(st, dir, count), long, long.len() as int);
            let before = list_from(st.d, dir_lbas(st.v, dir)->Ok_0, 0, no_lfn());
            &&& listing(st.v, st.d, dir) == Ok::<Seq<Entry>, FsError>(before)
            &&& 0 <= i <= before.len()
            &&& listing(after.v, after.d, dir) == Ok::<Seq<Entry>, FsError>(
                before.insert(i, entry_of(e, lfn)),
            )
            &&& dir_ready(after.v, dir)
            &&& dir_lbas(after.v, dir) matches Ok(lbas) && orderly(after.d, lbas)
        }),
{
    let count = (long.len() + 1) as int;
    let (st1, at) = reserve(st, dir, count);
    let (lba, first) = at->Ok_0;
    let j = reserve_in_order(st, dir, count);
    let lbas = dir_lbas(st1.v, dir)->Ok_0;
    let cs = pick_free(st1.v, need)->Ok_0;
    picked_apart(st1.v, dir, need);
    let st2 = lay_chain(st1, cs, 0, data);
    lay_keeps_dir(st1, st1, dir, cs, data);
    dir_lbas_distinct(st1.v, dir);
    assert forall|m: int| 0 <= m < 16 * lbas.len() implies #[trigger] same_slot(
        st1.d,
        st2.d,
        lbas,
        m,
    ) by {
        assert(st2.d.at(lbas[m / 16]) == st1.d.at(lbas[m / 16]));
    }
    order_agrees(st1.d, st2.d, lbas);
    list_agree(st1.d, st2.d, lbas, 0, no_lfn());
    let p = 16 * j + first;
    assert(p <= 16 * lbas.len());
    pending_agree(st1.d, st2.d, lbas, p);
    assert forall|k: int| 0 <= k < p implies !(slot_kind(#[trigger] dir_slot(st2.d, lbas, k)) is Terminator) by {
        assert(same_slot(st1.d, st2.d, lbas, k));
        assert(!(slot_kind(dir_slot(st1.d, lbas, k)) is Terminator));
    }
    assert(st2.d.at(lbas[j]) == st1.d.at(lbas[j]));
    assert(st1.d.has(lbas[j]));
    let i = put_is_listed(st2.d, lbas, j, first, long, e);
    let after = entered(st2, lba, first, long, e);
    listing_is(st.v, st.d, dir);
    listing_is(after.v, after.d, dir);
    i
}

/// The long-name entries of a name begin with the mark of one.
proof fn name_is_marked(b: Seq<u8>, short: Seq<u8>)
    requires
        valid_long(b),
    ensures
        marked(lfn_entries(b, short)),
{
    // One entry of a new name leaves one chunk pending, whatever was pending before.
    let some = LfnView { chunks: seq![Seq::<u16>::empty()], checksum: 0 };
    entries_add_up(some, b, short, 0);
    entries_add_up(some, b, short, 1);
    let first = lfn_entries(b, short)[0];
    assert(lfn_after_entries(some, b, short, 0) == some);
    assert(lfn_after_entries(some, b, short, 1) == some.pushed(first));
    assert(some.pushed(first).chunks.len() == 1);
}

/// A name that reads in a listing as it is spelled: a short one that is plain, with no other
/// name pending in front of its slot that would be taken for its long name, or a long one.
pub open spec fn shows_as_spelled(st: Store, dir: DirLocation, name: Seq<char>) -> bool {
    let b = encode_utf8(name);
    fits_short(b) ==> plain_short(b) && pending_at(st, dir, 1).verified(short_field(b)) is None
}

/// The slots that the entries of a new name take are in reach.
pub open spec fn name_in_reach(st: Store, dir: DirLocation, name: Seq<char>) -> bool {
    name_entries(st.v, st.d, dir, name) matches Ok((short, long)) ==> in_reach(
        st,
        dir,
        (long.len() + 1) as int,
    )
}

/// The name under which an entry is listed: as it was spelled, but a short name in capital
/// letters.
pub open spec fn listed_name(name: Seq<char>) -> Seq<char> {
    if fits_short(encode_utf8(name)) {
        as_chars(uppered(encode_utf8(name)))
    } else {
        name
    }
}

/// A short entry reads under the name that it was made for.
proof fn new_entry_reads(
    st: Store,
    dir: DirLocation,
    name: Seq<char>,
    long: Seq<Seq<u8>>,
    e: Seq<u8>,
)
    requires
        name_entries(st.v, st.d, dir, name) matches Ok((short, l)) && l == long && e.subrange(0, 11)
            == short,
        e.len() == 32,
        slot_kind(e) is Short,
        shows_as_spelled(st, dir, name),
    ensures
        entry_of(
            e,
            lfn_behind(
                pending_at(st, dir, (long.len() + 1) as int),
                long,
                long.len() as int,
            ),
        ).name == listed_name(name),
        marked(long),
{
    let b = encode_utf8(name);
    let short = (name_entries(st.v, st.d, dir, name)->Ok_0).0;
    made_up_name(st.v, st.d, dir, name);
    if fits_short(b) {
        short_name_spelled(b, e);
    } else {
        assert(spells(long, e, b));
        spelled_goes_by(pending_at(st, dir, (long.len() + 1) as int), long, e, b);
        assert forall|i: int| 0 <= i < b.len() implies #[trigger] b[i] < 128 by {
            assert(lfn_byte(b[i]));
        }
        ascii_name(name);
        name_is_marked(b, short);
    }
}

/// A name in capital letters is listed as it is.
pub proof fn capitals_are_listed(name: Seq<char>)
    requires
        fits_short(encode_utf8(name)) ==> plain_short(encode_utf8(name)) && uppered(
            encode_utf8(name),
        ) == encode_utf8(name),
    ensures
        listed_name(name) == name,
{
    if fits_short(encode_utf8(name)) {
        ascii_name(name);
    }
}

/// No entry of a directory is listed under a name that is not found there.
proof fn absent_is_not_listed(
    d: DiskView,
    lbas: Seq<int>,
    k: int,
    lfn: LfnView,
    target: Seq<u8>,
    m: int,
)
    requires
        0 <= k,
        find_from(d, lbas, k, lfn, target) is Absent,
        0 <= m < list_from(d, lbas, k, lfn).len(),
    ensures
        !same_name(encode_utf8(list_from(d, lbas, k, lfn)[m].name), target),
    decreases 16 * lbas.len() - k,
{
    if k < 16 * lbas.len() {
        let raw = dir_slot(d, lbas, k);
        let next = lfn_after(lfn, raw);
        if slot_kind(raw) is Short {
            if m > 0 {
                absent_is_not_listed(d, lbas, k + 1, next, target, m - 1);
                assert(list_from(d, lbas, k, lfn)[m] == list_from(d, lbas, k + 1, next)[m - 1]);
            }
        } else if !(slot_kind(raw) is Terminator) {
            absent_is_not_listed(d, lbas, k + 1, next, target, m);
        }
    }
}

/// After a file was created, its directory lists it once, under its name, with its size and
/// a cluster that was free before; the other entries are those of before, in their order. A
/// name that the directory did not have is listed by the new entry alone.
pub proof fn create_is_listed(
    st: Store,
    dir: DirLocation,
    name: Seq<char>,
    data: Seq<u8>,
    time: RtcTime,
) -> (i: int)
    requires
        create_ready(st, dir, name),
        create_file(st, dir, name, data, time).1 is Ok,
        data.len() <= u32::MAX,
        dir_lbas(st.v, dir) matches Ok(lbas) && orderly(st.d, lbas),
        name_in_reach(st, dir, name),
        shows_as_spelled(st, dir, name),
    ensures
        ({
            let after = create_file(st, dir, name, data, time).0;
            &&& listing(st.v, st.d, dir) matches Ok(before) && {
                &&& 0 <= i <= before.len()
                &&& listing(after.v, after.d, dir) matches Ok(entries) && {
                    let e = entries[i];
                    &&& entries == before.insert(i, e)
                    &&& e.name == listed_name(name)
                    &&& !e.is_dir
                    &&& e.size == data.len()
                    &&& (e.fat_time, e.fat_date) == fat_datetime(time)
                    &&& link(st.v.fat, e.start_cluster as int) is Free
                }
                &&& name_absent(st.v, st.d, dir, name) ==> forall|m: int|
                    0 <= m < before.len() ==> !same_name(
                        encode_utf8((#[trigger] before[m]).name),
                        encode_utf8(name),
                    )
            }
            &&& dir_ready(after.v, dir)
            &&& dir_lbas(after.v, dir) matches Ok(lbas) && orderly(after.d, lbas)
        }),
{
    let (short, long) = name_entries(st.v, st.d, dir, name)->Ok_0;
    made_up_name(st.v, st.d, dir, name);
    let count = (long.len() + 1) as int;
    let st1 = reserve(st, dir, count).0;
    reserve_in_order(st, dir, count);
    let n = st1.v.sectors_per_cluster;
    let need = clusters_needed(data.len() as int, n);
    clusters_suffice(data.len() as int, n);
    let cs = pick_free(st1.v, need)->Ok_0;
    picked(st1.v, need);
    assert(link(st1.v.fat, cs[0]) is Free && st1.v.addressable(cs[0]));
    let e = file_entry(short, cs[0], data.len(), time);
    file_entry_reads(short, cs[0], data.len(), time);
    name_entries_fit(st.v, st.d, dir, name, 0x20, cs[0] as u32, data.len() as u32, time);
    new_entry_reads(st, dir, name, long, e);
    let i = added_is_listed(st, dir, long, e, need, data);
    let lbas = dir_lbas(st.v, dir)->Ok_0;
    let before = list_from(st.d, lbas, 0, no_lfn());
    if name_absent(st.v, st.d, dir, name) {
        assert forall|m: int| 0 <= m < before.len() implies !same_name(
            encode_utf8((#[trigger] before[m]).name),
            encode_utf8(name),
        ) by {
            absent_is_not_listed(st.d, lbas, 0, no_lfn(), encode_utf8(name), m);
        }
    }
    i
}

/// A new directory is in order.
proof fn fresh_is_orderly(v: Volume, d: DiskView, c: u32, parent: DirLocation, time: RtcTime)
    requires
        v.sectors_per_cluster >= 1,
        v.addressable(c as int),
        ends(v.fat, c as int),
        chain(v.fat, c as int) == seq![c as int],
        link(v.fat, c as int) is End,
        cluster_holds(v, d, c as int, dot_entries(c as int, parent, time), 0),
    ensures
        dir_ready(v, DirLocation::Cluster(c)),
        dir_lbas(v, DirLocation::Cluster(c)) matches Ok(lbas) && orderly(d, lbas),
{
    let data = dot_entries(c as int, parent, time);
    let (t, dt) = fat_datetime(time);
    let cs = chain(v.fat, c as int);
    assert(cs[0] == c && cs.last() == c);
    let lbas = sectors_of(v, cs);
    assert(cs.drop_last() =~= Seq::<int>::empty());
    assert(sectors_of(v, Seq::<int>::empty()) =~= Seq::<int>::empty());
    assert(lbas =~= cluster_sectors(v, c as int));
    dot_entry_reads(1, c, time);
    dot_entry_reads(2, parent_cluster(parent), time);
    let one = dir_entry_bytes(dot_name(1), 0x10, c, 0, t, dt);
    let two = dir_entry_bytes(dot_name(2), 0x10, parent_cluster(parent), 0, t, dt);
    assert forall|i: int| 0 <= i < lbas.len() implies d.has(#[trigger] lbas[i]) by {
        assert(in_cluster(v, c as int, lbas[i]));
    }
    assert forall|m: int| 0 <= m < 16 * lbas.len() implies ends_here(d, lbas, m) == (m >= 2) && !(
    slot_kind(#[trigger] dir_slot(d, lbas, m)) is LongName) by {
        let l = lbas[m / 16];
        assert(in_cluster(v, c as int, l));
        assert(d.at(l) == data_block(data, m / 16));
        let raw = dir_slot(d, lbas, m);
        if m == 0 {
            assert(raw =~= one);
        } else if m == 1 {
            assert(raw =~= two);
        } else {
            assert(raw[0] == d.at(l)[32 * (m % 16)]);
        }
    }
    assert forall|k: int, m: int|
        0 <= k <= m < 16 * lbas.len() && #[trigger] ends_here(d, lbas, k) implies #[trigger] ends_here(
        d,
        lbas,
        m,
    ) by {
        assert(!(slot_kind(dir_slot(d, lbas, k)) is LongName));
        assert(!(slot_kind(dir_slot(d, lbas, m)) is LongName));
    }
    assert forall|m: int| 0 <= m < 16 * lbas.len() implies #[trigger] begins_marked(d, lbas, m) by {
        assert(!(slot_kind(dir_slot(d, lbas, m)) is LongName));
    }
}

/// After a directory was created, the directory that it is in lists it once, under its name,
/// with a cluster that was free before; the other entries are those of before, in their
/// order, and none of them has that name. The new directory lists as itself and its parent,
/// and all of its cluster behind these two entries is zero, whatever it held before. Both
/// directories are in order.
pub proof fn create_directory_is_listed(
    st: Store,
    dir: DirLocation,
    name: Seq<char>,
    time: RtcTime,
) -> (i: int)
    requires
        create_directory_ready(st, dir),
        create_directory(st, dir, name, time).1 is Ok,
        dir_lbas(st.v, dir) matches Ok(lbas) && orderly(st.d, lbas),
        name_in_reach(st, dir, name),
        shows_as_spelled(st, dir, name),
    ensures
        ({
            let after = create_directory(st, dir, name, time).0;
            &&& listing(st.v, st.d, dir) matches Ok(before) && {
                &&& 0 <= i <= before.len()
                &&& listing(after.v, after.d, dir) matches Ok(entries) && {
                    let e = entries[i];
                    let c = e.start_cluster as int;
                    &&& entries == before.insert(i, e)
                    &&& e.name == listed_name(name)
                    &&& e.is_dir
                    &&& e.size == 0
                    &&& link(st.v.fat, c) is Free
                    &&& listing(after.v, after.d, DirLocation::Cluster(e.start_cluster)) == Ok::<
                        Seq<Entry>,
                        FsError,
                    >(
                        seq![
                            dot_entry(1, e.start_cluster, time),
                            dot_entry(2, parent_cluster(dir), time),
                        ],
                    )
                    &&& forall|s: int, b: int|
                        0 <= s < st.v.sectors_per_cluster && 0 <= b < 512 && 512 * s + b >= 64
                            ==> #[trigger] after.d.at(st.v.cluster_lba(c) + s)[b] == 0
                    &&& dir_ready(after.v, DirLocation::Cluster(e.start_cluster))
                    &&& dir_lbas(after.v, DirLocation::Cluster(e.start_cluster)) matches Ok(lbas)
                        && orderly(after.d, lbas)
                }
                &&& forall|m: int|
                    0 <= m < before.len() ==> !same_name(
                        encode_utf8((#[trigger] before[m]).name),
                        encode_utf8(name),
                    )
            }
            &&& dir_ready(after.v, dir)
            &&& dir_lbas(after.v, dir) matches Ok(lbas) && orderly(after.d, lbas)
        }),
{
    let (short, long) = name_entries(st.v, st.d, dir, name)->Ok_0;
    made_up_name(st.v, st.d, dir, name);
    let count = (long.len() + 1) as int;
    let (st1, at) = reserve(st, dir, count);
    let j = reserve_in_order(st, dir, count);
    let (lba, first) = at->Ok_0;
    let cs = pick_free(st1.v, 1)->Ok_0;
    picked(st1.v, 1);
    picked_apart(st1.v, dir, 1);
    let c = cs[0];
    assert(link(st1.v.fat, c) is Free && st1.v.addressable(c));
    let data = dot_entries(c, dir, time);
    let st2 = lay_chain(st1, cs, 0, data);
    assert(0 * st1.v.sectors_per_cluster == 0) by (nonlinear_arith);
    let step = write_cluster(st1, c, 0, data, 0).set_link(c, 0xFFF);
    assert(lay_chain(step, cs, 1, data) == step);
    assert(st2 == step);
    let e = subdir_entry(short, c, time);
    subdir_entry_reads(short, c, time);
    name_entries_fit(st.v, st.d, dir, name, 0x10, c as u32, 0, time);
    new_entry_reads(st, dir, name, long, e);
    let i = added_is_listed(st, dir, long, e, 1, data);
    let after = create_directory(st, dir, name, time).0;
    assert(after == entered(st2, lba, first, long, e));
    lay_keeps_dir(st1, st1, dir, cs, data);
    lay_chain_keeps(st1, cs, 0, data);
    lay_chain_holds(st1, cs, 0, data, 0);
    let lbas = dir_lbas(st1.v, dir)->Ok_0;
    assert(sector_apart(st1.v, cs, 0, lbas[j]));
    assert(!in_cluster(st1.v, cs[0], lba));
    assert(st1.d.has(lbas[j]));
    assert(st2.d.at(lbas[j]) == st1.d.at(lbas[j]) && st2.d.has(lbas[j]));
    let all = long.push(e);
    assert forall|x: int| 0 <= x < all.len() implies (#[trigger] all[x]).len() == 32 by {
        if x < long.len() {
            assert(long[x].len() == 32);
        }
    }
    put_entries_effect(st2.d, lba, first, all, 0);
    assert(cluster_holds(st1.v, after.d, c, data, 0)) by {
        assert forall|l: int| in_cluster(st1.v, c, l) implies after.d.has(l) && after.d.at(l)
            == data_block(data, 0 + (l - st1.v.cluster_lba(c))) by {
            assert(l != lba);
            assert(st2.d.has(l));
            assert(after.d.has(l) == st2.d.has(l));
            assert(after.d.at(l) == st2.d.at(l));
        }
    }
    assert(data.len() == 64);
    assert forall|s: int, b: int|
        0 <= s < st.v.sectors_per_cluster && 0 <= b < 512 && 512 * s + b >= 64 implies #[trigger] after.d.at(
        st.v.cluster_lba(c) + s,
    )[b] == 0 by {
        let l = st1.v.cluster_lba(c) + s;
        assert(in_cluster(st1.v, c, l));
        assert(after.d.at(l) == data_block(data, s));
    }
    holds_with_fat(st1.v, after.v, after.d, c, data, 0);
    fresh_lists(after.v, after.d, c, dir, time);
    laid_is_chain(st1, cs, data);
    assert(cs =~= seq![c]);
    fresh_is_orderly(after.v, after.d, c as u32, dir, time);
    i
}

} // verus!
