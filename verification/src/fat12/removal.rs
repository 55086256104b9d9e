//! What was removed is gone, and its clusters are free again.

use crate::disk::{DiskView, FsError};
use crate::fat12::changes::{
    delete_directory, delete_directory_ready, delete_file, delete_ready, free_chain, mark_deleted,
    remove_entry, Store,
};
use crate::fat12::creation::name_absent;
use crate::fat12::frames::{dir_outside_fat, outside_fat, same_outside, set_link_mounted};
use crate::fat12::laws::{dir_clusters, dir_frame, disjoint, splice_slot};
use crate::fat12::search::{
    dir_lbas_distinct, find_witness, found_slot, same_slot, scan_agree, scan_find,
};
use crate::fat12::table::{
    chain, ends, freeing_decreases, in_table, link, run, run_is_chain, set_entry_frame,
    set_entry_links, used_below, Link,
};
use crate::fat12::volume::{
    dir_lbas, dir_ready, dir_slot, file_contents, find_entry, find_from, listing, not_found,
    DirLocation, Volume,
};
use crate::fat_common::{lfn_after, no_lfn, slot, slot_kind, Entry, LfnView};
use vstd::prelude::*;
use vstd::utf8::encode_utf8;

verus! {

/// A search depends on the slots from its start on only.
pub proof fn find_agree(
    d: DiskView,
    d2: DiskView,
    lbas: Seq<int>,
    k: int,
    lfn: LfnView,
    target: Seq<u8>,
)
    requires
        0 <= k,
        forall|j: int| k <= j < 16 * lbas.len() ==> #[trigger] same_slot(d, d2, lbas, j),
        d.failures == d2.failures,
    ensures
        find_from(d, lbas, k, lfn, target) == find_from(d2, lbas, k, lfn, target),
    decreases 16 * lbas.len() - k,
{
    if k < 16 * lbas.len() {
        assert(same_slot(d, d2, lbas, k));
        find_agree(d, d2, lbas, k + 1, lfn_after(lfn, dir_slot(d, lbas, k)), target);
    }
}

/// `cs` is a chain that was freed: its links are free, and all others are the same.
pub open spec fn freed(before: Seq<u8>, after: Seq<u8>, c: int, cs: Seq<int>) -> bool {
    &&& run(before, c, cs)
    &&& link(before, cs.last()) is End
    &&& forall|i: int| 0 <= i < cs.len() ==> link(after, #[trigger] cs[i]) is Free
    &&& forall|x: int| !cs.contains(x) ==> #[trigger] link(after, x) == link(before, x)
}

/// Freeing a chain touches nothing but the table; if it succeeds, the clusters of
/// the chain are free, and no others changed.
pub proof fn free_chain_frees(st: Store, c: int)
    requires
        st.mounted(),
    ensures
        ({
            let (after, failure) = free_chain(st, c);
            &&& after.mounted()
            &&& after.v == st.v.with_fat(after.v.fat)
            &&& same_outside(st.v, st.d, after.d)
            &&& after.d.failures == st.d.failures
            &&& failure is None ==> ends(st.v.fat, c) && freed(
                st.v.fat,
                after.v.fat,
                c,
                chain(st.v.fat, c),
            )
        }),
    decreases used_below(st.v.fat, st.v.fat.len()),
{
    let fat = st.v.fat;
    if in_table(fat, c) && (link(fat, c) is Next || link(fat, c) is End) {
        set_link_mounted(st, c, 0);
        set_entry_links(fat, c, 0);
        let st1 = st.set_link(c, 0);
        assert(st1.d.failures == st.d.failures) by {
            reveal(Store::set_link);
        }
        if link(fat, c) is End {
            let cs = seq![c];
            assert(run(fat, c, cs));
            run_is_chain(fat, c, cs);
            assert forall|x: int| !cs.contains(x) implies #[trigger] link(st1.v.fat, x) == link(
                fat,
                x,
            ) by {
                assert(cs[0] == c);
            }
        } else {
            let n = link(fat, c)->Next_0;
            freeing_decreases(fat, c, fat.len());
            set_entry_frame(fat, c, 0);
            free_chain_frees(st1, n);
            let (after, failure) = free_chain(st1, n);
            assert(free_chain(st, c) == (after, failure));
            assert(same_outside(st.v, st.d, after.d)) by {
                assert forall|l: int| outside_fat(st.v, l) implies st.d.has(l) == after.d.has(l)
                    && st.d.at(l) == after.d.at(l) by {
                    assert(outside_fat(st1.v, l));
                    assert(st1.d.at(l) == st.d.at(l) && st1.d.has(l) == st.d.has(l));
                }
            }
            if failure is None {
                freed_longer(fat, st1.v.fat, after.v.fat, c, n);
            }
        }
    }
}

proof fn freed_longer(fat: Seq<u8>, mid: Seq<u8>, after: Seq<u8>, c: int, n: int)
    requires
        link(fat, c) == Link::Next(n),
        link(mid, c) is Free,
        forall|x: int| x != c ==> #[trigger] link(mid, x) == link(fat, x),
        ends(mid, n),
        freed(mid, after, n, chain(mid, n)),
    ensures
        ends(fat, c),
        freed(fat, after, c, chain(fat, c)),
{
    let tail = chain(mid, n);
    assert(run(mid, n, tail));
    assert forall|i: int| 0 <= i < tail.len() implies #[trigger] tail[i] != c && link(mid, tail[i])
        == link(fat, tail[i]) by {
        if i < tail.len() - 1 {
            assert(link(mid, tail[i]) == Link::Next(tail[i + 1]));
        }
    }
    let cs = seq![c] + tail;
    assert forall|i: int| 0 <= i < cs.len() - 1 implies #[trigger] link(fat, cs[i]) == Link::Next(
        cs[i + 1],
    ) by {
        if i > 0 {
            assert(cs[i] == tail[i - 1]);
            assert(link(mid, tail[i - 1]) == Link::Next(tail[i]));
        }
    }
    assert(cs.last() == tail.last());
    assert(run(fat, c, cs));
    run_is_chain(fat, c, cs);
    assert forall|i: int| 0 <= i < cs.len() implies link(after, #[trigger] cs[i]) is Free by {
        if i == 0 {
            assert(!tail.contains(c));
            assert(link(after, c) == link(mid, c));
        } else {
            assert(cs[i] == tail[i - 1]);
        }
    }
    assert forall|x: int| !cs.contains(x) implies #[trigger] link(after, x) == link(fat, x) by {
        assert(cs[0] == c);
        if tail.contains(x) {
            let i = tail.index_of(x);
            assert(cs[i + 1] == x);
        }
        assert(link(after, x) == link(mid, x));
    }
}

/// No second entry of the directory goes by `name`: behind the one that is found
/// there is none.
pub open spec fn name_unique(v: Volume, d: DiskView, dir: DirLocation, name: Seq<char>) -> bool {
    dir_lbas(v, dir) matches Ok(lbas) ==> forall|k: int, lfn: LfnView|
        #[trigger] found_slot(d, lbas, 0, no_lfn(), encode_utf8(name), k, lfn) ==> find_from(
            d,
            lbas,
            k + 1,
            lfn.cleared(),
            encode_utf8(name),
        ) is Absent
}

/// An entry that was removed is not found any more, and the clusters it had are free.
pub proof fn remove_then_gone(st: Store, dir: DirLocation, name: Seq<char>)
    requires
        st.mounted(),
        dir_ready(st.v, dir),
        find_entry(st.v, st.d, dir, name) matches Ok((lba, offset, e)) && remove_entry(
            st,
            lba,
            offset,
            e.start_cluster as int,
        ).1 is Ok && disjoint(dir_clusters(st.v, dir), chain(st.v.fat, e.start_cluster as int)),
        name_unique(st.v, st.d, dir, name),
    ensures
        find_entry(st.v, st.d, dir, name) matches Ok((lba, offset, e)) && {
            let after = remove_entry(st, lba, offset, e.start_cluster as int).0;
            &&& name_absent(after.v, after.d, dir, name)
            &&& dir_ready(after.v, dir)
            &&& freed(
                st.v.fat,
                after.v.fat,
                e.start_cluster as int,
                chain(st.v.fat, e.start_cluster as int),
            )
        },
{
    let target = encode_utf8(name);
    let (lba, offset, e) = find_entry(st.v, st.d, dir, name)->Ok_0;
    let start = e.start_cluster as int;
    let (st1, _) = free_chain(st, start);
    free_chain_frees(st, start);
    let cs = chain(st.v.fat, start);
    let own = dir_clusters(st.v, dir);
    assert forall|i: int| 0 <= i < own.len() implies link(st1.v.fat, #[trigger] own[i]) == link(
        st.v.fat,
        own[i],
    ) by {
        if cs.contains(own[i]) {
            let j = cs.index_of(own[i]);
            assert(own[i] != cs[j]);
        }
    }
    dir_frame(st.v, st1.v, dir);
    let lbas = dir_lbas(st.v, dir)->Ok_0;
    dir_outside_fat(st.v, dir);
    dir_lbas_distinct(st.v, dir);
    let (k, lfn) = find_witness(st.d, lbas, 0, no_lfn(), target);
    let j = k / 16;
    let i = k % 16;
    let after = mark_deleted(st1, lba, offset);
    assert(after == remove_entry(st, lba, offset, start).0);
    assert(outside_fat(st.v, lbas[j]));
    assert(st1.d.at(lba) == st.d.at(lba));
    let sector = st.d.at(lba);
    assert(sector.len() == 512);
    splice_slot(sector, i, 0, seq![0xE5u8]);
    assert(after.d.at(lba) =~= crate::bytes::splice(sector, 32 * i + 0, seq![0xE5u8]));
    assert forall|m: int| 0 <= m < 16 * lbas.len() && m != k implies #[trigger] same_slot(
        st.d,
        after.d,
        lbas,
        m,
    ) by {
        assert(outside_fat(st.v, lbas[m / 16]));
        assert(st1.d.at(lbas[m / 16]) == st.d.at(lbas[m / 16]));
        assert(st1.d.has(lbas[m / 16]) == st.d.has(lbas[m / 16]));
        if m / 16 == j {
            assert(m % 16 != i);
            assert(slot(after.d.at(lba), m % 16) == slot(sector, m % 16));
        } else {
            assert(lbas[m / 16] != lbas[j]);
        }
    }
    scan_agree(st.d, after.d, lbas, 0, k, no_lfn(), target);
    scan_find(after.d, lbas, 0, k, no_lfn(), target);
    let raw2 = dir_slot(after.d, lbas, k);
    assert(raw2 == crate::bytes::splice(slot(sector, i), 0, seq![0xE5u8]));
    assert(raw2[0] == 0xE5);
    assert(slot_kind(raw2) is Deleted);
    find_agree(st.d, after.d, lbas, k + 1, lfn.cleared(), target);
    assert(found_slot(st.d, lbas, 0, no_lfn(), target, k, lfn));
}

/// After a file was deleted its name is not found, and its clusters are free.
pub proof fn delete_then_gone(st: Store, dir: DirLocation, name: Seq<char>)
    requires
        delete_ready(st, dir, name),
        delete_file(st, dir, name).1 is Ok,
        name_unique(st.v, st.d, dir, name),
        find_entry(st.v, st.d, dir, name) matches Ok((_, _, e)) ==> disjoint(
            dir_clusters(st.v, dir),
            chain(st.v.fat, e.start_cluster as int),
        ),
    ensures
        find_entry(st.v, st.d, dir, name) matches Ok((_, _, e)) && {
            let after = delete_file(st, dir, name).0;
            &&& file_contents(after.v, after.d, dir, name) == Err::<Seq<u8>, FsError>(
                FsError::Failed(not_found(dir)),
            )
            &&& freed(
                st.v.fat,
                after.v.fat,
                e.start_cluster as int,
                chain(st.v.fat, e.start_cluster as int),
            )
        },
{
    remove_then_gone(st, dir, name);
}

/// A file that goes by two names is gone under both, whichever it was deleted by.
pub proof fn delete_by_either_name(
    st: Store,
    dir: DirLocation,
    name: Seq<char>,
    alias: Seq<char>,
)
    requires
        delete_ready(st, dir, name),
        delete_file(st, dir, name).1 is Ok,
        find_entry(st.v, st.d, dir, alias) == find_entry(st.v, st.d, dir, name),
        name_unique(st.v, st.d, dir, name),
        name_unique(st.v, st.d, dir, alias),
        find_entry(st.v, st.d, dir, name) matches Ok((_, _, e)) ==> disjoint(
            dir_clusters(st.v, dir),
            chain(st.v.fat, e.start_cluster as int),
        ),
    ensures
        ({
            let after = delete_file(st, dir, name).0;
            let gone = Err::<Seq<u8>, FsError>(FsError::Failed(not_found(dir)));
            &&& file_contents(after.v, after.d, dir, name) == gone
            &&& file_contents(after.v, after.d, dir, alias) == gone
        }),
{
    assert(delete_file(st, dir, alias) == delete_file(st, dir, name));
    delete_then_gone(st, dir, name);
    delete_then_gone(st, dir, alias);
}

/// After a directory was deleted its name is not found, and its clusters are free.
pub proof fn delete_directory_then_gone(st: Store, dir: DirLocation, name: Seq<char>)
    requires
        delete_directory_ready(st, dir, name),
        delete_directory(st, dir, name).1 is Ok,
        name_unique(st.v, st.d, dir, name),
        find_entry(st.v, st.d, dir, name) matches Ok((_, _, e)) ==> disjoint(
            dir_clusters(st.v, dir),
            chain(st.v.fat, e.start_cluster as int),
        ),
    ensures
        find_entry(st.v, st.d, dir, name) matches Ok((_, _, e)) && {
            let after = delete_directory(st, dir, name).0;
            &&& find_entry(after.v, after.d, dir, name) == Err::<(int, int, Entry), FsError>(
                FsError::Failed(not_found(dir)),
            )
            &&& freed(
                st.v.fat,
                after.v.fat,
                e.start_cluster as int,
                chain(st.v.fat, e.start_cluster as int),
            )
        },
{
    remove_then_gone(st, dir, name);
}

/// A directory with more than its first two entries is not deleted, and nothing changes.
pub proof fn full_directory_stays(st: Store, dir: DirLocation, name: Seq<char>)
    requires
        delete_directory_ready(st, dir, name),
        find_entry(st.v, st.d, dir, name) matches Ok((_, _, e)) && e.is_dir && (listing(
            st.v,
            st.d,
            DirLocation::Cluster(e.start_cluster),
        ) matches Ok(es) && es.len() > 2),
    ensures
        delete_directory(st, dir, name) == (
            st,
            Err::<(), FsError>(FsError::Failed("FAT12: directory is not empty")),
        ),
{
}

} // verus!
