//! What a write leaves of the chain that a file had.

use crate::disk::FsError;
use crate::fat12::changes::{
    clusters_needed, free_list, lay_chain, resized, rewrite, write_file, write_ready, Store,
};
use crate::fat12::frames::set_link_mounted;
use crate::fat12::laid::{
    apart, lay_chain_keeps, lay_chain_link, lay_chain_other_link, layable, next_value,
};
use crate::fat12::laws::{
    chain_in_use, dir_clusters, dir_in_use, free_list_effect, readable_back, resized_layable,
    write_then_read,
};
use crate::fat12::table::{
    chain, chain_distinct, ends, in_table, link, run, run_is_chain, set_entry_links, Link,
};
use crate::fat12::volume::{find_entry, DirLocation};
use crate::fat_common::Entry;
use vstd::prelude::*;

verus! {

/// Each cluster of a list that is freed is free in the end.
proof fn free_list_frees(st: Store, cs: Seq<int>, i: int, j: int)
    requires
        st.mounted(),
        0 <= i <= j < cs.len(),
        cs.no_duplicates(),
        forall|m: int| 0 <= m < cs.len() ==> in_table(st.v.fat, #[trigger] cs[m]),
    ensures
        link(free_list(st, cs, i).v.fat, cs[j]) is Free,
    decreases cs.len() - i,
{
    set_link_mounted(st, cs[i], 0);
    set_entry_links(st.v.fat, cs[i], 0);
    let st1 = st.set_link(cs[i], 0);
    if j == i {
        free_list_effect(st1, cs, i + 1);
        assert(apart(cs, i + 1, cs[i]));
    } else {
        free_list_frees(st1, cs, i + 1, j);
    }
}

/// Clusters that data is laid across are a chain.
pub proof fn laid_is_chain(st: Store, cs: Seq<int>, data: Seq<u8>)
    requires
        st.mounted(),
        layable(st.v, cs),
        cs.len() > 0,
        forall|i: int| 0 < i < cs.len() ==> #[trigger] cs[i] < 0xFF8,
    ensures
        ({
            let fat = lay_chain(st, cs, 0, data).v.fat;
            &&& ends(fat, cs[0])
            &&& chain(fat, cs[0]) == cs
            &&& link(fat, cs.last()) is End
        }),
{
    let fat = lay_chain(st, cs, 0, data).v.fat;
    assert forall|i: int| 0 <= i < cs.len() - 1 implies #[trigger] link(fat, cs[i]) == Link::Next(
        cs[i + 1],
    ) by {
        lay_chain_link(st, cs, 0, data, i);
        assert(2 <= cs[i + 1] < 0xFF8);
    }
    lay_chain_link(st, cs, 0, data, cs.len() - 1);
    assert(next_value(cs, cs.len() - 1) == 0xFFF);
    assert(run(fat, cs[0], cs));
    run_is_chain(fat, cs[0], cs);
}

/// After a write that succeeds, the file has as many clusters as its contents need: the
/// first ones of those it had, and more if these are too few. Those that it had and does
/// not need any more are free.
pub proof fn write_resizes(st: Store, dir: DirLocation, name: Seq<char>, data: Seq<u8>)
    requires
        write_ready(st, dir, name, data.len() as int),
        write_file(st, dir, name, data).1 is Ok,
        data.len() <= u32::MAX,
        readable_back(st, dir, name, data.len() as int),
    ensures
        ({
            let after = write_file(st, dir, name, data).0;
            find_entry(st.v, st.d, dir, name) matches Ok((lba, offset, e)) && {
                let before = chain(st.v.fat, e.start_cluster as int);
                let now = chain(after.v.fat, e.start_cluster as int);
                &&& find_entry(after.v, after.d, dir, name) == Ok::<(int, int, Entry), FsError>(
                    (lba, offset, Entry { size: data.len() as u32, ..e }),
                )
                &&& ends(after.v.fat, e.start_cluster as int)
                &&& link(after.v.fat, now.last()) is End
                &&& now.len() == clusters_needed(data.len() as int, st.v.sectors_per_cluster)
                &&& forall|i: int|
                    0 <= i < before.len() && i < now.len() ==> #[trigger] now[i] == before[i]
                &&& forall|i: int|
                    before.len() <= i < now.len() ==> link(st.v.fat, #[trigger] now[i]) is Free
                &&& forall|i: int|
                    now.len() <= i < before.len() ==> link(after.v.fat, #[trigger] before[i]) is Free
            }
        }),
{
    write_then_read(st, dir, name, data);
    let (lba, offset, e) = find_entry(st.v, st.d, dir, name)->Ok_0;
    let start = e.start_cluster as int;
    let cs = chain(st.v.fat, start);
    let own = dir_clusters(st.v, dir);
    let kept = resized(st.v, cs, data.len() as int)->Ok_0;
    let st1 = free_list(st, cs, kept.len() as int);
    let st2 = lay_chain(st1, kept, 0, data);
    let after = rewrite(st1, lba, offset, kept, data);
    assert(write_file(st, dir, name, data).0 == after);
    dir_in_use(st.v, dir);
    resized_layable(st.v, start, data.len() as int, own);
    chain_in_use(st.v.fat, start);
    chain_distinct(st.v.fat, start);
    free_list_effect(st, cs, kept.len() as int);
    assert(layable(st1.v, kept));
    laid_is_chain(st1, kept, data);
    assert forall|i: int| cs.len() <= i < kept.len() implies link(
        st.v.fat,
        #[trigger] kept[i],
    ) is Free by {
        crate::fat12::frames::picked(st.v, kept.len() - cs.len());
        let extra = crate::fat12::changes::pick_free(st.v, kept.len() - cs.len())->Ok_0;
        assert(kept[i] == extra[i - cs.len()]);
    }
    assert forall|i: int| kept.len() <= i < cs.len() implies link(
        after.v.fat,
        #[trigger] cs[i],
    ) is Free by {
        free_list_frees(st, cs, kept.len() as int, i);
        assert forall|j: int| 0 <= j < kept.len() implies #[trigger] kept[j] != cs[i] by {
            assert(kept[j] == cs[j]);
        }
        lay_chain_keeps(st1, kept, 0, data);
        lay_chain_other_link(st1, kept, 0, data, cs[i]);
    }
}

} // verus!
