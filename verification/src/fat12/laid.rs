//! Contents that were laid across a chain of clusters are read back from it.

use crate::disk::{DiskView, FsError};
use crate::fat12::changes::{clusters_needed, data_block, lay_chain, write_cluster, Store};
use crate::fat12::frames::{
    cluster_in_data, clusters_disjoint, in_cluster, layout, outside_fat, set_link_mounted,
    write_cluster_frame,
};
use crate::fat12::table::{in_table, link, set_entry_links, Link};
use crate::fat12::volume::{read_chain, read_cluster, read_ready, Volume};
use vstd::prelude::*;

verus! {

/// The sectors of cluster `c` hold the blocks of `data` from number `k` on.
pub open spec fn cluster_holds(v: Volume, d: DiskView, c: int, data: Seq<u8>, k: int) -> bool {
    forall|l: int|
        #![trigger d.at(l)]
        #![trigger d.has(l)]
        in_cluster(v, c, l) ==> d.has(l) && d.at(l) == data_block(data, k + (l - v.cluster_lba(c)))
}

/// The link that an entry with this value is.
pub open spec fn value_link(value: int) -> Link {
    if value % 4096 == 0 {
        Link::Free
    } else if value % 4096 >= 0xFF8 {
        Link::End
    } else {
        Link::Next(value % 4096)
    }
}

/// The value that chains cluster number `i` of `cs` to the next one.
pub open spec fn next_value(cs: Seq<int>, i: int) -> int {
    if i + 1 < cs.len() {
        cs[i + 1]
    } else {
        0xFFF
    }
}

/// Clusters that data can be laid across: different data clusters of the table.
pub open spec fn layable(v: Volume, cs: Seq<int>) -> bool {
    &&& forall|j: int| 0 <= j < cs.len() ==> #[trigger] cs[j] >= 2 && in_table(v.fat, cs[j])
    &&& cs.no_duplicates()
}

/// `x` is none of the clusters `cs` from number `i` on.
pub open spec fn apart(cs: Seq<int>, i: int, x: int) -> bool {
    forall|j: int| i <= j < cs.len() ==> #[trigger] cs[j] != x
}

/// Sector `l` is in none of the clusters `cs` from number `i` on.
pub open spec fn sector_apart(v: Volume, cs: Seq<int>, i: int, l: int) -> bool {
    forall|j: int| i <= j < cs.len() ==> !in_cluster(v, #[trigger] cs[j], l)
}

/// The first of the steps in which data is laid.
pub open spec fn lay_step(st: Store, cs: Seq<int>, i: int, data: Seq<u8>) -> Store {
    write_cluster(st, cs[i], 0, data, i * st.v.sectors_per_cluster).set_link(
        cs[i],
        next_value(cs, i),
    )
}

/// One step fills one cluster and sets its link.
pub proof fn lay_step_effect(st: Store, cs: Seq<int>, i: int, data: Seq<u8>)
    requires
        st.mounted(),
        0 <= i < cs.len(),
        layable(st.v, cs),
    ensures
        ({
            let after = lay_step(st, cs, i, data);
            &&& lay_chain(st, cs, i, data) == lay_chain(after, cs, i + 1, data)
            &&& after.mounted()
            &&& after.v == st.v.with_fat(after.v.fat)
            &&& after.v.fat.len() == st.v.fat.len()
            &&& layable(after.v, cs)
            &&& forall|x: int| x != cs[i] ==> #[trigger] link(after.v.fat, x) == link(st.v.fat, x)
            &&& link(after.v.fat, cs[i]) == value_link(next_value(cs, i))
            &&& forall|l: int|
                #![trigger after.d.at(l)]
                #![trigger after.d.has(l)]
                outside_fat(st.v, l) && !in_cluster(st.v, cs[i], l) ==> after.d.at(l) == st.d.at(l)
                    && after.d.has(l) == st.d.has(l)
            &&& cluster_holds(st.v, after.d, cs[i], data, i * st.v.sectors_per_cluster)
        }),
{
    let c = cs[i];
    let k = i * st.v.sectors_per_cluster;
    let next = next_value(cs, i);
    let st1 = write_cluster(st, c, 0, data, k);
    write_cluster_frame(st, c, 0, data, k);
    set_link_mounted(st1, c, next);
    set_entry_links(st1.v.fat, c, next);
    let st2 = st1.set_link(c, next);
    layout(st.v);
    cluster_in_data(st.v, c);
    assert forall|l: int| outside_fat(st.v, l) && !in_cluster(st.v, c, l) implies st2.d.at(l)
        == st.d.at(l) && st2.d.has(l) == st.d.has(l) by {
        assert(st1.d.at(l) == st.d.at(l));
        assert(outside_fat(st1.v, l));
    }
    assert forall|l: int| in_cluster(st.v, c, l) implies st2.d.has(l) && st2.d.at(l) == data_block(
        data,
        k + (l - st.v.cluster_lba(c)),
    ) by {
        assert(st1.d.has(l));
        assert(outside_fat(st1.v, l));
    }
}

/// Laying data keeps the volume usable.
pub proof fn lay_chain_keeps(st: Store, cs: Seq<int>, i: int, data: Seq<u8>)
    requires
        st.mounted(),
        0 <= i <= cs.len(),
        layable(st.v, cs),
    ensures
        ({
            let after = lay_chain(st, cs, i, data);
            &&& after.mounted()
            &&& after.v == st.v.with_fat(after.v.fat)
            &&& after.v.fat.len() == st.v.fat.len()
        }),
    decreases cs.len() - i,
{
    if i < cs.len() {
        lay_step_effect(st, cs, i, data);
        lay_chain_keeps(lay_step(st, cs, i, data), cs, i + 1, data);
    }
}

/// Laying data leaves the links of other clusters alone.
pub proof fn lay_chain_other_link(st: Store, cs: Seq<int>, i: int, data: Seq<u8>, x: int)
    requires
        st.mounted(),
        0 <= i <= cs.len(),
        layable(st.v, cs),
        apart(cs, i, x),
    ensures
        link(lay_chain(st, cs, i, data).v.fat, x) == link(st.v.fat, x),
    decreases cs.len() - i,
{
    if i < cs.len() {
        lay_step_effect(st, cs, i, data);
        assert(cs[i] != x);
        let next = lay_step(st, cs, i, data);
        assert(link(next.v.fat, x) == link(st.v.fat, x));
        lay_chain_other_link(next, cs, i + 1, data, x);
    }
}

/// Laying data chains each cluster to the next.
pub proof fn lay_chain_link(st: Store, cs: Seq<int>, i: int, data: Seq<u8>, j: int)
    requires
        st.mounted(),
        0 <= i <= j < cs.len(),
        layable(st.v, cs),
    ensures
        link(lay_chain(st, cs, i, data).v.fat, cs[j]) == value_link(next_value(cs, j)),
    decreases cs.len() - i,
{
    lay_step_effect(st, cs, i, data);
    let next = lay_step(st, cs, i, data);
    if j == i {
        assert forall|m: int| i + 1 <= m < cs.len() implies #[trigger] cs[m] != cs[i] by {}
        lay_chain_other_link(next, cs, i + 1, data, cs[i]);
    } else {
        lay_chain_link(next, cs, i + 1, data, j);
    }
}

/// Laying data leaves the sectors of everything else alone.
pub proof fn lay_chain_other_sector(st: Store, cs: Seq<int>, i: int, data: Seq<u8>, l: int)
    requires
        st.mounted(),
        0 <= i <= cs.len(),
        layable(st.v, cs),
        outside_fat(st.v, l),
        sector_apart(st.v, cs, i, l),
    ensures
        lay_chain(st, cs, i, data).d.at(l) == st.d.at(l),
        lay_chain(st, cs, i, data).d.has(l) == st.d.has(l),
    decreases cs.len() - i,
{
    if i < cs.len() {
        lay_step_effect(st, cs, i, data);
        assert(!in_cluster(st.v, cs[i], l));
        let next = lay_step(st, cs, i, data);
        assert(next.d.at(l) == st.d.at(l));
        assert(sector_apart(next.v, cs, i + 1, l)) by {
            assert forall|j: int| i + 1 <= j < cs.len() implies !in_cluster(
                next.v,
                #[trigger] cs[j],
                l,
            ) by {
                assert(!in_cluster(st.v, cs[j], l));
            }
        }
        lay_chain_other_sector(next, cs, i + 1, data, l);
    }
}

/// What a cluster holds does not depend on the table.
pub proof fn holds_with_fat(v: Volume, v2: Volume, d: DiskView, c: int, data: Seq<u8>, k: int)
    requires
        v2 == v.with_fat(v2.fat),
    ensures
        cluster_holds(v, d, c, data, k) == cluster_holds(v2, d, c, data, k),
{
    assert(v.cluster_lba(c) == v2.cluster_lba(c));
}

/// What a cluster holds stays there while data is laid across other clusters.
proof fn lay_chain_still_holds(
    st: Store,
    cs: Seq<int>,
    i: int,
    data: Seq<u8>,
    c: int,
    other: Seq<u8>,
    k: int,
)
    requires
        st.mounted(),
        0 <= i <= cs.len(),
        layable(st.v, cs),
        c >= 2,
        apart(cs, i, c),
        cluster_holds(st.v, st.d, c, other, k),
    ensures
        cluster_holds(st.v, lay_chain(st, cs, i, data).d, c, other, k),
{
    let after = lay_chain(st, cs, i, data);
    layout(st.v);
    cluster_in_data(st.v, c);
    assert forall|l: int| in_cluster(st.v, c, l) implies after.d.has(l) && after.d.at(l)
        == data_block(other, k + (l - st.v.cluster_lba(c))) by {
        assert(st.d.has(l));
        assert forall|m: int| i <= m < cs.len() implies !in_cluster(
            st.v,
            #[trigger] cs[m],
            l,
        ) by {
            if in_cluster(st.v, cs[m], l) {
                clusters_disjoint(
                    st.v,
                    c,
                    cs[m],
                    l - st.v.cluster_lba(c),
                    l - st.v.cluster_lba(cs[m]),
                );
            }
        }
        lay_chain_other_sector(st, cs, i, data, l);
    }
}

/// Laying data fills each cluster with its blocks.
pub proof fn lay_chain_holds(st: Store, cs: Seq<int>, i: int, data: Seq<u8>, j: int)
    requires
        st.mounted(),
        0 <= i <= j < cs.len(),
        layable(st.v, cs),
    ensures
        cluster_holds(
            st.v,
            lay_chain(st, cs, i, data).d,
            cs[j],
            data,
            j * st.v.sectors_per_cluster,
        ),
    decreases cs.len() - i,
{
    lay_step_effect(st, cs, i, data);
    let next = lay_step(st, cs, i, data);
    let after = lay_chain(st, cs, i, data);
    let k = j * st.v.sectors_per_cluster;
    if j == i {
        holds_with_fat(st.v, next.v, next.d, cs[i], data, k);
        lay_chain_still_holds(next, cs, i + 1, data, cs[i], data, k);
    } else {
        lay_chain_holds(next, cs, i + 1, data, j);
    }
    holds_with_fat(st.v, next.v, after.d, cs[j], data, k);
}

/// The first `n` blocks of `data`, or all of it.
pub open spec fn blocks(data: Seq<u8>, n: int) -> Seq<u8> {
    if 512 * n < data.len() {
        data.take(512 * n)
    } else {
        data
    }
}

/// Reading a cluster that holds blocks of `data` goes on from the blocks in front of them.
pub proof fn read_cluster_laid(v: Volume, d: DiskView, c: int, s: int, data: Seq<u8>, k: int)
    requires
        cluster_holds(v, d, c, data, k),
        0 <= s <= v.sectors_per_cluster,
        0 <= k,
    ensures
        read_cluster(v, d, c, s, data.len() as int, blocks(data, k + s)) == Ok::<Seq<u8>, FsError>(
            blocks(data, k + v.sectors_per_cluster),
        ),
    decreases v.sectors_per_cluster - s,
{
    let acc = blocks(data, k + s);
    if s < v.sectors_per_cluster && acc.len() < data.len() {
        let lba = v.cluster_lba(c) + s;
        assert(d.at(lba) == data_block(data, k + s));
        let left = data.len() - acc.len();
        let take = if left < 512 {
            left
        } else {
            512
        };
        assert(acc + d.at(lba).take(take) =~= blocks(data, k + s + 1));
        read_cluster_laid(v, d, c, s + 1, data, k);
    }
}

/// A chain that `data` was laid across reads as `data`.
pub proof fn read_laid(v: Volume, d: DiskView, cs: Seq<int>, i: int, data: Seq<u8>)
    requires
        v.sectors_per_cluster >= 1,
        0 <= i < cs.len(),
        512 * (i * v.sectors_per_cluster) < data.len(),
        cs.len() * (512 * v.sectors_per_cluster) >= data.len(),
        forall|j: int|
            0 <= j < cs.len() ==> cluster_holds(
                v,
                d,
                #[trigger] cs[j],
                data,
                j * v.sectors_per_cluster,
            ),
        forall|j: int| 0 <= j < cs.len() - 1 ==> #[trigger] link(v.fat, cs[j]) == Link::Next(cs[j + 1]),
        forall|j: int| 0 <= j < cs.len() ==> v.addressable(#[trigger] cs[j]),
    ensures
        read_chain(v, d, cs[i], data.len() as int, blocks(data, i * v.sectors_per_cluster)) == Ok::<
            Seq<u8>,
            FsError,
        >(data),
        read_ready(v, d, cs[i], data.len() as int, blocks(data, i * v.sectors_per_cluster)),
    decreases cs.len() - i,
{
    let n = v.sectors_per_cluster;
    let k = i * n;
    assert(k >= 0) by (nonlinear_arith)
        requires
            k == i * n,
            i >= 0,
            n >= 1,
    ;
    read_cluster_laid(v, d, cs[i], 0, data, k);
    let more = blocks(data, k + n);
    assert((i + 1) * n == i * n + n) by (nonlinear_arith);
    if 512 * (k + n) < data.len() {
        if i == cs.len() - 1 {
            assert(cs.len() * (512 * n) == 512 * (k + n)) by (nonlinear_arith)
                requires
                    cs.len() == i + 1,
                    k == i * n,
            ;
        }
        assert(link(v.fat, cs[i]) == Link::Next(cs[i + 1]));
        read_laid(v, d, cs, i + 1, data);
    }
    assert(v.addressable(cs[i]));
}

/// So many clusters have room for `len` bytes.
pub proof fn clusters_suffice(len: int, n: int)
    requires
        len >= 0,
        n >= 1,
    ensures
        clusters_needed(len, n) * (512 * n) >= len,
        clusters_needed(len, n) >= 1,
{
    let size = 512 * n;
    vstd::arithmetic::div_mod::lemma_fundamental_div_mod(len, size);
    let q = len / size;
    assert(0 <= len % size < size) by (nonlinear_arith)
        requires
            size >= 512,
    ;
    assert(q >= 0) by (nonlinear_arith)
        requires
            len == size * q + len % size,
            len >= 0,
            len % size < size,
            size >= 512,
    ;
    assert(q * size == size * q) by (nonlinear_arith);
    assert((q + 1) * size == size * q + size) by (nonlinear_arith);
    if len > 0 && len % size == 0 {
        assert(q >= 1) by (nonlinear_arith)
            requires
                len == size * q,
                len > 0,
                q >= 0,
        ;
    }
}

} // verus!
