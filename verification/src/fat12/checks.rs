//! Checks that a volume is fit for an operation.
//!
//! The table and the directory entries of a disk can say anything: that a chain
//! comes back to itself, or that a file starts at a cluster which is not one. A
//! caller who does not know where a disk came from asks here first.

use crate::disk::{Disk, DiskView, FsError};
use crate::fat12::changes::{
    create_directory_ready, create_ready, delete_directory_ready, delete_ready, write_ready, Store,
};
use crate::fat12::table::{chain, chain_bounded, ends, link, run, run_is_chain, Link};
use crate::fat12::volume::{
    chain_ready, dir_ready, file_ready, find_entry, list_goes_on, list_ready, list_run,
    read_cluster, read_ready, DirLocation, Volume,
};
use crate::fat12::Fat12Info;
use vstd::prelude::*;

verus! {

/// Each of the clusters `cs` names the next one.
pub open spec fn path(fat: Seq<u8>, cs: Seq<int>) -> bool {
    forall|i: int| 0 <= i < cs.len() - 1 ==> #[trigger] link(fat, cs[i]) == Link::Next(cs[i + 1])
}

/// A path from the start of a chain is the beginning of the chain.
proof fn path_is_prefix(fat: Seq<u8>, seen: Seq<int>, cs: Seq<int>, n: int)
    requires
        path(fat, seen),
        seen.len() > 0,
        run(fat, seen[0], cs),
        0 < n <= seen.len(),
    ensures
        n <= cs.len(),
        cs[n - 1] == seen[n - 1],
    decreases n,
{
    if n > 1 {
        path_is_prefix(fat, seen, cs, n - 1);
        assert(link(fat, seen[n - 2]) == Link::Next(seen[n - 1]));
        if n - 1 == cs.len() {
            assert(cs.last() == seen[n - 2]);
        } else {
            assert(link(fat, cs[n - 2]) == Link::Next(cs[n - 1]));
        }
    }
}

/// The volume, the directory and, if it has one, its entry `name` are fit for every
/// operation.
pub open spec fn usable(v: Volume, d: DiskView, dir: DirLocation, name: Seq<char>) -> bool {
    &&& v.geometry_fits()
    &&& v.clusters_fit()
    &&& v.num_fats >= 1
    &&& dir_ready(v, dir)
    &&& match find_entry(v, d, dir, name) {
        Ok((_, _, e)) => chain_ready(v, e.start_cluster as int),
        Err(_) => true,
    }
}

impl Fat12Info {
    /// Whether all sectors of the volume have 32-bit numbers, and clusters have sectors.
    pub fn geometry_is_sound(&self) -> (r: bool)
        requires
            self@.wf(),
        ensures
            r == (self@.geometry_fits() && self@.clusters_fit() && self@.num_fats >= 1),
    {
        let first_root: u64 = self.partition_start_lba as u64 + self.reserved_sector_count as u64
            + self.num_fats_sectors();
        let first_data: u64 = first_root + (self.root_entry_count as u64 * 32 + 511) / 512;
        let total: u64 = self.fat_bytes.len() as u64 * 2 / 3;
        let spc: u64 = self.sectors_per_cluster as u64;
        assert(total * spc <= 0x1000_0000 * 256) by (nonlinear_arith)
            requires
                total <= 0x1000_0000,
                spc <= 255,
        ;
        first_data <= 0xFFFF_FFFF && spc >= 1 && first_data + total * spc <= 0x1_0000_0000
            && self.num_fats >= 1
    }

    fn num_fats_sectors(&self) -> (r: u64)
        ensures
            r == self@.num_fats * self@.fat_size,
            r <= 0x100_0000,
    {
        assert(0 <= self.num_fats * self.fat_size_16 <= 255 * 65535) by (nonlinear_arith)
            requires
                self.num_fats <= 255,
                self.fat_size_16 <= 65535,
        ;
        self.num_fats as u64 * self.fat_size_16 as u64
    }

    /// Whether a cluster is a data cluster whose sectors have 32-bit numbers.
    fn cluster_is_addressable(&self, c: u32) -> (r: bool)
        requires
            self@.wf(),
            self@.geometry_fits(),
        ensures
            r == self@.addressable(c as int),
    {
        if c < 2 || c > 0x5555_5555 {
            return false;
        }
        let spc: u64 = self.sectors_per_cluster as u64;
        assert((c - 1) * spc <= 0x5555_5555 * 256) by (nonlinear_arith)
            requires
                0 <= c - 1 <= 0x5555_5555,
                spc <= 255,
        ;
        self.first_data_sector() as u64 + (c as u64 - 1) * spc <= 0x1_0000_0000
    }

    /// Whether the chain from `start` on ends, and stays among clusters that can be
    /// addressed.
    pub fn chain_is_sound(&self, start: u32) -> (r: bool)
        requires
            self@.wf(),
            self@.geometry_fits(),
        ensures
            r == chain_ready(self@, start as int),
    {
        let ghost fat = self@.fat;
        let ghost mut seen: Seq<int> = seq![start as int];
        let mut n: u32 = 1;
        let mut c: u32 = start;
        loop
            invariant
                self@.wf(),
                self@.geometry_fits(),
                fat == self@.fat,
                seen.len() == n,
                1 <= n <= 0xFF9,
                seen[0] == start,
                seen.last() == c,
                path(fat, seen),
                forall|i: int| 0 <= i < n - 1 ==> self@.addressable(#[trigger] seen[i]),
            decreases 0xFF9 - n,
        {
            if n > 0xFF8 {
                proof {
                    if ends(fat, start as int) {
                        chain_bounded(fat, start as int);
                        path_is_prefix(fat, seen, chain(fat, start as int), n as int);
                    }
                }
                return false;
            }
            if !self.cluster_is_addressable(c) {
                proof {
                    if chain_ready(self@, start as int) {
                        let cs = chain(fat, start as int);
                        path_is_prefix(fat, seen, cs, n as int);
                        assert(self@.addressable(cs[n - 1]));
                    }
                }
                return false;
            }
            match self.next_cluster(c) {
                Ok(Some(next)) => {
                    let ghost longer = seen.push(next as int);
                    assert(path(fat, longer)) by {
                        assert forall|i: int| 0 <= i < longer.len() - 1 implies #[trigger] link(
                            fat,
                            longer[i],
                        ) == Link::Next(longer[i + 1]) by {
                            if i < seen.len() - 1 {
                                assert(link(fat, seen[i]) == Link::Next(seen[i + 1]));
                            }
                        }
                    }
                    proof {
                        seen = longer;
                    }
                    c = next;
                    n = n + 1;
                },
                _ => {
                    proof {
                        assert(run(fat, start as int, seen));
                        run_is_chain(fat, start as int, seen);
                    }
                    return true;
                },
            }
        }
    }

    /// Whether the volume, the directory `dir` and, if it has one, its entry `name`
    /// are fit for every operation.
    pub fn is_usable(&self, disk: &Disk, dir: DirLocation, name: &str) -> (r: bool)
        requires
            self@.wf(),
        ensures
            r == usable(self@, disk@, dir, name@),
    {
        if !self.geometry_is_sound() {
            return false;
        }
        match dir {
            DirLocation::Root => {},
            DirLocation::Cluster(c) => {
                if !self.chain_is_sound(c) {
                    return false;
                }
            },
        }
        match self.find_entry_location_in(disk, dir, name) {
            Ok((_, _, entry)) => self.chain_is_sound(entry.start_cluster),
            Err(_) => true,
        }
    }

    /// Whether reading `size` bytes from cluster `start` on stays among clusters that can be
    /// addressed.
    fn contents_are_in_reach(&self, disk: &Disk, start: u32, size: u32) -> (r: bool)
        requires
            self@.wf(),
            self@.geometry_fits(),
            self@.sectors_per_cluster >= 1,
            size > 0,
        ensures
            r == read_ready(self@, disk@, start as int, size as int, Seq::empty()),
    {
        let n: u32 = self.sectors_per_cluster as u32;
        let ghost whole = read_ready(self@, disk@, start as int, size as int, Seq::empty());
        let ghost mut acc: Seq<u8> = Seq::empty();
        let mut got: u32 = 0;
        let mut c: u32 = start;
        loop
            invariant
                self@.wf(),
                self@.geometry_fits(),
                n == self@.sectors_per_cluster,
                n >= 1,
                acc.len() == got < size,
                whole == read_ready(self@, disk@, c as int, size as int, acc),
                whole == read_ready(self@, disk@, start as int, size as int, Seq::empty()),
            decreases size - got,
        {
            if !self.cluster_is_addressable(c) {
                return false;
            }
            let first: u32 = self.cluster_to_lba(c);
            let ghost before = acc;
            let ghost read = read_cluster(self@, disk@, c as int, 0, size as int, before);
            let mut s: u32 = 0;
            while s < n
                invariant
                    s <= n,
                    n == self@.sectors_per_cluster,
                    first == self@.cluster_lba(c as int),
                    first + n <= 0x1_0000_0000,
                    self@.addressable(c as int),
                    before.len() <= acc.len() == got < size,
                    s > 0 ==> before.len() < got,
                    whole == read_ready(self@, disk@, c as int, size as int, before),
                    whole == read_ready(self@, disk@, start as int, size as int, Seq::empty()),
                    read == read_cluster(self@, disk@, c as int, 0, size as int, before),
                    read == read_cluster(self@, disk@, c as int, s as int, size as int, acc),
                decreases n - s,
            {
                let sector = match disk.read_sector(first + s) {
                    Ok(b) => b,
                    Err(_) => {
                        return true;
                    },
                };
                let left: u32 = size - got;
                let take: u32 = if left < 512 {
                    left
                } else {
                    512
                };
                proof {
                    acc = acc + sector@.take(take as int);
                }
                got = got + take;
                s = s + 1;
                if got >= size {
                    assert(read == Ok::<Seq<u8>, FsError>(acc));
                    return true;
                }
            }
            assert(read == Ok::<Seq<u8>, FsError>(acc));
            match self.next_cluster(c) {
                Ok(Some(next)) => {
                    c = next;
                },
                _ => {
                    return true;
                },
            }
        }
    }

    /// Whether the directory `dir` can be searched and, if it has one, its file `name` can be
    /// read.
    pub fn is_readable(&self, disk: &Disk, dir: DirLocation, name: &str) -> (r: bool)
        requires
            self@.wf(),
            self@.geometry_fits(),
        ensures
            r == file_ready(self@, disk@, dir, name@),
    {
        match dir {
            DirLocation::Root => {},
            DirLocation::Cluster(c) => {
                if !self.chain_is_sound(c) {
                    return false;
                }
            },
        }
        match self.find_entry_location_in(disk, dir, name) {
            Ok((_, _, entry)) => {
                if entry.is_dir || entry.size == 0 {
                    true
                } else {
                    self.sectors_per_cluster >= 1 && self.contents_are_in_reach(
                        disk,
                        entry.start_cluster,
                        entry.size,
                    )
                }
            },
            Err(_) => true,
        }
    }
}

/// A chain that ends can be read to any size.
proof fn chain_readable(v: Volume, d: DiskView, c: int, cs: Seq<int>, i: int, size: int, acc: Seq<u8>)
    requires
        run(v.fat, c, cs),
        0 <= i < cs.len(),
        forall|j: int| 0 <= j < cs.len() ==> v.addressable(#[trigger] cs[j]),
    ensures
        read_ready(v, d, cs[i], size, acc),
    decreases cs.len() - i,
{
    assert(v.addressable(cs[i]));
    if let Ok(more) = read_cluster(v, d, cs[i], 0, size, acc) {
        if !(more.len() >= size || more.len() <= acc.len()) {
            if link(v.fat, cs[i]) is Next {
                assert(i < cs.len() - 1);
                chain_readable(v, d, c, cs, i + 1, size, more);
            }
        }
    }
}

/// A chain that ends can be listed.
pub proof fn chain_listable(v: Volume, d: DiskView, c: int)
    requires
        chain_ready(v, c),
    ensures
        list_ready(v, d, c),
{
    let cs = chain(v.fat, c);
    assert(run(v.fat, c, cs));
    list_prefix(v, d, c, cs, 1);
}

proof fn list_prefix(v: Volume, d: DiskView, c: int, cs: Seq<int>, n: int)
    requires
        run(v.fat, c, cs),
        1 <= n <= cs.len(),
        forall|i: int| 0 <= i < cs.len() ==> v.addressable(#[trigger] cs[i]),
        forall|i: int| 0 <= i < n - 1 ==> list_goes_on(v, d, #[trigger] cs.take(i + 1)),
    ensures
        list_ready(v, d, c),
    decreases cs.len() - n,
{
    let part = cs.take(n);
    if n < cs.len() && list_goes_on(v, d, part) {
        assert forall|i: int| 0 <= i < n implies list_goes_on(v, d, #[trigger] cs.take(i + 1)) by {}
        list_prefix(v, d, c, cs, n + 1);
    } else {
        assert forall|i: int| 0 <= i < part.len() - 1 implies #[trigger] link(v.fat, part[i])
            == Link::Next(part[i + 1]) && list_goes_on(v, d, part.take(i + 1)) by {
            assert(link(v.fat, cs[i]) == Link::Next(cs[i + 1]));
            assert(part.take(i + 1) =~= cs.take(i + 1));
        }
        if n == cs.len() {
            assert(part =~= cs);
        }
        assert forall|i: int| 0 <= i < part.len() implies v.addressable(#[trigger] part[i]) by {
            assert(v.addressable(cs[i]));
        }
        assert(list_run(v, d, c, part));
    }
}

/// What passes the check is fit for every operation.
pub proof fn usable_is_ready(st: Store, dir: DirLocation, name: Seq<char>, len: int)
    requires
        st.mounted(),
        usable(st.v, st.d, dir, name),
    ensures
        file_ready(st.v, st.d, dir, name),
        create_ready(st, dir, name),
        write_ready(st, dir, name, len),
        delete_ready(st, dir, name),
        delete_directory_ready(st, dir, name),
        create_directory_ready(st, dir),
{
    match dir {
        DirLocation::Root => {},
        DirLocation::Cluster(c) => {
            chain_listable(st.v, st.d, c as int);
        },
    }
    if let Ok((_, _, e)) = find_entry(st.v, st.d, dir, name) {
        let c = e.start_cluster as int;
        let cs = chain(st.v.fat, c);
        assert(run(st.v.fat, c, cs));
        assert(st.v.addressable(cs[0]));
        chain_readable(st.v, st.d, c, cs, 0, e.size as int, Seq::empty());
        chain_listable(st.v, st.d, c);
    }
}

} // verus!
