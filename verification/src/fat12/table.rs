//! The packed 12-bit file allocation table and the chains it describes.

use crate::bytes::le16;
use vstd::prelude::*;

verus! {

/// Where the chain goes from a cluster.
pub enum Link {
    Next(int),
    End,
    Free,
    OutOfRange,
}

/// Whether the table holds an entry for cluster `c`.
pub open spec fn in_table(fat: Seq<u8>, c: int) -> bool {
    0 <= c && c * 3 / 2 + 1 < fat.len()
}

/// The 12-bit entry of cluster `c`: two entries share three bytes, the even one
/// has the low 12 bits of its byte pair and the odd one the high 12 bits.
#[verifier::opaque]
pub open spec fn entry(fat: Seq<u8>, c: int) -> int {
    let raw = le16(fat, c * 3 / 2);
    if c % 2 == 0 {
        raw % 4096
    } else {
        raw / 16
    }
}

/// The table with the entry of cluster `c` set to the low 12 bits of `value`.
#[verifier::opaque]
pub open spec fn set_entry(fat: Seq<u8>, c: int, value: int) -> Seq<u8> {
    let off = c * 3 / 2;
    let raw = le16(fat, off);
    let new = if c % 2 == 0 {
        raw - raw % 4096 + value % 4096
    } else {
        raw % 16 + value % 4096 * 16
    };
    fat.update(off, (new % 256) as u8).update(off + 1, (new / 256) as u8)
}

/// Entries have 12 bits.
pub broadcast proof fn entry_bits(fat: Seq<u8>, c: int)
    ensures
        0 <= #[trigger] entry(fat, c) < 4096,
{
    reveal(entry);
}

/// What the entry of cluster `c` says about its chain.
pub open spec fn link(fat: Seq<u8>, c: int) -> Link {
    if !in_table(fat, c) {
        Link::OutOfRange
    } else if entry(fat, c) == 0 {
        Link::Free
    } else if entry(fat, c) >= 0xFF8 {
        Link::End
    } else {
        Link::Next(entry(fat, c))
    }
}

/// `cs` is the whole sequence of clusters visited from `c` on: each names the
/// next one, and the last one names none.
pub open spec fn run(fat: Seq<u8>, c: int, cs: Seq<int>) -> bool {
    &&& cs.len() > 0
    &&& cs[0] == c
    &&& forall|i: int|
        0 <= i < cs.len() - 1 ==> #[trigger] link(fat, cs[i]) == Link::Next(cs[i + 1])
    &&& !(link(fat, cs.last()) is Next)
}

/// The walk from `c` comes to an end.
pub open spec fn ends(fat: Seq<u8>, c: int) -> bool {
    exists|cs: Seq<int>| run(fat, c, cs)
}

/// The clusters visited from `c` on.
pub open spec fn chain(fat: Seq<u8>, c: int) -> Seq<int> {
    choose|cs: Seq<int>| run(fat, c, cs)
}

/// The message for a walk that stops at a cluster with this link, if it is an error.
pub open spec fn link_error(l: Link) -> Option<&'static str> {
    match l {
        Link::Free => Some("FAT12: cluster chain hit a free (0) entry unexpectedly"),
        Link::OutOfRange => Some("FAT12: cluster number out of range for this FAT"),
        _ => None,
    }
}

/// The byte pair of an even entry after its low 12 bits became `v`.
proof fn even_pair(raw: int, v: int)
    requires
        0 <= raw < 65536,
        0 <= v < 4096,
    ensures
        0 <= raw - raw % 4096 + v < 65536,
        (raw - raw % 4096 + v) % 4096 == v,
        (raw - raw % 4096 + v) / 256 / 16 == raw / 256 / 16,
{
    let q = raw / 4096;
    assert(raw - raw % 4096 == 4096 * q);
    assert((4096 * q + v) / 4096 == q);
}

/// The byte pair of an odd entry after its high 12 bits became `v`.
proof fn odd_pair(raw: int, v: int)
    requires
        0 <= raw < 65536,
        0 <= v < 4096,
    ensures
        0 <= raw % 16 + v * 16 < 65536,
        (raw % 16 + v * 16) / 16 == v,
        (raw % 16 + v * 16) % 256 % 16 == raw % 256 % 16,
{
}

/// The entry of an odd cluster depends on the high half of its first byte only,
/// that of an even cluster on the low half of its second byte only.
proof fn shared_byte(a: int, b: int, x: int)
    requires
        0 <= a < 256,
        0 <= b < 256,
        0 <= x < 256,
    ensures
        a / 16 == b / 16 ==> (a + 256 * x) / 16 == (b + 256 * x) / 16,
        a % 16 == b % 16 ==> (x + 256 * a) % 4096 == (x + 256 * b) % 4096,
{
    assert((a + 256 * x) / 16 == a / 16 + 16 * x);
    assert((b + 256 * x) / 16 == b / 16 + 16 * x);
    assert(x + 256 * a == x + 256 * (a % 16) + 4096 * (a / 16));
    assert(x + 256 * b == x + 256 * (b % 16) + 4096 * (b / 16));
}

/// Setting one entry changes that entry, and no other.
pub proof fn set_entry_frame(fat: Seq<u8>, c: int, value: int)
    requires
        in_table(fat, c),
    ensures
        set_entry(fat, c, value).len() == fat.len(),
        entry(set_entry(fat, c, value), c) == value % 4096,
        forall|d: int|
            in_table(fat, d) && d != c ==> #[trigger] entry(set_entry(fat, c, value), d) == entry(
                fat,
                d,
            ),
{
    reveal(entry);
    reveal(set_entry);
    let off = c * 3 / 2;
    let raw = le16(fat, off);
    let v = value % 4096;
    let new = if c % 2 == 0 {
        raw - raw % 4096 + v
    } else {
        raw % 16 + v * 16
    };
    even_pair(raw, v);
    odd_pair(raw, v);
    let f2 = set_entry(fat, c, value);
    assert(f2[off] == new % 256);
    assert(f2[off + 1] == new / 256);
    assert(le16(f2, off) == new);
    assert forall|d: int| in_table(fat, d) && d != c implies #[trigger] entry(f2, d) == entry(
        fat,
        d,
    ) by {
        set_entry_other(fat, f2, c, d, raw, new);
    }
}

proof fn set_entry_other(fat: Seq<u8>, f2: Seq<u8>, c: int, d: int, raw: int, new: int)
    requires
        in_table(fat, c),
        in_table(fat, d),
        c != d,
        raw == le16(fat, c * 3 / 2),
        0 <= new < 65536,
        c % 2 == 0 ==> new / 256 / 16 == raw / 256 / 16,
        c % 2 == 1 ==> new % 256 % 16 == raw % 256 % 16,
        f2 == fat.update(c * 3 / 2, (new % 256) as u8).update(c * 3 / 2 + 1, (new / 256) as u8),
    ensures
        entry(f2, d) == entry(fat, d),
{
    reveal(entry);
    let off = c * 3 / 2;
    let od = d * 3 / 2;
    if od == off + 1 {
        assert(c % 2 == 0 && d == c + 1);
        assert(f2[od + 1] == fat[od + 1]);
        assert(fat[od] == raw / 256);
        shared_byte(f2[od] as int, fat[od] as int, fat[od + 1] as int);
    } else if od + 1 == off {
        assert(c % 2 == 1 && d == c - 1);
        assert(f2[od] == fat[od]);
        assert(fat[off] == raw % 256);
        shared_byte(f2[off] as int, fat[off] as int, fat[od] as int);
    } else {
        assert(od != off);
        assert(f2[od] == fat[od] && f2[od + 1] == fat[od + 1]);
    }
}

/// Setting one entry leaves the links of all other clusters as they are.
pub proof fn set_entry_links(fat: Seq<u8>, c: int, value: int)
    requires
        in_table(fat, c),
    ensures
        forall|d: int| d != c ==> #[trigger] link(set_entry(fat, c, value), d) == link(fat, d),
        value % 4096 == 0 ==> link(set_entry(fat, c, value), c) == Link::Free,
        value % 4096 >= 0xFF8 ==> link(set_entry(fat, c, value), c) == Link::End,
        0 < value % 4096 < 0xFF8 ==> link(set_entry(fat, c, value), c) == Link::Next(value % 4096),
{
    set_entry_frame(fat, c, value);
    let f2 = set_entry(fat, c, value);
    assert forall|d: int| d != c implies #[trigger] link(f2, d) == link(fat, d) by {
        if in_table(fat, d) {
            assert(entry(f2, d) == entry(fat, d));
        }
    }
}

/// A walk visits the same clusters however it is described.
pub proof fn run_unique(fat: Seq<u8>, c: int, a: Seq<int>, b: Seq<int>)
    requires
        run(fat, c, a),
        run(fat, c, b),
    ensures
        a == b,
    decreases a.len(),
{
    if a.len() == 1 {
        if b.len() > 1 {
            assert(link(fat, b[0]) is Next);
            assert(false);
        }
        assert(a =~= b);
    } else {
        assert(link(fat, a[0]) == Link::Next(a[1]));
        if b.len() == 1 {
            assert(link(fat, b.last()) is Next);
            assert(false);
        }
        assert(link(fat, b[0]) == Link::Next(b[1]));
        let a1 = a.skip(1);
        let b1 = b.skip(1);
        assert(run(fat, a[1], a1)) by {
            assert forall|i: int| 0 <= i < a1.len() - 1 implies #[trigger] link(fat, a1[i])
                == Link::Next(a1[i + 1]) by {
                assert(link(fat, a[i + 1]) == Link::Next(a[i + 2]));
            }
        }
        assert(run(fat, a[1], b1)) by {
            assert forall|i: int| 0 <= i < b1.len() - 1 implies #[trigger] link(fat, b1[i])
                == Link::Next(b1[i + 1]) by {
                assert(link(fat, b[i + 1]) == Link::Next(b[i + 2]));
            }
        }
        run_unique(fat, a[1], a1, b1);
        assert(a =~= seq![c] + a1);
        assert(b =~= seq![c] + b1);
    }
}

/// A walk that ends is the chain.
pub proof fn run_is_chain(fat: Seq<u8>, c: int, cs: Seq<int>)
    requires
        run(fat, c, cs),
    ensures
        ends(fat, c),
        chain(fat, c) == cs,
{
    run_unique(fat, c, cs, chain(fat, c));
}

/// A chain that ends never visits a cluster twice.
pub proof fn chain_distinct(fat: Seq<u8>, c: int)
    requires
        ends(fat, c),
    ensures
        chain(fat, c).no_duplicates(),
{
    let cs = chain(fat, c);
    assert(run(fat, c, cs));
    assert forall|i: int, j: int| 0 <= i < j < cs.len() implies cs[i] != cs[j] by {
        run_distinct(fat, c, cs, i, j);
    }
}

proof fn run_distinct(fat: Seq<u8>, c: int, cs: Seq<int>, i: int, j: int)
    requires
        run(fat, c, cs),
        0 <= i < j < cs.len(),
    ensures
        cs[i] != cs[j],
    decreases cs.len() - j,
{
    assert(link(fat, cs[i]) == Link::Next(cs[i + 1]));
    if j + 1 < cs.len() {
        assert(link(fat, cs[j]) == Link::Next(cs[j + 1]));
        run_distinct(fat, c, cs, i + 1, j + 1);
    }
}

/// A chain that ends has at most one more cluster than there are cluster numbers
/// that an entry can name.
pub proof fn chain_bounded(fat: Seq<u8>, c: int)
    requires
        ends(fat, c),
    ensures
        chain(fat, c).len() <= 0xFF8,
{
    let cs = chain(fat, c);
    chain_distinct(fat, c);
    let rest = cs.skip(1);
    broadcast use entry_bits;

    assert forall|i: int| 0 <= i < rest.len() implies 1 <= #[trigger] rest[i] < 0xFF8 by {
        assert(link(fat, cs[i]) == Link::Next(cs[i + 1]));
    }
    assert(rest.no_duplicates());
    rest.unique_seq_to_set();
    let names = vstd::set_lib::set_int_range(1, 0xFF8);
    vstd::set_lib::lemma_int_range(1, 0xFF8);
    assert(rest.to_set().subset_of(names));
    vstd::set_lib::lemma_len_subset(rest.to_set(), names);
}

/// How many of the clusters below `n` are in use.
pub open spec fn used_below(fat: Seq<u8>, n: nat) -> nat
    decreases n,
{
    if n == 0 {
        0
    } else {
        used_below(fat, (n - 1) as nat) + if in_table(fat, n - 1) && entry(fat, n - 1) != 0 {
            1nat
        } else {
            0
        }
    }
}

/// Freeing a cluster that is in use leaves one cluster fewer in use.
pub proof fn freeing_decreases(fat: Seq<u8>, c: int, n: nat)
    requires
        in_table(fat, c),
        entry(fat, c) != 0,
    ensures
        c < n ==> used_below(set_entry(fat, c, 0), n) == used_below(fat, n) - 1,
        c >= n ==> used_below(set_entry(fat, c, 0), n) == used_below(fat, n),
    decreases n,
{
    set_entry_frame(fat, c, 0);
    if n > 0 {
        freeing_decreases(fat, c, (n - 1) as nat);
        if n - 1 != c && in_table(fat, n - 1) {
            assert(entry(set_entry(fat, c, 0), n - 1) == entry(fat, n - 1));
        }
    }
}

/// Half a byte of the table. The entry of cluster `c` is made of the halves `3c` to `3c + 2`.
pub open spec fn half(fat: Seq<u8>, n: int) -> int {
    if n % 2 == 0 {
        fat[n / 2] as int % 16
    } else {
        fat[n / 2] as int / 16
    }
}

/// Tables with the same halves are the same.
pub proof fn halves_decide(a: Seq<u8>, b: Seq<u8>)
    requires
        a.len() == b.len(),
        forall|n: int| 0 <= n < 2 * a.len() ==> #[trigger] half(a, n) == half(b, n),
    ensures
        a == b,
{
    assert forall|i: int| 0 <= i < a.len() implies a[i] == b[i] by {
        assert(half(a, 2 * i) == half(b, 2 * i));
        assert(half(a, 2 * i + 1) == half(b, 2 * i + 1));
        assert((2 * i + 1) / 2 == i);
    }
    assert(a =~= b);
}

/// Setting one entry leaves the halves of all others as they are.
pub proof fn set_entry_halves(fat: Seq<u8>, c: int, value: int, n: int)
    requires
        in_table(fat, c),
        0 <= n < 2 * fat.len(),
        n / 3 != c,
    ensures
        half(set_entry(fat, c, value), n) == half(fat, n),
{
    reveal(set_entry);
    let off = c * 3 / 2;
    let raw = le16(fat, off);
    let v = value % 4096;
    even_pair(raw, v);
    odd_pair(raw, v);
    if n / 2 == off {
        assert(c % 2 == 1 && n == 2 * off);
        assert(fat[off] == raw % 256);
    } else if n / 2 == off + 1 {
        assert(c % 2 == 0 && n == 2 * off + 3);
        assert(fat[off + 1] == raw / 256);
    }
}

/// A byte pair whose low 12 bits are zero, and one whose high 12 bits are.
proof fn zero_pair(lo: int, hi: int)
    requires
        0 <= lo < 256,
        0 <= hi < 256,
    ensures
        (lo + 256 * hi) % 4096 == 0 ==> lo == 0 && hi % 16 == 0,
        (lo + 256 * hi) / 16 == 0 ==> lo / 16 == 0 && hi == 0,
{
    let low = lo + 256 * (hi % 16);
    assert(lo + 256 * hi == low + 4096 * (hi / 16));
    assert(0 <= low < 4096);
    assert((lo + 256 * hi) % 4096 == low);
}

/// The halves of a free entry are zero.
pub proof fn free_halves(fat: Seq<u8>, c: int, n: int)
    requires
        link(fat, c) is Free,
        n / 3 == c,
    ensures
        half(fat, n) == 0,
{
    reveal(entry);
    let off = c * 3 / 2;
    zero_pair(fat[off] as int, fat[off + 1] as int);
    if c % 2 == 0 {
        assert(2 * off == 3 * c);
        assert(n / 2 == off || n == 2 * off + 2);
    } else {
        assert(2 * off == 3 * c - 1);
        assert(n == 2 * off + 1 || n / 2 == off + 1);
    }
}

} // verus!
