//! Blocks of memory for a cache, each with the process that it belongs to.

use vstd::prelude::*;

verus! {

/// The bytes of a block.
pub const KV_CACHE_PAGE_SIZE: usize = 4096;

/// The most blocks there are.
pub const KV_CACHE_BLOCKS: usize = 128;

/// Where a block is kept.
#[derive(Debug, Clone, Copy, PartialEq, Eq, Structural)]
pub enum KVCacheLocation {
    Vram,
    SystemRam,
    PagedDisk,
}

/// The memory behind a block.
pub struct BlockMemory {
    bytes: Vec<u8>,
}

impl View for BlockMemory {
    type V = Seq<u8>;

    closed spec fn view(&self) -> Seq<u8> {
        self.bytes@
    }
}

/// A block of memory.
pub struct KVCacheBlock {
    pub block_id: u32,
    pub pid: u32,
    pub token_capacity: usize,
    pub location: KVCacheLocation,
    pub data: BlockMemory,
}

/// What is known of a block, and what it holds.
#[verifier::ext_equal]
pub struct Block {
    pub id: u32,
    pub pid: u32,
    pub tokens: usize,
    pub location: KVCacheLocation,
    pub data: Seq<u8>,
}

impl View for KVCacheBlock {
    type V = Block;

    open spec fn view(&self) -> Block {
        Block {
            id: self.block_id,
            pid: self.pid,
            tokens: self.token_capacity,
            location: self.location,
            data: self.data@,
        }
    }
}

impl KVCacheBlock {
    /// The memory of the block.
    pub fn data(&self) -> (d: &[u8])
        ensures
            d@ == self@.data,
    {
        self.data.bytes.as_slice()
    }

    pub fn size_bytes(&self) -> (n: usize)
        ensures
            n == self@.data.len(),
    {
        self.data.bytes.len()
    }
}

/// The blocks that are in use.
pub struct KVCacheMemoryManager {
    blocks: Vec<Option<KVCacheBlock>>,
    allocated_count: usize,
}

/// How many of the first `n` places are in use.
pub open spec fn used_below(slots: Seq<Option<Block>>, n: int) -> int
    decreases n,
{
    if n <= 0 {
        0
    } else {
        used_below(slots, n - 1) + if slots[n - 1] is Some {
            1int
        } else {
            0
        }
    }
}

/// The first place from `i` on that is not in use, or the end.
pub open spec fn first_free(slots: Seq<Option<Block>>, i: int) -> int
    decreases slots.len() - i,
{
    if i < 0 || i >= slots.len() || slots[i] is None {
        i
    } else {
        first_free(slots, i + 1)
    }
}

/// The blocks in the first `n` places, in order.
pub open spec fn blocks_below(slots: Seq<Option<Block>>, n: int) -> Seq<Block>
    decreases n,
{
    if n <= 0 {
        Seq::empty()
    } else {
        match slots[n - 1] {
            Some(b) => blocks_below(slots, n - 1).push(b),
            None => blocks_below(slots, n - 1),
        }
    }
}

/// There are as many places as there can be, and each block has the number of its place.
pub open spec fn numbered(slots: Seq<Option<Block>>) -> bool {
    &&& slots.len() == KV_CACHE_BLOCKS
    &&& forall|i: int|
        0 <= i < slots.len() ==> ((#[trigger] slots[i]) matches Some(b) ==> b.id == i + 1)
}

/// A new block for a process: zeros, in main memory.
pub open spec fn new_block(place: int, pid: u32, tokens: usize) -> Block {
    Block {
        id: (place + 1) as u32,
        pid,
        tokens,
        location: KVCacheLocation::SystemRam,
        data: Seq::new(KV_CACHE_PAGE_SIZE as nat, |i: int| 0u8),
    }
}

/// The places after a process was given a block, and the block's number.
pub open spec fn given(slots: Seq<Option<Block>>, pid: u32, tokens: usize) -> (
    Seq<Option<Block>>,
    Option<u32>,
) {
    let place = first_free(slots, 0);
    if place < slots.len() {
        (slots.update(place, Some(new_block(place, pid, tokens))), Some((place + 1) as u32))
    } else {
        (slots, None)
    }
}

/// The places after a block was taken back, and the process that it belonged to. A number
/// that no block in use has changes nothing.
pub open spec fn taken_back(slots: Seq<Option<Block>>, id: u32) -> (
    Seq<Option<Block>>,
    Option<u32>,
) {
    if 1 <= id <= slots.len() && slots[id - 1] is Some {
        (slots.update(id - 1, None), Some(slots[id - 1]->0.pid))
    } else {
        (slots, None)
    }
}

proof fn first_free_bounds(slots: Seq<Option<Block>>, i: int)
    requires
        0 <= i <= slots.len(),
    ensures
        i <= first_free(slots, i) <= slots.len(),
        first_free(slots, i) < slots.len() ==> slots[first_free(slots, i)] is None,
        forall|k: int| i <= k < first_free(slots, i) ==> #[trigger] slots[k] is Some,
    decreases slots.len() - i,
{
    if i < slots.len() && slots[i] is Some {
        first_free_bounds(slots, i + 1);
    }
}

proof fn used_below_bounds(slots: Seq<Option<Block>>, n: int)
    requires
        0 <= n <= slots.len(),
    ensures
        0 <= used_below(slots, n) <= n,
    decreases n,
{
    if n > 0 {
        used_below_bounds(slots, n - 1);
    }
}

proof fn used_below_updated(slots: Seq<Option<Block>>, at: int, b: Option<Block>, n: int)
    requires
        0 <= n <= slots.len(),
        0 <= at < slots.len(),
    ensures
        used_below(slots.update(at, b), n) == used_below(slots, n) + (if at < n {
            (if b is Some {
                1int
            } else {
                0
            }) - (if slots[at] is Some {
                1int
            } else {
                0
            })
        } else {
            0
        }),
    decreases n,
{
    if n > 0 {
        used_below_updated(slots, at, b, n - 1);
    }
}

proof fn used_is_positive(slots: Seq<Option<Block>>, at: int, n: int)
    requires
        0 <= at < n <= slots.len(),
        slots[at] is Some,
    ensures
        used_below(slots, n) >= 1,
    decreases n,
{
    used_below_bounds(slots, n - 1);
    if at < n - 1 {
        used_is_positive(slots, at, n - 1);
    }
}

impl View for KVCacheMemoryManager {
    type V = Seq<Option<Block>>;

    closed spec fn view(&self) -> Seq<Option<Block>> {
        Seq::new(
            self.blocks@.len(),
            |i: int|
                match self.blocks@[i] {
                    Some(b) => Some(b@),
                    None => None,
                },
        )
    }
}

impl KVCacheMemoryManager {
    /// How many blocks are counted as in use.
    pub closed spec fn count(self) -> int {
        self.allocated_count as int
    }

    /// There are as many places as there can be, each block has the number of its place, and
    /// the count is right.
    pub open spec fn wf(self) -> bool {
        &&& numbered(self@)
        &&& self.count() == used_below(self@, KV_CACHE_BLOCKS as int)
    }

    /// No block in use.
    pub fn new() -> (m: KVCacheMemoryManager)
        ensures
            m.wf(),
            m@ == Seq::new(KV_CACHE_BLOCKS as nat, |i: int| None::<Block>),
    {
        let mut blocks: Vec<Option<KVCacheBlock>> = Vec::new();
        let mut i: usize = 0;
        while i < KV_CACHE_BLOCKS
            invariant
                i <= KV_CACHE_BLOCKS,
                blocks@.len() == i,
                forall|k: int| 0 <= k < i ==> #[trigger] blocks@[k] is None,
            decreases KV_CACHE_BLOCKS - i,
        {
            blocks.push(None);
            i = i + 1;
        }
        let m = KVCacheMemoryManager { blocks, allocated_count: 0 };
        proof {
            assert(m@ =~= Seq::new(KV_CACHE_BLOCKS as nat, |i: int| None::<Block>));
            none_used(m@, KV_CACHE_BLOCKS as int);
        }
        m
    }

    /// Gives a process a block: its number, if there was one left.
    pub fn allocate_kv_block(&mut self, pid: u32, tokens: usize) -> (r: Option<u32>)
        requires
            old(self).wf(),
        ensures
            final(self).wf(),
            (final(self)@, r) == given(old(self)@, pid, tokens),
            r is None <==> used_below(old(self)@, KV_CACHE_BLOCKS as int) == KV_CACHE_BLOCKS,
            r matches Some(id) ==> 1 <= id <= KV_CACHE_BLOCKS,
    {
        proof {
            none_given_when_full(self@, pid, tokens);
            first_free_bounds(self@, 0);
            assert(self.blocks@.len() == self@.len());
        }
        let mut place: usize = 0;
        while place < self.blocks.len() && self.blocks[place].is_some()
            invariant
                place <= self.blocks@.len(),
                self.blocks@.len() == KV_CACHE_BLOCKS,
                first_free(self@, 0) == first_free(self@, place as int),
            decreases self.blocks@.len() - place,
        {
            assert(self@[place as int] is Some);
            place = place + 1;
        }
        if place >= self.blocks.len() {
            return None;
        }
        let block_id: u32 = place as u32 + 1;
        let data: Vec<u8> = vec![0;KV_CACHE_PAGE_SIZE];
        let block = KVCacheBlock {
            block_id,
            pid,
            token_capacity: tokens,
            location: KVCacheLocation::SystemRam,
            data: BlockMemory { bytes: data },
        };
        proof {
            assert(self@[place as int] is None);
            used_below_bounds(self@, KV_CACHE_BLOCKS as int);
            used_below_updated(
                self@,
                place as int,
                Some(new_block(place as int, pid, tokens)),
                KV_CACHE_BLOCKS as int,
            );
            assert(block@ =~= new_block(place as int, pid, tokens));
        }
        self.blocks.set(place, Some(block));
        self.allocated_count = self.allocated_count + 1;
        assert(self@ =~= old(self)@.update(
            place as int,
            Some(new_block(place as int, pid, tokens)),
        ));
        Some(block_id)
    }

    /// Takes a block back: the process that it belonged to, if it was in use.
    pub fn free_kv_block(&mut self, block_id: u32) -> (r: Option<u32>)
        requires
            old(self).wf(),
        ensures
            final(self).wf(),
            (final(self)@, r) == taken_back(old(self)@, block_id),
    {
        assert(self.blocks@.len() == self@.len());
        if block_id == 0 {
            return None;
        }
        let place: usize = (block_id - 1) as usize;
        if place >= self.blocks.len() {
            return None;
        }
        let pid: u32 = match &self.blocks[place] {
            Some(block) => block.pid,
            None => {
                assert(self@[place as int] is None);
                return None;
            },
        };
        proof {
            assert(self@[place as int] is Some);
            used_is_positive(self@, place as int, KV_CACHE_BLOCKS as int);
            used_below_updated(self@, place as int, None, KV_CACHE_BLOCKS as int);
        }
        self.blocks.set(place, None);
        self.allocated_count = self.allocated_count - 1;
        assert(self@ =~= old(self)@.update(place as int, None));
        Some(pid)
    }

    /// How many blocks are in use.
    pub fn get_allocated_count(&self) -> (n: usize)
        requires
            self.wf(),
        ensures
            n == used_below(self@, KV_CACHE_BLOCKS as int),
            n <= KV_CACHE_BLOCKS,
    {
        proof {
            used_below_bounds(self@, KV_CACHE_BLOCKS as int);
        }
        self.allocated_count
    }

    /// The blocks in use, in the order of their numbers.
    pub fn for_each_block(&self) -> (r: Vec<&KVCacheBlock>)
        requires
            self.wf(),
        ensures
            r@.len() == blocks_below(self@, KV_CACHE_BLOCKS as int).len(),
            forall|i: int|
                0 <= i < r@.len() ==> (#[trigger] r@[i])@ == blocks_below(
                    self@,
                    KV_CACHE_BLOCKS as int,
                )[i],
            r@.len() == used_below(self@, KV_CACHE_BLOCKS as int),
            forall|i: int|
                0 <= i < r@.len() ==> 1 <= (#[trigger] r@[i]).block_id <= KV_CACHE_BLOCKS,
            forall|i: int, j: int|
                0 <= i < j < r@.len() ==> (#[trigger] r@[i]).block_id < (#[trigger] r@[j]).block_id,
    {
        assert(self.blocks@.len() == self@.len());
        let mut r: Vec<&KVCacheBlock> = Vec::new();
        let mut i: usize = 0;
        while i < self.blocks.len()
            invariant
                i <= self.blocks@.len(),
                self.blocks@.len() == KV_CACHE_BLOCKS,
                r@.len() == blocks_below(self@, i as int).len(),
                forall|k: int|
                    0 <= k < r@.len() ==> (#[trigger] r@[k])@ == blocks_below(self@, i as int)[k],
            decreases self.blocks@.len() - i,
        {
            match &self.blocks[i] {
                Some(block) => {
                    assert(self@[i as int] == Some(block@));
                    r.push(block);
                },
                None => {
                    assert(self@[i as int] is None);
                },
            }
            i = i + 1;
        }
        proof {
            let all = blocks_below(self@, KV_CACHE_BLOCKS as int);
            blocks_rise(self@, KV_CACHE_BLOCKS as int);
            assert forall|i: int| 0 <= i < r@.len() implies (#[trigger] r@[i]).block_id
                == all[i].id by {
                assert(r@[i]@ == all[i]);
            }
        }
        r
    }
}

/// The blocks in the first places are as many as are in use there, and their numbers rise.
proof fn blocks_rise(slots: Seq<Option<Block>>, n: int)
    requires
        numbered(slots),
        0 <= n <= slots.len(),
    ensures
        blocks_below(slots, n).len() == used_below(slots, n),
        forall|i: int|
            0 <= i < blocks_below(slots, n).len() ==> 1 <= (#[trigger] blocks_below(slots, n)[i]).id
                <= n,
        forall|i: int, j: int|
            0 <= i < j < blocks_below(slots, n).len() ==> (#[trigger] blocks_below(slots, n)[i]).id
                < (#[trigger] blocks_below(slots, n)[j]).id,
    decreases n,
{
    if n > 0 {
        blocks_rise(slots, n - 1);
        assert(slots[n - 1] matches Some(b) ==> b.id == n);
    }
}

proof fn none_used(slots: Seq<Option<Block>>, n: int)
    requires
        0 <= n <= slots.len(),
        forall|i: int| 0 <= i < n ==> #[trigger] slots[i] is None,
    ensures
        used_below(slots, n) == 0,
    decreases n,
{
    if n > 0 {
        none_used(slots, n - 1);
    }
}

/// A process is given a block as long as one is left, and the block is one that was not in
/// use; no other block changes.
pub proof fn given_block_is_new(slots: Seq<Option<Block>>, pid: u32, tokens: usize, id: u32, k: int)
    requires
        slots.len() == KV_CACHE_BLOCKS,
        given(slots, pid, tokens).1 == Some(id),
        0 <= k < slots.len(),
    ensures
        1 <= id <= 128,
        slots[id - 1] is None,
        given(slots, pid, tokens).0[id - 1] == Some(new_block(id - 1, pid, tokens)),
        k != id - 1 ==> given(slots, pid, tokens).0[k] == slots[k],
{
    first_free_bounds(slots, 0);
}

/// None is given exactly when all are in use.
pub proof fn none_given_when_full(slots: Seq<Option<Block>>, pid: u32, tokens: usize)
    requires
        slots.len() == KV_CACHE_BLOCKS,
    ensures
        given(slots, pid, tokens).1 is None <==> used_below(slots, KV_CACHE_BLOCKS as int)
            == KV_CACHE_BLOCKS,
{
    first_free_bounds(slots, 0);
    let place = first_free(slots, 0);
    if place < slots.len() {
        used_below_updated(
            slots,
            place,
            Some(new_block(place, pid, tokens)),
            KV_CACHE_BLOCKS as int,
        );
        used_below_bounds(
            slots.update(place, Some(new_block(place, pid, tokens))),
            KV_CACHE_BLOCKS as int,
        );
    } else {
        all_used(slots, KV_CACHE_BLOCKS as int);
    }
}

proof fn all_used(slots: Seq<Option<Block>>, n: int)
    requires
        0 <= n <= slots.len(),
        forall|i: int| 0 <= i < n ==> #[trigger] slots[i] is Some,
    ensures
        used_below(slots, n) == n,
    decreases n,
{
    if n > 0 {
        all_used(slots, n - 1);
    }
}

/// Taking back a block that was just given leaves everything as it was before, and tells
/// the process that it was given to.
pub proof fn taking_back_undoes_giving(slots: Seq<Option<Block>>, pid: u32, tokens: usize, id: u32)
    requires
        slots.len() == KV_CACHE_BLOCKS,
        given(slots, pid, tokens).1 == Some(id),
    ensures
        taken_back(given(slots, pid, tokens).0, id) == (slots, Some(pid)),
{
    first_free_bounds(slots, 0);
    assert(taken_back(given(slots, pid, tokens).0, id).0 =~= slots);
}

/// A block can be taken back once only.
pub proof fn taken_back_once(slots: Seq<Option<Block>>, id: u32)
    ensures
        taken_back(taken_back(slots, id).0, id) == (taken_back(slots, id).0, None::<u32>),
{
}

/// The block that is given is the one with the lowest number of those that are not in use, belongs
/// to the process, has room for as many tokens as were asked for, and is a page of zeros.
pub proof fn lowest_block_is_given(slots: Seq<Option<Block>>, pid: u32, tokens: usize, id: u32)
    requires
        slots.len() == KV_CACHE_BLOCKS,
        given(slots, pid, tokens).1 == Some(id),
    ensures
        forall|k: int| 0 <= k < id - 1 ==> #[trigger] slots[k] is Some,
        given(slots, pid, tokens).0[id - 1] matches Some(b) && b.id == id && b.pid == pid
            && b.tokens == tokens && b.location is SystemRam && b.data.len() == 4096 && (forall|
            i: int,
        |
            0 <= i < 4096 ==> #[trigger] b.data[i] == 0),
{
    first_free_bounds(slots, 0);
}

/// A block in use is listed, and no other is.
pub proof fn blocks_in_use_are_listed(slots: Seq<Option<Block>>, n: int, b: Block)
    requires
        0 <= n <= slots.len(),
    ensures
        blocks_below(slots, n).contains(b) <==> exists|i: int|
            0 <= i < n && #[trigger] slots[i] == Some(b),
    decreases n,
{
    if n > 0 {
        blocks_in_use_are_listed(slots, n - 1, b);
        let before = blocks_below(slots, n - 1);
        let all = blocks_below(slots, n);
        if all.contains(b) {
            let i = choose|i: int| 0 <= i < all.len() && all[i] == b;
            if i < before.len() {
                assert(before[i] == b);
            } else {
                assert(slots[n - 1] == Some(b));
            }
        }
        if before.contains(b) {
            let i = choose|i: int| 0 <= i < before.len() && before[i] == b;
            assert(all[i] == b);
        }
        if slots[n - 1] == Some(b) {
            assert(all[before.len() as int] == b);
        }
    }
}

/// Taking back a block touches that block only, and tells whose it was; a number of no block in use
/// changes nothing.
pub proof fn others_stay_when_taken_back(slots: Seq<Option<Block>>, id: u32, k: int)
    requires
        0 <= k < slots.len(),
    ensures
        k != id - 1 ==> taken_back(slots, id).0[k] == slots[k],
        1 <= id <= slots.len() ==> taken_back(slots, id).0[id - 1] is None && (match slots[id - 1] {
            Some(b) => taken_back(slots, id).1 == Some(b.pid),
            None => taken_back(slots, id).1 is None,
        }),
        id == 0 || id > slots.len() ==> taken_back(slots, id) == (slots, None::<u32>),
        taken_back(slots, id).0.len() == slots.len(),
{
}

} // verus!
