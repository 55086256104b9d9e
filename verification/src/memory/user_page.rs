//! Pages that user code can use.

use crate::bytes::high_first;
use crate::memory::paging::{canonical, page_bits, read_page_bits, PageBits};
use vstd::prelude::*;
use x86_64::structures::paging::{Page, PageTableFlags, Size4KiB};
use x86_64::VirtAddr;

verus! {

/// Where the kernel's heap starts.
pub const HEAP_START: u64 = 0x4444_4444_0000;

/// The bytes of the kernel's heap.
pub const HEAP_SIZE: u64 = 0x10_0000;

pub const USER_TEST_PAGE_ADDR: u64 = 0x5555_5555_0000;

pub const USER_DISK_PROGRAM_PAGE_ADDR: u64 = 0x6666_6666_0000;

pub const USER_DISK_PROGRAM_STACK_ADDR: u64 = 0x7777_7777_0000;

pub const USER_DISK_PROGRAM_DATA_ADDR: u64 = 0x3333_3333_0000;

/// The entry of the topmost page table that an address goes through.
pub open spec fn top_index(address: u64) -> int {
    address as int / 0x80_0000_0000 % 512
}

/// No two of the user pages, and none of them and the heap, go through the same entry of
/// the topmost table. So what a user page lets user code do is not undone by a table that
/// was made for another.
pub proof fn user_pages_share_no_table(i: int, j: int, byte: u64)
    requires
        0 <= i < j < 4,
        byte < HEAP_SIZE,
    ensures
        ({
            let pages = seq![
                USER_TEST_PAGE_ADDR,
                USER_DISK_PROGRAM_PAGE_ADDR,
                USER_DISK_PROGRAM_STACK_ADDR,
                USER_DISK_PROGRAM_DATA_ADDR,
            ];
            &&& top_index(pages[i]) != top_index(pages[j])
            &&& top_index(pages[i]) != top_index((HEAP_START + byte) as u64)
            &&& top_index(pages[j]) != top_index((HEAP_START + byte) as u64)
            &&& canonical(pages[i])
            &&& canonical(pages[j])
        }),
{
}

/// `x86_64::structures::paging::Page::containing_address`, for pages of 4 KiB: the page
/// that holds this address. The number given back is where it starts.
#[verifier::external_body]
fn page_containing(address: u64) -> (start: u64)
    requires
        canonical(address),
    ensures
        start == address - address % 4096,
{
    let page: Page<Size4KiB> = Page::containing_address(VirtAddr::new(address));
    page.start_address().as_u64()
}

/// `x86_64::structures::paging::PageTableFlags::bits`, after `set` of the flags of a page that
/// is present or not, that can be written or not, and that user code can use or not: these
/// are the low three bits, and no other bit is set.
#[verifier::external_body]
fn flag_bits(bits: PageBits) -> (flags: u64)
    ensures
        flags < 8,
        page_bits(flags) == bits,
{
    let mut flags = PageTableFlags::empty();
    flags.set(PageTableFlags::PRESENT, bits.present);
    flags.set(PageTableFlags::WRITABLE, bits.writable);
    flags.set(PageTableFlags::USER_ACCESSIBLE, bits.user_accessible);
    flags.bits()
}

/// A page to map: where it starts, and the flags of its entry.
#[derive(Debug, Clone, Copy, PartialEq, Eq, Structural)]
pub struct UserMapping {
    pub page: u64,
    pub flags: u64,
}

/// How the page that holds an address is mapped for user code.
pub fn map_user_page_at(address: u64) -> (m: UserMapping)
    requires
        canonical(address),
    ensures
        m.page == address - address % 4096,
        m.flags == 7,
        page_bits(m.flags) == (PageBits { present: true, writable: true, user_accessible: true }),
{
    let bits = PageBits { present: true, writable: true, user_accessible: true };
    UserMapping { page: page_containing(address), flags: flag_bits(bits) }
}

/// How the page that user code is tested in is mapped.
pub fn map_user_test_page() -> (m: UserMapping)
    ensures
        m.page == USER_TEST_PAGE_ADDR,
        m.flags == 7,
{
    map_user_page_at(USER_TEST_PAGE_ADDR)
}

/// What was found of a page.
#[derive(Debug, Clone, Copy, PartialEq, Eq, Structural)]
pub struct UserPageInfo {
    pub present: bool,
    pub writable: bool,
    pub user_accessible: bool,
    pub write_read_back_ok: bool,
}

/// What is written to a page to see whether it comes back.
pub open spec fn pattern() -> Seq<u8> {
    seq![0xDEu8, 0xAD, 0xBE, 0xEF, 0xCA, 0xFE, 0xBA, 0xBE]
}

pub fn test_pattern() -> (p: [u8; 8])
    ensures
        p@ == pattern(),
{
    let p: [u8; 8] = [0xDE, 0xAD, 0xBE, 0xEF, 0xCA, 0xFE, 0xBA, 0xBE];
    assert(p@ =~= pattern());
    p
}

/// What is found of a page, given the flags of its entry, if it has one, and what came
/// back of the pattern.
pub open spec fn page_info(flags: Option<u64>, read_back: Seq<u8>) -> UserPageInfo {
    let bits = match flags {
        Some(f) => page_bits(f),
        None => PageBits { present: false, writable: false, user_accessible: false },
    };
    UserPageInfo {
        present: bits.present,
        writable: bits.writable,
        user_accessible: bits.user_accessible,
        write_read_back_ok: read_back == pattern(),
    }
}

pub fn inspect_user_page_at(flags: Option<u64>, read_back: [u8; 8]) -> (info: UserPageInfo)
    ensures
        info == page_info(flags, read_back@),
{
    let bits: PageBits = match flags {
        Some(f) => read_page_bits(f),
        None => PageBits { present: false, writable: false, user_accessible: false },
    };
    let p: [u8; 8] = test_pattern();
    let mut same: bool = true;
    let mut i: usize = 0;
    while i < 8
        invariant
            i <= 8,
            p@ == pattern(),
            same == (forall|k: int| 0 <= k < i ==> read_back@[k] == #[trigger] p@[k]),
        decreases 8 - i,
    {
        if read_back[i] != p[i] {
            same = false;
        }
        i = i + 1;
    }
    proof {
        if same {
            assert(read_back@ =~= pattern());
        } else if read_back@ == pattern() {
            assert(forall|k: int| 0 <= k < 8 ==> read_back@[k] == #[trigger] p@[k]);
        }
    }
    UserPageInfo {
        present: bits.present,
        writable: bits.writable,
        user_accessible: bits.user_accessible,
        write_read_back_ok: same,
    }
}

/// A page that was mapped for user code, and whose entry is as it was written, is found
/// present, writable and accessible.
pub proof fn mapped_page_is_accessible(read_back: Seq<u8>)
    ensures
        page_info(Some(7), read_back).present,
        page_info(Some(7), read_back).writable,
        page_info(Some(7), read_back).user_accessible,
{
}

/// What is found of a page is what its entry says, and nothing if it has none; whether the pattern
/// came back does not depend on that.
pub proof fn entry_tells_of_page(flags: u64, read_back: Seq<u8>)
    ensures
        ({
            let info = page_info(Some(flags), read_back);
            let bits = page_bits(flags);
            let none = page_info(None, read_back);
            &&& info.present == bits.present
            &&& info.writable == bits.writable
            &&& info.user_accessible == bits.user_accessible
            &&& !none.present && !none.writable && !none.user_accessible
            &&& none.write_read_back_ok == info.write_read_back_ok
        }),
{
}

/// The pattern is the bytes of a number, the highest one first; it came back if it did in all of
/// its bytes.
pub proof fn every_byte_has_to_come_back(flags: Option<u64>, i: int, b: u8)
    requires
        0 <= i < 8,
    ensures
        pattern().len() == 8,
        high_first(pattern()) == 0xDEAD_BEEF_CAFE_BABE,
        page_info(flags, pattern()).write_read_back_ok,
        page_info(flags, pattern().update(i, b)).write_read_back_ok <==> b == pattern()[i],
{
    let p = pattern();
    let q = p.update(i, b);
    assert(q[i] == b);
    if b == p[i] {
        assert(q =~= p);
    }
    reveal_with_fuel(high_first, 9);
    assert(p.drop_last().len() == 7);
}

} // verus!
