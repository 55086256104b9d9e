//! Whether an address can be used.

use vstd::prelude::*;
use x86_64::structures::paging::PageTableFlags;
use x86_64::VirtAddr;

verus! {

/// An address whose top bits are all like bit 47.
pub open spec fn canonical(address: u64) -> bool {
    address < 0x8000_0000_0000 || address >= 0xFFFF_8000_0000_0000
}

/// `x86_64::VirtAddr::try_new`: it succeeds exactly on the addresses whose top bits are
/// copies of bit 47.
#[verifier::external_body]
pub(crate) fn is_canonical(address: u64) -> (r: bool)
    ensures
        r == canonical(address),
{
    VirtAddr::try_new(address).is_ok()
}

/// What a page table entry says of its page.
#[derive(Debug, Clone, Copy, PartialEq, Eq, Structural)]
pub struct PageBits {
    pub present: bool,
    pub writable: bool,
    pub user_accessible: bool,
}

/// What the low three bits of an entry say.
pub open spec fn page_bits(flags: u64) -> PageBits {
    PageBits {
        present: flags % 2 == 1,
        writable: flags / 2 % 2 == 1,
        user_accessible: flags / 4 % 2 == 1,
    }
}

/// `x86_64::structures::paging::PageTableFlags::contains`, for the flags of a page that is
/// present, that can be written, and that user code can use: the low three bits.
#[verifier::external_body]
pub(crate) fn read_page_bits(flags: u64) -> (r: PageBits)
    ensures
        r == page_bits(flags),
{
    let flags = PageTableFlags::from_bits_truncate(flags);
    PageBits {
        present: flags.contains(PageTableFlags::PRESENT),
        writable: flags.contains(PageTableFlags::WRITABLE),
        user_accessible: flags.contains(PageTableFlags::USER_ACCESSIBLE),
    }
}

/// Whether the page table has to be asked about an address: it is not zero, and it can be
/// one at all.
pub fn pointer_is_plausible(address: u64) -> (r: bool)
    ensures
        r == (address != 0 && canonical(address)),
{
    address != 0 && is_canonical(address)
}

/// Whether an address can be used now, given the flags of its page, if it has one.
pub fn pointer_is_mapped(address: u64, flags: Option<u64>) -> (r: bool)
    ensures
        r == (address != 0 && canonical(address) && (flags matches Some(f)
            && page_bits(f).present)),
{
    if !pointer_is_plausible(address) {
        return false;
    }
    match flags {
        Some(f) => read_page_bits(f).present,
        None => false,
    }
}

/// Of all the addresses with the same low 48 bits exactly one can be used: the one whose top bits are
/// like bit 47.
pub proof fn one_address_can_be_used(low: u64, a: u64)
    requires
        low < 0x1_0000_0000_0000,
        a % 0x1_0000_0000_0000 == low,
    ensures
        canonical(a) <==> a == if low < 0x8000_0000_0000 {
            low as int
        } else {
            0xFFFF_0000_0000_0000 + low
        },
{
}

/// An entry says of its page that it is present in its lowest bit, that it can be written in the
/// next one, and that user code can use it in the one behind that; the other bits do not matter.
pub proof fn bits_are_in_order(present: bool, writable: bool, user_accessible: bool, rest: int)
    requires
        0 <= rest < 0x2000_0000_0000_0000,
    ensures
        ({
            let p: int = if present {
                1
            } else {
                0
            };
            let w: int = if writable {
                2
            } else {
                0
            };
            let u: int = if user_accessible {
                4
            } else {
                0
            };
            page_bits((8 * rest + u + w + p) as u64) == (PageBits {
                present,
                writable,
                user_accessible,
            })
        }),
{
}

/// An address that is told to be mapped is not zero, can be one at all, and has a page whose entry
/// has its lowest bit set; and every such address is.
pub proof fn mapped_pointers_have_pages(address: u64, flags: Option<u64>, r: bool)
    requires
        call_ensures(pointer_is_mapped, (address, flags), r),
    ensures
        flags is None ==> !r,
        address == 0 ==> !r,
        flags matches Some(f) && f % 2 == 0 ==> !r,
        0 < address < 0x8000_0000_0000 && (flags matches Some(f) && f % 2 == 1) ==> r,
        0x8000_0000_0000 <= address < 0xFFFF_8000_0000_0000 ==> !r,
        address >= 0xFFFF_8000_0000_0000 && (flags matches Some(f) && f % 2 == 1) ==> r,
{
}

} // verus!
