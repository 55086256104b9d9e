//! Page frames, handed out one after the other.

use crate::device::{FRAME_SIZE, PHYS_END};
use vstd::prelude::*;
use x86_64::structures::paging::{PhysFrame, Size4KiB};
use x86_64::PhysAddr;

verus! {

/// Hands out the page frames of memory from a first one on.
pub struct BitmapFrameAllocator {
    next_frame_index: u64,
    max_frames: u64,
}

/// `x86_64::structures::paging::PhysFrame::containing_address`, for frames of 4 KiB: the
/// frame that holds this physical address. The number given back is where it starts.
#[verifier::external_body]
fn frame_containing(address: u64) -> (start: u64)
    requires
        address < PHYS_END,
    ensures
        start == address - address % FRAME_SIZE,
{
    let frame: PhysFrame<Size4KiB> = PhysFrame::containing_address(PhysAddr::new(address));
    frame.start_address().as_u64()
}

impl BitmapFrameAllocator {
    /// The number of the frame that is handed out next.
    pub closed spec fn next(self) -> int {
        self.next_frame_index as int
    }

    /// The number of frames in memory.
    pub closed spec fn frames(self) -> int {
        self.max_frames as int
    }

    /// All of memory has physical addresses.
    pub open spec fn wf(self) -> bool {
        0 <= self.next() && 0 <= self.frames() && self.frames() * 4096 <= PHYS_END
    }

    /// Hands out the frames of `memory_size_bytes` bytes of memory from the one that holds
    /// `start_phys_addr` on.
    pub fn init(start_phys_addr: u64, memory_size_bytes: usize) -> (a: BitmapFrameAllocator)
        requires
            memory_size_bytes <= PHYS_END,
        ensures
            a.next() == start_phys_addr / 4096,
            a.frames() == memory_size_bytes / 4096,
            a.next() * 4096 <= start_phys_addr < a.next() * 4096 + 4096,
            a.frames() * 4096 <= memory_size_bytes < a.frames() * 4096 + 4096,
            a.wf(),
    {
        BitmapFrameAllocator {
            next_frame_index: start_phys_addr / 4096,
            max_frames: (memory_size_bytes / 4096) as u64,
        }
    }

    /// The next frame, if there is one: where it starts.
    pub fn allocate_frame(&mut self) -> (r: Option<u64>)
        requires
            old(self).wf(),
        ensures
            final(self).wf(),
            final(self).frames() == old(self).frames(),
            match r {
                Some(start) => old(self).next() < old(self).frames() && start == old(self).next()
                    * 4096 && final(self).next() == old(self).next() + 1,
                None => old(self).next() >= old(self).frames() && final(self).next() == old(
                    self,
                ).next(),
            },
    {
        if self.next_frame_index < self.max_frames {
            let address: u64 = self.next_frame_index * 4096;
            self.next_frame_index = self.next_frame_index + 1;
            Some(frame_containing(address))
        } else {
            None
        }
    }
}

/// Two frames that are handed out at different times do not meet, and both lie in memory.
pub proof fn frames_are_apart(first: int, second: int, frames: int)
    requires
        0 <= first < second < frames,
    ensures
        first * 4096 + 4096 <= second * 4096,
        second * 4096 + 4096 <= frames * 4096,
{
}

} // verus!
