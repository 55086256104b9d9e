//! Whole conversations with the cards: what is asked one after the other, and where the answers go.

use crate::device::{as_bytes, loads, sixteen_at, Op, StepView};
use crate::net::e1000;
use crate::net::virtio::{
    frames_for, mac_in, test_frame, InitRx, InitTx, Queues, ReceiveFrame, SendFrame,
    TxQueueInfo,
};
use crate::pci::PciDevice;
use vstd::prelude::*;

verus! {

/// A step that does and asks these things.
pub open spec fn asks_for<T>(s: StepView<T>, ops: Seq<Op>) -> bool {
    s matches StepView::Next { writes, asks } && asks == ops
}

/// A step that does these things first.
pub open spec fn does<T>(s: StepView<T>, ops: Seq<Op>) -> bool {
    s matches StepView::Next { writes, asks } && writes == ops
}

proof fn six_are_read(a: Seq<u64>, mac: [u8; 6])
    requires
        a.len() >= 6,
        forall|i: int| 0 <= i < 6 ==> #[trigger] a[i] == mac@[i],
    ensures
        mac_in(a)@ == mac@,
{
    assert(as_bytes(a.take(6)) =~= mac@);
}

proof fn sixteen_are_read(a: Seq<u64>, at: int, b: [u8; 16])
    requires
        0 <= at,
        at + 16 <= a.len(),
        forall|i: int| 0 <= i < 16 ==> #[trigger] a[at + i] == b@[i],
    ensures
        sixteen_at(a, at)@ == b@,
{
    let s = as_bytes(a.subrange(at, at + 16));
    assert forall|i: int| 0 <= i < 16 implies s[i] == b@[i] by {
        assert(a[at + i] == b@[i]);
    }
    assert(s =~= b@);
}

/// A frame goes out through the card with registers in memory: its commands are asked for and
/// written back, its address is asked for in two registers, the first page frame is for the
/// ring and the second for the frame, the control register is read, and then the time.
pub proof fn frame_goes_out(
    dev: PciDevice,
    mmio: u64,
    phys: u64,
    command: u16,
    ral0: u32,
    rah0: u32,
    ring: u64,
    buffer: u64,
    ctrl: u32,
    start: u64,
)
    ensures
        ({
            let s0 = e1000::SendFrame::Begin { dev, mmio, phys };
            let s1 = s0.answered(seq![command as u64]);
            let s2 = s1.answered(seq![ral0 as u64, rah0 as u64, ring, buffer]);
            let s3 = s2.answered(seq![ctrl as u64]);
            let s4 = s3.answered(seq![start]);
            &&& does(s0.step(), seq![Op::Out32(0xCF8, dev.at(4))])
            &&& asks_for(s0.step(), seq![Op::In16(0xCFC)])
            &&& does(
                s1.step(),
                seq![Op::Out32(0xCF8, dev.at(4)), Op::Out16(0xCFC, command | 4)],
            )
            &&& asks_for(
                s1.step(),
                seq![
                    Op::Load32((mmio + 0x5400) as u64),
                    Op::Load32((mmio + 0x5404) as u64),
                    Op::AllocateFrame,
                    Op::AllocateFrame,
                ],
            )
            &&& s2 == e1000::SendFrame::Filling { mmio, phys, ral0, rah0, ring, buffer }
            &&& asks_for(s2.step(), seq![Op::Load32(mmio)])
            &&& s3 == e1000::SendFrame::Starting { mmio, phys, ring, ctrl }
            &&& asks_for(s3.step(), seq![Op::Ticks])
            &&& s4 == e1000::SendFrame::Waiting { mmio, phys, ring, start, waited: false }
            &&& does(s4.step(), Seq::empty())
        }),
{
    let a = seq![ral0 as u64, rah0 as u64, ring, buffer];
    assert(a[0] == ral0 && a[1] == rah0 && a[2] == ring && a[3] == buffer);
}

/// The wait goes on with the processor halted in between, and ends well or with what was seen of
/// the ring: how far the card came, where the ring ends for it, and the descriptor.
pub proof fn wait_ends(
    mmio: u64,
    phys: u64,
    ring: u64,
    start: u64,
    waited: bool,
    a: Seq<u64>,
    raw: [u8; 16],
)
    requires
        a.len() == 18,
        a[0] <= u32::MAX,
        a[1] <= u32::MAX,
        forall|i: int| 0 <= i < 16 ==> #[trigger] a[2 + i] == raw@[i],
    ensures
        ({
            let s = e1000::SendFrame::Waiting { mmio, phys, ring, start, waited };
            let late = e1000::SendFrame::Late { mmio, phys, ring };
            &&& does(
                s.step(),
                if waited {
                    seq![Op::Halt]
                } else {
                    Seq::empty()
                },
            )
            &&& s.answered(seq![0u64, start]) == (e1000::SendFrame::Waiting {
                mmio,
                phys,
                ring,
                start,
                waited: true,
            })
            &&& forall|now: u64| now > start + 90 ==> s.answered(#[trigger] seq![0u64, now]) == late
            &&& e1000::SendFrame::Sent.step() == StepView::<Result<(), &'static str>>::Done(Ok(()))
            &&& asks_for(
                late.step(),
                seq![Op::Load32((mmio + 0x3810) as u64), Op::Load32((mmio + 0x3818) as u64)]
                    + loads(phys + ring, 16),
            )
            &&& late.answered(a) matches e1000::SendFrame::TimedOut { seen } && seen.ring_phys == ring
                && seen.tdh == a[0] && seen.tdt == a[1] && seen.raw_desc@ == raw@
            &&& late.answered(a).step() matches StepView::Done(Err(_))
        }),
{
    sixteen_are_read(a, 2, raw);
}

/// The state behind `k` page frames that follow one another from `base` on.
pub open spec fn with_frames(s: InitTx, base: int, k: int) -> InitTx
    decreases k,
{
    if k <= 0 {
        s
    } else {
        with_frames(s, base, k - 1).answered(seq![(base + 4096 * (k - 1)) as u64])
    }
}

/// The state of the receive queue behind `k` such page frames.
pub open spec fn with_rx_frames(s: InitRx, base: int, k: int) -> InitRx
    decreases k,
{
    if k <= 0 {
        s
    } else {
        with_rx_frames(s, base, k - 1).answered(seq![(base + 4096 * (k - 1)) as u64])
    }
}

/// Page frames that follow one another are taken until there are enough, and the first one is where
/// the queue begins.
pub proof fn frames_in_a_row_are_taken(io: u16, phys: u64, num: u16, base: int, k: int)
    requires
        0 <= base,
        base + 4096 * frames_for(num as int) <= u64::MAX,
        0 < k <= frames_for(num as int),
    ensures
        ({
            let tx = with_frames(InitTx::Frames { io, phys, num, first: 0, got: 0 }, base, k);
            let rx = with_rx_frames(InitRx::Frames { io, phys, num, first: 0, got: 0 }, base, k);
            if k < frames_for(num as int) {
                &&& tx == InitTx::Frames { io, phys, num, first: base as u64, got: k as u64 }
                &&& rx == InitRx::Frames { io, phys, num, first: base as u64, got: k as u64 }
                &&& asks_for(tx.step(), seq![Op::AllocateFrame])
                &&& asks_for(rx.step(), seq![Op::AllocateFrame])
            } else {
                &&& tx == InitTx::Program { io, phys, num, base: base as u64 }
                &&& rx == InitRx::Program { io, phys, num, base: base as u64 }
            }
        }),
    decreases k,
{
    if k > 1 {
        frames_in_a_row_are_taken(io, phys, num, base, k - 1);
    } else {
        assert(with_frames(InitTx::Frames { io, phys, num, first: 0, got: 0 }, base, 0)
            == InitTx::Frames { io, phys, num, first: 0, got: 0 });
        assert(with_rx_frames(InitRx::Frames { io, phys, num, first: 0, got: 0 }, base, 0)
            == InitRx::Frames { io, phys, num, first: 0, got: 0 });
    }
}

/// The transmit queue is set up: the card's commands are asked for and written back, a card without
/// the queue is given up, and what was read of the card is told at the end.
pub proof fn sending_is_set_up(
    dev: PciDevice,
    io: u16,
    phys: u64,
    command: u16,
    num: u16,
    base: u64,
    readback: u32,
    status: u8,
)
    ensures
        ({
            let s0 = InitTx::Begin { dev, io, phys };
            let s1 = s0.answered(seq![command as u64]);
            let none = s1.answered(seq![0u64]);
            let s2 = InitTx::Program { io, phys, num, base };
            let s3 = s2.answered(seq![readback as u64]);
            let s4 = s3.answered(seq![status as u64]);
            &&& does(s0.step(), seq![Op::Out32(0xCF8, dev.at(4))])
            &&& asks_for(s0.step(), seq![Op::In16(0xCFC)])
            &&& s1.step() matches StepView::Next { writes, .. } && writes.take(2) == seq![
                Op::Out32(0xCF8, dev.at(4)),
                Op::Out16(0xCFC, command | 4),
            ]
            &&& none.step() matches StepView::Done(Err(_))
            &&& num > 0 ==> s1.answered(seq![num as u64]) == (InitTx::Frames {
                io,
                phys,
                num,
                first: 0,
                got: 0,
            })
            &&& asks_for(s3.step(), seq![Op::In8((io + 18) as u16)])
            &&& s4.step() matches StepView::Done(Ok(info)) && info.queue_num == num
                && info.pfn_readback == readback && info.final_status == status && info.io_base == io
                && info.virt_base == (phys + base) as u64 && info.pfn == (base / 4096
                % 0x1_0000_0000) as u32 && info.frames_needed == frames_for(num as int) as u64
        }),
{
    let s1 = (InitTx::Begin { dev, io, phys }).answered(seq![command as u64]);
    let writes = s1.step()->writes;
    assert(writes.take(2) =~= seq![Op::Out32(0xCF8, dev.at(4)), Op::Out16(0xCFC, command | 4)]);
}

/// The receive queue is set up: queue number 0 is chosen, a card without it is given up, its buffer
/// is cleared and handed over as the first descriptor, which the card writes, the card is told,
/// and what was read of the card is told at the end.
pub proof fn receiving_is_set_up(
    io: u16,
    phys: u64,
    num: u16,
    base: u64,
    readback: u32,
    buffer: u64,
    flags: u16,
    idx: u16,
    after: u16,
)
    ensures
        ({
            let s0 = InitRx::Select { io, phys };
            let s1 = InitRx::Program { io, phys, num, base };
            let s2 = s1.answered(seq![readback as u64, buffer]);
            let s3 = s2.answered(seq![flags as u64, idx as u64]);
            let s4 = s3.answered(seq![after as u64]);
            let s5 = s4.answered(Seq::empty());
            &&& does(s0.step(), seq![Op::Out16((io + 14) as u16, 0)])
            &&& asks_for(s0.step(), seq![Op::In16((io + 12) as u16)])
            &&& s0.answered(seq![0u64]).step() matches StepView::Done(Err(_))
            &&& num > 0 ==> s0.answered(seq![num as u64]) == (InitRx::Frames {
                io,
                phys,
                num,
                first: 0,
                got: 0,
            })
            &&& does(
                s1.step(),
                seq![
                    Op::Zero((phys + base) as u64, (4096 * frames_for(num as int)) as u64),
                    Op::Out32((io + 8) as u16, (base / 4096 % 0x1_0000_0000) as u32),
                ],
            )
            &&& asks_for(s1.step(), seq![Op::In32((io + 8) as u16), Op::AllocateFrame])
            &&& s2 == (InitRx::Describe { io, phys, num, base, readback, buffer })
            &&& s2.step() matches StepView::Next { writes, .. } && writes.len() > 0 && writes[0]
                == Op::Zero((phys + buffer) as u64, 2048) && writes.skip(1)
                == (crate::net::virtio::Ring { base: phys + base, num }).describe(0, buffer, 2048, 2)
            &&& asks_for(
                s2.step(),
                seq![
                    Op::Load16((phys + base + 12) as u64),
                    Op::Load16((phys + base + 16 * num + 2) as u64),
                ],
            )
            &&& does(
                s3.step(),
                (crate::net::virtio::Ring { base: phys + base, num }).publish(idx, 0),
            )
            &&& asks_for(s3.step(), seq![Op::Load16((phys + base + 16 * num + 2) as u64)])
            &&& does(s4.step(), seq![Op::Out16((io + 16) as u16, 0)])
            &&& s5.step() matches StepView::Done(Ok(info)) && info.queue_num == num
                && info.pfn_readback == readback && info.io_base == io && info.virt_base == (phys
                + base) as u64 && info.pfn == (base / 4096 % 0x1_0000_0000) as u32
                && info.frames_needed == frames_for(num as int) as u64 && info.buf_phys == buffer
                && info.buf_virt == (phys + buffer) as u64 && info.buf_len == 2048
                && info.desc_flags_readback == flags && info.avail_idx_after == after
        }),
{
    let s2 = InitRx::Describe { io, phys, num, base, readback, buffer };
    let ring = crate::net::virtio::Ring { base: phys + base, num };
    assert(s2.step()->writes.skip(1) =~= ring.describe(0, buffer, 2048, 2));
}

/// A frame that does not follow the one before ends the setting up of the receive queue too.
pub proof fn receive_frames_are_one_piece(s: InitRx, at: u64)
    requires
        s is Frames,
        s->Frames_got > 0,
        at != s->Frames_first + 4096 * s->Frames_got,
    ensures
        s.answered(seq![at]).step() matches StepView::Done(Err(_)),
{
}

/// A frame goes out through the transmit queue: the card's address and a page frame are asked for,
/// the frame is handed over as descriptor 0, the card is told of queue 1, and how many frames it
/// is done with is looked at until that changes, a million times at most.
pub proof fn queued_frame_goes_out(
    info: TxQueueInfo,
    io: u16,
    phys: u64,
    mac: [u8; 6],
    a: Seq<u64>,
    idx: u16,
    before: u16,
    after: u16,
    left: u32,
    id: u32,
    len: u32,
)
    requires
        a.len() == 7,
        forall|i: int| 0 <= i < 6 ==> #[trigger] a[i] == mac@[i],
        before != after,
        left > 1,
    ensures
        ({
            let s0 = SendFrame::Begin { info, io, phys };
            let s1 = s0.answered(a);
            let s2 = s1.answered(seq![idx as u64]);
            let s3 = s2.answered(seq![before as u64]);
            let polling = SendFrame::Polling { info, before, left };
            let s4 = SendFrame::Completing { info, before, after };
            let s5 = s4.answered(seq![id as u64, len as u64]);
            let used = Op::Load16(info.ring().used_idx());
            &&& asks_for(
                s0.step(),
                seq![
                    Op::In8((io + 20) as u16),
                    Op::In8((io + 21) as u16),
                    Op::In8((io + 22) as u16),
                    Op::In8((io + 23) as u16),
                    Op::In8((io + 24) as u16),
                    Op::In8((io + 25) as u16),
                    Op::AllocateFrame,
                ],
            )
            &&& s1 matches SendFrame::Filling { info: i, io: p, phys: o, mac: m, buffer } && i == info
                && p == io && o == phys && m@ == mac@ && buffer == a[6]
            &&& asks_for(s1.step(), seq![Op::Load16((info.virt_base + 16 * info.queue_num + 2) as u64)])
            &&& does(s2.step(), info.ring().publish(idx, 0))
            &&& asks_for(s2.step(), seq![used])
            &&& does(s3.step(), seq![Op::Out16((io + 16) as u16, 1)])
            &&& asks_for(s3.step(), seq![used])
            &&& s3.answered(seq![after as u64]) == s4
            &&& s3.answered(seq![before as u64]) == (SendFrame::Polling {
                info,
                before,
                left: 999_999,
            })
            &&& asks_for(polling.step(), seq![used])
            &&& polling.answered(seq![after as u64]) == s4
            &&& polling.answered(seq![before as u64]) == (SendFrame::Polling {
                info,
                before,
                left: (left - 1) as u32,
            })
            &&& (SendFrame::Polling { info, before, left: 1 }).answered(seq![before as u64])
                == (SendFrame::Completing { info, before, after: before })
            &&& asks_for(
                s4.step(),
                seq![
                    Op::Load32((info.ring().used() + 4) as u64),
                    Op::Load32((info.ring().used() + 8) as u64),
                ],
            )
            &&& s5.step() matches StepView::Done(Ok(sent)) && sent.used_idx_before == before
                && sent.used_idx_after == after && sent.used_elem_id == id && sent.used_elem_len
                == len
        }),
{
    six_are_read(a, mac);
    let s0 = SendFrame::Begin { info, io, phys };
    assert(s0.step()->asks =~= seq![
        Op::In8((io + 20) as u16),
        Op::In8((io + 21) as u16),
        Op::In8((io + 22) as u16),
        Op::In8((io + 23) as u16),
        Op::In8((io + 24) as u16),
        Op::In8((io + 25) as u16),
        Op::AllocateFrame,
    ]);
}

/// The question goes out and the answer is waited for: the receive buffer is cleared and handed over
/// first, how many frames were received until then is kept, and the question is descriptor 1
/// of the transmit queue.
pub proof fn question_goes_out(
    q: Queues,
    mac: [u8; 6],
    a: Seq<u64>,
    idx: u16,
    before: u16,
    buffer: u64,
    tx_idx: u16,
    tx_before: u16,
    tx_after: u16,
    left: u32,
    start: u64,
)
    requires
        a.len() == 6,
        forall|i: int| 0 <= i < 6 ==> #[trigger] a[i] == mac@[i],
        tx_before != tx_after,
        left > 1,
    ensures
        ({
            let s0 = ReceiveFrame::Begin { q };
            let s1 = s0.answered(a);
            let s2 = s1.answered(seq![idx as u64]);
            let s3 = s2.answered(seq![before as u64, buffer]);
            let s4 = s3.answered(seq![tx_idx as u64]);
            let s5 = s4.answered(seq![tx_before as u64]);
            let polling = ReceiveFrame::Polling { q, before, tx_before, left };
            let timing = ReceiveFrame::Timing { q, before };
            let io = q.tx.io_base;
            let tx_used = Op::Load16(q.tx.ring().used_idx());
            &&& asks_for(
                s0.step(),
                seq![
                    Op::In8((io + 20) as u16),
                    Op::In8((io + 21) as u16),
                    Op::In8((io + 22) as u16),
                    Op::In8((io + 23) as u16),
                    Op::In8((io + 24) as u16),
                    Op::In8((io + 25) as u16),
                ],
            )
            &&& does(s1.step(), seq![Op::Zero(q.rx.buf_virt, q.rx.buf_len as u64)])
            &&& asks_for(
                s1.step(),
                seq![Op::Load16((q.rx.virt_base + 16 * q.rx.queue_num + 2) as u64)],
            )
            &&& does(
                s2.step(),
                q.rx.ring().publish(idx, 0) + seq![Op::Out16((io + 16) as u16, 0)],
            )
            &&& asks_for(
                s2.step(),
                seq![Op::Load16(q.rx.ring().used_idx()), Op::AllocateFrame],
            )
            &&& s3 matches ReceiveFrame::Filling { q: r, mac: m, before: b, buffer: f } && r == q
                && m@ == mac@ && b == before && f == buffer
            &&& asks_for(
                s3.step(),
                seq![Op::Load16((q.tx.virt_base + 16 * q.tx.queue_num + 2) as u64)],
            )
            &&& does(s4.step(), q.tx.ring().publish(tx_idx, 1))
            &&& asks_for(s4.step(), seq![tx_used])
            &&& does(s5.step(), seq![Op::Out16((io + 16) as u16, 1)])
            &&& asks_for(s5.step(), seq![tx_used])
            &&& s5.answered(seq![tx_after as u64]) == timing
            &&& s5.answered(seq![tx_before as u64]) == (ReceiveFrame::Polling {
                q,
                before,
                tx_before,
                left: 999_999,
            })
            &&& asks_for(polling.step(), seq![tx_used])
            &&& polling.answered(seq![tx_after as u64]) == timing
            &&& polling.answered(seq![tx_before as u64]) == (ReceiveFrame::Polling {
                q,
                before,
                tx_before,
                left: (left - 1) as u32,
            })
            &&& (ReceiveFrame::Polling { q, before, tx_before, left: 1 }).answered(
                seq![tx_before as u64],
            ).step() matches StepView::Done(Err(_))
            &&& asks_for(timing.step(), seq![Op::Ticks])
            &&& timing.answered(seq![start]) == (ReceiveFrame::Waiting {
                q,
                before,
                start,
                waited: false,
            })
        }),
{
    six_are_read(a, mac);
    let s0 = ReceiveFrame::Begin { q };
    let io = q.tx.io_base;
    assert(s0.step()->asks =~= seq![
        Op::In8((io + 20) as u16),
        Op::In8((io + 21) as u16),
        Op::In8((io + 22) as u16),
        Op::In8((io + 23) as u16),
        Op::In8((io + 24) as u16),
        Op::In8((io + 25) as u16),
    ]);
}

/// The answer is waited for with the processor halted in between, for 90 ticks. When it came its
/// length is read; when it did not, what was seen is told: the interrupt, the descriptor, the
/// beginning of the buffer, and how many buffers were handed over.
pub proof fn answer_is_waited_for(
    q: Queues,
    before: u16,
    after: u16,
    start: u64,
    waited: bool,
    now: u64,
    len: u32,
    a: Seq<u64>,
    desc: [u8; 16],
    head: [u8; 16],
)
    requires
        before != after,
        a.len() == 34,
        a[0] < 256,
        a[33] < 65536,
        forall|i: int| 0 <= i < 16 ==> #[trigger] a[1 + i] == desc@[i],
        forall|i: int| 0 <= i < 16 ==> #[trigger] a[17 + i] == head@[i],
    ensures
        ({
            let s = ReceiveFrame::Waiting { q, before, start, waited };
            let arrived = ReceiveFrame::Arrived { q, before, after };
            let late = ReceiveFrame::Late { q, before };
            &&& does(
                s.step(),
                if waited {
                    seq![Op::Halt]
                } else {
                    Seq::empty()
                },
            )
            &&& asks_for(s.step(), seq![Op::Load16(q.rx.ring().used_idx()), Op::Ticks])
            &&& s.answered(seq![after as u64, now]) == arrived
            &&& s.answered(seq![before as u64, now]) == if now > start + 90 {
                late
            } else {
                ReceiveFrame::Waiting { q, before, start, waited: true }
            }
            &&& asks_for(arrived.step(), seq![Op::Load32((q.rx.ring().used() + 8) as u64)])
            &&& arrived.answered(seq![len as u64]) == (ReceiveFrame::Reading {
                q,
                before,
                after,
                len,
            })
            &&& asks_for(
                late.step(),
                seq![Op::In8((q.tx.io_base + 19) as u16)] + loads(q.rx.virt_base as int, 16)
                    + loads(q.rx.buf_virt as int, 16) + seq![
                    Op::Load16((q.rx.virt_base + 16 * q.rx.queue_num + 2) as u64),
                ],
            )
            &&& late.answered(a) matches ReceiveFrame::TimedOut { seen } && seen.isr == a[0]
                && seen.used_idx_before == before && seen.used_idx_after == before
                && seen.avail_idx_now == a[33] && seen.raw_desc@ == desc@ && seen.raw_buf_head@
                == head@
            &&& late.answered(a).step() matches StepView::Done(Err(_))
        }),
{
    sixteen_are_read(a, 1, desc);
    sixteen_are_read(a, 17, head);
}

/// Behind the addresses the frame that is sent has an experimental type and a text.
pub proof fn frame_has_its_text(mac: [u8; 6], i: int)
    requires
        0 <= i < 22,
    ensures
        test_frame(mac@)[22] == 0x88,
        test_frame(mac@)[23] == 0xB5,
        test_frame(mac@)[24 + i] == "agentos virtio tx test"@[i],
{
    reveal_strlit("agentos virtio tx test");
}

} // verus!
