//! What the cards find in the memory that they share and in their registers.

use crate::bytes::{
    bytes_stand_for_number, le16_bytes, le32_bytes, le64_bytes, low_first,
};
use crate::device::{as_bytes, stores, Op, StepView};
use crate::net::arp::{answers_arp, arp_request, reply_is_in_front, sender_ip};
use crate::net::e1000;
use crate::net::virtio::{
    avail_end, no_offload, test_frame, vring_parts_are_apart, InitTx, ReceiveFrame, Ring, SendFrame,
};
use vstd::prelude::*;

verus! {

/// Memory with these bytes from `at` on.
pub open spec fn with_bytes(m: spec_fn(int) -> u8, at: int, b: Seq<u8>) -> spec_fn(int) -> u8 {
    |i: int|
        if at <= i < at + b.len() {
            b[i - at]
        } else {
            m(i)
        }
}

/// Memory after something was done.
pub open spec fn stored(m: spec_fn(int) -> u8, op: Op) -> spec_fn(int) -> u8 {
    match op {
        Op::Store8(at, x) => with_bytes(m, at as int, seq![x]),
        Op::Store16(at, x) => with_bytes(m, at as int, le16_bytes(x)),
        Op::Store32(at, x) => with_bytes(m, at as int, le32_bytes(x)),
        Op::Store64(at, x) => with_bytes(m, at as int, le64_bytes(x)),
        Op::Zero(at, n) => with_bytes(m, at as int, Seq::new(n as nat, |i: int| 0u8)),
        _ => m,
    }
}

/// Memory after some things were done one after the other.
pub open spec fn all_stored(m: spec_fn(int) -> u8, ops: Seq<Op>) -> spec_fn(int) -> u8
    decreases ops.len(),
{
    if ops.len() == 0 {
        m
    } else {
        stored(all_stored(m, ops.drop_last()), ops.last())
    }
}

/// `n` bytes of memory from `at` on.
pub open spec fn bytes_from(m: spec_fn(int) -> u8, at: int, n: int) -> Seq<u8> {
    Seq::new(n as nat, |i: int| m(at + i))
}

/// The number that `n` bytes of memory from `at` on stand for, the first one the lowest.
pub open spec fn number_from(m: spec_fn(int) -> u8, at: int, n: int) -> int {
    low_first(bytes_from(m, at, n))
}

proof fn stored_in_parts(m: spec_fn(int) -> u8, a: Seq<Op>, b: Seq<Op>)
    ensures
        all_stored(m, a + b) == all_stored(all_stored(m, a), b),
    decreases b.len(),
{
    if b.len() == 0 {
        assert(a + b =~= a);
    } else {
        assert((a + b).drop_last() =~= a + b.drop_last());
        assert((a + b).last() == b.last());
        stored_in_parts(m, a, b.drop_last());
    }
}

/// Bytes that are stored one after the other are in memory, and nothing else changes.
pub proof fn bytes_are_stored(m: spec_fn(int) -> u8, at: int, b: Seq<u8>, i: int)
    requires
        0 <= at,
        at + b.len() <= u64::MAX,
    ensures
        all_stored(m, stores(at, b))(i) == with_bytes(m, at, b)(i),
    decreases b.len(),
{
    if b.len() > 0 {
        let ops = stores(at, b);
        let front = b.drop_last();
        assert(ops.drop_last() =~= stores(at, front));
        bytes_are_stored(m, at, front, i);
        let last = ops.last();
        assert(last == Op::Store8((at + b.len() - 1) as u64, b.last()));
    }
}

proof fn four_done(m: spec_fn(int) -> u8, a: Op, b: Op, c: Op, d: Op)
    ensures
        all_stored(m, seq![a, b, c, d]) == stored(stored(stored(stored(m, a), b), c), d),
{
    let s = seq![a, b, c, d];
    assert(s.drop_last() =~= seq![a, b, c]);
    assert(s.drop_last().drop_last() =~= seq![a, b]);
    assert(s.drop_last().drop_last().drop_last() =~= seq![a]);
    assert(s.drop_last().drop_last().drop_last().drop_last() =~= Seq::<Op>::empty());
    assert(all_stored(m, Seq::<Op>::empty()) == m);
    assert(all_stored(m, seq![a]) == stored(m, a));
    assert(all_stored(m, seq![a, b]) == stored(stored(m, a), b));
    assert(all_stored(m, seq![a, b, c]) == stored(stored(stored(m, a), b), c));
}

proof fn two_done(m: spec_fn(int) -> u8, a: Op, b: Op)
    ensures
        all_stored(m, seq![a, b]) == stored(stored(m, a), b),
{
    let s = seq![a, b];
    assert(s.drop_last() =~= seq![a]);
    assert(s.drop_last().drop_last() =~= Seq::<Op>::empty());
    assert(all_stored(m, Seq::<Op>::empty()) == m);
    assert(all_stored(m, seq![a]) == stored(m, a));
}

/// A descriptor of sixteen bytes, as the card reads it: the address, the length, the flags, and the
/// next descriptor.
pub open spec fn descriptor_is(
    m: spec_fn(int) -> u8,
    at: int,
    addr: u64,
    len: u32,
    flags: u16,
) -> bool {
    &&& number_from(m, at, 8) == addr
    &&& number_from(m, at + 8, 4) == len
    &&& number_from(m, at + 12, 2) == flags
    &&& number_from(m, at + 14, 2) == 0
}

/// A buffer that is described is found by the card in the descriptor of that number, each of which has
/// sixteen bytes from the beginning of the queue on; nothing else in memory changes.
pub proof fn described_buffer_is_found(
    m: spec_fn(int) -> u8,
    ring: Ring,
    desc: int,
    addr: u64,
    len: u32,
    flags: u16,
    i: int,
)
    requires
        0 <= ring.base,
        0 <= desc,
        ring.base + 16 * desc + 16 <= u64::MAX,
    ensures
        ({
            let after = all_stored(m, ring.describe(desc, addr, len, flags));
            let at = ring.base + 16 * desc;
            &&& descriptor_is(after, at, addr, len, flags)
            &&& i < at || i >= at + 16 ==> after(i) == m(i)
        }),
{
    let at = ring.base + 16 * desc;
    let a = Op::Store64(at as u64, addr);
    let b = Op::Store32((at + 8) as u64, len);
    let c = Op::Store16((at + 12) as u64, flags);
    let d = Op::Store16((at + 14) as u64, 0);
    assert(ring.describe(desc, addr, len, flags) =~= seq![a, b, c, d]);
    four_done(m, a, b, c, d);
    let after = all_stored(m, ring.describe(desc, addr, len, flags));
    bytes_stand_for_number(flags, len, addr);
    bytes_stand_for_number(0, 0, 0);
    assert(bytes_from(after, at, 8) =~= le64_bytes(addr));
    assert(bytes_from(after, at + 8, 4) =~= le32_bytes(len));
    assert(bytes_from(after, at + 12, 2) =~= le16_bytes(flags));
    assert(bytes_from(after, at + 14, 2) =~= le16_bytes(0));
}

/// A descriptor that is handed over is found by the card: the number of entries that were handed over so
/// far, which stands behind a word at the end of the descriptors, is one more, and the
/// entry of the one that was last counted is this descriptor. The entries are two bytes each, and
/// are used again from the first one on.
pub proof fn handed_over_is_found(m: spec_fn(int) -> u8, ring: Ring, idx: u16, desc: u16)
    requires
        ring.wf(),
    ensures
        ({
            let after = all_stored(m, ring.publish(idx, desc));
            let avail = ring.base + 16 * ring.num;
            &&& number_from(after, avail + 2, 2) == (idx + 1) % 65536
            &&& number_from(after, avail + 4 + 2 * (idx as int % ring.num as int), 2) == desc
        }),
        ring.publish(idx, desc).len() == 2,
        ring.publish(idx, desc)[1] matches Op::Store16(at, _) && at == ring.base + 16 * ring.num + 2,
{
    let avail = ring.base + 16 * ring.num;
    let slot = avail + 4 + 2 * (idx as int % ring.num as int);
    let next = ((idx + 1) % 65536) as u16;
    crate::net::virtio::published_entry_is_in_ring(ring, idx);
    crate::net::virtio::queue_fits_in_frames(ring.num as int);
    vring_parts_are_apart(ring.num as int, 4096);
    let a = Op::Store16(slot as u64, desc);
    let b = Op::Store16((avail + 2) as u64, next);
    assert(ring.publish(idx, desc) =~= seq![a, b]);
    two_done(m, a, b);
    let after = all_stored(m, ring.publish(idx, desc));
    bytes_stand_for_number(desc, 0, 0);
    bytes_stand_for_number(next, 0, 0);
    assert(bytes_from(after, avail + 2, 2) =~= le16_bytes(next));
    assert(bytes_from(after, slot, 2) =~= le16_bytes(desc));
}

/// The ring that the card answers in begins at the first multiple of 4096 behind the descriptors, of
/// sixteen bytes each, and the entries that are handed over, of two bytes each with six more; how
/// many it has answered stands behind a word there.
pub proof fn used_ring_is_behind(ring: Ring)
    requires
        ring.wf(),
    ensures
        (ring.used() - ring.base) % 4096 == 0,
        18 * ring.num + 6 <= ring.used() - ring.base < 18 * ring.num + 6 + 4096,
        ring.used_idx() == ring.used() + 2,
        avail_end(ring.num as int) == 18 * ring.num + 6,
{
    vring_parts_are_apart(ring.num as int, 4096);
    crate::net::virtio::queue_fits_in_frames(ring.num as int);
}

/// The frame that is sent is in the buffer, behind ten zeros and to everyone, and the first descriptor
/// describes all of it, as one that the card reads.
pub proof fn frame_to_send_is_found(s: SendFrame, m: spec_fn(int) -> u8, i: int)
    requires
        s.wf(),
        s is Filling,
        ({
            let ring = s->Filling_info.virt_base as int;
            let buffer = s->Filling_phys + s->Filling_buffer;
            ring + 16 <= buffer || buffer + 4096 <= ring
        }),
        0 <= i < 46,
    ensures
        s.step() matches StepView::Next { writes, .. } && ({
            let after = all_stored(m, writes);
            let buffer = s->Filling_phys + s->Filling_buffer;
            let frame = test_frame(s->Filling_mac@);
            &&& frame.len() == 46
            &&& after(buffer + i) == frame[i]
            &&& descriptor_is(after, s->Filling_info.virt_base as int, s->Filling_buffer, 46, 0)
        }),
        i < 10 ==> test_frame(s->Filling_mac@)[i] == 0,
        10 <= i < 16 ==> test_frame(s->Filling_mac@)[i] == 0xFF,
        16 <= i < 22 ==> test_frame(s->Filling_mac@)[i] == s->Filling_mac@[i - 16],
{
    let info = s->Filling_info;
    let buffer = s->Filling_phys + s->Filling_buffer;
    let frame = test_frame(s->Filling_mac@);
    let ring = info.ring();
    let a = stores(buffer, frame);
    let b = ring.describe(0, s->Filling_buffer, 46, 0);
    crate::net::virtio::queue_fits_in_frames(ring.num as int);
    stored_in_parts(m, a, b);
    let mid = all_stored(m, a);
    bytes_are_stored(m, buffer, frame, buffer + i);
    described_buffer_is_found(mid, ring, 0, s->Filling_buffer, 46, 0, buffer + i);
}

/// The question is in its buffer, behind ten zeros, and the second descriptor describes all of it.
pub proof fn question_is_found(s: ReceiveFrame, m: spec_fn(int) -> u8, i: int)
    requires
        s.wf(),
        s is Filling,
        ({
            let ring = s->Filling_q.tx.virt_base as int;
            let buffer = s->Filling_q.phys + s->Filling_buffer;
            ring + 32 <= buffer || buffer + 4096 <= ring
        }),
        0 <= i < 52,
    ensures
        s.step() matches StepView::Next { writes, .. } && ({
            let after = all_stored(m, writes);
            let buffer = s->Filling_q.phys + s->Filling_buffer;
            &&& after(buffer + i) == (if i < 10 {
                0u8
            } else {
                arp_request(s->Filling_mac@)[i - 10]
            })
            &&& descriptor_is(after, s->Filling_q.tx.virt_base + 16, s->Filling_buffer, 52, 0)
        }),
        arp_request(s->Filling_mac@).len() == 42,
{
    let q = s->Filling_q;
    let buffer = q.phys + s->Filling_buffer;
    let frame = no_offload() + arp_request(s->Filling_mac@);
    let ring = q.tx.ring();
    let a = stores(buffer, frame);
    let b = ring.describe(1, s->Filling_buffer, 52, 0);
    crate::net::virtio::queue_fits_in_frames(ring.num as int);
    stored_in_parts(m, a, b);
    let mid = all_stored(m, a);
    assert(frame.len() == 52);
    bytes_are_stored(m, buffer, frame, buffer + i);
    described_buffer_is_found(mid, ring, 1, s->Filling_buffer, 52, 0, buffer + i);
    assert(frame[i] == if i < 10 {
        0u8
    } else {
        arp_request(s->Filling_mac@)[i - 10]
    });
}

/// Setting up the card for sending: it may use memory, is told that it was found, that there is a
/// driver, and at the end that this is ready, by one bit more each time; nothing special is asked
/// of it; its queue number 1 is chosen, and is where its first page frame says.
pub proof fn card_is_set_up(s: InitTx)
    requires
        s.wf(),
    ensures
        s matches InitTx::Handshake { dev, io, phys, command } ==> (s.step() matches StepView::Next {
            writes,
            asks,
        } && writes.skip(2) == seq![
            Op::Out8((io + 18) as u16, 1),
            Op::Out8((io + 18) as u16, 3),
            Op::Out32((io + 4) as u16, 0),
            Op::Out16((io + 14) as u16, 1),
        ] && asks == seq![Op::In16((io + 12) as u16)]),
        s matches InitTx::Program { io, phys, num, base } ==> (s.step() matches StepView::Next {
            writes,
            asks,
        } && writes.len() == 2 && (writes[0] matches Op::Zero(at, n) && at == phys + base && n % 4096
            == 0 && n >= 26 * num + 12) && writes[1] == Op::Out32(
            (io + 8) as u16,
            (base / 4096 % 0x1_0000_0000) as u32,
        ) && asks == seq![Op::In32((io + 8) as u16)]),
        s matches InitTx::Finish { io, .. } ==> (s.step() matches StepView::Next { writes, asks }
            && writes == seq![Op::Out8((io + 18) as u16, 7)]),
{
    if let InitTx::Handshake { dev, io, phys, command } = s {
        let writes = s.step()->writes;
        assert(writes.skip(2) =~= seq![
            Op::Out8((io + 18) as u16, 1),
            Op::Out8((io + 18) as u16, 3),
            Op::Out32((io + 4) as u16, 0),
            Op::Out16((io + 14) as u16, 1),
        ]);
    }
    if let InitTx::Program { io, phys, num, base } = s {
        crate::net::virtio::queue_fits_in_frames(num as int);
        vring_parts_are_apart(num as int, 4096);
    }
}

/// The address of the card is in two registers, four bytes in the first one and two in the second, from
/// the low byte on.
pub proof fn address_is_in_two_registers(ral0: u32, rah0: u32)
    ensures
        e1000::mac_in(ral0, rah0).len() == 6,
        low_first(e1000::mac_in(ral0, rah0).take(4)) == ral0,
        low_first(e1000::mac_in(ral0, rah0).skip(4)) == rah0 % 65536,
{
    let mac = e1000::mac_in(ral0, rah0);
    assert(mac.take(4) =~= le32_bytes(ral0));
    assert(mac.skip(4) =~= le16_bytes((rah0 % 65536) as u16));
    bytes_stand_for_number((rah0 % 65536) as u16, ral0, 0);
}

/// A descriptor of the other card: eight bytes of address, two of length, a byte, the commands, and the
/// status, which is zero until the card is done.
pub proof fn descriptor_layout(addr: u64, length: u16, cmd: u8)
    ensures
        ({
            let d = e1000::tx_descriptor(addr, length, cmd);
            &&& d.len() == 16
            &&& low_first(d.take(8)) == addr
            &&& low_first(d.subrange(8, 10)) == length
            &&& d[10] == 0
            &&& d[11] == cmd
            &&& d[12] == 0
        }),
{
    let d = e1000::tx_descriptor(addr, length, cmd);
    assert(d.take(8) =~= le64_bytes(addr));
    assert(d.subrange(8, 10) =~= le16_bytes(length));
    bytes_stand_for_number(length, 0, addr);
}

/// The question is in its buffer, the first descriptor of the ring describes all of it as the last part
/// of a frame whose end the card is to report, and the other descriptors are empty.
pub proof fn question_is_found_in_ring(s: e1000::SendFrame, m: spec_fn(int) -> u8, i: int, j: int)
    requires
        s.wf(),
        s is Filling,
        s->Filling_ring + 4096 <= s->Filling_buffer || s->Filling_buffer + 4096 <= s->Filling_ring,
        0 <= i < 42,
        0 <= j < 128,
    ensures
        s.step() matches StepView::Next { writes, .. } && ({
            let after = all_stored(m, writes);
            let buffer = s->Filling_phys + s->Filling_buffer;
            let ring = s->Filling_phys + s->Filling_ring;
            let question = arp_request(e1000::mac_in(s->Filling_ral0, s->Filling_rah0));
            &&& question.len() == 42
            &&& after(buffer + i) == question[i]
            &&& j < 16 ==> after(ring + j) == e1000::tx_descriptor(s->Filling_buffer, 42, 0x0B)[j]
            &&& j >= 16 ==> after(ring + j) == 0
        }),
{
    let buffer = s->Filling_phys + s->Filling_buffer;
    let ring = s->Filling_phys + s->Filling_ring;
    address_is_in_two_registers(s->Filling_ral0, s->Filling_rah0);
    let question = arp_request(e1000::mac_in(s->Filling_ral0, s->Filling_rah0));
    let d = e1000::tx_descriptor(s->Filling_buffer, 42, 0x0B);
    descriptor_layout(s->Filling_buffer, 42, 0x0B);
    assert(question.len() == 42);
    let a = stores(buffer, question);
    let z = Op::Zero(ring as u64, 128);
    let c = stores(ring, d);
    stored_in_parts(m, a + seq![z], c);
    stored_in_parts(m, a, seq![z]);
    let first = all_stored(m, a);
    let second = all_stored(first, seq![z]);
    assert(seq![z].drop_last() =~= Seq::<Op>::empty());
    assert(all_stored(first, seq![z].drop_last()) == first);
    assert(second == stored(first, z));
    bytes_are_stored(m, buffer, question, buffer + i);
    bytes_are_stored(second, ring, d, buffer + i);
    bytes_are_stored(second, ring, d, ring + j);
}

/// The number that goes to the register at `at`, if any does.
pub open spec fn value_at(op: Op, at: int) -> int {
    match op {
        Op::Store32(a, x) => if a == at {
            x as int
        } else {
            -1
        },
        _ => -1,
    }
}

/// The card is told of the ring before it is told of the descriptor in it: the address of the ring, in
/// two halves, its length, and a head and a tail of zero come first, then the sending is
/// switched on, and the tail becomes one with the last write.
pub proof fn ring_is_told_first(s: e1000::SendFrame)
    requires
        s.wf(),
        s is Starting,
    ensures
        s.step() matches StepView::Next { writes, .. } && ({
            let mmio = s->Starting_mmio;
            &&& writes.len() == 9
            &&& writes[0] == Op::Store32(mmio, s->Starting_ctrl | 0x40)
            &&& value_at(writes[1], mmio + 0x3800) >= 0
            &&& value_at(writes[2], mmio + 0x3804) >= 0
            &&& value_at(writes[1], mmio + 0x3800) + 0x1_0000_0000 * value_at(
                writes[2],
                mmio + 0x3804,
            ) == s->Starting_ring
            &&& writes[3] == Op::Store32((mmio + 0x3808) as u64, 128)
            &&& writes[4] == Op::Store32((mmio + 0x3810) as u64, 0)
            &&& writes[5] == Op::Store32((mmio + 0x3818) as u64, 0)
            &&& writes[6] == Op::Store32((mmio + 0x0410) as u64, 0x0060_200A)
            &&& writes[7] == Op::Store32((mmio + 0x0400) as u64, 0x0004_00FA)
            &&& writes[8] == Op::Store32((mmio + 0x3818) as u64, 1)
        }),
{
    let ring = s->Starting_ring;
    assert(ring % 0x1_0000_0000 + 0x1_0000_0000 * (ring / 0x1_0000_0000) == ring);
    assert(ring / 0x1_0000_0000 < 0x1_0000_0000);
}

/// The card is done with the frame when the low bit of the status in the first descriptor is set; that
/// byte, and the time, are what is looked at.
pub proof fn status_is_looked_at(s: e1000::SendFrame, status: u64, now: u64)
    requires
        s.wf(),
        s is Waiting,
    ensures
        s.step() matches StepView::Next { asks, .. } && asks == seq![
            Op::Load8((s->Waiting_phys + s->Waiting_ring + 12) as u64),
            Op::Ticks,
        ],
        s.answered(seq![status, now]) is Sent <==> status % 2 == 1,
        status % 2 == 0 ==> (s.answered(seq![status, now]) is Late <==> now > s->Waiting_start + 90),
        status % 2 == 0 && now <= s->Waiting_start + 90 ==> s.answered(seq![status, now]) is Waiting,
{
    let a = seq![status, now];
    assert(a[0] == status && a[1] == now);
}

/// What is read of the two cards: of the one behind ports its features, its status, its interrupt and the
/// six bytes of its address, and of the other one its status and the two registers with its address.
pub proof fn cards_are_probed(io: u16, mmio: u64, i: int)
    requires
        io <= 0xFF00,
        mmio <= 0xFFFF_FFFF_FFFF_0000,
        0 <= i < 6,
    ensures
        crate::net::virtio::probe_reads(io as int).len() == 9,
        crate::net::virtio::probe_reads(io as int)[0] == Op::In32(io),
        crate::net::virtio::probe_reads(io as int)[1] == Op::In8((io + 18) as u16),
        crate::net::virtio::probe_reads(io as int)[2] == Op::In8((io + 19) as u16),
        crate::net::virtio::probe_reads(io as int)[3 + i] == Op::In8((io + 20 + i) as u16),
        e1000::probe_reads(mmio) == seq![
            Op::Load32((mmio + 8) as u64),
            Op::Load32((mmio + 0x5400) as u64),
            Op::Load32((mmio + 0x5404) as u64),
        ],
{
}

/// The low four bits of a base address for memory are not part of the address.
pub proof fn base_address_is_aligned(bar0: u32)
    ensures
        e1000::memory_base(bar0) % 16 == 0,
        e1000::memory_base(bar0) <= bar0 < e1000::memory_base(bar0) + 16,
{
}

/// Of a frame that arrived, behind its ten bytes of header, as much is read as says whether it is an
/// answer: what is told of it is what the whole frame says.
pub proof fn whole_frame_is_told(s: ReceiveFrame, frame: Seq<u8>, a: Seq<u64>)
    requires
        s.wf(),
        s is Reading,
        s->Reading_len == 10 + frame.len(),
        s.step() matches StepView::Next { asks, .. } && a.len() == asks.len(),
        forall|i: int| 0 <= i < a.len() && i < frame.len() ==> #[trigger] a[i] == frame[i],
    ensures
        s.step() matches StepView::Next { asks, .. } && (forall|i: int|
            0 <= i < asks.len() ==> #[trigger] asks[i] == Op::Load8(
                (s->Reading_q.rx.buf_virt + 10 + i) as u64,
            )) && asks.len() <= frame.len(),
        s.answered(a) matches ReceiveFrame::Received { info } && info.is_arp_reply == answers_arp(frame)
            && info.gateway_ip is Some == (sender_ip(frame) is Some) && info.received_len
            == s->Reading_len,
{
    let n = a.len() as int;
    let eth = as_bytes(a);
    assert(eth =~= frame.take(n));
    reply_is_in_front(frame);
    if frame.len() <= 32 {
        assert(frame.take(n) =~= frame);
    }
}

} // verus!
