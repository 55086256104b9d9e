//! The VirtIO network card over its legacy ports: finding it, setting up its transmit and
//! receive queues, sending a frame, and receiving the answer to a question.

use crate::bytes::append_bytes;
use crate::device::{
    all_fit, as_bytes, byte_loads, fits, loads, push_stores, read_sixteen, sixteen_at, stores,
    FRAME_SIZE, Op, PHYS_END, Step, StepView,
};
use crate::net::arp::{answers_arp, arp_request, build_arp_request, is_arp_reply, sender_ip};
use crate::pci::{
    find_device, first_with, mastering, PciDevice, CONFIG_ADDRESS, CONFIG_DATA, PCI_COMMAND_OFFSET,
};
use vstd::prelude::*;

verus! {

pub const VIRTIO_VENDOR_ID: u16 = 0x1af4;

pub const VIRTIO_NET_DEVICE_ID: u16 = 0x1000;

pub const VIRTIO_PCI_HOST_FEATURES: u16 = 0;

pub const VIRTIO_PCI_GUEST_FEATURES: u16 = 4;

pub const VIRTIO_PCI_QUEUE_PFN: u16 = 8;

pub const VIRTIO_PCI_QUEUE_NUM: u16 = 12;

pub const VIRTIO_PCI_QUEUE_SEL: u16 = 14;

pub const VIRTIO_PCI_QUEUE_NOTIFY: u16 = 16;

pub const VIRTIO_PCI_STATUS: u16 = 18;

pub const VIRTIO_PCI_ISR: u16 = 19;

pub const VIRTIO_PCI_CONFIG_OFF_NO_MSIX: u16 = 20;

/// The ports of the card end before this offset.
pub const PORTS_END: u16 = 26;

/// The card has an address of its own: bit 5 of its features.
pub const VIRTIO_NET_F_MAC: u32 = 32;

pub const VIRTIO_STATUS_ACKNOWLEDGE: u8 = 1;

pub const VIRTIO_STATUS_DRIVER: u8 = 2;

pub const VIRTIO_STATUS_DRIVER_OK: u8 = 4;

pub const RX_QUEUE_INDEX: u16 = 0;

pub const TX_QUEUE_INDEX: u16 = 1;

/// What the used ring of a queue is aligned to.
pub const VRING_ALIGN: u64 = 4096;

/// The header that goes before every frame.
pub const VIRTIO_NET_HDR_LEN: usize = 10;

/// The card writes the buffer of this descriptor.
pub const VRING_DESC_F_WRITE: u16 = 2;

/// The bytes of the buffer that a frame is received into.
pub const RX_BUFFER_LEN: usize = 2048;

/// How often the card is looked at after it was told of a descriptor.
pub const TX_POLLS: u32 = 1_000_000;

/// How long an answer is waited for, in timer ticks.
pub const RX_PATIENCE: u64 = 90;

/// The card, if it is on the bus.
pub fn find_virtio_net(devices: &Vec<PciDevice>) -> (r: Option<PciDevice>)
    ensures
        r == first_with(devices@, VIRTIO_VENDOR_ID, VIRTIO_NET_DEVICE_ID),
{
    find_device(devices, VIRTIO_VENDOR_ID, VIRTIO_NET_DEVICE_ID)
}

/// Where the ports of the card are, given what its base address register holds.
pub fn find_io_base(found: Option<PciDevice>, bar0: u32) -> (r: Result<
    (PciDevice, u16),
    &'static str,
>)
    ensures
        match found {
            None => r == Err::<(PciDevice, u16), &'static str>(
                "no virtio-net device found on bus 0",
            ),
            Some(dev) => if bar0 % 2 == 0 {
                r == Err::<(PciDevice, u16), &'static str>(
                    "virtio-net BAR0 is memory-space - not supported yet",
                )
            } else {
                r == Ok::<(PciDevice, u16), &'static str>(
                    (dev, ((bar0 - bar0 % 4) % 65536) as u16),
                )
            },
        },
{
    match found {
        None => Err("no virtio-net device found on bus 0"),
        Some(dev) => {
            if bar0 % 2 == 0 {
                return Err("virtio-net BAR0 is memory-space - not supported yet");
            }
            Ok((dev, ((bar0 - bar0 % 4) % 65536) as u16))
        },
    }
}

/// What the card says of itself.
#[derive(Debug, Clone, Copy)]
pub struct ProbeInfo {
    pub device: PciDevice,
    pub bar0: u32,
    pub io_base: u16,
    pub features: u32,
    pub status: u8,
    pub isr: u8,
    pub mac_feature_present: bool,
    pub mac: [u8; 6],
}

/// The ports of the card's address, from offset 20 on.
pub open spec fn mac_ports(io: int) -> Seq<Op> {
    Seq::new(6, |i: int| Op::In8((io + VIRTIO_PCI_CONFIG_OFF_NO_MSIX + i) as u16))
}

/// The ports that are read of a card: the features, the status, the pending interrupts,
/// and the address.
pub open spec fn probe_reads(io: int) -> Seq<Op> {
    seq![
        Op::In32((io + VIRTIO_PCI_HOST_FEATURES) as u16),
        Op::In8((io + VIRTIO_PCI_STATUS) as u16),
        Op::In8((io + VIRTIO_PCI_ISR) as u16),
    ] + mac_ports(io)
}

fn push_mac_ports(asks: &mut Vec<Op>, io: u16)
    requires
        io <= 0xFFFF - PORTS_END,
    ensures
        final(asks)@ == old(asks)@ + mac_ports(io as int),
{
    let base: u16 = io + VIRTIO_PCI_CONFIG_OFF_NO_MSIX;
    asks.push(Op::In8(base));
    asks.push(Op::In8(base + 1));
    asks.push(Op::In8(base + 2));
    asks.push(Op::In8(base + 3));
    asks.push(Op::In8(base + 4));
    asks.push(Op::In8(base + 5));
    assert(asks@ =~= old(asks)@ + mac_ports(io as int));
}

pub fn probe_asks(io_base: u16) -> (asks: Vec<Op>)
    requires
        io_base <= 0xFFFF - PORTS_END,
    ensures
        asks@ == probe_reads(io_base as int),
{
    let mut asks: Vec<Op> = Vec::new();
    asks.push(Op::In32(io_base + VIRTIO_PCI_HOST_FEATURES));
    asks.push(Op::In8(io_base + VIRTIO_PCI_STATUS));
    asks.push(Op::In8(io_base + VIRTIO_PCI_ISR));
    push_mac_ports(&mut asks, io_base);
    assert(asks@ =~= probe_reads(io_base as int));
    asks
}

/// The array with these bytes.
pub open spec fn six(s: Seq<u8>) -> [u8; 6] {
    choose|a: [u8; 6]| a@ == s
}

/// The array with these bytes.
pub open spec fn four(s: Seq<u8>) -> [u8; 4] {
    choose|a: [u8; 4]| a@ == s
}

/// The address in the first six answers.
pub open spec fn mac_in(a: Seq<u64>) -> [u8; 6] {
    six(as_bytes(a.take(6)))
}

/// The address that was read.
pub fn read_mac_at(a: &[u64]) -> (mac: [u8; 6])
    requires
        a.len() >= 6,
        forall|i: int| 0 <= i < 6 ==> #[trigger] a@[i] < 256,
    ensures
        mac == mac_in(a@),
        mac@ == as_bytes(a@.take(6)),
{
    let mac: [u8; 6] = [
        a[0] as u8,
        a[1] as u8,
        a[2] as u8,
        a[3] as u8,
        a[4] as u8,
        a[5] as u8,
    ];
    assert(mac@ =~= as_bytes(a@.take(6)));
    assert(mac =~= mac_in(a@));
    mac
}

/// What the card says of itself, given its base address register and what was read of it.
pub fn probe(device: PciDevice, bar0: u32, io_base: u16, a: &[u64]) -> (info: ProbeInfo)
    requires
        all_fit(probe_reads(io_base as int), a@),
    ensures
        info.device == device,
        info.bar0 == bar0,
        info.io_base == io_base,
        info.features == a@[0],
        info.status == a@[1],
        info.isr == a@[2],
        info.mac_feature_present == (a@[0] / 32 % 2 == 1),
        info.mac@ == as_bytes(a@.skip(3)),
{
    proof {
        let asks = probe_reads(io_base as int);
        assert(fits(asks[0], a@[0]) && fits(asks[1], a@[1]) && fits(asks[2], a@[2]));
        assert forall|i: int| 3 <= i < 9 implies #[trigger] a@[i] < 256 by {
            assert(asks[i] == mac_ports(io_base as int)[i - 3]);
            assert(fits(asks[i], a@[i]));
        }
    }
    let mac_answers = vstd::slice::slice_subrange(a, 3, 9);
    let mac: [u8; 6] = read_mac_at(mac_answers);
    assert(mac_answers@.take(6) =~= a@.skip(3));
    ProbeInfo {
        device,
        bar0,
        io_base,
        features: a[0] as u32,
        status: a[1] as u8,
        isr: a[2] as u8,
        mac_feature_present: a[0] / 32 % 2 == 1,
        mac,
    }
}

/// The least multiple of `align` that is not less than `x`.
pub open spec fn aligned(x: int, align: int) -> int {
    (x + align - 1) / align * align
}

/// Where the available ring of a queue ends: behind sixteen bytes of descriptor and two of
/// ring for each entry, and three words.
pub open spec fn avail_end(num: int) -> int {
    16 * num + 2 * (num + 3)
}

/// The bytes of a queue: descriptors and available ring, and then, aligned, the used ring
/// with eight bytes for each entry, and three words.
pub open spec fn vring_bytes(num: int, align: int) -> int {
    aligned(avail_end(num), align) + 2 * 3 + 8 * num
}

#[verifier::spinoff_prover]
proof fn aligned_bounds(x: int, align: int)
    requires
        align > 0,
        x >= 0,
    ensures
        x <= aligned(x, align) < x + align,
        aligned(x, align) % align == 0,
        aligned(x, align) == (x / align + if x % align == 0 {
            0int
        } else {
            1int
        }) * align,
{
    let q = x / align;
    let r = x % align;
    vstd::arithmetic::div_mod::lemma_fundamental_div_mod(x, align);
    assert(x == align * q + r && 0 <= r < align);
    if r == 0 {
        assert(x + align - 1 == q * align + (align - 1)) by (nonlinear_arith)
            requires
                x == align * q + r,
                r == 0,
        ;
        vstd::arithmetic::div_mod::lemma_fundamental_div_mod_converse(
            x + align - 1,
            align,
            q,
            align - 1,
        );
        vstd::arithmetic::mul::lemma_mul_is_commutative(q, align);
        vstd::arithmetic::div_mod::lemma_mod_multiples_basic(q, align);
    } else {
        assert(x + align - 1 == align * (q + 1) + (r - 1)) by (nonlinear_arith)
            requires
                x == align * q + r,
        ;
        vstd::arithmetic::mul::lemma_mul_is_commutative(q + 1, align);
        vstd::arithmetic::div_mod::lemma_fundamental_div_mod_converse(
            x + align - 1,
            align,
            q + 1,
            r - 1,
        );
        assert((q + 1) * align == align * q + align) by (nonlinear_arith);
        vstd::arithmetic::div_mod::lemma_mod_multiples_basic(q + 1, align);
    }
}

fn align_up(x: u64, align: u64) -> (r: u64)
    requires
        align > 0,
        aligned(x as int, align as int) <= u64::MAX,
    ensures
        r == aligned(x as int, align as int),
{
    proof {
        aligned_bounds(x as int, align as int);
    }
    let whole: u64 = x / align;
    let more: u64 = if x % align == 0 {
        0
    } else {
        1
    };
    proof {
        let n = whole + more;
        assert(n <= n * align) by (nonlinear_arith)
            requires
                n >= 0,
                align >= 1,
        ;
    }
    (whole + more) * align
}

/// The bytes of a queue with `num` entries.
pub fn vring_size(num: u64, align: u64) -> (r: u64)
    requires
        align > 0,
        vring_bytes(num as int, align as int) <= u64::MAX,
    ensures
        r == vring_bytes(num as int, align as int),
{
    proof {
        aligned_bounds(avail_end(num as int), align as int);
    }
    let desc_and_avail: u64 = 16 * num + 2 * (num + 3);
    align_up(desc_and_avail, align) + 2 * 3 + 8 * num
}

/// Where the descriptors, the available ring and the used ring of a queue are.
pub fn vring_offsets(queue_num: u64, align: u64) -> (r: (u64, u64, u64))
    requires
        align > 0,
        aligned(avail_end(queue_num as int), align as int) <= u64::MAX,
    ensures
        r.0 == 0,
        r.1 == 16 * queue_num,
        r.2 == aligned(avail_end(queue_num as int), align as int),
{
    proof {
        aligned_bounds(avail_end(queue_num as int), align as int);
    }
    let avail_offset: u64 = 16 * queue_num;
    let end: u64 = avail_offset + 2 * (queue_num + 3);
    (0, avail_offset, align_up(end, align))
}

/// The parts of a queue follow one another without meeting: the descriptors end where the
/// available ring begins, that ends before the used ring, which is aligned and ends with
/// the queue.
pub proof fn vring_parts_are_apart(num: int, align: int)
    requires
        num >= 0,
        align > 0,
    ensures
        16 * num <= avail_end(num) <= aligned(avail_end(num), align),
        aligned(avail_end(num), align) % align == 0,
        aligned(avail_end(num), align) + 2 * 3 + 8 * num == vring_bytes(num, align),
        vring_bytes(num, align) < avail_end(num) + align + 6 + 8 * num,
{
    aligned_bounds(avail_end(num), align);
}

/// The page frames that a queue takes.
pub open spec fn frames_for(num: int) -> int {
    (vring_bytes(num, VRING_ALIGN as int) + 4095) / 4096
}

fn frames_needed(num: u16) -> (r: u64)
    ensures
        r == frames_for(num as int),
        1 <= r <= 1000,
        vring_bytes(num as int, VRING_ALIGN as int) <= 4096 * r,
{
    proof {
        vring_parts_are_apart(num as int, VRING_ALIGN as int);
    }
    let size: u64 = vring_size(num as u64, VRING_ALIGN);
    (size + 4095) / 4096
}

/// A queue fits in the page frames that it takes.
pub proof fn queue_fits_in_frames(num: int)
    requires
        0 <= num <= 65535,
    ensures
        vring_bytes(num, VRING_ALIGN as int) <= 4096 * frames_for(num),
        1 <= frames_for(num) <= 1000,
{
    vring_parts_are_apart(num, VRING_ALIGN as int);
}

/// A queue at `base` with `num` entries.
pub struct Ring {
    pub base: int,
    pub num: u16,
}

impl Ring {
    /// A word of the available ring: its index.
    pub open spec fn avail_idx(self) -> u64 {
        (self.base + 16 * self.num + 2) as u64
    }

    /// The entry of the available ring that an index stands for.
    pub open spec fn avail_slot(self, idx: u16) -> u64 {
        (self.base + 16 * self.num + 4 + 2 * (idx % self.num)) as u64
    }

    /// Where the used ring is.
    pub open spec fn used(self) -> int {
        self.base + aligned(avail_end(self.num as int), VRING_ALIGN as int)
    }

    /// A word of the used ring: its index.
    pub open spec fn used_idx(self) -> u64 {
        (self.used() + 2) as u64
    }

    /// What is written to hand a descriptor to the card: first the entry, and then the
    /// index that makes it seen.
    pub open spec fn publish(self, idx: u16, desc: u16) -> Seq<Op> {
        seq![
            Op::Store16(self.avail_slot(idx), desc),
            Op::Store16(self.avail_idx(), next_index(idx)),
        ]
    }

    /// What is written to describe a buffer in descriptor `desc`.
    pub open spec fn describe(self, desc: int, addr: u64, len: u32, flags: u16) -> Seq<Op> {
        let at = self.base + 16 * desc;
        seq![
            Op::Store64(at as u64, addr),
            Op::Store32((at + 8) as u64, len),
            Op::Store16((at + 12) as u64, flags),
            Op::Store16((at + 14) as u64, 0),
        ]
    }

    /// The queue lies below the end of the address space.
    pub open spec fn wf(self) -> bool {
        &&& self.num > 0
        &&& 0 <= self.base
        &&& self.base + 4096 * frames_for(self.num as int) <= u64::MAX
    }
}

/// The index after this one: it starts again behind the last one.
pub open spec fn next_index(idx: u16) -> u16 {
    if idx == 65535 {
        0
    } else {
        (idx + 1) as u16
    }
}

/// The entry that is written when a descriptor is handed over lies in the available ring,
/// behind its index and before the used ring.
pub proof fn published_entry_is_in_ring(ring: Ring, idx: u16)
    requires
        ring.wf(),
    ensures
        ring.avail_idx() < ring.avail_slot(idx),
        ring.avail_slot(idx) + 2 <= ring.base + avail_end(ring.num as int),
        ring.avail_slot(idx) + 2 <= ring.used(),
        ring.used_idx() + 2 <= ring.base + vring_bytes(ring.num as int, VRING_ALIGN as int),
{
    vring_parts_are_apart(ring.num as int, VRING_ALIGN as int);
    queue_fits_in_frames(ring.num as int);
}

/// The addresses of a queue that is below the end of the address space.
struct RingAddresses {
    avail: u64,
    used: u64,
}

fn ring_addresses(base: u64, num: u16) -> (r: RingAddresses)
    requires
        (Ring { base: base as int, num }).wf(),
    ensures
        r.avail == base + 16 * num,
        r.used == (Ring { base: base as int, num }).used(),
        r.avail + 4 + 2 * num <= u64::MAX,
        r.used + 6 + 8 * num <= u64::MAX,
{
    proof {
        vring_parts_are_apart(num as int, VRING_ALIGN as int);
        queue_fits_in_frames(num as int);
    }
    let (desc, avail, used): (u64, u64, u64) = vring_offsets(num as u64, VRING_ALIGN);
    RingAddresses { avail: base + avail, used: base + used }
}

fn push_publish(ops: &mut Vec<Op>, base: u64, num: u16, idx: u16, desc: u16)
    requires
        (Ring { base: base as int, num }).wf(),
    ensures
        final(ops)@ == old(ops)@ + (Ring { base: base as int, num }).publish(idx, desc),
{
    let at = ring_addresses(base, num);
    let slot: u16 = idx % num;
    let next: u16 = if idx == 65535 {
        0
    } else {
        idx + 1
    };
    ops.push(Op::Store16(at.avail + 4 + 2 * (slot as u64), desc));
    ops.push(Op::Store16(at.avail + 2, next));
    assert(ops@ =~= old(ops)@ + (Ring { base: base as int, num }).publish(idx, desc));
}

fn push_describe(
    ops: &mut Vec<Op>,
    base: u64,
    num: u16,
    desc: u16,
    addr: u64,
    len: u32,
    flags: u16,
)
    requires
        (Ring { base: base as int, num }).wf(),
        desc <= num,
    ensures
        final(ops)@ == old(ops)@ + (Ring { base: base as int, num }).describe(
            desc as int,
            addr,
            len,
            flags,
        ),
{
    let avail = ring_addresses(base, num);
    let at: u64 = base + 16 * (desc as u64);
    ops.push(Op::Store64(at, addr));
    ops.push(Op::Store32(at + 8, len));
    ops.push(Op::Store16(at + 12, flags));
    ops.push(Op::Store16(at + 14, 0));
    assert(ops@ =~= old(ops)@ + (Ring { base: base as int, num }).describe(
        desc as int,
        addr,
        len,
        flags,
    ));
}

/// A transmit queue that was set up.
#[derive(Debug, Clone, Copy, PartialEq, Eq, Structural)]
pub struct TxQueueInfo {
    pub queue_num: u16,
    pub frames_needed: u64,
    pub pfn: u32,
    pub pfn_readback: u32,
    pub final_status: u8,
    pub io_base: u16,
    pub virt_base: u64,
}

impl TxQueueInfo {
    pub open spec fn ring(self) -> Ring {
        Ring { base: self.virt_base as int, num: self.queue_num }
    }

    pub open spec fn wf(self) -> bool {
        self.ring().wf() && ports_fit(self.io_base)
    }
}

/// The ports of the card are all ports.
pub open spec fn ports_fit(io: u16) -> bool {
    io <= 0xFFFF - PORTS_END
}

/// Physical memory is all seen below the end of the address space.
pub open spec fn memory_fits(phys: u64) -> bool {
    phys <= u64::MAX - PHYS_END
}

/// `got` page frames in a row from `first` on.
pub open spec fn run_fits(first: u64, got: int) -> bool {
    &&& got > 0 ==> first % FRAME_SIZE == 0
    &&& got > 0 ==> first + 4096 * got <= PHYS_END
}

/// The number by which the card knows a page frame.
pub open spec fn pfn_of(base: u64) -> u32 {
    (base / 4096 % 0x1_0000_0000) as u32
}

/// How far the setting up of the transmit queue is.
#[derive(Debug, Clone, Copy)]
pub enum InitTx {
    /// The card's commands are asked for.
    Begin { dev: PciDevice, io: u16, phys: u64 },
    /// The card may use memory, is told that it was found and that there is a driver, is asked
    /// for nothing special, and is asked how many entries its transmit queue has.
    Handshake { dev: PciDevice, io: u16, phys: u64, command: u16 },
    /// Page frames are taken one by one. They have to follow one another.
    Frames { io: u16, phys: u64, num: u16, first: u64, got: u64 },
    /// The queue is cleared and the card is told where it is.
    Program { io: u16, phys: u64, num: u16, base: u64 },
    /// The card is told that the driver is ready.
    Finish { io: u16, phys: u64, num: u16, base: u64, readback: u32 },
    Ready { info: TxQueueInfo },
    NoQueue,
    NotContiguous,
}

impl InitTx {
    /// The addresses and ports that the state speaks of all are some.
    pub open spec fn wf(self) -> bool {
        match self {
            InitTx::Begin { dev, io, phys } => ports_fit(io) && memory_fits(phys),
            InitTx::Handshake { dev, io, phys, command } => ports_fit(io) && memory_fits(phys),
            InitTx::Frames { io, phys, num, first, got } => ports_fit(io) && memory_fits(phys) && num > 0 && got < frames_for(
                num as int,
            ) && run_fits(first, got as int),
            InitTx::Program { io, phys, num, base } => ports_fit(io) && memory_fits(phys) && num > 0 && run_fits(
                base,
                frames_for(num as int),
            ),
            InitTx::Finish { io, phys, num, base, readback } => ports_fit(io) && memory_fits(phys) && num > 0 && run_fits(
                base,
                frames_for(num as int),
            ),
            InitTx::Ready { info } => info.wf(),
            InitTx::NoQueue => true,
            InitTx::NotContiguous => true,
        }
    }

    /// What is done and asked in this state.
    pub open spec fn step(self) -> StepView<Result<TxQueueInfo, &'static str>> {
        match self {
            InitTx::Begin { dev, io, phys } => StepView::Next {
                writes: seq![Op::Out32(CONFIG_ADDRESS, dev.at(PCI_COMMAND_OFFSET))],
                asks: seq![Op::In16(CONFIG_DATA)],
            },
            InitTx::Handshake { dev, io, phys, command } => StepView::Next {
                writes: seq![
                    Op::Out32(CONFIG_ADDRESS, dev.at(PCI_COMMAND_OFFSET)),
                    Op::Out16(CONFIG_DATA, mastering(command)),
                    Op::Out8((io + VIRTIO_PCI_STATUS) as u16, 1),
                    Op::Out8((io + VIRTIO_PCI_STATUS) as u16, 3),
                    Op::Out32((io + VIRTIO_PCI_GUEST_FEATURES) as u16, 0),
                    Op::Out16((io + VIRTIO_PCI_QUEUE_SEL) as u16, TX_QUEUE_INDEX),
                ],
                asks: seq![Op::In16((io + VIRTIO_PCI_QUEUE_NUM) as u16)],
            },
            InitTx::Frames { io, phys, num, first, got } => StepView::Next {
                writes: Seq::empty(),
                asks: seq![Op::AllocateFrame],
            },
            InitTx::Program { io, phys, num, base } => StepView::Next {
                writes: seq![
                    Op::Zero((phys + base) as u64, (4096 * frames_for(num as int)) as u64),
                    Op::Out32((io + VIRTIO_PCI_QUEUE_PFN) as u16, pfn_of(base)),
                ],
                asks: seq![Op::In32((io + VIRTIO_PCI_QUEUE_PFN) as u16)],
            },
            InitTx::Finish { io, phys, num, base, readback } => StepView::Next {
                writes: seq![Op::Out8((io + VIRTIO_PCI_STATUS) as u16, 7)],
                asks: seq![Op::In8((io + VIRTIO_PCI_STATUS) as u16)],
            },
            InitTx::Ready { info } => StepView::Done(Ok(info)),
            InitTx::NoQueue => StepView::Done(
                Err("virtio: TX queue_num read back as 0 - queue not available"),
            ),
            InitTx::NotContiguous => StepView::Done(
                Err("virtio: frame allocator did not return contiguous frames"),
            ),
        }
    }

    /// Where the answers lead.
    pub open spec fn answered(self, a: Seq<u64>) -> InitTx {
        match self {
            InitTx::Begin { dev, io, phys } => InitTx::Handshake { dev, io, phys, command: a[0] as u16 },
            InitTx::Handshake { dev, io, phys, command } => if a[0] == 0 {
                InitTx::NoQueue
            } else {
                InitTx::Frames { io, phys, num: a[0] as u16, first: 0, got: 0 }
            },
            InitTx::Frames { io, phys, num, first, got } => if got > 0 && a[0] != first + 4096 * got {
                InitTx::NotContiguous
            } else if got + 1 == frames_for(num as int) {
                InitTx::Program {
                    io,
                    phys,
                    num,
                    base: if got == 0 {
                        a[0]
                    } else {
                        first
                    },
                }
            } else {
                InitTx::Frames {
                    io,
                    phys,
                    num,
                    first: if got == 0 {
                        a[0]
                    } else {
                        first
                    },
                    got: (got + 1) as u64,
                }
            },
            InitTx::Program { io, phys, num, base } => InitTx::Finish { io, phys, num, base, readback: a[0] as u32 },
            InitTx::Finish { io, phys, num, base, readback } => InitTx::Ready {
                info: TxQueueInfo {
                    queue_num: num,
                    frames_needed: frames_for(num as int) as u64,
                    pfn: pfn_of(base),
                    pfn_readback: readback,
                    final_status: a[0] as u8,
                    io_base: io,
                    virt_base: (phys + base) as u64,
                },
            },
            InitTx::Ready { info } => self,
            InitTx::NoQueue => self,
            InitTx::NotContiguous => self,
        }
    }

    /// What is to be done and asked now, or the end of the conversation.
    #[verifier::spinoff_prover]
    #[verifier::rlimit(60)]
    pub fn next(&self) -> (s: Step<Result<TxQueueInfo, &'static str>>)
        requires
            self.wf(),
        ensures
            s@ == self.step(),
    {
        let mut writes: Vec<Op> = Vec::new();
        let mut asks: Vec<Op> = Vec::new();
        match *self {
            InitTx::Begin { dev, io, phys } => {
                let (select, ask): (Op, Op) = dev.read_command();
                writes.push(select);
                asks.push(ask);
            },
            InitTx::Handshake { dev, io, phys, command } => {
                let (select, write): (Op, Op) = dev.enable_bus_mastering(command);
                writes.push(select);
                writes.push(write);
                writes.push(Op::Out8(io + VIRTIO_PCI_STATUS, VIRTIO_STATUS_ACKNOWLEDGE));
                writes.push(
                    Op::Out8(io + VIRTIO_PCI_STATUS, VIRTIO_STATUS_ACKNOWLEDGE + VIRTIO_STATUS_DRIVER),
                );
                writes.push(Op::Out32(io + VIRTIO_PCI_GUEST_FEATURES, 0));
                writes.push(Op::Out16(io + VIRTIO_PCI_QUEUE_SEL, TX_QUEUE_INDEX));
                asks.push(Op::In16(io + VIRTIO_PCI_QUEUE_NUM));
            },
            InitTx::Frames { io, phys, num, first, got } => {
                asks.push(Op::AllocateFrame);
            },
            InitTx::Program { io, phys, num, base } => {
                proof {
                    queue_fits_in_frames(num as int);
                }
                writes.push(Op::Zero(phys + base, 4096 * frames_needed(num)));
                writes.push(
                    Op::Out32(io + VIRTIO_PCI_QUEUE_PFN, (base / 4096 % 0x1_0000_0000) as u32),
                );
                asks.push(Op::In32(io + VIRTIO_PCI_QUEUE_PFN));
            },
            InitTx::Finish { io, phys, num, base, readback } => {
                writes.push(
                    Op::Out8(
                        io + VIRTIO_PCI_STATUS,
                        VIRTIO_STATUS_ACKNOWLEDGE + VIRTIO_STATUS_DRIVER + VIRTIO_STATUS_DRIVER_OK,
                    ),
                );
                asks.push(Op::In8(io + VIRTIO_PCI_STATUS));
            },
            InitTx::Ready { info } => {
                return Step::Done(Ok(info));
            },
            InitTx::NoQueue => {
                return Step::Done(
                                Err("virtio: TX queue_num read back as 0 - queue not available"),
                            );
            },
            InitTx::NotContiguous => {
                return Step::Done(
                                Err("virtio: frame allocator did not return contiguous frames"),
                            );
            },
        }
        proof {
            if let StepView::Next { writes: w, asks: q } = self.step() {
                assert(writes@ =~= w);
                assert(asks@ =~= q);
            }
        }
        Step::Next { writes, asks }
    }

    /// Takes the answers in.
    #[verifier::spinoff_prover]
    #[verifier::rlimit(60)]
    pub fn answer(&self, a: &[u64]) -> (r: InitTx)
        requires
            self.wf(),
            self.step().answered_by(a@),
        ensures
            r == self.answered(a@),
            r.wf(),
    {
        proof {
            if let StepView::Next { writes, asks } = self.step() {
                assert forall|i: int| 0 <= i < asks.len() implies fits(
                    asks[i],
                    #[trigger] a@[i],
                ) by {}
            }
        }
        match *self {
            InitTx::Begin { dev, io, phys } => {
                InitTx::Handshake { dev, io, phys, command: a[0] as u16 }
            },
            InitTx::Handshake { dev, io, phys, command } => {
                if a[0] == 0 {
                    InitTx::NoQueue
                } else {
                    InitTx::Frames { io, phys, num: a[0] as u16, first: 0, got: 0 }
                }
            },
            InitTx::Frames { io, phys, num, first, got } => {
                proof {
                    queue_fits_in_frames(num as int);
                }
                if got > 0 && a[0] != first + 4096 * got {
                    return InitTx::NotContiguous;
                }
                let base: u64 = if got == 0 {
                    a[0]
                } else {
                    first
                };
                if got + 1 == frames_needed(num) {
                    InitTx::Program { io, phys, num, base }
                } else {
                    InitTx::Frames { io, phys, num, first: base, got: got + 1 }
                }
            },
            InitTx::Program { io, phys, num, base } => {
                InitTx::Finish { io, phys, num, base, readback: a[0] as u32 }
            },
            InitTx::Finish { io, phys, num, base, readback } => {
                proof {
                    queue_fits_in_frames(num as int);
                }
                InitTx::Ready {
                    info: TxQueueInfo {
                        queue_num: num,
                        frames_needed: frames_needed(num),
                        pfn: (base / 4096 % 0x1_0000_0000) as u32,
                        pfn_readback: readback,
                        final_status: a[0] as u8,
                        io_base: io,
                        virt_base: phys + base,
                    },
                }
            },
            InitTx::Ready { info } => {
                InitTx::Ready { info }
            },
            InitTx::NoQueue => {
                InitTx::NoQueue
            },
            InitTx::NotContiguous => {
                InitTx::NotContiguous
            },
        }
    }
}

/// Begins to set up the transmit queue of a card at these ports, where physical memory is
/// seen from `phys_offset` on.
pub fn init_tx_queue(dev: PciDevice, io_base: u16, phys_offset: u64) -> (r: InitTx)
    requires
        ports_fit(io_base),
        memory_fits(phys_offset),
    ensures
        r == (InitTx::Begin { dev, io: io_base, phys: phys_offset }),
        r.wf(),
{
    InitTx::Begin { dev, io: io_base, phys: phys_offset }
}

/// What became of a frame that was handed to the card.
#[derive(Debug, Clone, Copy, PartialEq, Eq, Structural)]
pub struct TxSendInfo {
    pub used_idx_before: u16,
    pub used_idx_after: u16,
    pub used_elem_id: u32,
    pub used_elem_len: u32,
}

/// The text of the frame that is sent.
pub open spec fn test_text() -> Seq<u8> {
    seq![
        97u8,
        103,
        101,
        110,
        116,
        111,
        115,
        32,
        118,
        105,
        114,
        116,
        105,
        111,
        32,
        116,
        120,
        32,
        116,
        101,
        115,
        116,
    ]
}

/// Ten zero bytes: a frame without any help of the card.
pub open spec fn no_offload() -> Seq<u8> {
    seq![0u8, 0, 0, 0, 0, 0, 0, 0, 0, 0]
}

/// The frame that is sent, behind its header: to everyone, of an experimental type, with
/// a text.
pub open spec fn test_frame(mac: Seq<u8>) -> Seq<u8> {
    no_offload() + seq![0xFFu8, 0xFF, 0xFF, 0xFF, 0xFF, 0xFF] + mac + seq![0x88u8, 0xB5]
        + test_text()
}

/// The length of that frame and its header.
pub const TEST_FRAME_LEN: u32 = 46;

fn build_test_frame(mac: &[u8; 6]) -> (frame: Vec<u8>)
    ensures
        frame@ == test_frame(mac@),
        frame@.len() == TEST_FRAME_LEN,
{
    let mut frame: Vec<u8> = Vec::new();
    append_bytes(&mut frame, &[0, 0, 0, 0, 0, 0, 0, 0, 0, 0]);
    append_bytes(&mut frame, &[0xFF, 0xFF, 0xFF, 0xFF, 0xFF, 0xFF]);
    append_bytes(&mut frame, mac);
    append_bytes(&mut frame, &[0x88, 0xB5]);
    append_bytes(
        &mut frame,
        &[
            97, 103, 101, 110, 116, 111, 115, 32, 118, 105, 114, 116, 105, 111, 32, 116, 120, 32,
            116, 101, 115, 116,
        ],
    );
    assert(frame@ =~= test_frame(mac@));
    frame
}

proof fn mac_answers_fit(io: u16, a: Seq<u64>)
    requires
        a.len() >= 6,
        forall|i: int| 0 <= i < 6 ==> fits(mac_ports(io as int)[i], #[trigger] a[i]),
    ensures
        forall|i: int| 0 <= i < 6 ==> #[trigger] a[i] < 256,
{
    assert forall|i: int| 0 <= i < 6 implies #[trigger] a[i] < 256 by {
        assert(fits(mac_ports(io as int)[i], a[i]));
    }
}

/// How far the sending of the frame is.
#[derive(Debug, Clone, Copy)]
pub enum SendFrame {
    /// The card's address and a page frame for the buffer are asked for.
    Begin { info: TxQueueInfo, io: u16, phys: u64 },
    /// The frame and its descriptor are written.
    Filling { info: TxQueueInfo, io: u16, phys: u64, mac: [u8; 6], buffer: u64 },
    /// The descriptor is handed over.
    Publishing { info: TxQueueInfo, io: u16, avail_idx: u16 },
    /// The card is told of it.
    Notifying { info: TxQueueInfo, io: u16, before: u16 },
    /// The used ring is looked at until its index has changed, or often enough.
    Polling { info: TxQueueInfo, before: u16, left: u32 },
    /// The entry of the used ring is read.
    Completing { info: TxQueueInfo, before: u16, after: u16 },
    Complete { sent: TxSendInfo },
}

impl SendFrame {
    /// The addresses and ports that the state speaks of all are some.
    pub open spec fn wf(self) -> bool {
        match self {
            SendFrame::Begin { info, io, phys } => info.wf() && ports_fit(io) && memory_fits(phys),
            SendFrame::Filling { info, io, phys, mac, buffer } => info.wf() && ports_fit(io) && memory_fits(phys) && buffer < PHYS_END && buffer
                % FRAME_SIZE == 0,
            SendFrame::Publishing { info, io, avail_idx } => info.wf() && ports_fit(io),
            SendFrame::Notifying { info, io, before } => info.wf() && ports_fit(io),
            SendFrame::Polling { info, before, left } => info.wf() && left > 0,
            SendFrame::Completing { info, before, after } => info.wf(),
            SendFrame::Complete { sent } => true,
        }
    }

    /// What is done and asked in this state.
    pub open spec fn step(self) -> StepView<Result<TxSendInfo, &'static str>> {
        match self {
            SendFrame::Begin { info, io, phys } => StepView::Next {
                writes: Seq::empty(),
                asks: mac_ports(io as int) + seq![Op::AllocateFrame],
            },
            SendFrame::Filling { info, io, phys, mac, buffer } => StepView::Next {
                writes: stores(phys + buffer, test_frame(mac@)) + info.ring().describe(
                    0,
                    buffer,
                    TEST_FRAME_LEN,
                    0,
                ),
                asks: seq![Op::Load16(info.ring().avail_idx())],
            },
            SendFrame::Publishing { info, io, avail_idx } => StepView::Next {
                writes: info.ring().publish(avail_idx, 0),
                asks: seq![Op::Load16(info.ring().used_idx())],
            },
            SendFrame::Notifying { info, io, before } => StepView::Next {
                writes: seq![Op::Out16((io + VIRTIO_PCI_QUEUE_NOTIFY) as u16, TX_QUEUE_INDEX)],
                asks: seq![Op::Load16(info.ring().used_idx())],
            },
            SendFrame::Polling { info, before, left } => StepView::Next {
                writes: Seq::empty(),
                asks: seq![Op::Load16(info.ring().used_idx())],
            },
            SendFrame::Completing { info, before, after } => StepView::Next {
                writes: Seq::empty(),
                asks: seq![
                    Op::Load32((info.ring().used() + 4) as u64),
                    Op::Load32((info.ring().used() + 8) as u64),
                ],
            },
            SendFrame::Complete { sent } => StepView::Done(Ok(sent)),
        }
    }

    /// Where the answers lead.
    pub open spec fn answered(self, a: Seq<u64>) -> SendFrame {
        match self {
            SendFrame::Begin { info, io, phys } => SendFrame::Filling { info, io, phys, mac: mac_in(a), buffer: a[6] },
            SendFrame::Filling { info, io, phys, mac, buffer } => SendFrame::Publishing { info, io, avail_idx: a[0] as u16 },
            SendFrame::Publishing { info, io, avail_idx } => SendFrame::Notifying { info, io, before: a[0] as u16 },
            SendFrame::Notifying { info, io, before } => if a[0] != before {
                SendFrame::Completing { info, before, after: a[0] as u16 }
            } else {
                SendFrame::Polling { info, before, left: (TX_POLLS - 1) as u32 }
            },
            SendFrame::Polling { info, before, left } => if a[0] != before || left == 1 {
                SendFrame::Completing { info, before, after: a[0] as u16 }
            } else {
                SendFrame::Polling { info, before, left: (left - 1) as u32 }
            },
            SendFrame::Completing { info, before, after } => SendFrame::Complete {
                sent: TxSendInfo {
                    used_idx_before: before,
                    used_idx_after: after,
                    used_elem_id: a[0] as u32,
                    used_elem_len: a[1] as u32,
                },
            },
            SendFrame::Complete { sent } => self,
        }
    }

    /// What is to be done and asked now, or the end of the conversation.
    #[verifier::spinoff_prover]
    #[verifier::rlimit(60)]
    pub fn next(&self) -> (s: Step<Result<TxSendInfo, &'static str>>)
        requires
            self.wf(),
        ensures
            s@ == self.step(),
    {
        let mut writes: Vec<Op> = Vec::new();
        let mut asks: Vec<Op> = Vec::new();
        match *self {
            SendFrame::Begin { info, io, phys } => {
                push_mac_ports(&mut asks, io);
                asks.push(Op::AllocateFrame);
            },
            SendFrame::Filling { info, io, phys, mac, buffer } => {
                push_stores(&mut writes, phys + buffer, &build_test_frame(&mac));
                push_describe(
                    &mut writes,
                    info.virt_base,
                    info.queue_num,
                    0,
                    buffer,
                    TEST_FRAME_LEN,
                    0,
                );
                let at = ring_addresses(info.virt_base, info.queue_num);
                asks.push(Op::Load16(at.avail + 2));
            },
            SendFrame::Publishing { info, io, avail_idx } => {
                push_publish(&mut writes, info.virt_base, info.queue_num, avail_idx, 0);
                let at = ring_addresses(info.virt_base, info.queue_num);
                asks.push(Op::Load16(at.used + 2));
            },
            SendFrame::Notifying { info, io, before } => {
                writes.push(Op::Out16(io + VIRTIO_PCI_QUEUE_NOTIFY, TX_QUEUE_INDEX));
                let at = ring_addresses(info.virt_base, info.queue_num);
                asks.push(Op::Load16(at.used + 2));
            },
            SendFrame::Polling { info, before, left } => {
                let at = ring_addresses(info.virt_base, info.queue_num);
                asks.push(Op::Load16(at.used + 2));
            },
            SendFrame::Completing { info, before, after } => {
                let at = ring_addresses(info.virt_base, info.queue_num);
                asks.push(Op::Load32(at.used + 4));
                asks.push(Op::Load32(at.used + 8));
            },
            SendFrame::Complete { sent } => {
                return Step::Done(Ok(sent));
            },
        }
        proof {
            if let StepView::Next { writes: w, asks: q } = self.step() {
                assert(writes@ =~= w);
                assert(asks@ =~= q);
            }
        }
        Step::Next { writes, asks }
    }

    /// Takes the answers in.
    #[verifier::spinoff_prover]
    #[verifier::rlimit(60)]
    pub fn answer(&self, a: &[u64]) -> (r: SendFrame)
        requires
            self.wf(),
            self.step().answered_by(a@),
        ensures
            r == self.answered(a@),
            r.wf(),
    {
        proof {
            if let StepView::Next { writes, asks } = self.step() {
                assert forall|i: int| 0 <= i < asks.len() implies fits(
                    asks[i],
                    #[trigger] a@[i],
                ) by {}
            }
        }
        match *self {
            SendFrame::Begin { info, io, phys } => {
                proof {
                    mac_answers_fit(io, a@);
                }
                SendFrame::Filling { info, io, phys, mac: read_mac_at(a), buffer: a[6] }
            },
            SendFrame::Filling { info, io, phys, mac, buffer } => {
                SendFrame::Publishing { info, io, avail_idx: a[0] as u16 }
            },
            SendFrame::Publishing { info, io, avail_idx } => {
                SendFrame::Notifying { info, io, before: a[0] as u16 }
            },
            SendFrame::Notifying { info, io, before } => {
                if a[0] != before as u64 {
                    SendFrame::Completing { info, before, after: a[0] as u16 }
                } else {
                    SendFrame::Polling { info, before, left: TX_POLLS - 1 }
                }
            },
            SendFrame::Polling { info, before, left } => {
                if a[0] != before as u64 || left == 1 {
                    SendFrame::Completing { info, before, after: a[0] as u16 }
                } else {
                    SendFrame::Polling { info, before, left: left - 1 }
                }
            },
            SendFrame::Completing { info, before, after } => {
                SendFrame::Complete {
                    sent: TxSendInfo {
                        used_idx_before: before,
                        used_idx_after: after,
                        used_elem_id: a[0] as u32,
                        used_elem_len: a[1] as u32,
                    },
                }
            },
            SendFrame::Complete { sent } => {
                SendFrame::Complete { sent }
            },
        }
    }
}

/// Begins to send a frame with a text through a transmit queue that was set up, and a card
/// at these ports.
pub fn send_test_frame(info: &TxQueueInfo, io_base: u16, phys_offset: u64) -> (r: SendFrame)
    requires
        info.wf(),
        ports_fit(io_base),
        memory_fits(phys_offset),
    ensures
        r == (SendFrame::Begin { info: *info, io: io_base, phys: phys_offset }),
        r.wf(),
{
    SendFrame::Begin { info: *info, io: io_base, phys: phys_offset }
}

/// A receive queue that was set up.
#[derive(Debug, Clone, Copy, PartialEq, Eq, Structural)]
pub struct RxQueueInfo {
    pub queue_num: u16,
    pub frames_needed: u64,
    pub pfn: u32,
    pub pfn_readback: u32,
    pub io_base: u16,
    pub virt_base: u64,
    pub buf_phys: u64,
    pub buf_virt: u64,
    pub buf_len: usize,
    pub desc_flags_readback: u16,
    pub avail_idx_after: u16,
}

impl RxQueueInfo {
    pub open spec fn ring(self) -> Ring {
        Ring { base: self.virt_base as int, num: self.queue_num }
    }

    pub open spec fn wf(self) -> bool {
        self.ring().wf() && self.buf_virt <= u64::MAX - 4096
    }
}

/// How far the setting up of the receive queue is.
#[derive(Debug, Clone, Copy)]
pub enum InitRx {
    /// The receive queue is selected, and is asked how many entries it has.
    Select { io: u16, phys: u64 },
    /// Page frames are taken one by one. They have to follow one another.
    Frames { io: u16, phys: u64, num: u16, first: u64, got: u64 },
    /// The queue is cleared, the card is told where it is, and a page frame is taken for the
    /// buffer.
    Program { io: u16, phys: u64, num: u16, base: u64 },
    /// The buffer is cleared and described as one that the card writes.
    Describe { io: u16, phys: u64, num: u16, base: u64, readback: u32, buffer: u64 },
    /// The descriptor is handed over.
    Publish { io: u16, phys: u64, num: u16, base: u64, readback: u32, buffer: u64, flags: u16, avail_idx: u16 },
    /// The card is told of it.
    Notify { io: u16, info: RxQueueInfo },
    Ready { info: RxQueueInfo },
    NoQueue,
    NotContiguous,
}

impl InitRx {
    /// The addresses and ports that the state speaks of all are some.
    pub open spec fn wf(self) -> bool {
        match self {
            InitRx::Select { io, phys } => ports_fit(io) && memory_fits(phys),
            InitRx::Frames { io, phys, num, first, got } => ports_fit(io) && memory_fits(phys) && num > 0 && got < frames_for(
                num as int,
            ) && run_fits(first, got as int),
            InitRx::Program { io, phys, num, base } => ports_fit(io) && memory_fits(phys) && num > 0 && run_fits(
                base,
                frames_for(num as int),
            ),
            InitRx::Describe { io, phys, num, base, readback, buffer } => ports_fit(io) && memory_fits(phys) && num > 0 && run_fits(
                base,
                frames_for(num as int),
            ) && buffer < PHYS_END && buffer % FRAME_SIZE == 0,
            InitRx::Publish { io, phys, num, base, readback, buffer, flags, avail_idx } => ports_fit(io) && memory_fits(phys) && num > 0 && run_fits(
                base,
                frames_for(num as int),
            ) && buffer < PHYS_END && buffer % FRAME_SIZE == 0,
            InitRx::Notify { io, info } => ports_fit(io) && info.wf(),
            InitRx::Ready { info } => info.wf(),
            InitRx::NoQueue => true,
            InitRx::NotContiguous => true,
        }
    }

    /// What is done and asked in this state.
    pub open spec fn step(self) -> StepView<Result<RxQueueInfo, &'static str>> {
        match self {
            InitRx::Select { io, phys } => StepView::Next {
                writes: seq![Op::Out16((io + VIRTIO_PCI_QUEUE_SEL) as u16, RX_QUEUE_INDEX)],
                asks: seq![Op::In16((io + VIRTIO_PCI_QUEUE_NUM) as u16)],
            },
            InitRx::Frames { io, phys, num, first, got } => StepView::Next {
                writes: Seq::empty(),
                asks: seq![Op::AllocateFrame],
            },
            InitRx::Program { io, phys, num, base } => StepView::Next {
                writes: seq![
                    Op::Zero((phys + base) as u64, (4096 * frames_for(num as int)) as u64),
                    Op::Out32((io + VIRTIO_PCI_QUEUE_PFN) as u16, pfn_of(base)),
                ],
                asks: seq![Op::In32((io + VIRTIO_PCI_QUEUE_PFN) as u16), Op::AllocateFrame],
            },
            InitRx::Describe { io, phys, num, base, readback, buffer } => StepView::Next {
                writes: seq![Op::Zero((phys + buffer) as u64, RX_BUFFER_LEN as u64)] + (Ring { base: phys + base, num }).describe(
                    0,
                    buffer,
                    RX_BUFFER_LEN as u32,
                    VRING_DESC_F_WRITE,
                ),
                asks: seq![
                    Op::Load16((phys + base + 12) as u64),
                    Op::Load16((Ring { base: phys + base, num }).avail_idx()),
                ],
            },
            InitRx::Publish { io, phys, num, base, readback, buffer, flags, avail_idx } => StepView::Next {
                writes: (Ring { base: phys + base, num }).publish(avail_idx, 0),
                asks: seq![Op::Load16((Ring { base: phys + base, num }).avail_idx())],
            },
            InitRx::Notify { io, info } => StepView::Next {
                writes: seq![Op::Out16((io + VIRTIO_PCI_QUEUE_NOTIFY) as u16, RX_QUEUE_INDEX)],
                asks: Seq::empty(),
            },
            InitRx::Ready { info } => StepView::Done(Ok(info)),
            InitRx::NoQueue => StepView::Done(
                Err("virtio: RX queue_num read back as 0 - queue not available"),
            ),
            InitRx::NotContiguous => StepView::Done(
                Err("virtio: frame allocator did not return contiguous frames"),
            ),
        }
    }

    /// Where the answers lead.
    pub open spec fn answered(self, a: Seq<u64>) -> InitRx {
        match self {
            InitRx::Select { io, phys } => if a[0] == 0 {
                InitRx::NoQueue
            } else {
                InitRx::Frames { io, phys, num: a[0] as u16, first: 0, got: 0 }
            },
            InitRx::Frames { io, phys, num, first, got } => if got > 0 && a[0] != first + 4096 * got {
                InitRx::NotContiguous
            } else if got + 1 == frames_for(num as int) {
                InitRx::Program {
                    io,
                    phys,
                    num,
                    base: if got == 0 {
                        a[0]
                    } else {
                        first
                    },
                }
            } else {
                InitRx::Frames {
                    io,
                    phys,
                    num,
                    first: if got == 0 {
                        a[0]
                    } else {
                        first
                    },
                    got: (got + 1) as u64,
                }
            },
            InitRx::Program { io, phys, num, base } => InitRx::Describe { io, phys, num, base, readback: a[0] as u32, buffer: a[1] },
            InitRx::Describe { io, phys, num, base, readback, buffer } => InitRx::Publish {
                io,
                phys,
                num,
                base,
                readback,
                buffer,
                flags: a[0] as u16,
                avail_idx: a[1] as u16,
            },
            InitRx::Publish { io, phys, num, base, readback, buffer, flags, avail_idx } => InitRx::Notify {
                io,
                info: RxQueueInfo {
                    queue_num: num,
                    frames_needed: frames_for(num as int) as u64,
                    pfn: pfn_of(base),
                    pfn_readback: readback,
                    io_base: io,
                    virt_base: (phys + base) as u64,
                    buf_phys: buffer,
                    buf_virt: (phys + buffer) as u64,
                    buf_len: RX_BUFFER_LEN,
                    desc_flags_readback: flags,
                    avail_idx_after: a[0] as u16,
                },
            },
            InitRx::Notify { io, info } => InitRx::Ready { info },
            InitRx::Ready { info } => self,
            InitRx::NoQueue => self,
            InitRx::NotContiguous => self,
        }
    }

    /// What is to be done and asked now, or the end of the conversation.
    #[verifier::spinoff_prover]
    #[verifier::rlimit(60)]
    pub fn next(&self) -> (s: Step<Result<RxQueueInfo, &'static str>>)
        requires
            self.wf(),
        ensures
            s@ == self.step(),
    {
        let mut writes: Vec<Op> = Vec::new();
        let mut asks: Vec<Op> = Vec::new();
        match *self {
            InitRx::Select { io, phys } => {
                writes.push(Op::Out16(io + VIRTIO_PCI_QUEUE_SEL, RX_QUEUE_INDEX));
                asks.push(Op::In16(io + VIRTIO_PCI_QUEUE_NUM));
            },
            InitRx::Frames { io, phys, num, first, got } => {
                asks.push(Op::AllocateFrame);
            },
            InitRx::Program { io, phys, num, base } => {
                proof {
                    queue_fits_in_frames(num as int);
                }
                writes.push(Op::Zero(phys + base, 4096 * frames_needed(num)));
                writes.push(
                    Op::Out32(io + VIRTIO_PCI_QUEUE_PFN, (base / 4096 % 0x1_0000_0000) as u32),
                );
                asks.push(Op::In32(io + VIRTIO_PCI_QUEUE_PFN));
                asks.push(Op::AllocateFrame);
            },
            InitRx::Describe { io, phys, num, base, readback, buffer } => {
                proof {
                    queue_fits_in_frames(num as int);
                }
                writes.push(Op::Zero(phys + buffer, RX_BUFFER_LEN as u64));
                push_describe(
                    &mut writes,
                    phys + base,
                    num,
                    0,
                    buffer,
                    RX_BUFFER_LEN as u32,
                    VRING_DESC_F_WRITE,
                );
                let at = ring_addresses(phys + base, num);
                asks.push(Op::Load16(phys + base + 12));
                asks.push(Op::Load16(at.avail + 2));
            },
            InitRx::Publish { io, phys, num, base, readback, buffer, flags, avail_idx } => {
                proof {
                    queue_fits_in_frames(num as int);
                }
                push_publish(&mut writes, phys + base, num, avail_idx, 0);
                let at = ring_addresses(phys + base, num);
                asks.push(Op::Load16(at.avail + 2));
            },
            InitRx::Notify { io, info } => {
                writes.push(Op::Out16(io + VIRTIO_PCI_QUEUE_NOTIFY, RX_QUEUE_INDEX));
            },
            InitRx::Ready { info } => {
                return Step::Done(Ok(info));
            },
            InitRx::NoQueue => {
                return Step::Done(
                                Err("virtio: RX queue_num read back as 0 - queue not available"),
                            );
            },
            InitRx::NotContiguous => {
                return Step::Done(
                                Err("virtio: frame allocator did not return contiguous frames"),
                            );
            },
        }
        proof {
            if let StepView::Next { writes: w, asks: q } = self.step() {
                assert(writes@ =~= w);
                assert(asks@ =~= q);
            }
        }
        Step::Next { writes, asks }
    }

    /// Takes the answers in.
    #[verifier::spinoff_prover]
    #[verifier::rlimit(60)]
    pub fn answer(&self, a: &[u64]) -> (r: InitRx)
        requires
            self.wf(),
            self.step().answered_by(a@),
        ensures
            r == self.answered(a@),
            r.wf(),
    {
        proof {
            if let StepView::Next { writes, asks } = self.step() {
                assert forall|i: int| 0 <= i < asks.len() implies fits(
                    asks[i],
                    #[trigger] a@[i],
                ) by {}
            }
        }
        match *self {
            InitRx::Select { io, phys } => {
                if a[0] == 0 {
                    InitRx::NoQueue
                } else {
                    InitRx::Frames { io, phys, num: a[0] as u16, first: 0, got: 0 }
                }
            },
            InitRx::Frames { io, phys, num, first, got } => {
                proof {
                    queue_fits_in_frames(num as int);
                }
                if got > 0 && a[0] != first + 4096 * got {
                    return InitRx::NotContiguous;
                }
                let base: u64 = if got == 0 {
                    a[0]
                } else {
                    first
                };
                if got + 1 == frames_needed(num) {
                    InitRx::Program { io, phys, num, base }
                } else {
                    InitRx::Frames { io, phys, num, first: base, got: got + 1 }
                }
            },
            InitRx::Program { io, phys, num, base } => {
                InitRx::Describe { io, phys, num, base, readback: a[0] as u32, buffer: a[1] }
            },
            InitRx::Describe { io, phys, num, base, readback, buffer } => {
                InitRx::Publish {
                    io,
                    phys,
                    num,
                    base,
                    readback,
                    buffer,
                    flags: a[0] as u16,
                    avail_idx: a[1] as u16,
                }
            },
            InitRx::Publish { io, phys, num, base, readback, buffer, flags, avail_idx } => {
                proof {
                    queue_fits_in_frames(num as int);
                }
                InitRx::Notify {
                    io,
                    info: RxQueueInfo {
                        queue_num: num,
                        frames_needed: frames_needed(num),
                        pfn: (base / 4096 % 0x1_0000_0000) as u32,
                        pfn_readback: readback,
                        io_base: io,
                        virt_base: phys + base,
                        buf_phys: buffer,
                        buf_virt: phys + buffer,
                        buf_len: RX_BUFFER_LEN,
                        desc_flags_readback: flags,
                        avail_idx_after: a[0] as u16,
                    },
                }
            },
            InitRx::Notify { io, info } => {
                InitRx::Ready { info }
            },
            InitRx::Ready { info } => {
                InitRx::Ready { info }
            },
            InitRx::NoQueue => {
                InitRx::NoQueue
            },
            InitRx::NotContiguous => {
                InitRx::NotContiguous
            },
        }
    }
}

/// Begins to set up the receive queue of the card whose transmit queue was set up.
pub fn init_rx_queue(tx_info: &TxQueueInfo, phys_offset: u64) -> (r: InitRx)
    requires
        ports_fit(tx_info.io_base),
        memory_fits(phys_offset),
    ensures
        r == (InitRx::Select { io: tx_info.io_base, phys: phys_offset }),
        r.wf(),
{
    InitRx::Select { io: tx_info.io_base, phys: phys_offset }
}

/// A frame that was received.
#[derive(Debug, Clone, Copy)]
pub struct RxRecvInfo {
    pub used_idx_before: u16,
    pub used_idx_after: u16,
    pub received_len: u32,
    pub is_arp_reply: bool,
    pub gateway_ip: Option<[u8; 4]>,
}

/// How much of a frame is looked at: what comes behind its header, but no more than says
/// whether it is an answer.
pub open spec fn looked_at(received_len: u32) -> int {
    if received_len <= 10 {
        0
    } else if received_len >= 42 {
        32
    } else {
        received_len - 10
    }
}

/// What the beginning of a frame says.
pub open spec fn received(before: u16, after: u16, len: u32, eth: Seq<u8>) -> RxRecvInfo {
    RxRecvInfo {
        used_idx_before: before,
        used_idx_after: after,
        received_len: len,
        is_arp_reply: answers_arp(eth),
        gateway_ip: match sender_ip(eth) {
            Some(ip) => Some(four(ip)),
            None => None,
        },
    }
}

fn read_frame(before: u16, after: u16, len: u32, eth: &[u8]) -> (r: RxRecvInfo)
    ensures
        r == received(before, after, len, eth@),
{
    let gateway_ip: Option<[u8; 4]> = if eth.len() >= 32 {
        let ip: [u8; 4] = [eth[28], eth[29], eth[30], eth[31]];
        assert(ip@ =~= eth@.subrange(28, 32));
        assert(ip =~= four(eth@.subrange(28, 32)));
        Some(ip)
    } else {
        None
    };
    RxRecvInfo {
        used_idx_before: before,
        used_idx_after: after,
        received_len: len,
        is_arp_reply: is_arp_reply(eth),
        gateway_ip,
    }
}

fn answer_bytes(a: &[u64]) -> (r: Vec<u8>)
    requires
        forall|i: int| 0 <= i < a.len() ==> #[trigger] a@[i] < 256,
    ensures
        r@ == as_bytes(a@),
{
    let mut r: Vec<u8> = Vec::new();
    let mut i: usize = 0;
    while i < a.len()
        invariant
            i <= a.len(),
            forall|i: int| 0 <= i < a.len() ==> #[trigger] a@[i] < 256,
            r@ == as_bytes(a@.take(i as int)),
        decreases a.len() - i,
    {
        r.push(a[i] as u8);
        i = i + 1;
        assert(r@ =~= as_bytes(a@.take(i as int)));
    }
    assert(a@.take(a@.len() as int) =~= a@);
    r
}

/// The length of the question and its header.
pub const REQUEST_LEN: u32 = 52;

/// The two queues that a question and its answer go through.
#[derive(Debug, Clone, Copy, PartialEq, Eq, Structural)]
pub struct Queues {
    pub tx: TxQueueInfo,
    pub rx: RxQueueInfo,
    pub phys: u64,
}

impl Queues {
    pub open spec fn wf(self) -> bool {
        self.tx.wf() && self.rx.wf() && memory_fits(self.phys)
    }
}

/// How the card and the receive queue were left when no answer came.
#[derive(Debug, Clone, Copy)]
pub struct RxTimeout {
    pub isr: u8,
    pub used_idx_before: u16,
    pub used_idx_after: u16,
    pub avail_idx_now: u16,
    pub raw_desc: [u8; 16],
    pub raw_buf_head: [u8; 16],
}

/// What the answers say of a receive queue whose used ring stayed at `before`.
pub open spec fn rx_timeout(before: u16, a: Seq<u64>) -> RxTimeout {
    RxTimeout {
        isr: a[0] as u8,
        used_idx_before: before,
        used_idx_after: before,
        avail_idx_now: a[33] as u16,
        raw_desc: sixteen_at(a, 1),
        raw_buf_head: sixteen_at(a, 17),
    }
}

/// How far asking a question and receiving the answer is.
#[derive(Debug, Clone, Copy)]
pub enum ReceiveFrame {
    /// The card's address is asked for.
    Begin { q: Queues },
    /// The buffer is cleared.
    Clearing { q: Queues, mac: [u8; 6] },
    /// The descriptor of the buffer is handed over again. Where the used ring is before the
    /// question is asked, and a page frame for the question.
    Arming { q: Queues, mac: [u8; 6], avail_idx: u16 },
    /// The question and its descriptor are written.
    Filling { q: Queues, mac: [u8; 6], before: u16, buffer: u64 },
    /// The descriptor is handed over.
    Publishing { q: Queues, before: u16, avail_idx: u16 },
    /// The card is told of it.
    Notifying { q: Queues, before: u16, tx_before: u16 },
    /// The used ring is looked at until the question is sent, or often enough.
    Polling { q: Queues, before: u16, tx_before: u16, left: u32 },
    /// The time is taken.
    Timing { q: Queues, before: u16 },
    /// The answer is waited for.
    Waiting { q: Queues, before: u16, start: u64, waited: bool },
    /// How long what arrived is.
    Arrived { q: Queues, before: u16, after: u16 },
    /// The beginning of the frame is read.
    Reading { q: Queues, before: u16, after: u16, len: u32 },
    Received { info: RxRecvInfo },
    NotSent,
    /// No answer came in time. How the card and the receive queue were left is looked at:
    /// the card's interrupt, which this clears, the descriptor of the buffer, the beginning
    /// of the buffer, and the index of the available ring.
    Late { q: Queues, before: u16 },
    TimedOut { seen: RxTimeout },
}

impl ReceiveFrame {
    /// The addresses and ports that the state speaks of all are some.
    pub open spec fn wf(self) -> bool {
        match self {
            ReceiveFrame::Begin { q } => q.wf(),
            ReceiveFrame::Clearing { q, mac } => q.wf(),
            ReceiveFrame::Arming { q, mac, avail_idx } => q.wf(),
            ReceiveFrame::Filling { q, mac, before, buffer } => q.wf() && buffer < PHYS_END && buffer
                % FRAME_SIZE == 0,
            ReceiveFrame::Publishing { q, before, avail_idx } => q.wf(),
            ReceiveFrame::Notifying { q, before, tx_before } => q.wf(),
            ReceiveFrame::Polling { q, before, tx_before, left } => q.wf() && left > 0,
            ReceiveFrame::Timing { q, before } => q.wf(),
            ReceiveFrame::Waiting { q, before, start, waited } => q.wf(),
            ReceiveFrame::Arrived { q, before, after } => q.wf(),
            ReceiveFrame::Reading { q, before, after, len } => q.wf(),
            ReceiveFrame::Received { info } => true,
            ReceiveFrame::NotSent => true,
            ReceiveFrame::Late { q, before } => q.wf(),
            ReceiveFrame::TimedOut { seen } => true,
        }
    }

    /// What is done and asked in this state.
    pub open spec fn step(self) -> StepView<Result<RxRecvInfo, &'static str>> {
        match self {
            ReceiveFrame::Begin { q } => StepView::Next {
                writes: Seq::empty(),
                asks: mac_ports(q.tx.io_base as int),
            },
            ReceiveFrame::Clearing { q, mac } => StepView::Next {
                writes: seq![Op::Zero(q.rx.buf_virt, q.rx.buf_len as u64)],
                asks: seq![Op::Load16(q.rx.ring().avail_idx())],
            },
            ReceiveFrame::Arming { q, mac, avail_idx } => StepView::Next {
                writes: q.rx.ring().publish(avail_idx, 0) + seq![
                    Op::Out16((q.tx.io_base + VIRTIO_PCI_QUEUE_NOTIFY) as u16, RX_QUEUE_INDEX),
                ],
                asks: seq![Op::Load16(q.rx.ring().used_idx()), Op::AllocateFrame],
            },
            ReceiveFrame::Filling { q, mac, before, buffer } => StepView::Next {
                writes: stores(q.phys + buffer, no_offload() + arp_request(mac@)) + q.tx.ring().describe(
                    1,
                    buffer,
                    REQUEST_LEN,
                    0,
                ),
                asks: seq![Op::Load16(q.tx.ring().avail_idx())],
            },
            ReceiveFrame::Publishing { q, before, avail_idx } => StepView::Next {
                writes: q.tx.ring().publish(avail_idx, 1),
                asks: seq![Op::Load16(q.tx.ring().used_idx())],
            },
            ReceiveFrame::Notifying { q, before, tx_before } => StepView::Next {
                writes: seq![
                    Op::Out16((q.tx.io_base + VIRTIO_PCI_QUEUE_NOTIFY) as u16, TX_QUEUE_INDEX),
                ],
                asks: seq![Op::Load16(q.tx.ring().used_idx())],
            },
            ReceiveFrame::Polling { q, before, tx_before, left } => StepView::Next {
                writes: Seq::empty(),
                asks: seq![Op::Load16(q.tx.ring().used_idx())],
            },
            ReceiveFrame::Timing { q, before } => StepView::Next {
                writes: Seq::empty(),
                asks: seq![Op::Ticks],
            },
            ReceiveFrame::Waiting { q, before, start, waited } => StepView::Next {
                writes: if waited {
                    seq![Op::Halt]
                } else {
                    Seq::empty()
                },
                asks: seq![Op::Load16(q.rx.ring().used_idx()), Op::Ticks],
            },
            ReceiveFrame::Arrived { q, before, after } => StepView::Next {
                writes: Seq::empty(),
                asks: seq![Op::Load32((q.rx.ring().used() + 8) as u64)],
            },
            ReceiveFrame::Reading { q, before, after, len } => StepView::Next {
                writes: Seq::empty(),
                asks: loads(q.rx.buf_virt + VIRTIO_NET_HDR_LEN, looked_at(len)),
            },
            ReceiveFrame::Received { info } => StepView::Done(Ok(info)),
            ReceiveFrame::NotSent => StepView::Done(
                Err("virtio: RX test's own ARP request TX never completed"),
            ),
            ReceiveFrame::Late { q, before } => StepView::Next {
                writes: Seq::empty(),
                asks: seq![Op::In8((q.tx.io_base + VIRTIO_PCI_ISR) as u16)] + loads(
                    q.rx.ring().base,
                    16,
                ) + loads(q.rx.buf_virt as int, 16) + seq![Op::Load16(q.rx.ring().avail_idx())],
            },
            ReceiveFrame::TimedOut { seen } => StepView::Done(
                Err("virtio: RX timed out waiting for a received frame"),
            ),
        }
    }

    /// Where the answers lead.
    pub open spec fn answered(self, a: Seq<u64>) -> ReceiveFrame {
        match self {
            ReceiveFrame::Begin { q } => ReceiveFrame::Clearing { q, mac: mac_in(a) },
            ReceiveFrame::Clearing { q, mac } => ReceiveFrame::Arming { q, mac, avail_idx: a[0] as u16 },
            ReceiveFrame::Arming { q, mac, avail_idx } => ReceiveFrame::Filling { q, mac, before: a[0] as u16, buffer: a[1] },
            ReceiveFrame::Filling { q, mac, before, buffer } => ReceiveFrame::Publishing { q, before, avail_idx: a[0] as u16 },
            ReceiveFrame::Publishing { q, before, avail_idx } => ReceiveFrame::Notifying { q, before, tx_before: a[0] as u16 },
            ReceiveFrame::Notifying { q, before, tx_before } => if a[0] != tx_before {
                ReceiveFrame::Timing { q, before }
            } else {
                ReceiveFrame::Polling { q, before, tx_before, left: (TX_POLLS - 1) as u32 }
            },
            ReceiveFrame::Polling { q, before, tx_before, left } => if a[0] != tx_before {
                ReceiveFrame::Timing { q, before }
            } else if left == 1 {
                ReceiveFrame::NotSent
            } else {
                ReceiveFrame::Polling { q, before, tx_before, left: (left - 1) as u32 }
            },
            ReceiveFrame::Timing { q, before } => ReceiveFrame::Waiting { q, before, start: a[0], waited: false },
            ReceiveFrame::Waiting { q, before, start, waited } => if a[0] != before {
                ReceiveFrame::Arrived { q, before, after: a[0] as u16 }
            } else if a[1] > start + RX_PATIENCE {
                ReceiveFrame::Late { q, before }
            } else {
                ReceiveFrame::Waiting { q, before, start, waited: true }
            },
            ReceiveFrame::Arrived { q, before, after } => ReceiveFrame::Reading { q, before, after, len: a[0] as u32 },
            ReceiveFrame::Reading { q, before, after, len } => ReceiveFrame::Received { info: received(before, after, len, as_bytes(a)) },
            ReceiveFrame::Received { info } => self,
            ReceiveFrame::NotSent => self,
            ReceiveFrame::Late { q, before } => ReceiveFrame::TimedOut { seen: rx_timeout(before, a) },
            ReceiveFrame::TimedOut { seen } => self,
        }
    }

    /// What is to be done and asked now, or the end of the conversation.
    #[verifier::spinoff_prover]
    #[verifier::rlimit(60)]
    pub fn next(&self) -> (s: Step<Result<RxRecvInfo, &'static str>>)
        requires
            self.wf(),
        ensures
            s@ == self.step(),
    {
        let mut writes: Vec<Op> = Vec::new();
        let mut asks: Vec<Op> = Vec::new();
        match *self {
            ReceiveFrame::Begin { q } => {
                push_mac_ports(&mut asks, q.tx.io_base);
            },
            ReceiveFrame::Clearing { q, mac } => {
                writes.push(Op::Zero(q.rx.buf_virt, q.rx.buf_len as u64));
                let at = ring_addresses(q.rx.virt_base, q.rx.queue_num);
                asks.push(Op::Load16(at.avail + 2));
            },
            ReceiveFrame::Arming { q, mac, avail_idx } => {
                push_publish(&mut writes, q.rx.virt_base, q.rx.queue_num, avail_idx, 0);
                writes.push(Op::Out16(q.tx.io_base + VIRTIO_PCI_QUEUE_NOTIFY, RX_QUEUE_INDEX));
                let at = ring_addresses(q.rx.virt_base, q.rx.queue_num);
                asks.push(Op::Load16(at.used + 2));
                asks.push(Op::AllocateFrame);
            },
            ReceiveFrame::Filling { q, mac, before, buffer } => {
                let mut frame: Vec<u8> = Vec::new();
                append_bytes(&mut frame, &[0, 0, 0, 0, 0, 0, 0, 0, 0, 0]);
                append_bytes(&mut frame, &build_arp_request(&mac));
                assert(frame@ =~= no_offload() + arp_request(mac@));
                push_stores(&mut writes, q.phys + buffer, &frame);
                push_describe(
                    &mut writes,
                    q.tx.virt_base,
                    q.tx.queue_num,
                    1,
                    buffer,
                    REQUEST_LEN,
                    0,
                );
                let at = ring_addresses(q.tx.virt_base, q.tx.queue_num);
                asks.push(Op::Load16(at.avail + 2));
            },
            ReceiveFrame::Publishing { q, before, avail_idx } => {
                push_publish(&mut writes, q.tx.virt_base, q.tx.queue_num, avail_idx, 1);
                let at = ring_addresses(q.tx.virt_base, q.tx.queue_num);
                asks.push(Op::Load16(at.used + 2));
            },
            ReceiveFrame::Notifying { q, before, tx_before } => {
                writes.push(Op::Out16(q.tx.io_base + VIRTIO_PCI_QUEUE_NOTIFY, TX_QUEUE_INDEX));
                let at = ring_addresses(q.tx.virt_base, q.tx.queue_num);
                asks.push(Op::Load16(at.used + 2));
            },
            ReceiveFrame::Polling { q, before, tx_before, left } => {
                let at = ring_addresses(q.tx.virt_base, q.tx.queue_num);
                asks.push(Op::Load16(at.used + 2));
            },
            ReceiveFrame::Timing { q, before } => {
                asks.push(Op::Ticks);
            },
            ReceiveFrame::Waiting { q, before, start, waited } => {
                if waited {
                    writes.push(Op::Halt);
                }
                let at = ring_addresses(q.rx.virt_base, q.rx.queue_num);
                asks.push(Op::Load16(at.used + 2));
                asks.push(Op::Ticks);
            },
            ReceiveFrame::Arrived { q, before, after } => {
                let at = ring_addresses(q.rx.virt_base, q.rx.queue_num);
                asks.push(Op::Load32(at.used + 8));
            },
            ReceiveFrame::Reading { q, before, after, len } => {
                let n: usize = if len <= 10 {
                    0
                } else if len >= 42 {
                    32
                } else {
                    (len - 10) as usize
                };
                asks = byte_loads(q.rx.buf_virt + VIRTIO_NET_HDR_LEN as u64, n);
            },
            ReceiveFrame::Received { info } => {
                return Step::Done(Ok(info));
            },
            ReceiveFrame::NotSent => {
                return Step::Done(
                                Err("virtio: RX test's own ARP request TX never completed"),
                            );
            },
            ReceiveFrame::Late { q, before } => {
                asks.push(Op::In8(q.tx.io_base + VIRTIO_PCI_ISR));
                asks.append(&mut byte_loads(q.rx.virt_base, 16));
                asks.append(&mut byte_loads(q.rx.buf_virt, 16));
                let at = ring_addresses(q.rx.virt_base, q.rx.queue_num);
                asks.push(Op::Load16(at.avail + 2));
            },
            ReceiveFrame::TimedOut { seen } => {
                return Step::Done(
                                Err("virtio: RX timed out waiting for a received frame"),
                            );
            },
        }
        proof {
            if let StepView::Next { writes: w, asks: q } = self.step() {
                assert(writes@ =~= w);
                assert(asks@ =~= q);
            }
        }
        Step::Next { writes, asks }
    }

    /// Takes the answers in.
    #[verifier::spinoff_prover]
    #[verifier::rlimit(60)]
    pub fn answer(&self, a: &[u64]) -> (r: ReceiveFrame)
        requires
            self.wf(),
            self.step().answered_by(a@),
        ensures
            r == self.answered(a@),
            r.wf(),
    {
        proof {
            if let StepView::Next { writes, asks } = self.step() {
                assert forall|i: int| 0 <= i < asks.len() implies fits(
                    asks[i],
                    #[trigger] a@[i],
                ) by {}
            }
        }
        match *self {
            ReceiveFrame::Begin { q } => {
                proof {
                    mac_answers_fit(q.tx.io_base, a@);
                }
                ReceiveFrame::Clearing { q, mac: read_mac_at(a) }
            },
            ReceiveFrame::Clearing { q, mac } => {
                ReceiveFrame::Arming { q, mac, avail_idx: a[0] as u16 }
            },
            ReceiveFrame::Arming { q, mac, avail_idx } => {
                ReceiveFrame::Filling { q, mac, before: a[0] as u16, buffer: a[1] }
            },
            ReceiveFrame::Filling { q, mac, before, buffer } => {
                ReceiveFrame::Publishing { q, before, avail_idx: a[0] as u16 }
            },
            ReceiveFrame::Publishing { q, before, avail_idx } => {
                ReceiveFrame::Notifying { q, before, tx_before: a[0] as u16 }
            },
            ReceiveFrame::Notifying { q, before, tx_before } => {
                if a[0] != tx_before as u64 {
                    ReceiveFrame::Timing { q, before }
                } else {
                    ReceiveFrame::Polling { q, before, tx_before, left: TX_POLLS - 1 }
                }
            },
            ReceiveFrame::Polling { q, before, tx_before, left } => {
                if a[0] != tx_before as u64 {
                    ReceiveFrame::Timing { q, before }
                } else if left == 1 {
                    ReceiveFrame::NotSent
                } else {
                    ReceiveFrame::Polling { q, before, tx_before, left: left - 1 }
                }
            },
            ReceiveFrame::Timing { q, before } => {
                ReceiveFrame::Waiting { q, before, start: a[0], waited: false }
            },
            ReceiveFrame::Waiting { q, before, start, waited } => {
                if a[0] != before as u64 {
                    ReceiveFrame::Arrived { q, before, after: a[0] as u16 }
                } else if a[1] > start && a[1] - start > RX_PATIENCE {
                    ReceiveFrame::Late { q, before }
                } else {
                    ReceiveFrame::Waiting { q, before, start, waited: true }
                }
            },
            ReceiveFrame::Arrived { q, before, after } => {
                ReceiveFrame::Reading { q, before, after, len: a[0] as u32 }
            },
            ReceiveFrame::Reading { q, before, after, len } => {
                assert forall|i: int| 0 <= i < a.len() implies #[trigger] a@[i] < 256 by {
                    assert(fits(loads(q.rx.buf_virt + VIRTIO_NET_HDR_LEN, looked_at(len))[i], a@[i]));
                }
                let eth = answer_bytes(a);
                ReceiveFrame::Received { info: read_frame(before, after, len, &eth) }
            },
            ReceiveFrame::Received { info } => {
                ReceiveFrame::Received { info }
            },
            ReceiveFrame::NotSent => {
                ReceiveFrame::NotSent
            },
            ReceiveFrame::Late { q, before } => {
                proof {
                    let asks = self.step()->asks;
                    assert(asks.len() == 34);
                    assert(fits(asks[0], a@[0]) && fits(asks[33], a@[33]));
                }
                ReceiveFrame::TimedOut {
                    seen: RxTimeout {
                        isr: a[0] as u8,
                        used_idx_before: before,
                        used_idx_after: before,
                        avail_idx_now: a[33] as u16,
                        raw_desc: read_sixteen(a, 1),
                        raw_buf_head: read_sixteen(a, 17),
                    },
                }
            },
            ReceiveFrame::TimedOut { seen } => {
                ReceiveFrame::TimedOut { seen }
            },
        }
    }
}

impl ReceiveFrame {
    /// Where the used ring of the receive queue was before the question, once that is known.
    pub open spec fn baseline(self) -> Option<u16> {
        match self {
            ReceiveFrame::Filling { q, mac, before, buffer } => Some(before),
            ReceiveFrame::Publishing { q, before, avail_idx } => Some(before),
            ReceiveFrame::Notifying { q, before, tx_before } => Some(before),
            ReceiveFrame::Polling { q, before, tx_before, left } => Some(before),
            ReceiveFrame::Timing { q, before } => Some(before),
            ReceiveFrame::Waiting { q, before, start, waited } => Some(before),
            ReceiveFrame::Arrived { q, before, after } => Some(before),
            ReceiveFrame::Reading { q, before, after, len } => Some(before),
            _ => None,
        }
    }

    /// The card is told of the question in this state.
    pub open spec fn asks_question(self) -> bool {
        self.step() matches StepView::Next { writes, asks } && exists|i: int|
            0 <= i < writes.len() && tells_of_tx(#[trigger] writes[i])
    }
}

/// The card is told to look at the transmit queue.
pub open spec fn tells_of_tx(op: Op) -> bool {
    op matches Op::Out16(port, queue) && queue == TX_QUEUE_INDEX
}

proof fn question_is_told_in_one_state(s: ReceiveFrame)
    ensures
        s.asks_question() ==> s is Notifying,
{
    if s.asks_question() && !(s is Notifying) {
        if let StepView::Next { writes, asks } = s.step() {
            let i = choose|i: int| 0 <= i < writes.len() && tells_of_tx(#[trigger] writes[i]);
            match s {
                ReceiveFrame::Arming { q, mac, avail_idx } => {
                    assert(writes.len() == 3);
                },
                ReceiveFrame::Filling { q, mac, before, buffer } => {
                    let frame = stores(q.phys + buffer, no_offload() + arp_request(mac@));
                    if i < frame.len() {
                        assert(writes[i] == frame[i]);
                    } else {
                        assert(writes[i] == q.tx.ring().describe(1, buffer, REQUEST_LEN, 0)[i
                            - frame.len()]);
                    }
                },
                _ => {},
            }
        }
    }
}

/// Begins to ask for the gateway's address through the transmit queue, and to receive the
/// answer through the receive queue.
pub fn receive_test_frame(tx_info: &TxQueueInfo, rx_info: &RxQueueInfo, phys_offset: u64) -> (r:
    ReceiveFrame)
    requires
        tx_info.wf(),
        rx_info.wf(),
        memory_fits(phys_offset),
    ensures
        r == (ReceiveFrame::Begin {
            q: Queues { tx: *tx_info, rx: *rx_info, phys: phys_offset },
        }),
        r.wf(),
{
    ReceiveFrame::Begin { q: Queues { tx: *tx_info, rx: *rx_info, phys: phys_offset } }
}

/// Where the used ring was is known before the card is told of the question, and is kept
/// from then on. So an answer is seen however early it comes, even while the card is being
/// told.
pub proof fn baseline_comes_first(s: ReceiveFrame, a: Seq<u64>)
    ensures
        s.asks_question() ==> s.baseline() is Some,
        s.answered(a).asks_question() && !s.asks_question() ==> s.baseline() is Some,
        s.baseline() is Some && s.answered(a).baseline() is Some ==> s.answered(a).baseline()
            == s.baseline(),
{
    question_is_told_in_one_state(s);
    question_is_told_in_one_state(s.answered(a));
}

/// An answer that does not come is not given up before the card was asked for its interrupt,
/// which clears it.
pub proof fn timeout_clears_interrupt(s: ReceiveFrame, a: Seq<u64>)
    requires
        s.answered(a) is TimedOut,
        !(s is TimedOut),
    ensures
        s matches ReceiveFrame::Late { q, before } && s.step() matches StepView::Next { writes, asks }
            && asks[0] == Op::In8((q.tx.io_base + VIRTIO_PCI_ISR) as u16),
{
}

/// While the answer is waited for, a used ring that has moved from where it was before the
/// question ends the wait, however much time has passed.
pub proof fn arrived_answer_is_read(s: ReceiveFrame, a: Seq<u64>)
    requires
        s is Waiting,
        s.step().answered_by(a),
        a[0] != s.baseline()->0,
    ensures
        s.answered(a) is Arrived,
{
}

/// The page frames of a queue are one piece: a frame that does not follow the one before
/// ends the setting up.
pub proof fn frames_are_one_piece(s: InitTx, a: Seq<u64>)
    requires
        s.wf(),
        s is Frames,
        s.step().answered_by(a),
        s->Frames_got > 0,
        a[0] != s->Frames_first + 4096 * s->Frames_got,
    ensures
        s.answered(a) is NotContiguous,
{
}

} // verus!
