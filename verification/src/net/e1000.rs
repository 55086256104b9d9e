//! The e1000 network card: finding it, reading what it says of itself, and sending a frame
//! through its transmit ring.

use crate::bytes::{append_bytes, le16_bytes, le32_bytes, le64_bytes, to_le16, to_le32, to_le64};
use crate::device::{
    byte_loads, loads, push_stores, read_sixteen, sixteen_at, stores, Op, Step, StepView, PHYS_END,
};
use crate::net::arp::{arp_request, build_arp_request, ARP_FRAME_LEN};
use crate::pci::{
    find_device, first_with, mastering, PciDevice, CONFIG_ADDRESS, CONFIG_DATA, PCI_COMMAND_OFFSET,
};
use vstd::prelude::*;

verus! {

pub const E1000_VENDOR_ID: u16 = 0x8086;

pub const E1000_DEVICE_ID: u16 = 0x100e;

pub const REG_CTRL: u64 = 0x0000;

pub const REG_STATUS: u64 = 0x0008;

pub const REG_RAL0: u64 = 0x5400;

pub const REG_RAH0: u64 = 0x5404;

pub const REG_TCTL: u64 = 0x0400;

pub const REG_TDBAL: u64 = 0x3800;

pub const REG_TDBAH: u64 = 0x3804;

pub const REG_TDLEN: u64 = 0x3808;

pub const REG_TDH: u64 = 0x3810;

pub const REG_TDT: u64 = 0x3818;

pub const REG_TIPG: u64 = 0x0410;

/// The registers of the card end before this offset.
pub const REG_END: u64 = 0x6000;

/// Set Link Up.
pub const CTRL_SLU: u32 = 0x40;

/// The transmitter on, short packets padded, and the recommended collision threshold and
/// full-duplex collision distance.
pub const TCTL_VALUE: u32 = 0x4_00FA;

/// The recommended gaps between packets.
pub const TIPG_DEFAULT: u32 = 0x0060_200A;

/// The last descriptor of a frame.
pub const TXD_CMD_EOP: u8 = 0x01;

/// The card adds the frame check sequence.
pub const TXD_CMD_IFCS: u8 = 0x02;

/// The card says when it is done with the descriptor.
pub const TXD_CMD_RS: u8 = 0x08;

/// The card is done with the descriptor: the low bit of the status.
pub const TXD_STATUS_DD: u8 = 0x01;

/// The transmit ring: eight descriptors of sixteen bytes. Its length has to be a multiple
/// of 128 bytes.
pub const NUM_TX_DESCRIPTORS: u64 = 8;

/// How long to wait for the card, in timer ticks.
pub const TX_PATIENCE: u64 = 90;

/// The card, if it is on the bus.
pub fn find_e1000(devices: &Vec<PciDevice>) -> (r: Option<PciDevice>)
    ensures
        r == first_with(devices@, E1000_VENDOR_ID, E1000_DEVICE_ID),
{
    find_device(devices, E1000_VENDOR_ID, E1000_DEVICE_ID)
}

/// The physical address that a base address register for memory holds.
pub open spec fn memory_base(bar0: u32) -> int {
    bar0 - bar0 % 16
}

/// Where the registers of the card are, given what its base address register holds.
pub fn find_mmio_base(found: Option<PciDevice>, bar0: u32, phys_offset: u64) -> (r: Result<
    (PciDevice, u64),
    &'static str,
>)
    requires
        phys_offset <= u64::MAX - PHYS_END,
    ensures
        match found {
            None => r == Err::<(PciDevice, u64), &'static str>("no e1000 NIC found on bus 0"),
            Some(dev) => if bar0 % 2 == 1 {
                r == Err::<(PciDevice, u64), &'static str>(
                    "e1000 BAR0 is I/O-space - not supported yet",
                )
            } else {
                r == Ok::<(PciDevice, u64), &'static str>(
                    (dev, (phys_offset + memory_base(bar0)) as u64),
                )
            },
        },
{
    match found {
        None => Err("no e1000 NIC found on bus 0"),
        Some(dev) => {
            if bar0 % 2 == 1 {
                return Err("e1000 BAR0 is I/O-space - not supported yet");
            }
            let phys_base: u64 = (bar0 - bar0 % 16) as u64;
            Ok((dev, phys_offset + phys_base))
        },
    }
}

/// The hardware address that the two registers hold: low byte first.
pub open spec fn mac_in(ral0: u32, rah0: u32) -> Seq<u8> {
    le32_bytes(ral0) + le16_bytes((rah0 % 65536) as u16)
}

pub fn read_mac(ral0: u32, rah0: u32) -> (mac: [u8; 6])
    ensures
        mac@ == mac_in(ral0, rah0),
{
    let low: [u8; 4] = to_le32(ral0);
    let high: [u8; 2] = to_le16((rah0 % 65536) as u16);
    let mac: [u8; 6] = [low[0], low[1], low[2], low[3], high[0], high[1]];
    assert(mac@ =~= mac_in(ral0, rah0));
    mac
}

/// What the card says of itself.
#[derive(Debug, Clone, Copy)]
pub struct ProbeInfo {
    pub device: PciDevice,
    pub bar0: u32,
    pub phys_base: u64,
    pub status: u32,
    pub mac: [u8; 6],
    pub mac_valid: bool,
}

/// The registers that are read of a card whose registers start at `mmio_base`: the status,
/// and the two halves of the address.
pub open spec fn probe_reads(mmio_base: u64) -> Seq<Op> {
    seq![
        Op::Load32((mmio_base + REG_STATUS) as u64),
        Op::Load32((mmio_base + REG_RAL0) as u64),
        Op::Load32((mmio_base + REG_RAH0) as u64),
    ]
}

pub fn probe_asks(mmio_base: u64) -> (asks: Vec<Op>)
    requires
        mmio_base <= u64::MAX - REG_END,
    ensures
        asks@ == probe_reads(mmio_base),
{
    let mut asks: Vec<Op> = Vec::new();
    asks.push(Op::Load32(mmio_base + REG_STATUS));
    asks.push(Op::Load32(mmio_base + REG_RAL0));
    asks.push(Op::Load32(mmio_base + REG_RAH0));
    assert(asks@ =~= probe_reads(mmio_base));
    asks
}

/// What the card says of itself, given its base address register and what was read of it.
pub fn probe(device: PciDevice, bar0: u32, status: u32, ral0: u32, rah0: u32) -> (info: ProbeInfo)
    ensures
        info.device == device,
        info.bar0 == bar0,
        info.phys_base == memory_base(bar0),
        info.status == status,
        info.mac@ == mac_in(ral0, rah0),
        info.mac_valid == (rah0 >= 0x8000_0000),
{
    ProbeInfo {
        device,
        bar0,
        phys_base: (bar0 - bar0 % 16) as u64,
        status,
        mac: read_mac(ral0, rah0),
        mac_valid: rah0 >= 0x8000_0000,
    }
}

/// A transmit descriptor: where the frame is, how long it is, and the commands.
pub open spec fn tx_descriptor(addr: u64, length: u16, cmd: u8) -> Seq<u8> {
    le64_bytes(addr) + le16_bytes(length) + seq![0u8, cmd, 0, 0, 0, 0]
}

fn build_tx_descriptor(addr: u64, length: u16, cmd: u8) -> (d: Vec<u8>)
    ensures
        d@ == tx_descriptor(addr, length, cmd),
        d@.len() == 16,
{
    let mut d: Vec<u8> = Vec::new();
    append_bytes(&mut d, &to_le64(addr));
    append_bytes(&mut d, &to_le16(length));
    append_bytes(&mut d, &[0, cmd, 0, 0, 0, 0]);
    assert(d@ =~= tx_descriptor(addr, length, cmd));
    d
}

/// Where in a descriptor its status is.
pub const TXD_STATUS_AT: u64 = 12;

/// How the card and the ring were left when the card was not done in time.
#[derive(Debug, Clone, Copy)]
pub struct TxTimeout {
    pub ring_phys: u64,
    pub tdh: u32,
    pub tdt: u32,
    pub raw_desc: [u8; 16],
}

/// What the answers say of the ring at `ring`.
pub open spec fn tx_timeout(ring: u64, a: Seq<u64>) -> TxTimeout {
    TxTimeout {
        ring_phys: ring,
        tdh: a[0] as u32,
        tdt: a[1] as u32,
        raw_desc: sixteen_at(a, 2),
    }
}

/// How far the sending of a frame is.
#[derive(Debug, Clone, Copy)]
pub enum SendFrame {
    /// The card's commands are asked for.
    Begin { dev: PciDevice, mmio: u64, phys: u64 },
    /// The card may use memory. Its address is asked for, and two page frames: one for the
    /// ring and one for the frame.
    Mastering { dev: PciDevice, mmio: u64, phys: u64, command: u16 },
    /// The frame and the ring are written.
    Filling { mmio: u64, phys: u64, ral0: u32, rah0: u32, ring: u64, buffer: u64 },
    /// The card is told of the ring, and then of the descriptor in it.
    Starting { mmio: u64, phys: u64, ring: u64, ctrl: u32 },
    /// The card is waited for.
    Waiting { mmio: u64, phys: u64, ring: u64, start: u64, waited: bool },
    Sent,
    /// The card was not done in time. How far it came in the ring, where the ring ends for
    /// it, and the descriptor are looked at.
    Late { mmio: u64, phys: u64, ring: u64 },
    TimedOut { seen: TxTimeout },
}

impl SendFrame {
    /// The addresses that the state speaks of are all below the end of the address space.
    pub open spec fn wf(self) -> bool {
        match self {
            SendFrame::Begin { dev, mmio, phys } => mmio <= u64::MAX - REG_END && phys <= u64::MAX
                - PHYS_END,
            SendFrame::Mastering { dev, mmio, phys, command } => mmio <= u64::MAX - REG_END && phys
                <= u64::MAX - PHYS_END,
            SendFrame::Filling { mmio, phys, ral0, rah0, ring, buffer } => mmio <= u64::MAX
                - REG_END && phys <= u64::MAX - PHYS_END && in_frame(ring) && in_frame(buffer),
            SendFrame::Starting { mmio, phys, ring, ctrl } => mmio <= u64::MAX - REG_END && phys
                <= u64::MAX - PHYS_END && in_frame(ring),
            SendFrame::Waiting { mmio, phys, ring, start, waited } => mmio <= u64::MAX - REG_END
                && phys <= u64::MAX - PHYS_END && in_frame(ring),
            SendFrame::Sent => true,
            SendFrame::Late { mmio, phys, ring } => mmio <= u64::MAX - REG_END && phys <= u64::MAX
                - PHYS_END && in_frame(ring),
            SendFrame::TimedOut { seen } => true,
        }
    }

    /// What is done and asked in this state.
    pub open spec fn step(self) -> StepView<Result<(), &'static str>> {
        match self {
            SendFrame::Begin { dev, mmio, phys } => StepView::Next {
                writes: seq![Op::Out32(CONFIG_ADDRESS, dev.at(PCI_COMMAND_OFFSET))],
                asks: seq![Op::In16(CONFIG_DATA)],
            },
            SendFrame::Mastering { dev, mmio, phys, command } => StepView::Next {
                writes: seq![
                    Op::Out32(CONFIG_ADDRESS, dev.at(PCI_COMMAND_OFFSET)),
                    Op::Out16(CONFIG_DATA, mastering(command)),
                ],
                asks: seq![
                    Op::Load32((mmio + REG_RAL0) as u64),
                    Op::Load32((mmio + REG_RAH0) as u64),
                    Op::AllocateFrame,
                    Op::AllocateFrame,
                ],
            },
            SendFrame::Filling { mmio, phys, ral0, rah0, ring, buffer } => StepView::Next {
                writes: stores(phys + buffer, arp_request(mac_in(ral0, rah0))) + seq![
                    Op::Zero((phys + ring) as u64, 128),
                ] + stores(phys + ring, tx_descriptor(buffer, ARP_FRAME_LEN as u16, 0x0B)),
                asks: seq![Op::Load32((mmio + REG_CTRL) as u64)],
            },
            SendFrame::Starting { mmio, phys, ring, ctrl } => StepView::Next {
                writes: seq![
                    Op::Store32((mmio + REG_CTRL) as u64, ctrl | CTRL_SLU),
                    Op::Store32((mmio + REG_TDBAL) as u64, (ring % 0x1_0000_0000) as u32),
                    Op::Store32((mmio + REG_TDBAH) as u64, (ring / 0x1_0000_0000) as u32),
                    Op::Store32((mmio + REG_TDLEN) as u64, 128),
                    Op::Store32((mmio + REG_TDH) as u64, 0),
                    Op::Store32((mmio + REG_TDT) as u64, 0),
                    Op::Store32((mmio + REG_TIPG) as u64, TIPG_DEFAULT),
                    Op::Store32((mmio + REG_TCTL) as u64, TCTL_VALUE),
                    Op::Store32((mmio + REG_TDT) as u64, 1),
                ],
                asks: seq![Op::Ticks],
            },
            SendFrame::Waiting { mmio, phys, ring, start, waited } => StepView::Next {
                writes: if waited {
                    seq![Op::Halt]
                } else {
                    Seq::empty()
                },
                asks: seq![Op::Load8((phys + ring + TXD_STATUS_AT) as u64), Op::Ticks],
            },
            SendFrame::Sent => StepView::Done(Ok(())),
            SendFrame::Late { mmio, phys, ring } => StepView::Next {
                writes: Seq::empty(),
                asks: seq![
                    Op::Load32((mmio + REG_TDH) as u64),
                    Op::Load32((mmio + REG_TDT) as u64),
                ] + loads(phys + ring, 16),
            },
            SendFrame::TimedOut { seen } => StepView::Done(
                Err(
                    "e1000 TX: timed out waiting for descriptor DD - hardware dequeued it (TDH advanced) but never confirmed the send; see module doc's known-limitation section",
                ),
            ),
        }
    }

    /// Where the answers lead.
    pub open spec fn answered(self, a: Seq<u64>) -> SendFrame {
        match self {
            SendFrame::Begin { dev, mmio, phys } => SendFrame::Mastering {
                dev,
                mmio,
                phys,
                command: a[0] as u16,
            },
            SendFrame::Mastering { dev, mmio, phys, command } => SendFrame::Filling {
                mmio,
                phys,
                ral0: a[0] as u32,
                rah0: a[1] as u32,
                ring: a[2],
                buffer: a[3],
            },
            SendFrame::Filling { mmio, phys, ral0, rah0, ring, buffer } => SendFrame::Starting {
                mmio,
                phys,
                ring,
                ctrl: a[0] as u32,
            },
            SendFrame::Starting { mmio, phys, ring, ctrl } => SendFrame::Waiting {
                mmio,
                phys,
                ring,
                start: a[0],
                waited: false,
            },
            SendFrame::Waiting { mmio, phys, ring, start, waited } => if a[0] % 2 == 1 {
                SendFrame::Sent
            } else if a[1] > start + TX_PATIENCE {
                SendFrame::Late { mmio, phys, ring }
            } else {
                SendFrame::Waiting { mmio, phys, ring, start, waited: true }
            },
            SendFrame::Sent => self,
            SendFrame::Late { mmio, phys, ring } => SendFrame::TimedOut { seen: tx_timeout(ring, a) },
            SendFrame::TimedOut { seen } => self,
        }
    }

    /// What is to be done and asked now, or the end of the conversation.
    #[verifier::spinoff_prover]
    #[verifier::rlimit(60)]
    pub fn next(&self) -> (s: Step<Result<(), &'static str>>)
        requires
            self.wf(),
        ensures
            s@ == self.step(),
    {
        let mut writes: Vec<Op> = Vec::new();
        let mut asks: Vec<Op> = Vec::new();
        match *self {
            SendFrame::Begin { dev, mmio, phys } => {
                let (select, ask): (Op, Op) = dev.read_command();
                writes.push(select);
                asks.push(ask);
            },
            SendFrame::Mastering { dev, mmio, phys, command } => {
                let (select, write): (Op, Op) = dev.enable_bus_mastering(command);
                writes.push(select);
                writes.push(write);
                asks.push(Op::Load32(mmio + REG_RAL0));
                asks.push(Op::Load32(mmio + REG_RAH0));
                asks.push(Op::AllocateFrame);
                asks.push(Op::AllocateFrame);
            },
            SendFrame::Filling { mmio, phys, ral0, rah0, ring, buffer } => {
                let frame = build_arp_request(&read_mac(ral0, rah0));
                push_stores(&mut writes, phys + buffer, &frame);
                writes.push(Op::Zero(phys + ring, 128));
                push_stores(
                    &mut writes,
                    phys + ring,
                    &build_tx_descriptor(
                        buffer,
                        ARP_FRAME_LEN as u16,
                        TXD_CMD_EOP + TXD_CMD_IFCS + TXD_CMD_RS,
                    ),
                );
                asks.push(Op::Load32(mmio + REG_CTRL));
            },
            SendFrame::Starting { mmio, phys, ring, ctrl } => {
                writes.push(Op::Store32(mmio + REG_CTRL, ctrl | CTRL_SLU));
                writes.push(Op::Store32(mmio + REG_TDBAL, (ring % 0x1_0000_0000) as u32));
                writes.push(Op::Store32(mmio + REG_TDBAH, (ring / 0x1_0000_0000) as u32));
                writes.push(Op::Store32(mmio + REG_TDLEN, (NUM_TX_DESCRIPTORS * 16) as u32));
                writes.push(Op::Store32(mmio + REG_TDH, 0));
                writes.push(Op::Store32(mmio + REG_TDT, 0));
                writes.push(Op::Store32(mmio + REG_TIPG, TIPG_DEFAULT));
                writes.push(Op::Store32(mmio + REG_TCTL, TCTL_VALUE));
                writes.push(Op::Store32(mmio + REG_TDT, 1));
                asks.push(Op::Ticks);
            },
            SendFrame::Waiting { mmio, phys, ring, start, waited } => {
                if waited {
                    writes.push(Op::Halt);
                }
                asks.push(Op::Load8(phys + ring + TXD_STATUS_AT));
                asks.push(Op::Ticks);
            },
            SendFrame::Sent => {
                return Step::Done(Ok(()));
            },
            SendFrame::Late { mmio, phys, ring } => {
                asks.push(Op::Load32(mmio + REG_TDH));
                asks.push(Op::Load32(mmio + REG_TDT));
                asks.append(&mut byte_loads(phys + ring, 16));
            },
            SendFrame::TimedOut { seen } => {
                return Step::Done(
                    Err(
                        "e1000 TX: timed out waiting for descriptor DD - hardware dequeued it (TDH advanced) but never confirmed the send; see module doc's known-limitation section",
                    ),
                );
            },
        }
        proof {
            if let StepView::Next { writes: w, asks: q } = self.step() {
                assert(writes@ =~= w);
                assert(asks@ =~= q);
            }
        }
        Step::Next { writes, asks }
    }

    /// Takes the answers in.
    #[verifier::spinoff_prover]
    #[verifier::rlimit(60)]
    pub fn answer(&self, a: &[u64]) -> (r: SendFrame)
        requires
            self.wf(),
            self.step().answered_by(a@),
        ensures
            r == self.answered(a@),
            r.wf(),
    {
        proof {
            if let StepView::Next { writes, asks } = self.step() {
                assert forall|i: int| 0 <= i < asks.len() implies crate::device::fits(
                    asks[i],
                    #[trigger] a@[i],
                ) by {}
            }
        }
        match *self {
            SendFrame::Begin { dev, mmio, phys } => SendFrame::Mastering {
                dev,
                mmio,
                phys,
                command: a[0] as u16,
            },
            SendFrame::Mastering { dev, mmio, phys, command } => SendFrame::Filling {
                mmio,
                phys,
                ral0: a[0] as u32,
                rah0: a[1] as u32,
                ring: a[2],
                buffer: a[3],
            },
            SendFrame::Filling { mmio, phys, ral0, rah0, ring, buffer } => SendFrame::Starting {
                mmio,
                phys,
                ring,
                ctrl: a[0] as u32,
            },
            SendFrame::Starting { mmio, phys, ring, ctrl } => SendFrame::Waiting {
                mmio,
                phys,
                ring,
                start: a[0],
                waited: false,
            },
            SendFrame::Waiting { mmio, phys, ring, start, waited } => {
                if a[0] % 2 == 1 {
                    SendFrame::Sent
                } else if a[1] > start && a[1] - start > TX_PATIENCE {
                    SendFrame::Late { mmio, phys, ring }
                } else {
                    SendFrame::Waiting { mmio, phys, ring, start, waited: true }
                }
            },
            SendFrame::Sent => SendFrame::Sent,
            SendFrame::Late { mmio, phys, ring } => {
                proof {
                    let asks = self.step()->asks;
                    assert(asks.len() == 18);
                }
                SendFrame::TimedOut {
                    seen: TxTimeout {
                        ring_phys: ring,
                        tdh: a[0] as u32,
                        tdt: a[1] as u32,
                        raw_desc: read_sixteen(a, 2),
                    },
                }
            },
            SendFrame::TimedOut { seen } => SendFrame::TimedOut { seen },
        }
    }
}

/// The address of a page frame.
pub open spec fn in_frame(address: u64) -> bool {
    address % 4096 == 0 && address < PHYS_END
}

/// Begins to send the question for the gateway's address through a card whose registers
/// start at `mmio_base`, where physical memory is seen from `phys_offset` on.
pub fn send_test_frame(dev: PciDevice, mmio_base: u64, phys_offset: u64) -> (r: SendFrame)
    requires
        mmio_base <= u64::MAX - REG_END,
        phys_offset <= u64::MAX - PHYS_END,
    ensures
        r == (SendFrame::Begin { dev, mmio: mmio_base, phys: phys_offset }),
        r.wf(),
{
    SendFrame::Begin { dev, mmio: mmio_base, phys: phys_offset }
}

/// A descriptor that is done ends the wait with success, however late it is seen.
pub proof fn done_is_sent(s: SendFrame, a: Seq<u64>)
    requires
        s is Waiting,
        s.step().answered_by(a),
        a[0] % 2 == 1,
    ensures
        s.answered(a) == SendFrame::Sent,
{
}

/// The card is not told of a descriptor before the frame and the descriptor are written:
/// from the beginning, what is written into the ring comes two states before the register
/// that the card acts on.
pub proof fn ring_is_filled_first(s: SendFrame, a: Seq<u64>)
    requires
        s.answered(a) is Starting,
        !(s is Starting),
    ensures
        s is Filling,
{
}

} // verus!
