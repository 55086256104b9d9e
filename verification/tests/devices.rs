use agentos_kernel::ata;
use agentos_kernel::device::{Op, Step, FRAME_SIZE};
use agentos_kernel::net::{e1000, virtio};
use agentos_kernel::pci::{class_name, config_address, scan_bus0, PciDevice};
use std::collections::HashMap;

fn empty_bus() -> Vec<(u32, u32)> {
    vec![(0xFFFF_FFFF, 0xFFFF_FFFF); 256]
}

fn bus() -> Vec<(u32, u32)> {
    let mut words = empty_bus();
    words[0] = (0x1237_8086, 0x0600_0002);
    words[8] = (0x7000_8086, 0x0601_0000);
    words[9] = (0x7010_8086, 0x0101_8000);
    words[24] = (0x100E_8086, 0x0200_0003);
    words[32] = (0x1000_1AF4, 0x0200_0000);
    words
}

#[test]
fn configuration_addresses() {
    assert_eq!(config_address(0, 0, 0, 0), 0x8000_0000);
    assert_eq!(config_address(1, 3, 2, 0x13), 0x8001_1A10);
    assert_eq!(config_address(255, 31, 7, 255), 0x80FF_FFFC);
}

#[test]
fn the_bus_is_scanned() {
    assert!(scan_bus0(&empty_bus()).is_empty());
    let found = scan_bus0(&bus());
    assert_eq!(found.len(), 5);
    assert_eq!(
        found[2],
        PciDevice {
            bus: 0,
            device: 1,
            function: 1,
            vendor_id: 0x8086,
            device_id: 0x7010,
            class: 1,
            subclass: 1,
            prog_if: 0x80,
        }
    );
    assert_eq!(e1000::find_e1000(&found).map(|d| (d.device, d.function)), Some((3, 0)));
    assert_eq!(virtio::find_virtio_net(&found).map(|d| (d.device, d.function)), Some((4, 0)));
    assert!(e1000::find_e1000(&Vec::new()).is_none());
}

#[test]
fn class_names() {
    let names: [(u8, &str); 9] = [
        (0x00, "Unclassified"),
        (0x01, "Mass Storage"),
        (0x02, "Network"),
        (0x03, "Display"),
        (0x04, "Multimedia"),
        (0x05, "Other"),
        (0x06, "Bridge"),
        (0x0C, "Serial Bus"),
        (0xFF, "Other"),
    ];
    for (class, name) in names {
        assert_eq!(class_name(class), name);
    }
}

#[test]
fn base_addresses() {
    let dev = e1000::find_e1000(&scan_bus0(&bus()));
    assert_eq!(
        e1000::find_mmio_base(None, 0, 0).err(),
        Some("no e1000 NIC found on bus 0")
    );
    assert_eq!(
        e1000::find_mmio_base(dev, 0xC001, 0).err(),
        Some("e1000 BAR0 is I/O-space - not supported yet")
    );
    assert_eq!(
        e1000::find_mmio_base(dev, 0xFEB8_0008, 0x1000_0000).map(|r| r.1),
        Ok(0x1_0EB8_0000)
    );
    let card = virtio::find_virtio_net(&scan_bus0(&bus()));
    assert_eq!(
        virtio::find_io_base(None, 0).err(),
        Some("no virtio-net device found on bus 0")
    );
    assert_eq!(
        virtio::find_io_base(card, 0xFEB8_0000).err(),
        Some("virtio-net BAR0 is memory-space - not supported yet")
    );
    assert_eq!(virtio::find_io_base(card, 0xC041).map(|r| r.1), Ok(0xC040));
}

#[test]
fn bus_mastering_and_base_address_reads() {
    let dev = match e1000::find_e1000(&scan_bus0(&bus())) {
        Some(d) => d,
        None => panic!("not found"),
    };
    assert_eq!(dev.read_bar0(), (Op::Out32(0xCF8, 0x8000_1810), Op::In32(0xCFC)));
    assert_eq!(dev.read_command(), (Op::Out32(0xCF8, 0x8000_1804), Op::In16(0xCFC)));
    assert_eq!(
        dev.enable_bus_mastering(0x0103),
        (Op::Out32(0xCF8, 0x8000_1804), Op::Out16(0xCFC, 0x0107))
    );
}

#[test]
fn what_the_cards_say() {
    let dev = match e1000::find_e1000(&scan_bus0(&bus())) {
        Some(d) => d,
        None => panic!("not found"),
    };
    assert_eq!(
        e1000::probe_asks(0x1000),
        vec![Op::Load32(0x1008), Op::Load32(0x6400), Op::Load32(0x6404)]
    );
    let info = e1000::probe(dev, 0xFEB8_0000, 0x8008_0783, 0x1200_5452, 0x8000_5634);
    assert_eq!(info.mac, [0x52, 0x54, 0x00, 0x12, 0x34, 0x56]);
    assert!(info.mac_valid);
    assert_eq!(info.phys_base, 0xFEB8_0000);
    assert_eq!(info.status, 0x8008_0783);
    assert_eq!(e1000::read_mac(0, 0), [0; 6]);
    let asks = virtio::probe_asks(0xC040);
    assert_eq!(asks.len(), 9);
    assert_eq!(asks[0], Op::In32(0xC040));
    assert_eq!(asks[1], Op::In8(0xC052));
    assert_eq!(asks[2], Op::In8(0xC053));
    assert_eq!(asks[3], Op::In8(0xC054));
    let answers = [0x20, 7, 1, 0x52, 0x54, 0x00, 0x12, 0x34, 0x57];
    let info = virtio::probe(dev, 0xC041, 0xC040, &answers);
    assert!(info.mac_feature_present);
    assert_eq!(info.mac, [0x52, 0x54, 0x00, 0x12, 0x34, 0x57]);
    assert_eq!((info.status, info.isr), (7, 1));
}

/// Ports and memory that remember what was written, and what was done in which order.
struct Machine {
    ports: HashMap<u16, u64>,
    memory: HashMap<u64, u8>,
    next_frame: u64,
    frame_step: u64,
    ticks: u64,
    done: Vec<Op>,
}

impl Machine {
    fn new() -> Machine {
        Machine {
            ports: HashMap::new(),
            memory: HashMap::new(),
            next_frame: 0x10_0000,
            frame_step: FRAME_SIZE,
            ticks: 0,
            done: Vec::new(),
        }
    }

    fn store(&mut self, at: u64, bytes: &[u8]) {
        for (i, b) in bytes.iter().enumerate() {
            self.memory.insert(at + i as u64, *b);
        }
    }

    fn byte(&self, at: u64) -> u64 {
        *self.memory.get(&at).unwrap_or(&0) as u64
    }

    fn load(&self, at: u64, n: u64) -> u64 {
        (0..n).map(|i| self.byte(at + i) << (8 * i)).sum()
    }

    fn write(&mut self, op: Op) {
        self.done.push(op);
        match op {
            Op::Out8(p, v) => {
                self.ports.insert(p, v as u64);
            }
            Op::Out16(p, v) => {
                self.ports.insert(p, v as u64);
            }
            Op::Out32(p, v) => {
                self.ports.insert(p, v as u64);
            }
            Op::Store8(at, v) => self.store(at, &[v]),
            Op::Store16(at, v) => self.store(at, &v.to_le_bytes()),
            Op::Store32(at, v) => self.store(at, &v.to_le_bytes()),
            Op::Store64(at, v) => self.store(at, &v.to_le_bytes()),
            Op::Zero(at, n) => {
                for i in 0..n {
                    self.memory.insert(at + i, 0);
                }
            }
            Op::Halt => self.ticks += 1,
            other => panic!("{:?} is no write", other),
        }
    }

    fn ask(&mut self, op: Op) -> u64 {
        self.done.push(op);
        match op {
            Op::In8(p) => *self.ports.get(&p).unwrap_or(&0) % 0x100,
            Op::In16(p) => *self.ports.get(&p).unwrap_or(&0) % 0x1_0000,
            Op::In32(p) => *self.ports.get(&p).unwrap_or(&0) % 0x1_0000_0000,
            Op::Load8(at) => self.load(at, 1),
            Op::Load16(at) => self.load(at, 2),
            Op::Load32(at) => self.load(at, 4),
            Op::AllocateFrame => {
                let frame = self.next_frame;
                self.next_frame += self.frame_step;
                frame
            }
            Op::Ticks => self.ticks,
            other => panic!("{:?} is no question", other),
        }
    }
}

const PHYS: u64 = 0x1_0000_0000;
const MMIO: u64 = 0x2_0000_0000;

fn device() -> PciDevice {
    scan_bus0(&bus())[3]
}

#[test]
fn the_e1000_sends_a_frame() {
    let mut m = Machine::new();
    m.store(MMIO + 0x5400, &0x1200_5452u32.to_le_bytes());
    m.store(MMIO + 0x5404, &0x8000_5634u32.to_le_bytes());
    m.ports.insert(0xCFC, 0x0003);
    let mut state = e1000::send_test_frame(device(), MMIO, PHYS);
    let result = loop {
        match state.next() {
            Step::Done(r) => break r,
            Step::Next { writes, asks } => {
                for op in writes {
                    m.write(op);
                }
                // The card is done as soon as it has been told of the descriptor.
                if m.load(MMIO + 0x3818, 4) == 1 {
                    let ring = m.load(MMIO + 0x3800, 4) + (m.load(MMIO + 0x3804, 4) << 32);
                    m.memory.insert(PHYS + ring + 12, 1);
                }
                let answers: Vec<u64> = asks.into_iter().map(|op| m.ask(op)).collect();
                state = state.answer(&answers);
            }
        }
    };
    assert_eq!(result, Ok(()));
    assert_eq!(m.ports[&0xCFC], 0x0007);
    let (ring, buffer) = (0x10_0000u64, 0x10_1000u64);
    assert_eq!(m.load(PHYS + ring, 4), buffer);
    assert_eq!(m.load(PHYS + ring + 8, 2), 42);
    assert_eq!(m.load(PHYS + ring + 11, 1), 0x0B);
    assert_eq!(m.load(PHYS + buffer, 6), 0xFFFF_FFFF_FFFF);
    assert_eq!(m.load(PHYS + buffer + 6, 4), 0x1200_5452);
    assert_eq!(m.load(MMIO + 0x3808, 4), 128);
    assert_eq!(m.load(MMIO, 4), 0x40);
    assert_eq!(m.load(MMIO + 0x400, 4), 0x4_00FA);
    assert_eq!(m.load(MMIO + 0x410, 4), 0x0060_200A);
}

#[test]
fn an_e1000_that_does_not_answer_is_given_up() {
    let mut m = Machine::new();
    let mut state = e1000::send_test_frame(device(), MMIO, PHYS);
    let mut last = Vec::new();
    let result = loop {
        match state.next() {
            Step::Done(r) => break r,
            Step::Next { writes, asks } => {
                for op in writes {
                    m.write(op);
                }
                last = asks.clone();
                let answers: Vec<u64> = asks.into_iter().map(|op| m.ask(op)).collect();
                state = state.answer(&answers);
            }
        }
    };
    assert!(matches!(result, Err(e) if e.starts_with("e1000 TX: timed out")));
    assert_eq!(last.len(), 18);
    assert_eq!(last[0], Op::Load32(MMIO + 0x3810));
    assert_eq!(last[1], Op::Load32(MMIO + 0x3818));
    let seen = match state {
        e1000::SendFrame::TimedOut { seen } => seen,
        _ => panic!("it did not time out"),
    };
    assert_eq!((seen.tdh, seen.tdt), (0, 1));
    assert_eq!(m.load(PHYS + seen.ring_phys, 4), u32::from_le_bytes([
        seen.raw_desc[0],
        seen.raw_desc[1],
        seen.raw_desc[2],
        seen.raw_desc[3],
    ]) as u64);
    assert_eq!(seen.raw_desc[11], 0x0B);
    assert_eq!(m.ticks, 91);
}

#[test]
fn queue_sizes() {
    assert_eq!(virtio::vring_size(256, 4096), 10246);
    assert_eq!(virtio::vring_offsets(256, 4096), (0, 4096, 8192));
    assert_eq!(virtio::vring_offsets(1, 4096), (0, 16, 4096));
    assert_eq!(virtio::vring_size(1, 1), 16 + 8 + 6 + 8);
}

const IO: u16 = 0xC040;

fn tx_queue(m: &mut Machine) -> Result<virtio::TxQueueInfo, &'static str> {
    let mut state = virtio::init_tx_queue(device(), IO, PHYS);
    loop {
        match state.next() {
            Step::Done(r) => return r,
            Step::Next { writes, asks } => {
                for op in writes {
                    m.write(op);
                }
                let answers: Vec<u64> = asks.into_iter().map(|op| m.ask(op)).collect();
                state = state.answer(&answers);
            }
        }
    }
}

fn rx_queue(m: &mut Machine, tx: &virtio::TxQueueInfo) -> Result<virtio::RxQueueInfo, &'static str> {
    let mut state = virtio::init_rx_queue(tx, PHYS);
    loop {
        match state.next() {
            Step::Done(r) => return r,
            Step::Next { writes, asks } => {
                for op in writes {
                    m.write(op);
                }
                let answers: Vec<u64> = asks.into_iter().map(|op| m.ask(op)).collect();
                state = state.answer(&answers);
            }
        }
    }
}

fn card() -> Machine {
    let mut m = Machine::new();
    m.ports.insert(IO + 12, 256);
    for (i, b) in [0x52u64, 0x54, 0x00, 0x12, 0x34, 0x57].into_iter().enumerate() {
        m.ports.insert(IO + 20 + i as u16, b);
    }
    m
}

#[test]
fn the_transmit_queue_is_set_up() {
    let mut m = card();
    let info = match tx_queue(&mut m) {
        Ok(info) => info,
        Err(e) => panic!("{}", e),
    };
    assert_eq!(info.queue_num, 256);
    assert_eq!(info.frames_needed, 3);
    assert_eq!(info.pfn, 0x100);
    assert_eq!(info.pfn_readback, 0x100);
    assert_eq!(info.final_status, 7);
    assert_eq!(info.io_base, IO);
    assert_eq!(info.virt_base, PHYS + 0x10_0000);
    let statuses: Vec<u8> = m
        .done
        .iter()
        .filter_map(|op| match op {
            Op::Out8(p, v) if *p == IO + 18 => Some(*v),
            _ => None,
        })
        .collect();
    assert_eq!(statuses, vec![1, 3, 7]);
    assert!(m.done.contains(&Op::Zero(PHYS + 0x10_0000, 3 * 4096)));
}

#[test]
fn queues_that_cannot_be_set_up() {
    let mut m = card();
    m.ports.insert(IO + 12, 0);
    assert_eq!(
        tx_queue(&mut m).err(),
        Some("virtio: TX queue_num read back as 0 - queue not available")
    );
    let mut m = card();
    m.frame_step = 2 * FRAME_SIZE;
    assert_eq!(
        tx_queue(&mut m).err(),
        Some("virtio: frame allocator did not return contiguous frames")
    );
    let mut m = card();
    let info = match tx_queue(&mut m) {
        Ok(info) => info,
        Err(e) => panic!("{}", e),
    };
    m.ports.insert(IO + 12, 0);
    assert_eq!(
        rx_queue(&mut m, &info).err(),
        Some("virtio: RX queue_num read back as 0 - queue not available")
    );
}

#[test]
fn a_frame_is_sent_through_the_transmit_queue() {
    let mut m = card();
    let info = match tx_queue(&mut m) {
        Ok(info) => info,
        Err(e) => panic!("{}", e),
    };
    let base = info.virt_base;
    let mut state = virtio::send_test_frame(&info, IO, PHYS);
    let sent = loop {
        match state.next() {
            Step::Done(r) => break r,
            Step::Next { writes, asks } => {
                for op in writes {
                    m.write(op);
                    if op == Op::Out16(IO + 16, 1) {
                        m.store(base + 8192 + 2, &1u16.to_le_bytes());
                        m.store(base + 8192 + 8, &0u32.to_le_bytes());
                    }
                }
                let answers: Vec<u64> = asks.into_iter().map(|op| m.ask(op)).collect();
                state = state.answer(&answers);
            }
        }
    };
    let sent = match sent {
        Ok(s) => s,
        Err(e) => panic!("{}", e),
    };
    assert_eq!((sent.used_idx_before, sent.used_idx_after), (0, 1));
    assert_eq!((sent.used_elem_id, sent.used_elem_len), (0, 0));
    let buffer = m.load(base, 4);
    assert_eq!(m.load(base + 8, 4), 46);
    assert_eq!(m.load(base + 12, 2), 0);
    assert_eq!(m.load(base + 4096 + 2, 2), 1);
    assert_eq!(m.load(base + 4096 + 4, 2), 0);
    let text: Vec<u8> = (0..22).map(|i| m.byte(PHYS + buffer + 24 + i) as u8).collect();
    assert_eq!(text, b"agentos virtio tx test".to_vec());
    assert_eq!(m.load(PHYS + buffer + 22, 2), 0xB588);
}

#[test]
fn a_card_that_never_sends_is_looked_at_often_enough() {
    let mut m = card();
    let info = match tx_queue(&mut m) {
        Ok(info) => info,
        Err(e) => panic!("{}", e),
    };
    let mut state = virtio::send_test_frame(&info, IO, PHYS);
    let mut looks = 0;
    let sent = loop {
        match state.next() {
            Step::Done(r) => break r,
            Step::Next { writes, asks } => {
                for op in writes {
                    m.write(op);
                }
                let answers: Vec<u64> = asks.into_iter().map(|op| m.ask(op)).collect();
                m.done.clear();
                looks += 1;
                state = state.answer(&answers);
            }
        }
    };
    assert!(matches!(sent, Ok(s) if s.used_idx_before == s.used_idx_after));
    // Four states besides the looks, of which the first is in the state that tells.
    assert_eq!(looks, 1_000_000 + 4);
}

/// Asks for the gateway's address over a card that answers, or does not.
fn ask_gateway(
    answers_at_once: bool,
) -> (Machine, virtio::ReceiveFrame, Result<virtio::RxRecvInfo, &'static str>) {
    let mut m = card();
    let tx = match tx_queue(&mut m) {
        Ok(info) => info,
        Err(e) => panic!("{}", e),
    };
    let rx = match rx_queue(&mut m, &tx) {
        Ok(info) => info,
        Err(e) => panic!("{}", e),
    };
    assert_eq!(rx.desc_flags_readback, 2);
    assert_eq!(rx.avail_idx_after, 1);
    assert_eq!(rx.buf_len, 2048);
    let mut state = virtio::receive_test_frame(&tx, &rx, PHYS);
    let result = loop {
        match state.next() {
            Step::Done(r) => break r,
            Step::Next { writes, asks } => {
                for op in writes {
                    m.write(op);
                    if op == Op::Out16(IO + 16, 1) {
                        // The question is sent, and the answer is there before the write
                        // has come back.
                        m.store(tx.virt_base + 8192 + 2, &1u16.to_le_bytes());
                        if answers_at_once {
                            let mut eth = vec![0u8; 42];
                            let gateway = [0x52, 0x55, 0x0A, 0x00, 0x02, 0x02];
                            eth[6..12].copy_from_slice(&gateway);
                            eth[12] = 0x08;
                            eth[13] = 0x06;
                            eth[21] = 0x02;
                            eth[22..28].copy_from_slice(&gateway);
                            eth[28..32].copy_from_slice(&[10, 0, 2, 2]);
                            m.store(rx.buf_virt + 10, &eth);
                            m.store(rx.virt_base + 8192 + 8, &52u32.to_le_bytes());
                            m.store(rx.virt_base + 8192 + 2, &1u16.to_le_bytes());
                        }
                    }
                }
                let answers: Vec<u64> = asks.into_iter().map(|op| m.ask(op)).collect();
                state = state.answer(&answers);
            }
        }
    };
    (m, state, result)
}

#[test]
fn an_answer_that_comes_at_once_is_received() {
    let (m, _, result) = ask_gateway(true);
    let info = match result {
        Ok(info) => info,
        Err(e) => panic!("{}", e),
    };
    assert_eq!((info.used_idx_before, info.used_idx_after), (0, 1));
    assert_eq!(info.received_len, 52);
    assert!(info.is_arp_reply);
    assert_eq!(info.gateway_ip, Some([10, 0, 2, 2]));
    assert_eq!(m.ticks, 0);
}

#[test]
fn an_answer_that_does_not_come_is_given_up() {
    let (m, end, result) = ask_gateway(false);
    assert_eq!(result.err(), Some("virtio: RX timed out waiting for a received frame"));
    // How the card was left is looked at before the end: the interrupt first.
    let asked = &m.done[m.done.len() - 34..];
    assert_eq!(asked[0], Op::In8(IO + 19));
    assert!(!m.done[..m.done.len() - 34].contains(&Op::In8(IO + 19)));
    let seen = match end {
        virtio::ReceiveFrame::TimedOut { seen } => seen,
        _ => panic!("it did not time out"),
    };
    assert_eq!((seen.used_idx_before, seen.used_idx_after, seen.avail_idx_now), (0, 0, 2));
    // The descriptor: 2048 bytes that the card writes.
    assert_eq!(seen.raw_desc[8..14], [0, 8, 0, 0, 2, 0]);
    assert_eq!(seen.raw_buf_head, [0; 16]);
    assert_eq!(m.ticks, 91);
}

/// A disk of a few sectors behind the ports.
struct Drive {
    sectors: HashMap<u32, [u8; 512]>,
    registers: HashMap<u16, u8>,
    status: u8,
    words: Vec<u16>,
    flushed: bool,
}

impl Drive {
    fn new() -> Drive {
        Drive {
            sectors: HashMap::new(),
            registers: HashMap::new(),
            status: 0x48,
            words: Vec::new(),
            flushed: false,
        }
    }

    fn lba(&self) -> u32 {
        let r = |p: u16| self.registers[&p] as u32;
        r(0x1F3) + (r(0x1F4) << 8) + (r(0x1F5) << 16) + ((r(0x1F6) & 15) << 24)
    }

    fn write(&mut self, op: Op) {
        match op {
            Op::Out8(0x1F7, 0x20) => {
                let sector = *self.sectors.get(&self.lba()).unwrap_or(&[0; 512]);
                self.words = (0..256)
                    .map(|i| sector[2 * i] as u16 + 256 * sector[2 * i + 1] as u16)
                    .collect();
            }
            Op::Out8(0x1F7, 0x30) => self.words.clear(),
            Op::Out8(0x1F7, 0xE7) => {
                let mut sector = [0u8; 512];
                for (i, w) in self.words.iter().enumerate() {
                    sector[2 * i..2 * i + 2].copy_from_slice(&w.to_le_bytes());
                }
                self.sectors.insert(self.lba(), sector);
                self.flushed = true;
            }
            Op::Out8(p, v) => {
                self.registers.insert(p, v);
            }
            Op::Out16(0x1F0, w) => self.words.push(w),
            other => panic!("{:?}", other),
        }
    }

    fn ask(&mut self, op: Op) -> u64 {
        match op {
            Op::In8(0x1F7) => self.status as u64,
            Op::In8(_) => 0,
            Op::In16(0x1F0) => self.words.remove(0) as u64,
            other => panic!("{:?}", other),
        }
    }

    fn read(&mut self, lba: u32) -> Result<[u8; 512], &'static str> {
        let mut state = ata::read_sector(lba);
        loop {
            match state.next() {
                Step::Done(r) => return r,
                Step::Next { writes, asks } => {
                    for op in writes {
                        self.write(op);
                    }
                    let answers: Vec<u64> = asks.into_iter().map(|op| self.ask(op)).collect();
                    state = state.answer(&answers);
                }
            }
        }
    }

    fn put(&mut self, lba: u32, sector: &[u8; 512]) -> Result<(), &'static str> {
        let mut state = ata::write_sector(lba, sector);
        loop {
            match state.next() {
                Step::Done(r) => return r,
                Step::Next { writes, asks } => {
                    for op in writes {
                        self.write(op);
                    }
                    let answers: Vec<u64> = asks.into_iter().map(|op| self.ask(op)).collect();
                    state = state.answer(&answers);
                }
            }
        }
    }
}

#[test]
fn sectors_are_written_and_read() {
    let mut drive = Drive::new();
    let mut sector = [0xA5u8; 512];
    sector[0] = 1;
    sector[511] = 2;
    assert_eq!(drive.put(0x0ABC_DEF1, &sector), Ok(()));
    assert!(drive.flushed);
    assert_eq!(drive.sectors[&0x0ABC_DEF1], sector);
    assert_eq!(drive.registers[&0x1F6], 0xEA);
    assert_eq!(drive.registers[&0x1F2], 1);
    assert_eq!(drive.read(0x0ABC_DEF1), Ok(sector));
    assert_eq!(drive.read(5), Ok([0; 512]));
}

#[test]
fn a_drive_with_an_error() {
    let mut drive = Drive::new();
    drive.status = 0x49;
    assert_eq!(drive.read(1), Err("ATA read: drive reported an error (ERR bit set)"));
    assert_eq!(
        drive.put(1, &[0; 512]),
        Err("ATA write: drive reported an error (ERR bit set)")
    );
}

#[test]
fn an_error_after_the_transfer() {
    let mut state = ata::write_sector(1, &[0; 512]);
    let result = loop {
        match state.next() {
            Step::Done(r) => break r,
            Step::Next { writes, asks } => {
                let transferred = writes.iter().any(|op| matches!(op, Op::Out16(0x1F0, _)));
                let status = if transferred { 0x01 } else { 0x08 };
                let answers: Vec<u64> = asks.iter().map(|_| status).collect();
                state = state.answer(&answers);
            }
        }
    };
    assert_eq!(
        result,
        Err("ATA write: drive reported an error after transfer (ERR bit set)")
    );
}

#[test]
fn a_drive_that_is_slow() {
    let mut state = ata::read_sector(1);
    let mut n = 0;
    let result = loop {
        match state.next() {
            Step::Done(r) => break r,
            Step::Next { writes: _, asks } => {
                n += 1;
                // Busy for a while, then waiting for data for a while, then ready.
                let status = if n < 100 {
                    0x80
                } else if n < 200 {
                    0x40
                } else {
                    0x48
                };
                let answers: Vec<u64> = asks
                    .iter()
                    .map(|op| if *op == Op::In16(0x1F0) { 0x0201 } else { status })
                    .collect();
                state = state.answer(&answers);
            }
        }
    };
    match result {
        Ok(sector) => assert_eq!(&sector[..4], &[1, 2, 1, 2]),
        Err(e) => panic!("{}", e),
    }
}

#[test]
fn every_wait_of_the_drive_ends() {
    let sector = [7u8; 512];
    let waits = [
        (ata::WriteSector::Busy { sector, left: 3 }, 0x80),
        (ata::WriteSector::Ready { sector, left: 3 }, 0x40),
        (ata::WriteSector::Written { left: 3 }, 0x80),
        (ata::WriteSector::Flushing { left: 3 }, 0x80),
    ];
    for (mut state, status) in waits {
        for _ in 0..3 {
            assert!(matches!(state.next(), Step::Next { .. }));
            state = state.answer(&[status]);
        }
        assert!(matches!(state, ata::WriteSector::TimedOut));
    }
    for (mut state, status) in [
        (ata::ReadSector::Busy { left: 3 }, 0x80),
        (ata::ReadSector::Ready { left: 3 }, 0x40),
    ] {
        for _ in 0..3 {
            assert!(matches!(state.next(), Step::Next { .. }));
            state = state.answer(&[status]);
        }
        assert!(matches!(state, ata::ReadSector::TimedOut));
    }
}
