//! A stand-in for a network card: it counts what it is given and sends nothing.

use vstd::prelude::*;

verus! {

pub struct VirtIONetDriver {
    pub mac_address: [u8; 6],
    pub is_initialized: bool,
    pub rx_packets_count: usize,
    pub tx_packets_count: usize,
}

impl VirtIONetDriver {
    pub fn new() -> (driver: VirtIONetDriver)
        ensures
            driver.mac_address@ == seq![0x52u8, 0x54, 0x00, 0x12, 0x34, 0x56],
            !driver.is_initialized,
            driver.rx_packets_count == 0,
            driver.tx_packets_count == 0,
    {
        let driver = VirtIONetDriver {
            mac_address: [0x52, 0x54, 0x00, 0x12, 0x34, 0x56],
            is_initialized: false,
            rx_packets_count: 0,
            tx_packets_count: 0,
        };
        assert(driver.mac_address@ =~= seq![0x52u8, 0x54, 0x00, 0x12, 0x34, 0x56]);
        driver
    }

    /// Makes the driver ready.
    pub fn init(&mut self)
        ensures
            *final(self) == (VirtIONetDriver { is_initialized: true, ..*old(self) }),
    {
        self.is_initialized = true;
    }

    /// Counts a packet, if the driver is ready. Whether it is.
    pub fn transmit_packet(&mut self, packet: &[u8]) -> (sent: bool)
        requires
            old(self).is_initialized ==> old(self).tx_packets_count < usize::MAX,
        ensures
            sent == old(self).is_initialized,
            *final(self) == if sent {
                VirtIONetDriver {
                    tx_packets_count: (old(self).tx_packets_count + 1) as usize,
                    ..*old(self)
                }
            } else {
                *old(self)
            },
    {
        if !self.is_initialized {
            return false;
        }
        self.tx_packets_count = self.tx_packets_count + 1;
        true
    }
}

} // verus!
