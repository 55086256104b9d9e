//! Broadcast UDP packets over the stand-in card.

use crate::bytes::append_bytes;
use crate::net::icmp::{
    build_ethernet_header, build_ipv4_header, ethernet_header, ipv4_header, word_sum_bounded,
    word_total, ETHERTYPE_IPV4,
};
use crate::net::udp::{build_udp_header, udp_fields, udp_header, udp_message, IP_PROTOCOL_UDP};
use crate::net::virtio_net::VirtIONetDriver;
use vstd::prelude::*;

verus! {

pub struct NativeNetworkStack;

/// The address that packets come from.
pub open spec fn source_address() -> Seq<u8> {
    seq![192u8, 168, 1, 100]
}

/// The most of a payload that a packet takes.
pub const MAX_PAYLOAD: usize = 90;

/// What of a payload a packet takes.
pub open spec fn taken(payload: Seq<u8>) -> Seq<u8> {
    if payload.len() <= MAX_PAYLOAD {
        payload
    } else {
        payload.take(MAX_PAYLOAD as int)
    }
}

/// The packet for a payload: an Ethernet header to everyone, an IPv4 header, a UDP header,
/// and the payload.
pub open spec fn packet(mac: Seq<u8>, dest_ip: Seq<u8>, payload: Seq<u8>) -> Seq<u8> {
    let p = taken(payload);
    ethernet_header(seq![0xffu8, 0xff, 0xff, 0xff, 0xff, 0xff], mac, ETHERTYPE_IPV4) + ipv4_header(
        1,
        64,
        IP_PROTOCOL_UDP,
        source_address(),
        dest_ip,
        8 + p.len() as int,
    ) + udp_header(source_address(), dest_ip, 49152, 9000, p) + p
}

impl NativeNetworkStack {
    /// Makes the packet for a payload and hands it to the card, which is made ready first
    /// if it is not. The packet.
    pub fn send_ipv4_packet(driver: &mut VirtIONetDriver, dest_ip: [u8; 4], payload: &[u8]) -> (r:
        Vec<u8>)
        requires
            old(driver).tx_packets_count < usize::MAX,
        ensures
            r@ == packet(old(driver).mac_address@, dest_ip@, payload@),
            *final(driver) == (VirtIONetDriver {
                is_initialized: true,
                tx_packets_count: (old(driver).tx_packets_count + 1) as usize,
                ..*old(driver)
            }),
    {
        if !driver.is_initialized {
            driver.init();
        }
        let source_ip: [u8; 4] = [192, 168, 1, 100];
        assert(source_ip@ =~= source_address());
        let taken_len: usize = if payload.len() <= MAX_PAYLOAD {
            payload.len()
        } else {
            MAX_PAYLOAD
        };
        let p = vstd::slice::slice_subrange(payload, 0, taken_len);
        assert(p@ =~= taken(payload@));
        let everyone: [u8; 6] = [0xff, 0xff, 0xff, 0xff, 0xff, 0xff];
        assert(everyone@ =~= seq![0xffu8, 0xff, 0xff, 0xff, 0xff, 0xff]);
        let eth: [u8; 14] = build_ethernet_header(everyone, driver.mac_address, ETHERTYPE_IPV4);
        proof {
            let m = udp_message(
                source_ip@,
                dest_ip@,
                udp_fields(49152, 9000, p@.len() as int) + p@,
            );
            word_sum_bounded(m, ((m.len() + 1) / 2) as nat);
            assert(word_total(m) <= u32::MAX);
        }
        let udp: [u8; 8] = build_udp_header(source_ip, dest_ip, 49152, 9000, p);
        let ip: [u8; 20] = build_ipv4_header(
            1,
            64,
            IP_PROTOCOL_UDP,
            source_ip,
            dest_ip,
            8 + p.len(),
        );
        let mut buffer: Vec<u8> = Vec::new();
        append_bytes(&mut buffer, &eth);
        append_bytes(&mut buffer, &ip);
        append_bytes(&mut buffer, &udp);
        append_bytes(&mut buffer, p);
        assert(buffer@ =~= packet(old(driver).mac_address@, dest_ip@, payload@));
        driver.transmit_packet(&buffer);
        buffer
    }
}

} // verus!
