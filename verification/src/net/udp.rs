//! UDP headers.

use crate::bytes::{
    append_bytes, be16, be16_bytes, copy_into, get_be16, splice, to_be16,
};
use crate::net::icmp::{
    checksum, checksum_valid, folded_sum_verifies, one_byte_change_is_noticed,
    pseudo_header_checksum, pseudo_message, pseudo_message_spliced, word_total,
};
use vstd::prelude::*;

verus! {

pub const UDP_HEADER_LEN: usize = 8;

pub const IP_PROTOCOL_UDP: u8 = 17;

/// What the checksum of a datagram goes over.
pub open spec fn udp_message(source_ip: Seq<u8>, dest_ip: Seq<u8>, datagram: Seq<u8>) -> Seq<u8> {
    pseudo_message(source_ip, dest_ip, IP_PROTOCOL_UDP, datagram)
}

/// The checksum in a datagram is the right one between these two addresses, or zero, which
/// says that the sender did not compute one.
pub open spec fn udp_valid(source_ip: Seq<u8>, dest_ip: Seq<u8>, d: Seq<u8>) -> bool {
    (d.len() >= UDP_HEADER_LEN && be16(d, 6) == 0) || checksum_valid(
        udp_message(source_ip, dest_ip, d),
    )
}

pub fn udp_checksum_is_valid(source_ip: [u8; 4], dest_ip: [u8; 4], datagram: &[u8]) -> (r: bool)
    requires
        word_total(udp_message(source_ip@, dest_ip@, datagram@)) <= u32::MAX,
    ensures
        r == udp_valid(source_ip@, dest_ip@, datagram@),
{
    if datagram.len() >= UDP_HEADER_LEN && datagram[6] == 0 && datagram[7] == 0 {
        return true;
    }
    pseudo_header_checksum(source_ip, dest_ip, IP_PROTOCOL_UDP, datagram) == 0
}

/// A header with zeros for its checksum.
pub open spec fn udp_fields(source_port: u16, dest_port: u16, payload_len: int) -> Seq<u8> {
    be16_bytes(source_port) + be16_bytes(dest_port) + be16_bytes(((8 + payload_len) % 65536) as u16)
        + seq![0u8, 0u8]
}

/// The checksum that is sent: all ones where it comes to zero.
pub open spec fn sent_checksum(x: int) -> u16 {
    if x == 0 {
        0xFFFF
    } else {
        x as u16
    }
}

/// A header in front of `payload`.
pub open spec fn udp_header(
    source_ip: Seq<u8>,
    dest_ip: Seq<u8>,
    source_port: u16,
    dest_port: u16,
    payload: Seq<u8>,
) -> Seq<u8> {
    let fields = udp_fields(source_port, dest_port, payload.len() as int);
    splice(
        fields,
        6,
        be16_bytes(sent_checksum(checksum(udp_message(source_ip, dest_ip, fields + payload)))),
    )
}

/// A header in front of `payload`. Its checksum, which goes over the addresses and the
/// payload too, is in place, and is never zero.
pub fn build_udp_header(
    source_ip: [u8; 4],
    dest_ip: [u8; 4],
    source_port: u16,
    dest_port: u16,
    payload: &[u8],
) -> (header: [u8; 8])
    requires
        payload.len() <= usize::MAX - 8,
        word_total(
            udp_message(
                source_ip@,
                dest_ip@,
                udp_fields(source_port, dest_port, payload.len() as int) + payload@,
            ),
        ) <= u32::MAX,
    ensures
        header@ == udp_header(source_ip@, dest_ip@, source_port, dest_port, payload@),
        be16(header@, 6) != 0,
{
    let ghost fields = udp_fields(source_port, dest_port, payload.len() as int);
    let mut header: [u8; 8] = [0;8];
    copy_into(&mut header, 0, &to_be16(source_port));
    copy_into(&mut header, 2, &to_be16(dest_port));
    let udp_len: u16 = ((8 + payload.len()) % 65536) as u16;
    copy_into(&mut header, 4, &to_be16(udp_len));
    assert(header@ =~= fields);
    let mut datagram: Vec<u8> = Vec::new();
    append_bytes(&mut datagram, &header);
    append_bytes(&mut datagram, payload);
    assert(datagram@ =~= fields + payload@);
    let computed: u16 = pseudo_header_checksum(source_ip, dest_ip, IP_PROTOCOL_UDP, &datagram);
    let sum: u16 = if computed == 0 {
        0xFFFF
    } else {
        computed
    };
    let sum_bytes: [u8; 2] = to_be16(sum);
    copy_into(&mut header, 6, &sum_bytes);
    assert(header@[6] == be16_bytes(sum)[0] && header@[7] == be16_bytes(sum)[1]);
    header
}

/// What a header says.
#[derive(Debug, Clone, Copy, PartialEq, Eq, Structural)]
pub struct UdpDatagramInfo {
    pub source_port: u16,
    pub dest_port: u16,
    pub length: u16,
}

/// What the header of a datagram says, or what is wrong with the datagram.
pub open spec fn udp_info(source_ip: Seq<u8>, dest_ip: Seq<u8>, d: Seq<u8>) -> Result<
    UdpDatagramInfo,
    &'static str,
> {
    if d.len() < UDP_HEADER_LEN {
        Err("UDP datagram shorter than the 8-byte header")
    } else if !udp_valid(source_ip, dest_ip, d) {
        Err("UDP checksum mismatch - datagram is corrupt or IPs don't match")
    } else {
        Ok(
            UdpDatagramInfo {
                source_port: be16(d, 0) as u16,
                dest_port: be16(d, 2) as u16,
                length: be16(d, 4) as u16,
            },
        )
    }
}

/// Reads the header of a datagram, header and payload, between these two addresses.
pub fn parse_udp_datagram(source_ip: [u8; 4], dest_ip: [u8; 4], datagram: &[u8]) -> (r: Result<
    UdpDatagramInfo,
    &'static str,
>)
    requires
        word_total(udp_message(source_ip@, dest_ip@, datagram@)) <= u32::MAX,
    ensures
        r == udp_info(source_ip@, dest_ip@, datagram@),
{
    if datagram.len() < UDP_HEADER_LEN {
        return Err("UDP datagram shorter than the 8-byte header");
    }
    if !udp_checksum_is_valid(source_ip, dest_ip, datagram) {
        return Err("UDP checksum mismatch - datagram is corrupt or IPs don't match");
    }
    Ok(
        UdpDatagramInfo {
            source_port: get_be16(datagram, 0),
            dest_port: get_be16(datagram, 2),
            length: get_be16(datagram, 4),
        },
    )
}

/// A header that was built, in front of the payload it was built for, holds a checksum
/// that is not zero and is right between the same addresses.
pub proof fn udp_build_is_valid(
    source_ip: Seq<u8>,
    dest_ip: Seq<u8>,
    source_port: u16,
    dest_port: u16,
    payload: Seq<u8>,
)
    requires
        source_ip.len() == 4,
        dest_ip.len() == 4,
    ensures
        ({
            let d = udp_header(source_ip, dest_ip, source_port, dest_port, payload) + payload;
            &&& be16(d, 6) != 0
            &&& checksum_valid(udp_message(source_ip, dest_ip, d))
        }),
{
    let fields = udp_fields(source_port, dest_port, payload.len() as int);
    let plain = fields + payload;
    let x = sent_checksum(checksum(udp_message(source_ip, dest_ip, plain)));
    let d = udp_header(source_ip, dest_ip, source_port, dest_port, payload) + payload;
    assert(d =~= splice(plain, 6, be16_bytes(x)));
    assert(d[6] == be16_bytes(x)[0] && d[7] == be16_bytes(x)[1]);
    pseudo_message_spliced(source_ip, dest_ip, IP_PROTOCOL_UDP, plain, 6, x);
    assert(plain[6] == 0 && plain[7] == 0);
    folded_sum_verifies(udp_message(source_ip, dest_ip, plain), 18, x);
}

/// A header that was built, in front of the payload it was built for, is read back
/// between the same addresses as what it was built from.
pub proof fn udp_round_trip(
    source_ip: Seq<u8>,
    dest_ip: Seq<u8>,
    source_port: u16,
    dest_port: u16,
    payload: Seq<u8>,
)
    requires
        source_ip.len() == 4,
        dest_ip.len() == 4,
    ensures
        udp_info(
            source_ip,
            dest_ip,
            udp_header(source_ip, dest_ip, source_port, dest_port, payload) + payload,
        ) == Ok::<UdpDatagramInfo, &'static str>(
            (UdpDatagramInfo {
                source_port,
                dest_port,
                length: ((8 + payload.len()) % 65536) as u16,
            }),
        ),
{
    udp_build_is_valid(source_ip, dest_ip, source_port, dest_port, payload);
    let d = udp_header(source_ip, dest_ip, source_port, dest_port, payload) + payload;
    let len = ((8 + payload.len()) % 65536) as u16;
    assert(d[0] == be16_bytes(source_port)[0] && d[1] == be16_bytes(source_port)[1]);
    assert(d[2] == be16_bytes(dest_port)[0] && d[3] == be16_bytes(dest_port)[1]);
    assert(d[4] == be16_bytes(len)[0] && d[5] == be16_bytes(len)[1]);
    assert(be16(d, 0) == source_port && be16(d, 2) == dest_port && be16(d, 4) == len);
}

/// A change of one byte of a datagram with a checksum, unless it is one of the checksum,
/// makes it one that is not accepted.
pub proof fn udp_change_is_noticed(
    source_ip: Seq<u8>,
    dest_ip: Seq<u8>,
    d: Seq<u8>,
    at: int,
    b: u8,
)
    requires
        source_ip.len() == 4,
        dest_ip.len() == 4,
        udp_info(source_ip, dest_ip, d) is Ok,
        be16(d, 6) != 0,
        0 <= at < d.len(),
        at != 6 && at != 7,
        b != d[at],
    ensures
        udp_info(source_ip, dest_ip, d.update(at, b)) is Err,
{
    let m = udp_message(source_ip, dest_ip, d);
    assert(m[12 + at] == d[at]);
    one_byte_change_is_noticed(m, 12 + at, b);
    assert(udp_message(source_ip, dest_ip, d.update(at, b)) =~= m.update(12 + at, b));
}

} // verus!
