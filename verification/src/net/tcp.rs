//! TCP headers.

use crate::bytes::{
    append_bytes, be16, be16_bytes, be32, be32_bytes, copy_into, get_be16, get_be32,
    le16_round_trip, le32_round_trip, splice, to_be16, to_be32,
};
use crate::net::icmp::{
    checksum, checksum_valid, checksum_verifies, one_byte_change_is_noticed,
    pseudo_header_checksum, pseudo_message, pseudo_message_spliced, word_total,
};
use vstd::prelude::*;

verus! {

/// The length of a header without options.
pub const TCP_HEADER_LEN: usize = 20;

pub const IP_PROTOCOL_TCP: u8 = 6;

pub const TCP_FLAG_FIN: u8 = 0x01;

pub const TCP_FLAG_SYN: u8 = 0x02;

pub const TCP_FLAG_RST: u8 = 0x04;

pub const TCP_FLAG_PSH: u8 = 0x08;

pub const TCP_FLAG_ACK: u8 = 0x10;

pub const TCP_FLAG_URG: u8 = 0x20;

/// What the checksum of a segment goes over.
pub open spec fn tcp_message(source_ip: Seq<u8>, dest_ip: Seq<u8>, segment: Seq<u8>) -> Seq<u8> {
    pseudo_message(source_ip, dest_ip, IP_PROTOCOL_TCP, segment)
}

fn tcp_pseudo_checksum(source_ip: [u8; 4], dest_ip: [u8; 4], segment: &[u8]) -> (r: u16)
    requires
        word_total(tcp_message(source_ip@, dest_ip@, segment@)) <= u32::MAX,
    ensures
        r == checksum(tcp_message(source_ip@, dest_ip@, segment@)),
{
    pseudo_header_checksum(source_ip, dest_ip, IP_PROTOCOL_TCP, segment)
}

/// Whether the checksum in a segment is the right one between these two addresses.
pub fn tcp_checksum_is_valid(source_ip: [u8; 4], dest_ip: [u8; 4], segment: &[u8]) -> (r: bool)
    requires
        word_total(tcp_message(source_ip@, dest_ip@, segment@)) <= u32::MAX,
    ensures
        r == checksum_valid(tcp_message(source_ip@, dest_ip@, segment@)),
{
    tcp_pseudo_checksum(source_ip, dest_ip, segment) == 0
}

/// What a header says.
#[derive(Debug, Clone, Copy, PartialEq, Eq, Structural)]
pub struct TcpSegmentInfo {
    pub source_port: u16,
    pub dest_port: u16,
    pub seq_num: u32,
    pub ack_num: u32,
    pub flags: u8,
    pub window: u16,
}

/// A header without options, with zeros for its checksum and its urgent pointer.
pub open spec fn tcp_fields(info: TcpSegmentInfo) -> Seq<u8> {
    be16_bytes(info.source_port) + be16_bytes(info.dest_port) + be32_bytes(info.seq_num)
        + be32_bytes(info.ack_num) + seq![0x50u8, info.flags] + be16_bytes(info.window) + seq![
        0u8,
        0u8,
        0u8,
        0u8,
    ]
}

/// A header without options in front of `payload`.
pub open spec fn tcp_header(
    source_ip: Seq<u8>,
    dest_ip: Seq<u8>,
    info: TcpSegmentInfo,
    payload: Seq<u8>,
) -> Seq<u8> {
    splice(
        tcp_fields(info),
        16,
        be16_bytes(checksum(tcp_message(source_ip, dest_ip, tcp_fields(info) + payload)) as u16),
    )
}

/// A header in front of `payload`. Its checksum, which goes over the addresses and the
/// payload too, is in place.
pub fn build_tcp_header(
    source_ip: [u8; 4],
    dest_ip: [u8; 4],
    source_port: u16,
    dest_port: u16,
    seq_num: u32,
    ack_num: u32,
    flags: u8,
    window: u16,
    payload: &[u8],
) -> (header: [u8; 20])
    requires
        word_total(
            tcp_message(
                source_ip@,
                dest_ip@,
                tcp_fields(
                    (TcpSegmentInfo { source_port, dest_port, seq_num, ack_num, flags, window }),
                ) + payload@,
            ),
        ) <= u32::MAX,
    ensures
        header@ == tcp_header(
            source_ip@,
            dest_ip@,
            (TcpSegmentInfo { source_port, dest_port, seq_num, ack_num, flags, window }),
            payload@,
        ),
{
    let ghost info = TcpSegmentInfo { source_port, dest_port, seq_num, ack_num, flags, window };
    let mut header: [u8; 20] = [0;20];
    copy_into(&mut header, 0, &to_be16(source_port));
    copy_into(&mut header, 2, &to_be16(dest_port));
    copy_into(&mut header, 4, &to_be32(seq_num));
    copy_into(&mut header, 8, &to_be32(ack_num));
    header[12] = 0x50;
    header[13] = flags;
    copy_into(&mut header, 14, &to_be16(window));
    assert(header@ =~= tcp_fields(info));
    let mut segment: Vec<u8> = Vec::new();
    append_bytes(&mut segment, &header);
    append_bytes(&mut segment, payload);
    assert(segment@ =~= tcp_fields(info) + payload@);
    let sum: u16 = tcp_pseudo_checksum(source_ip, dest_ip, &segment);
    copy_into(&mut header, 16, &to_be16(sum));
    header
}

/// What the header of a segment says.
pub open spec fn tcp_read(s: Seq<u8>) -> TcpSegmentInfo {
    TcpSegmentInfo {
        source_port: be16(s, 0) as u16,
        dest_port: be16(s, 2) as u16,
        seq_num: be32(s, 4) as u32,
        ack_num: be32(s, 8) as u32,
        flags: s[13],
        window: be16(s, 14) as u16,
    }
}

/// What the header of a segment says, or what is wrong with the segment.
pub open spec fn tcp_info(source_ip: Seq<u8>, dest_ip: Seq<u8>, s: Seq<u8>) -> Result<
    TcpSegmentInfo,
    &'static str,
> {
    if s.len() < TCP_HEADER_LEN {
        Err("TCP segment shorter than the 20-byte header")
    } else if s[12] / 16 != 5 {
        Err("TCP header has options (data offset != 5) - unsupported")
    } else if !checksum_valid(tcp_message(source_ip, dest_ip, s)) {
        Err("TCP checksum mismatch - segment is corrupt or IPs don't match")
    } else {
        Ok(tcp_read(s))
    }
}

/// Reads the header of a segment, header and payload, between these two addresses.
pub fn parse_tcp_segment(source_ip: [u8; 4], dest_ip: [u8; 4], segment: &[u8]) -> (r: Result<
    TcpSegmentInfo,
    &'static str,
>)
    requires
        word_total(tcp_message(source_ip@, dest_ip@, segment@)) <= u32::MAX,
    ensures
        r == tcp_info(source_ip@, dest_ip@, segment@),
{
    if segment.len() < TCP_HEADER_LEN {
        return Err("TCP segment shorter than the 20-byte header");
    }
    let data_offset_words: u8 = segment[12] / 16;
    if data_offset_words != 5 {
        return Err("TCP header has options (data offset != 5) - unsupported");
    }
    if !tcp_checksum_is_valid(source_ip, dest_ip, segment) {
        return Err("TCP checksum mismatch - segment is corrupt or IPs don't match");
    }
    Ok(
        TcpSegmentInfo {
            source_port: get_be16(segment, 0),
            dest_port: get_be16(segment, 2),
            seq_num: get_be32(segment, 4),
            ack_num: get_be32(segment, 8),
            flags: segment[13],
            window: get_be16(segment, 14),
        },
    )
}

proof fn tcp_fields_read(info: TcpSegmentInfo, x: u16, payload: Seq<u8>)
    ensures
        tcp_fields(info).len() == 20,
        tcp_read(splice(tcp_fields(info), 16, be16_bytes(x)) + payload) == info,
{
    let f = tcp_fields(info);
    let s = splice(f, 16, be16_bytes(x)) + payload;
    assert(f.len() == 20);
    field16(s, 0, info.source_port);
    field16(s, 2, info.dest_port);
    field32(s, 4, info.seq_num);
    field32(s, 8, info.ack_num);
    assert(s[13] == info.flags);
    field16(s, 14, info.window);
}

proof fn field16(s: Seq<u8>, at: int, x: u16)
    requires
        s[at] == be16_bytes(x)[0],
        s[at + 1] == be16_bytes(x)[1],
    ensures
        be16(s, at) == x,
{
    le16_round_trip(x);
}

proof fn field32(s: Seq<u8>, at: int, x: u32)
    requires
        s[at] == be32_bytes(x)[0],
        s[at + 1] == be32_bytes(x)[1],
        s[at + 2] == be32_bytes(x)[2],
        s[at + 3] == be32_bytes(x)[3],
    ensures
        be32(s, at) == x,
{
    le32_round_trip(x);
}

/// A header that was built, in front of the payload it was built for, is read back
/// between the same addresses as what it was built from.
pub proof fn tcp_round_trip(
    source_ip: Seq<u8>,
    dest_ip: Seq<u8>,
    info: TcpSegmentInfo,
    payload: Seq<u8>,
)
    requires
        source_ip.len() == 4,
        dest_ip.len() == 4,
    ensures
        tcp_info(source_ip, dest_ip, tcp_header(source_ip, dest_ip, info, payload) + payload)
            == Ok::<TcpSegmentInfo, &'static str>(info),
{
    let plain = tcp_fields(info) + payload;
    let x = checksum(tcp_message(source_ip, dest_ip, plain)) as u16;
    let s = tcp_header(source_ip, dest_ip, info, payload) + payload;
    tcp_fields_read(info, x, payload);
    assert(s =~= splice(plain, 16, be16_bytes(x)));
    pseudo_message_spliced(source_ip, dest_ip, IP_PROTOCOL_TCP, plain, 16, x);
    assert(plain[16] == 0 && plain[17] == 0);
    checksum_verifies(tcp_message(source_ip, dest_ip, plain), 28);
    assert(s[12] == 0x50);
}

/// A change of one byte of a segment that is accepted makes it one that is not.
pub proof fn tcp_change_is_noticed(
    source_ip: Seq<u8>,
    dest_ip: Seq<u8>,
    s: Seq<u8>,
    at: int,
    b: u8,
)
    requires
        source_ip.len() == 4,
        dest_ip.len() == 4,
        tcp_info(source_ip, dest_ip, s) is Ok,
        0 <= at < s.len(),
        b != s[at],
    ensures
        tcp_info(source_ip, dest_ip, s.update(at, b)) is Err,
{
    let m = tcp_message(source_ip, dest_ip, s);
    assert(m[12 + at] == s[at]);
    one_byte_change_is_noticed(m, 12 + at, b);
    assert(tcp_message(source_ip, dest_ip, s.update(at, b)) =~= m.update(12 + at, b));
}

/// A segment that is accepted between two addresses is not accepted if one byte of either
/// of them is another one.
pub proof fn tcp_address_is_checked(
    source_ip: Seq<u8>,
    dest_ip: Seq<u8>,
    s: Seq<u8>,
    at: int,
    b: u8,
)
    requires
        source_ip.len() == 4,
        dest_ip.len() == 4,
        tcp_info(source_ip, dest_ip, s) is Ok,
        0 <= at < 4,
    ensures
        b != source_ip[at] ==> tcp_info(source_ip.update(at, b), dest_ip, s) is Err,
        b != dest_ip[at] ==> tcp_info(source_ip, dest_ip.update(at, b), s) is Err,
{
    let m = tcp_message(source_ip, dest_ip, s);
    assert(m[at] == source_ip[at]);
    assert(m[4 + at] == dest_ip[at]);
    if b != source_ip[at] {
        one_byte_change_is_noticed(m, at, b);
        assert(tcp_message(source_ip.update(at, b), dest_ip, s) =~= m.update(at, b));
    }
    if b != dest_ip[at] {
        one_byte_change_is_noticed(m, 4 + at, b);
        assert(tcp_message(source_ip, dest_ip.update(at, b), s) =~= m.update(4 + at, b));
    }
}

/// The flags are the six low bits of their byte, from the end of the sending on.
pub proof fn flags_are_bits(flags: u8)
    ensures
        TCP_FLAG_FIN == 1 && TCP_FLAG_SYN == 2 && TCP_FLAG_RST == 4,
        TCP_FLAG_PSH == 8 && TCP_FLAG_ACK == 16 && TCP_FLAG_URG == 32,
{
}

} // verus!
