//! Where the fields of frames, packets and messages are, byte by byte.

use crate::bytes::{
    be16_bytes, be32_bytes, bytes_stand_for_number, fields_of_four_bytes, fields_of_two_bytes,
    high_first,
};
use crate::net::arp::{answers_arp, arp_request, sender_ip};
use crate::net::dns::{first_address, name_end, query, reply_address};
use crate::net::icmp::{
    checksum, checksum_valid, echo_fields, echo_info, echo_message, ethernet_header, folded,
    ipv4_fields, ipv4_header, pseudo_message, word_at, word_sum, word_sum_bounded, word_total,
};
use crate::net::tcp::{tcp_fields, tcp_header, tcp_info, tcp_message, TcpSegmentInfo};
use crate::net::tcpip::{packet, taken};
use crate::net::udp::{
    udp_fields, udp_header, udp_info, udp_message, udp_round_trip, UdpDatagramInfo,
};
use vstd::prelude::*;

verus! {

proof fn sum_of_front(d: Seq<u8>, more: Seq<u8>, n: nat)
    requires
        2 * n <= d.len(),
    ensures
        word_sum(d + more, n) == word_sum(d, n),
    decreases n,
{
    if n > 0 {
        sum_of_front(d, more, (n - 1) as nat);
        let i = n - 1;
        assert((d + more)[2 * i] == d[2 * i] && (d + more)[2 * i + 1] == d[2 * i + 1]);
    }
}

/// Two more bytes add the number that they stand for, the first one the high one, to the sum of the
/// words; one more byte alone counts as a high one.
pub proof fn words_are_added(d: Seq<u8>, high: u8, low: u8)
    requires
        d.len() % 2 == 0,
    ensures
        word_total(Seq::empty()) == 0,
        word_total(d + seq![high, low]) == word_total(d) + high_first(seq![high, low]),
        word_total(d + seq![high]) == word_total(d) + 256 * high,
{
    let n = (d.len() / 2) as nat;
    let two = seq![high, low];
    sum_of_front(d, two, n);
    sum_of_front(d, seq![high], n);
    fields_of_two_bytes(two, 0);
    assert(two.subrange(0, 2) =~= two);
    assert((d + two)[2 * n as int] == high && (d + two)[2 * n as int + 1] == low);
    assert((d + seq![high])[2 * n as int] == high);
    assert((d + two).len() == 2 * n + 2 && (d + seq![high]).len() == 2 * n + 1);
    assert(word_sum(d + two, (n + 1) as nat) == word_sum(d + two, n) + word_at(d + two, n as int));
    assert(word_sum(d + seq![high], (n + 1) as nat) == word_sum(d + seq![high], n) + word_at(
        d + seq![high],
        n as int,
    ));
}

/// A checksum and the sum of the words come to a multiple of 65535, and of the two numbers of
/// 16 bits for which that can hold the checksum is the lower one, unless all bytes are zero.
pub proof fn checksum_completes_the_sum(d: Seq<u8>)
    ensures
        (word_total(d) + checksum(d)) % 65535 == 0,
        0 <= checksum(d) <= 65535,
        checksum(d) == 65535 <==> word_total(d) == 0,
{
    word_sum_bounded(d, ((d.len() + 1) / 2) as nat);
    let t = word_total(d);
    if t > 0 {
        let q = (t - 1) / 65535;
        assert(t - folded(t) == 65535 * q);
        assert((65535 * q + 65535) % 65535 == 0) by (nonlinear_arith);
    }
}

proof fn two_at(s: Seq<u8>, at: int, x: u16)
    requires
        0 <= at,
        at + 2 <= s.len(),
        s.subrange(at, at + 2) == be16_bytes(x),
    ensures
        high_first(s.subrange(at, at + 2)) == x,
{
    bytes_stand_for_number(x, 0, 0);
}

/// An Ethernet header: six bytes of the destination, six of the source, two of the type.
pub proof fn ethernet_layout(dest: Seq<u8>, source: Seq<u8>, kind: u16)
    requires
        dest.len() == 6,
        source.len() == 6,
    ensures
        ({
            let h = ethernet_header(dest, source, kind);
            &&& h.len() == 14
            &&& h.subrange(0, 6) == dest
            &&& h.subrange(6, 12) == source
            &&& high_first(h.subrange(12, 14)) == kind
        }),
{
    let h = ethernet_header(dest, source, kind);
    assert(h.subrange(0, 6) =~= dest);
    assert(h.subrange(6, 12) =~= source);
    assert(h.subrange(12, 14) =~= be16_bytes(kind));
    two_at(h, 12, kind);
}

/// An IPv4 header: version 4 and five words, the length of it and the payload, the number of the
/// packet, no fragments, how far it may go, the protocol, the checksum, and the addresses.
pub proof fn ipv4_layout(
    identification: u16,
    ttl: u8,
    protocol: u8,
    source: Seq<u8>,
    destination: Seq<u8>,
    payload_len: int,
)
    requires
        source.len() == 4,
        destination.len() == 4,
        0 <= payload_len <= 65515,
    ensures
        ({
            let h = ipv4_header(identification, ttl, protocol, source, destination, payload_len);
            &&& h.len() == 20
            &&& h[0] == 0x45
            &&& h[1] == 0
            &&& high_first(h.subrange(2, 4)) == 20 + payload_len
            &&& high_first(h.subrange(4, 6)) == identification
            &&& h[6] == 0
            &&& h[7] == 0
            &&& h[8] == ttl
            &&& h[9] == protocol
            &&& h.subrange(12, 16) == source
            &&& h.subrange(16, 20) == destination
        }),
{
    let f = ipv4_fields(identification, ttl, protocol, source, destination, payload_len);
    let h = ipv4_header(identification, ttl, protocol, source, destination, payload_len);
    assert(f.len() == 20);
    assert(h.subrange(2, 4) =~= be16_bytes((20 + payload_len) as u16));
    assert(h.subrange(4, 6) =~= be16_bytes(identification));
    two_at(h, 2, (20 + payload_len) as u16);
    two_at(h, 4, identification);
    assert(h.subrange(12, 16) =~= source);
    assert(h.subrange(16, 20) =~= destination);
}

/// An echo message: 0 for a reply and 8 for a request, a zero, the checksum, the identifier, the
/// number in its sequence, and the data.
pub proof fn echo_layout(is_reply: bool, identifier: u16, sequence: u16, data: Seq<u8>)
    ensures
        ({
            let m = echo_message(is_reply, identifier, sequence, data);
            &&& m.len() == 8 + data.len()
            &&& m[0] == (if is_reply {
                0u8
            } else {
                8
            })
            &&& m[1] == 0
            &&& high_first(m.subrange(4, 6)) == identifier
            &&& high_first(m.subrange(6, 8)) == sequence
            &&& m.skip(8) == data
        }),
{
    let f = echo_fields(is_reply, identifier, sequence, data);
    let m = echo_message(is_reply, identifier, sequence, data);
    assert(f.len() == 8 + data.len());
    assert(m.subrange(4, 6) =~= be16_bytes(identifier));
    assert(m.subrange(6, 8) =~= be16_bytes(sequence));
    two_at(m, 4, identifier);
    two_at(m, 6, sequence);
    assert(m.skip(8) =~= data);
}

/// A message is taken for an echo message exactly if it has the eight bytes of the header, its words
/// with their checksum come to a multiple of 65535, and its first byte is 0 or 8; and
/// then it is read by the same places, whoever made it.
pub proof fn echo_is_read(m: Seq<u8>)
    ensures
        echo_info(m) is Ok <==> m.len() >= 8 && word_total(m) > 0 && word_total(m) % 65535 == 0 && (
        m[0] == 0 || m[0] == 8),
        echo_info(m) matches Ok(info) ==> {
            &&& info.is_reply == (m[0] == 0)
            &&& info.identifier == high_first(m.subrange(4, 6))
            &&& info.sequence == high_first(m.subrange(6, 8))
        },
{
    valid_is_multiple(m);
    if m.len() >= 8 {
        fields_of_two_bytes(m, 4);
        fields_of_two_bytes(m, 6);
    }
}

/// A message holds its right checksum if its words come to a multiple of 65535 other than zero.
pub proof fn valid_is_multiple(d: Seq<u8>)
    ensures
        checksum_valid(d) <==> word_total(d) > 0 && word_total(d) % 65535 == 0,
{
    word_sum_bounded(d, ((d.len() + 1) / 2) as nat);
    let t = word_total(d);
    if t > 0 {
        let q = (t - 1) / 65535;
        let r = (t - 1) % 65535;
        assert(t - 1 == 65535 * q + r);
        if t % 65535 == 0 {
            let p = t / 65535;
            assert(t == 65535 * p);
            assert(65535 * (p - q) == r + 1);
        }
        if r == 65534 {
            assert(t == 65535 * (q + 1));
            assert((65535 * (q + 1)) % 65535 == 0) by (nonlinear_arith);
        }
    }
}

/// What the checksum of TCP and UDP goes over: both addresses, a zero, the protocol, the length, and
/// then the segment.
pub proof fn pseudo_layout(source: Seq<u8>, dest: Seq<u8>, protocol: u8, segment: Seq<u8>)
    requires
        source.len() == 4,
        dest.len() == 4,
        segment.len() < 65536,
    ensures
        ({
            let m = pseudo_message(source, dest, protocol, segment);
            &&& m.len() == 12 + segment.len()
            &&& m.subrange(0, 4) == source
            &&& m.subrange(4, 8) == dest
            &&& m[8] == 0
            &&& m[9] == protocol
            &&& high_first(m.subrange(10, 12)) == segment.len()
            &&& m.skip(12) == segment
        }),
        udp_message(source, dest, segment) == pseudo_message(source, dest, 17, segment),
        tcp_message(source, dest, segment) == pseudo_message(source, dest, 6, segment),
{
    let m = pseudo_message(source, dest, protocol, segment);
    assert(m.subrange(0, 4) =~= source);
    assert(m.subrange(4, 8) =~= dest);
    assert(m.subrange(10, 12) =~= be16_bytes(segment.len() as u16));
    two_at(m, 10, segment.len() as u16);
    assert(m.skip(12) =~= segment);
}

/// A UDP header: the ports, the length of it and the payload, and the checksum.
pub proof fn udp_layout(
    source_ip: Seq<u8>,
    dest_ip: Seq<u8>,
    source_port: u16,
    dest_port: u16,
    payload: Seq<u8>,
)
    requires
        payload.len() <= 65527,
    ensures
        ({
            let h = udp_header(source_ip, dest_ip, source_port, dest_port, payload);
            &&& h.len() == 8
            &&& high_first(h.subrange(0, 2)) == source_port
            &&& high_first(h.subrange(2, 4)) == dest_port
            &&& high_first(h.subrange(4, 6)) == 8 + payload.len()
        }),
{
    let f = udp_fields(source_port, dest_port, payload.len() as int);
    let h = udp_header(source_ip, dest_ip, source_port, dest_port, payload);
    assert(f.len() == 8);
    assert(h.subrange(0, 2) =~= be16_bytes(source_port));
    assert(h.subrange(2, 4) =~= be16_bytes(dest_port));
    assert(h.subrange(4, 6) =~= be16_bytes((8 + payload.len()) as u16));
    two_at(h, 0, source_port);
    two_at(h, 2, dest_port);
    two_at(h, 4, (8 + payload.len()) as u16);
}

/// A datagram is taken exactly if it has a header and its checksum is right or not there, and then it
/// is read by the same places, whoever made it.
pub proof fn udp_is_read(source_ip: Seq<u8>, dest_ip: Seq<u8>, d: Seq<u8>)
    ensures
        udp_info(source_ip, dest_ip, d) is Ok <==> d.len() >= 8 && (high_first(d.subrange(6, 8)) == 0
            || checksum_valid(pseudo_message(source_ip, dest_ip, 17, d))),
        udp_info(source_ip, dest_ip, d) matches Ok(info) ==> {
            &&& info.source_port == high_first(d.subrange(0, 2))
            &&& info.dest_port == high_first(d.subrange(2, 4))
            &&& info.length == high_first(d.subrange(4, 6))
        },
{
    if d.len() >= 8 {
        fields_of_two_bytes(d, 0);
        fields_of_two_bytes(d, 2);
        fields_of_two_bytes(d, 4);
        fields_of_two_bytes(d, 6);
    }
}

/// A TCP header without options: the ports, the two numbers, five words, the flags, the window, the
/// checksum, and nothing urgent.
pub proof fn tcp_layout(source_ip: Seq<u8>, dest_ip: Seq<u8>, info: TcpSegmentInfo, payload: Seq<u8>)
    ensures
        ({
            let h = tcp_header(source_ip, dest_ip, info, payload);
            &&& h.len() == 20
            &&& high_first(h.subrange(0, 2)) == info.source_port
            &&& high_first(h.subrange(2, 4)) == info.dest_port
            &&& high_first(h.subrange(4, 8)) == info.seq_num
            &&& high_first(h.subrange(8, 12)) == info.ack_num
            &&& h[12] == 0x50
            &&& h[13] == info.flags
            &&& high_first(h.subrange(14, 16)) == info.window
            &&& h[18] == 0
            &&& h[19] == 0
        }),
{
    let f = tcp_fields(info);
    let h = tcp_header(source_ip, dest_ip, info, payload);
    assert(f.len() == 20);
    assert(h.subrange(0, 2) =~= be16_bytes(info.source_port));
    assert(h.subrange(2, 4) =~= be16_bytes(info.dest_port));
    assert(h.subrange(4, 8) =~= be32_bytes(info.seq_num));
    assert(h.subrange(8, 12) =~= be32_bytes(info.ack_num));
    assert(h.subrange(14, 16) =~= be16_bytes(info.window));
    two_at(h, 0, info.source_port);
    two_at(h, 2, info.dest_port);
    two_at(h, 14, info.window);
    bytes_stand_for_number(0, info.seq_num, 0);
    bytes_stand_for_number(0, info.ack_num, 0);
}

/// A segment is taken exactly if it has a header, that header has no options, and its checksum is
/// right, and then it is read by the same places, whoever made it.
pub proof fn tcp_is_read(source_ip: Seq<u8>, dest_ip: Seq<u8>, s: Seq<u8>)
    ensures
        tcp_info(source_ip, dest_ip, s) is Ok <==> s.len() >= 20 && 0x50 <= s[12] < 0x60
            && checksum_valid(pseudo_message(source_ip, dest_ip, 6, s)),
        tcp_info(source_ip, dest_ip, s) matches Ok(info) ==> {
            &&& info.source_port == high_first(s.subrange(0, 2))
            &&& info.dest_port == high_first(s.subrange(2, 4))
            &&& info.seq_num == high_first(s.subrange(4, 8))
            &&& info.ack_num == high_first(s.subrange(8, 12))
            &&& info.flags == s[13]
            &&& info.window == high_first(s.subrange(14, 16))
        },
{
    if s.len() >= 20 {
        fields_of_two_bytes(s, 0);
        fields_of_two_bytes(s, 2);
        fields_of_four_bytes(s, 4);
        fields_of_four_bytes(s, 8);
        fields_of_two_bytes(s, 14);
    }
}

/// An ARP frame over Ethernet and IPv4.
pub open spec fn arp_frame(
    eth_dest: Seq<u8>,
    eth_source: Seq<u8>,
    operation: u8,
    sender_mac: Seq<u8>,
    sender: Seq<u8>,
    target_mac: Seq<u8>,
    target: Seq<u8>,
) -> Seq<u8> {
    eth_dest + eth_source + seq![8u8, 6, 0, 1, 8, 0, 6, 4, 0, operation] + sender_mac + sender
        + target_mac + target
}

/// The question goes to everyone, asks with this machine's addresses, and asks for the gateway's.
pub proof fn arp_question_layout(mac: Seq<u8>)
    requires
        mac.len() == 6,
    ensures
        arp_request(mac) == arp_frame(
            Seq::new(6, |i: int| 0xFFu8),
            mac,
            1,
            mac,
            seq![10u8, 0, 2, 15],
            Seq::new(6, |i: int| 0u8),
            seq![10u8, 0, 2, 2],
        ),
{
    assert(arp_request(mac) =~= arp_frame(
        Seq::new(6, |i: int| 0xFFu8),
        mac,
        1,
        mac,
        seq![10u8, 0, 2, 15],
        Seq::new(6, |i: int| 0u8),
        seq![10u8, 0, 2, 2],
    ));
}

/// A frame is taken for an answer exactly if it is one and who it names is who sent it, and the address
/// in it is that of the sender, whatever else it holds.
pub proof fn arp_answer_is_read(
    eth_dest: Seq<u8>,
    eth_source: Seq<u8>,
    operation: u8,
    sender_mac: Seq<u8>,
    sender: Seq<u8>,
    target_mac: Seq<u8>,
    target: Seq<u8>,
)
    requires
        eth_dest.len() == 6,
        eth_source.len() == 6,
        sender_mac.len() == 6,
        sender.len() == 4,
    ensures
        ({
            let f = arp_frame(
                eth_dest,
                eth_source,
                operation,
                sender_mac,
                sender,
                target_mac,
                target,
            );
            &&& answers_arp(f) <==> operation == 2 && sender_mac == eth_source
            &&& sender_ip(f) == Some(sender)
        }),
{
    let f = arp_frame(eth_dest, eth_source, operation, sender_mac, sender, target_mac, target);
    assert(f.subrange(22, 28) =~= sender_mac);
    assert(f.subrange(6, 12) =~= eth_source);
    assert(f.subrange(28, 32) =~= sender);
    assert(f[12] == 8 && f[13] == 6 && f[20] == 0 && f[21] == operation);
}

/// A DNS query: its number, that others are to be asked, one question and nothing else, the labels of
/// the name, and that an address of the internet is asked for.
pub proof fn query_layout(id: u16, name: Seq<u8>)
    ensures
        ({
            let q = query(id, name);
            let labels = crate::net::dns::qname(name).0;
            &&& q.len() == 12 + labels.len() + 4
            &&& high_first(q.subrange(0, 2)) == id
            &&& q.subrange(2, 12) == seq![1u8, 0, 0, 1, 0, 0, 0, 0, 0, 0]
            &&& q.subrange(12, 12 + labels.len() as int) == labels
            &&& q.skip(12 + labels.len() as int) == seq![0u8, 1, 0, 1]
        }),
{
    let q = query(id, name);
    let labels = crate::net::dns::qname(name).0;
    assert(q.subrange(0, 2) =~= be16_bytes(id));
    two_at(q, 0, id);
    assert(q.subrange(2, 12) =~= seq![1u8, 0, 0, 1, 0, 0, 0, 0, 0, 0]);
    assert(q.subrange(12, 12 + labels.len() as int) =~= labels);
    assert(q.skip(12 + labels.len() as int) =~= seq![0u8, 1, 0, 1]);
}

/// A record of a reply behind its name: type, class, time to live, the length of its data, its data.
pub open spec fn record(kind: u16, class: u16, ttl: Seq<u8>, data: Seq<u8>) -> Seq<u8> {
    be16_bytes(kind) + be16_bytes(class) + ttl + be16_bytes(data.len() as u16) + data
}

/// A pointer to a name takes two bytes, and a name that is spelled out takes its labels and a zero.
pub proof fn names_end(before: Seq<u8>, a: u8, b: u8, label: Seq<u8>, rest: Seq<u8>)
    ensures
        a >= 0xC0 ==> name_end(before + seq![a, b] + rest, before.len() as int) == Ok::<
            int,
            &'static str,
        >((before.len() + 2) as int),
        name_end(before + seq![0u8] + rest, before.len() as int) == Ok::<int, &'static str>(
            (before.len() + 1) as int,
        ),
        0 < label.len() <= 63 ==> name_end(
            before + seq![label.len() as u8] + label + rest,
            before.len() as int,
        ) == name_end(
            before + seq![label.len() as u8] + label + rest,
            (before.len() + 1 + label.len()) as int,
        ),
        63 < a < 0xC0 ==> name_end(before + seq![a, b] + rest, before.len() as int) is Err,
{
    let n = before.len() as int;
    assert((before + seq![a, b] + rest)[n] == a);
    assert((before + seq![0u8] + rest)[n] == 0);
    let m = before + seq![label.len() as u8] + label + rest;
    assert(m[n] == label.len() as u8);
}

/// Records of a reply whose names are pointers: those of other types are passed over, whatever their
/// data, and the address of the first one of type 1 is the answer.
pub proof fn addresses_are_found_in_order(
    before: Seq<u8>,
    a: u8,
    b: u8,
    kind: u16,
    class: u16,
    ttl: Seq<u8>,
    data: Seq<u8>,
    rest: Seq<u8>,
    count: nat,
)
    requires
        a >= 0xC0,
        ttl.len() == 4,
        data.len() < 65536,
    ensures
        ({
            let m = before + seq![a, b] + record(kind, class, ttl, data) + rest;
            let next = (before.len() + 12 + data.len()) as int;
            &&& kind == 1 && data.len() == 4 ==> first_address(m, before.len() as int, count + 1)
                == Ok::<Seq<u8>, &'static str>(data)
            &&& kind == 1 && data.len() != 4 ==> first_address(m, before.len() as int, count + 1) is Err
            &&& kind != 1 ==> first_address(m, before.len() as int, count + 1) == first_address(
                m,
                next,
                count,
            )
        }),
{
    let r = record(kind, class, ttl, data);
    let m = before + seq![a, b] + r + rest;
    let n = before.len() as int;
    assert(m =~= before + seq![a, b] + (r + rest));
    names_end(before, a, b, Seq::empty(), r + rest);
    let fixed = n + 2;
    assert(m.subrange(fixed, fixed + 2) =~= be16_bytes(kind));
    assert(m.subrange(fixed + 8, fixed + 10) =~= be16_bytes(data.len() as u16));
    two_at(m, fixed, kind);
    two_at(m, fixed + 8, data.len() as u16);
    fields_of_two_bytes(m, fixed);
    fields_of_two_bytes(m, fixed + 8);
    assert(m.subrange(fixed + 10, fixed + 10 + data.len() as int) =~= data);
}

/// A reply is asked for its records behind the header and the question, as many as its fourth word
/// says; one without any is refused.
pub proof fn records_are_behind_the_question(m: Seq<u8>, question_len: int)
    requires
        m.len() >= 12,
        0 <= question_len,
    ensures
        ({
            let count = high_first(m.subrange(6, 8));
            &&& 0 <= count
            &&& count == 0 ==> reply_address(m, question_len) is Err
            &&& count > 0 ==> reply_address(m, question_len) == first_address(
                m,
                12 + question_len,
                count as nat,
            )
        }),
        first_address(m, 12 + question_len, 0) is Err,
{
    fields_of_two_bytes(m, 6);
}

/// A packet for everyone: an Ethernet header with the card's address, an IPv4 header with the protocol
/// UDP, and a datagram that is taken between the same addresses, from port 49152 to port 9000,
/// with the payload, of which no more than 90 bytes are taken, behind it.
pub proof fn packet_layout(mac: Seq<u8>, dest_ip: Seq<u8>, payload: Seq<u8>)
    requires
        mac.len() == 6,
        dest_ip.len() == 4,
    ensures
        ({
            let p = packet(mac, dest_ip, payload);
            let n = if payload.len() <= 90 {
                payload.len() as int
            } else {
                90
            };
            let source = seq![192u8, 168, 1, 100];
            &&& p.len() == 42 + n
            &&& p.subrange(0, 6) == Seq::new(6, |i: int| 0xFFu8)
            &&& p.subrange(6, 12) == mac
            &&& high_first(p.subrange(12, 14)) == 0x0800
            &&& p[14] == 0x45
            &&& high_first(p.subrange(16, 18)) == 28 + n
            &&& high_first(p.subrange(18, 20)) == 1
            &&& p[22] == 64
            &&& p[23] == 17
            &&& p.subrange(26, 30) == source
            &&& p.subrange(30, 34) == dest_ip
            &&& udp_info(source, dest_ip, p.skip(34)) == Ok::<UdpDatagramInfo, &'static str>(
                (UdpDatagramInfo { source_port: 49152, dest_port: 9000, length: (8 + n) as u16 }),
            )
            &&& p.skip(42) == payload.take(n)
        }),
{
    let p = packet(mac, dest_ip, payload);
    let body = taken(payload);
    let source = seq![192u8, 168, 1, 100];
    assert(source =~= crate::net::tcpip::source_address());
    let everyone = seq![0xffu8, 0xff, 0xff, 0xff, 0xff, 0xff];
    let eth = ethernet_header(everyone, mac, 0x0800);
    let ip = ipv4_header(1, 64, 17, source, dest_ip, 8 + body.len() as int);
    let udp = udp_header(source, dest_ip, 49152, 9000, body);
    ethernet_layout(everyone, mac, 0x0800);
    ipv4_layout(1, 64, 17, source, dest_ip, 8 + body.len() as int);
    udp_layout(source, dest_ip, 49152, 9000, body);
    assert(p == eth + ip + udp + body);
    assert(p.subrange(0, 6) =~= eth.subrange(0, 6));
    assert(everyone =~= Seq::new(6, |i: int| 0xFFu8));
    assert(p.subrange(6, 12) =~= eth.subrange(6, 12));
    assert(p.subrange(12, 14) =~= eth.subrange(12, 14));
    assert(p[14] == ip[0] && p[22] == ip[8] && p[23] == ip[9]);
    assert(p.subrange(16, 18) =~= ip.subrange(2, 4));
    assert(p.subrange(18, 20) =~= ip.subrange(4, 6));
    assert(p.subrange(26, 30) =~= ip.subrange(12, 16));
    assert(p.subrange(30, 34) =~= ip.subrange(16, 20));
    assert(p.skip(34) =~= udp + body);
    udp_round_trip(source, dest_ip, 49152, 9000, body);
    let n = if payload.len() <= 90 {
        payload.len() as int
    } else {
        90
    };
    assert(body =~= payload.take(n));
    assert(p.skip(42) =~= body);
}

} // verus!
