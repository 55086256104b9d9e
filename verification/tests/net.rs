use agentos_kernel::net::arp::{build_arp_request, is_arp_reply};
use agentos_kernel::net::dns::{build_query, encode_qname, parse_first_a_record};
use agentos_kernel::net::icmp::{
    build_ethernet_header, build_icmp_echo, build_ipv4_header, checksum_is_valid,
    internet_checksum, parse_icmp_echo, pseudo_header_checksum, IP_PROTOCOL_ICMP,
};
use agentos_kernel::net::tcp::{
    build_tcp_header, parse_tcp_segment, tcp_checksum_is_valid, IP_PROTOCOL_TCP, TCP_FLAG_SYN,
};
use agentos_kernel::net::tcpip::NativeNetworkStack;
use agentos_kernel::net::udp::{
    build_udp_header, parse_udp_datagram, udp_checksum_is_valid, IP_PROTOCOL_UDP,
};
use agentos_kernel::net::virtio_net::VirtIONetDriver;

const SRC_IP: [u8; 4] = [10, 0, 2, 15];
const DST_IP: [u8; 4] = [10, 0, 2, 2];

#[test]
fn checksums() {
    assert_eq!(internet_checksum(&[0x00, 0x01, 0x00, 0x02]), 0xFFFC);
    assert_eq!(internet_checksum(&[0x00, 0x01, 0xFF]), 0x00FE);
    assert_eq!(internet_checksum(&[]), 0xFFFF);
    assert_eq!(internet_checksum(&[0xFF, 0xFF]), 0);
    assert_eq!(internet_checksum(&[0xFF, 0xFF, 0x00, 0x01]), 0xFFFE);
    assert!(checksum_is_valid(&[0x00, 0x01, 0x00, 0x02, 0xFF, 0xFC]));
    assert!(!checksum_is_valid(&[0x00, 0x01, 0x00, 0x02, 0xFF, 0xFD]));
}

#[test]
fn a_long_message_still_sums_up() {
    assert_eq!(internet_checksum(&vec![0xFF; 131074]), 0);
}

#[test]
fn checksums_over_addresses() {
    let sum = pseudo_header_checksum([0, 0, 0, 1], [0, 0, 0, 2], IP_PROTOCOL_TCP, &[0, 1, 0, 2]);
    assert_eq!(sum, 0xFFEF);
}

#[test]
fn ethernet_headers() {
    let h = build_ethernet_header([1, 2, 3, 4, 5, 6], [7, 8, 9, 10, 11, 12], 0x0800);
    assert_eq!(h, [1, 2, 3, 4, 5, 6, 7, 8, 9, 10, 11, 12, 0x08, 0x00]);
}

#[test]
fn ipv4_headers() {
    let h = build_ipv4_header(1, 64, IP_PROTOCOL_ICMP, SRC_IP, DST_IP, 41);
    assert!(checksum_is_valid(&h));
    assert_eq!(&h[..10], &[0x45, 0, 0, 61, 0, 1, 0, 0, 64, 1]);
    assert_eq!(&h[12..], &[10, 0, 2, 15, 10, 0, 2, 2]);
}

const PING: &[u8] = b"AgentOS ping self-test payload!!!";

#[test]
fn echo_messages_round_trip() {
    for is_reply in [false, true] {
        let m = build_icmp_echo(is_reply, 0x1234, 1, PING);
        assert!(checksum_is_valid(&m));
        assert_eq!(&m[8..], PING);
        match parse_icmp_echo(&m) {
            Ok(info) => {
                assert_eq!(info.is_reply, is_reply);
                assert_eq!(info.identifier, 0x1234);
                assert_eq!(info.sequence, 1);
            }
            Err(_) => panic!("refused"),
        }
    }
}

#[test]
fn echo_messages_that_are_refused() {
    let mut m = build_icmp_echo(true, 0x1234, 1, PING);
    let last = m.len() - 1;
    m[last] ^= 0xFF;
    assert_eq!(
        parse_icmp_echo(&m).err(),
        Some("ICMP checksum mismatch - message is corrupt or not a valid echo message")
    );
    assert_eq!(
        parse_icmp_echo(&m[..7]).err(),
        Some("ICMP message shorter than the 8-byte echo header")
    );
    assert_eq!(
        parse_icmp_echo(&[3, 0, 0xFC, 0xFF, 0, 0, 0, 0]).err(),
        Some("not an ICMP echo request/reply (unexpected type)")
    );
}

#[test]
fn every_changed_byte_of_an_echo_message_is_noticed() {
    let m = build_icmp_echo(false, 7, 9, b"abc");
    for at in 0..m.len() {
        for b in 0..=255u8 {
            if b != m[at] {
                let mut changed = m.clone();
                changed[at] = b;
                assert!(!checksum_is_valid(&changed));
            }
        }
    }
}

#[test]
fn tcp_headers_round_trip() {
    let syn = build_tcp_header(
        SRC_IP, DST_IP, 54321, 80, 0x1000_0000, 0, TCP_FLAG_SYN, 65535, &[],
    );
    match parse_tcp_segment(SRC_IP, DST_IP, &syn) {
        Ok(info) => {
            assert_eq!(info.source_port, 54321);
            assert_eq!(info.dest_port, 80);
            assert_eq!(info.seq_num, 0x1000_0000);
            assert_eq!(info.ack_num, 0);
            assert_eq!(info.flags, TCP_FLAG_SYN);
            assert_eq!(info.window, 65535);
        }
        Err(_) => panic!("refused"),
    }
    assert!(tcp_checksum_is_valid(SRC_IP, DST_IP, &syn));
    assert!(!tcp_checksum_is_valid(SRC_IP, [10, 0, 2, 3], &syn));
}

#[test]
fn tcp_segments_that_are_refused() {
    let payload = b"hello";
    let header = build_tcp_header(SRC_IP, DST_IP, 1, 2, 3, 4, 5, 6, payload);
    let mut segment = header.to_vec();
    segment.extend_from_slice(payload);
    assert!(parse_tcp_segment(SRC_IP, DST_IP, &segment).is_ok());
    assert_eq!(
        parse_tcp_segment(SRC_IP, DST_IP, &segment[..19]).err(),
        Some("TCP segment shorter than the 20-byte header")
    );
    let mut changed = segment.clone();
    changed[0] ^= 0xFF;
    assert_eq!(
        parse_tcp_segment(SRC_IP, DST_IP, &changed).err(),
        Some("TCP checksum mismatch - segment is corrupt or IPs don't match")
    );
    segment[12] = 0x60;
    assert_eq!(
        parse_tcp_segment(SRC_IP, DST_IP, &segment).err(),
        Some("TCP header has options (data offset != 5) - unsupported")
    );
}

#[test]
fn udp_headers_round_trip() {
    let payload = b"AgentOS Kernel Online";
    let header = build_udp_header(SRC_IP, DST_IP, 49152, 9000, payload);
    let mut datagram = header.to_vec();
    datagram.extend_from_slice(payload);
    match parse_udp_datagram(SRC_IP, DST_IP, &datagram) {
        Ok(info) => {
            assert_eq!(info.source_port, 49152);
            assert_eq!(info.dest_port, 9000);
            assert_eq!(info.length as usize, 8 + payload.len());
        }
        Err(_) => panic!("refused"),
    }
    datagram[9] ^= 1;
    assert_eq!(
        parse_udp_datagram(SRC_IP, DST_IP, &datagram).err(),
        Some("UDP checksum mismatch - datagram is corrupt or IPs don't match")
    );
    assert_eq!(
        parse_udp_datagram(SRC_IP, DST_IP, &datagram[..7]).err(),
        Some("UDP datagram shorter than the 8-byte header")
    );
    // A sender that did not compute a checksum.
    datagram[6] = 0;
    datagram[7] = 0;
    assert!(udp_checksum_is_valid(SRC_IP, DST_IP, &datagram));
}

#[test]
fn a_udp_checksum_of_zero_is_sent_as_all_ones() {
    // The last two bytes bring the sum to all ones.
    let base = build_udp_header([0; 4], [0; 4], 0, 0, &[0, 0]);
    let missing = u16::from_be_bytes([base[6], base[7]]).to_be_bytes();
    let header = build_udp_header([0; 4], [0; 4], 0, 0, &missing);
    assert_eq!([header[6], header[7]], [0xFF, 0xFF]);
    let mut datagram = header.to_vec();
    datagram.extend_from_slice(&missing);
    assert!(parse_udp_datagram([0; 4], [0; 4], &datagram).is_ok());
}

#[test]
fn packets_over_the_stand_in_card() {
    let mut card = VirtIONetDriver::new();
    assert_eq!(card.mac_address, [0x52, 0x54, 0x00, 0x12, 0x34, 0x56]);
    assert!(!card.transmit_packet(&[1, 2, 3]));
    assert_eq!(card.tx_packets_count, 0);
    let payload = b"AgentOS Kernel Online";
    let packet = NativeNetworkStack::send_ipv4_packet(&mut card, [192, 168, 1, 1], payload);
    assert!(card.is_initialized);
    assert_eq!(card.tx_packets_count, 1);
    assert_eq!(card.rx_packets_count, 0);
    assert_eq!(&packet[0..6], &[0xFF; 6]);
    assert_eq!(&packet[6..12], &card.mac_address);
    assert_eq!(&packet[12..14], &[0x08, 0x00]);
    assert!(checksum_is_valid(&packet[14..34]));
    assert_eq!(packet[23], IP_PROTOCOL_UDP);
    assert!(parse_udp_datagram([192, 168, 1, 100], [192, 168, 1, 1], &packet[34..]).is_ok());
    assert_eq!(&packet[42..], payload);
    let long = NativeNetworkStack::send_ipv4_packet(&mut card, [192, 168, 1, 1], &[7; 200]);
    assert_eq!(long.len(), 14 + 20 + 8 + 90);
    assert!(card.transmit_packet(&[1]));
    assert_eq!(card.tx_packets_count, 3);
}

const QUESTION_LEN: usize = 17;

const REPLY: [u8; 45] = [
    0x12, 0x34, 0x81, 0x80, 0x00, 0x01, 0x00, 0x01, 0x00, 0x00, 0x00, 0x00, 0x07, b'e', b'x', b'a',
    b'm', b'p', b'l', b'e', 0x03, b'c', b'o', b'm', 0x00, 0x00, 0x01, 0x00, 0x01, 0xC0, 0x0C, 0x00,
    0x01, 0x00, 0x01, 0x00, 0x00, 0x02, 0x58, 0x00, 0x04, 192, 0, 2, 1,
];

#[test]
fn an_address_in_a_reply() {
    assert_eq!(parse_first_a_record(&REPLY, QUESTION_LEN), Ok([192, 0, 2, 1]));
}

#[test]
fn replies_that_are_refused() {
    let changed = |at: usize, b: u8| {
        let mut m = REPLY;
        m[at] = b;
        parse_first_a_record(&m, QUESTION_LEN).err()
    };
    assert_eq!(changed(7, 0), Some("DNS response has zero answer records"));
    assert_eq!(changed(32, 5), Some("no answer record is an A record"));
    assert_eq!(changed(31, 5), Some("no answer record is an A record"));
    assert_eq!(
        changed(29, 0x3F),
        Some("DNS message too short to contain an answer record NAME")
    );
    assert_eq!(changed(29, 0x40), Some("answer record NAME holds a malformed label"));
    assert_eq!(changed(40, 5), Some("A record's own RDLENGTH is not 4"));
    let cut = |n: usize| parse_first_a_record(&REPLY[..n], QUESTION_LEN).err();
    assert_eq!(cut(11), Some("DNS message shorter than the 12-byte header"));
    assert_eq!(cut(29), Some("DNS message too short to contain an answer record NAME"));
    assert_eq!(cut(30), Some("DNS message too short to contain an answer record NAME"));
    assert_eq!(
        cut(40),
        Some("DNS message too short to contain the answer record's fixed fields")
    );
    assert_eq!(cut(44), Some("DNS message too short to contain the A record's RDATA"));
    assert_eq!(
        parse_first_a_record(&REPLY, usize::MAX).err(),
        Some("DNS message too short to contain an answer record NAME")
    );
}

#[test]
fn the_address_comes_second() {
    let mut m = REPLY[..29].to_vec();
    m[7] = 2;
    m.extend_from_slice(&[
        0xC0, 0x0C, 0x00, 0x05, 0x00, 0x01, 0x00, 0x00, 0x02, 0x58, 0x00, 0x02, 0xC0, 0x0C,
    ]);
    m.extend_from_slice(&[
        0xC0, 0x0C, 0x00, 0x01, 0x00, 0x01, 0x00, 0x00, 0x02, 0x58, 0x00, 0x04, 192, 0, 2, 42,
    ]);
    assert_eq!(m.len(), 59);
    assert_eq!(parse_first_a_record(&m, QUESTION_LEN), Ok([192, 0, 2, 42]));
}

#[test]
fn the_name_is_spelled_out() {
    let mut m = REPLY[..29].to_vec();
    m.extend_from_slice(&REPLY[12..25]);
    m.extend_from_slice(&[
        0x00, 0x01, 0x00, 0x01, 0x00, 0x00, 0x02, 0x58, 0x00, 0x04, 203, 0, 113, 5,
    ]);
    assert_eq!(m.len(), 56);
    assert_eq!(parse_first_a_record(&m, QUESTION_LEN), Ok([203, 0, 113, 5]));
}

#[test]
fn queries() {
    let mut expected = vec![0x12, 0x34, 0x01, 0x00, 0x00, 0x01, 0, 0, 0, 0, 0, 0];
    expected.extend_from_slice(&REPLY[12..29]);
    assert_eq!(build_query(0x1234, "example.com"), Ok(expected));
    assert_eq!(build_query(0x1234, "").err(), Some("hostname is empty"));
    assert_eq!(
        build_query(0x1234, &"a".repeat(64)).err(),
        Some("hostname label exceeds 63 bytes")
    );
    assert!(build_query(0x1234, &"a".repeat(63)).is_ok());
    for name in ["a..b", ".a", "a."] {
        assert_eq!(
            build_query(0x1234, name).err(),
            Some("hostname has an empty label (leading, trailing, or doubled '.')")
        );
    }
}

#[test]
fn labels_are_appended() {
    let mut out = vec![9];
    assert!(encode_qname("a.bc", &mut out).is_ok());
    assert_eq!(out, vec![9, 1, b'a', 2, b'b', b'c', 0]);
    let mut out = vec![9];
    assert!(encode_qname("a..c", &mut out).is_err());
    assert_eq!(out, vec![9, 1, b'a']);
}

#[test]
fn questions_and_answers_of_arp() {
    let mac = [0x52, 0x54, 0x00, 0x12, 0x34, 0x56];
    let request = build_arp_request(&mac);
    assert_eq!(request.len(), 42);
    assert_eq!(&request[0..6], &[0xFF; 6]);
    assert_eq!(&request[6..12], &mac);
    assert_eq!(&request[12..22], &[0x08, 0x06, 0x00, 0x01, 0x08, 0x00, 6, 4, 0x00, 0x01]);
    assert_eq!(&request[22..28], &mac);
    assert_eq!(&request[28..32], &[10, 0, 2, 15]);
    assert_eq!(&request[38..42], &[10, 0, 2, 2]);
    assert!(!is_arp_reply(&request));
    let mut reply = request;
    reply[21] = 2;
    assert!(is_arp_reply(&reply));
    assert!(!is_arp_reply(&reply[..27]));
    reply[22] ^= 1;
    assert!(!is_arp_reply(&reply));
}
