//! Ethernet and IPv4 headers, ICMP echo messages, and the checksum that they share with
//! TCP and UDP.

use crate::bytes::{
    append_bytes, be16, be16_bytes, be16_value, copy_into, get_be16, splice, to_be16,
};
use vstd::prelude::*;

verus! {

pub const ETHERNET_HEADER_LEN: usize = 14;

pub const IPV4_HEADER_LEN: usize = 20;

pub const ICMP_ECHO_HEADER_LEN: usize = 8;

pub const ETHERTYPE_IPV4: u16 = 0x0800;

pub const IP_PROTOCOL_ICMP: u8 = 1;

pub const ICMP_TYPE_ECHO_REPLY: u8 = 0;

pub const ICMP_TYPE_ECHO_REQUEST: u8 = 8;

/// Word `i` of `d`: two bytes, the first the high one. An odd byte at the end is a high
/// byte with a zero behind it.
pub open spec fn word_at(d: Seq<u8>, i: int) -> int {
    256 * d[2 * i] + if 2 * i + 1 < d.len() {
        d[2 * i + 1] as int
    } else {
        0
    }
}

/// The sum of the first `n` words of `d`.
pub open spec fn word_sum(d: Seq<u8>, n: nat) -> int
    decreases n,
{
    if n == 0 {
        0
    } else {
        word_sum(d, (n - 1) as nat) + word_at(d, n - 1)
    }
}

/// The sum of all words of `d`.
pub open spec fn word_total(d: Seq<u8>) -> int {
    word_sum(d, ((d.len() + 1) / 2) as nat)
}

/// A sum brought into 16 bits by adding what is carried out of them back in: the number
/// from 1 to 65535 that it leaves modulo 65535, or 0 for 0.
pub open spec fn folded(sum: int) -> int {
    if sum == 0 {
        0
    } else {
        (sum - 1) % 65535 + 1
    }
}

/// The checksum of `d`: the complement of the folded sum of its words.
pub open spec fn checksum(d: Seq<u8>) -> int {
    65535 - folded(word_total(d))
}

/// `d` with its checksum at offset `at`.
pub open spec fn with_checksum(d: Seq<u8>, at: int) -> Seq<u8> {
    splice(d, at, be16_bytes(checksum(d) as u16))
}

proof fn fold_step(s: int)
    requires
        s >= 65536,
    ensures
        folded(s) == folded(s % 65536 + s / 65536),
        s % 65536 + s / 65536 > 0,
{
    let q = s / 65536;
    let r = s % 65536;
    assert(s == 65536 * q + r);
    assert(s - 1 == 65535 * q + (q + r - 1));
    assert((s - 1) % 65535 == (q + r - 1) % 65535) by (nonlinear_arith)
        requires
            s - 1 == 65535 * q + (q + r - 1),
    ;
}

/// The words of so many bytes add up to no more than this.
pub proof fn word_sum_bounded(d: Seq<u8>, n: nat)
    requires
        n <= (d.len() + 1) / 2,
    ensures
        0 <= word_sum(d, n) <= 65535 * n,
    decreases n,
{
    if n > 0 {
        word_sum_bounded(d, (n - 1) as nat);
    }
}

proof fn word_sum_grows(d: Seq<u8>, m: nat, n: nat)
    requires
        m <= n <= (d.len() + 1) / 2,
    ensures
        word_sum(d, m) <= word_sum(d, n),
    decreases n,
{
    if m < n {
        word_sum_grows(d, m, (n - 1) as nat);
    }
}

/// The checksum that goes into a header.
pub fn internet_checksum(data: &[u8]) -> (r: u16)
    requires
        word_total(data@) <= u32::MAX,
    ensures
        r == checksum(data@),
{
    let mut sum: u32 = 0;
    let mut i: usize = 0;
    let words: usize = data.len() / 2;
    proof {
        word_sum_bounded(data@, ((data@.len() + 1) / 2) as nat);
    }
    while i < words
        invariant
            i <= words,
            words == data.len() / 2,
            sum == word_sum(data@, i as nat),
            word_total(data@) <= u32::MAX,
        decreases words - i,
    {
        proof {
            word_sum_grows(data@, (i + 1) as nat, ((data@.len() + 1) / 2) as nat);
        }
        sum = sum + get_be16(data, 2 * i) as u32;
        i = i + 1;
    }
    if data.len() % 2 == 1 {
        sum = sum + 256 * (data[data.len() - 1] as u32);
    }
    assert(sum == word_total(data@));
    while sum >= 65536
        invariant
            folded(sum as int) == folded(word_total(data@)),
        decreases sum,
    {
        proof {
            fold_step(sum as int);
        }
        sum = sum % 65536 + sum / 65536;
    }
    65535 - sum as u16
}

/// Whether a message that holds its own checksum holds the right one.
pub open spec fn checksum_valid(d: Seq<u8>) -> bool {
    checksum(d) == 0
}

pub fn checksum_is_valid(data: &[u8]) -> (r: bool)
    requires
        word_total(data@) <= u32::MAX,
    ensures
        r == checksum_valid(data@),
{
    internet_checksum(data) == 0
}

proof fn word_sum_replaced(d: Seq<u8>, at: int, x: u16, n: nat)
    requires
        at % 2 == 0,
        0 <= at,
        at + 2 <= d.len(),
        n <= (d.len() + 1) / 2,
    ensures
        word_sum(splice(d, at, be16_bytes(x)), n) == word_sum(d, n) + (if n > at / 2 {
            x - be16(d, at)
        } else {
            0
        }),
    decreases n,
{
    if n > 0 {
        word_sum_replaced(d, at, x, (n - 1) as nat);
        let e = splice(d, at, be16_bytes(x));
        let i = n - 1;
        if i == at / 2 {
            assert(e[2 * i] == be16_bytes(x)[0] && e[2 * i + 1] == be16_bytes(x)[1]);
        } else {
            assert(e[2 * i] == d[2 * i]);
            assert(2 * i + 1 < d.len() ==> e[2 * i + 1] == d[2 * i + 1]);
        }
    }
}

/// Replacing the word at an even offset changes the sum by what the word changes.
pub proof fn word_total_replaced(d: Seq<u8>, at: int, x: u16)
    requires
        at % 2 == 0,
        0 <= at,
        at + 2 <= d.len(),
    ensures
        word_total(splice(d, at, be16_bytes(x))) == word_total(d) + x - be16(d, at),
{
    word_sum_replaced(d, at, x, ((d.len() + 1) / 2) as nat);
}

/// A message whose checksum was computed with zeros in its place, and then put there, is
/// valid.
pub proof fn checksum_verifies(d: Seq<u8>, at: int)
    requires
        at % 2 == 0,
        0 <= at,
        at + 2 <= d.len(),
        be16(d, at) == 0,
    ensures
        checksum_valid(with_checksum(d, at)),
{
    let t = word_total(d);
    word_sum_bounded(d, ((d.len() + 1) / 2) as nat);
    word_total_replaced(d, at, checksum(d) as u16);
    complement_folds(t);
}

/// The same with all ones in the place of a checksum that comes to zero.
pub proof fn folded_sum_verifies(d: Seq<u8>, at: int, x: u16)
    requires
        at % 2 == 0,
        0 <= at,
        at + 2 <= d.len(),
        be16(d, at) == 0,
        x == checksum(d) || (checksum(d) == 0 && x == 0xFFFF),
    ensures
        checksum_valid(splice(d, at, be16_bytes(x))),
{
    word_sum_bounded(d, ((d.len() + 1) / 2) as nat);
    word_total_replaced(d, at, x);
    complement_folds(word_total(d));
}

/// A sum and the complement of its fold come to all ones.
proof fn complement_folds(t: int)
    requires
        t >= 0,
    ensures
        folded(t + 65535 - folded(t)) == 65535,
        folded(t) == 65535 ==> folded(t + 65535) == 65535,
{
    if t > 0 {
        let q = (t - 1) / 65535;
        assert(t - folded(t) == 65535 * q);
        assert((65535 * q + 65534) % 65535 == 65534) by (nonlinear_arith);
    }
}

/// A change of one byte of a valid message is noticed, whatever the byte and the change.
pub proof fn one_byte_change_is_noticed(d: Seq<u8>, at: int, b: u8)
    requires
        checksum_valid(d),
        0 <= at < d.len(),
        b != d[at],
    ensures
        !checksum_valid(d.update(at, b)),
{
    let e = d.update(at, b);
    let n = ((d.len() + 1) / 2) as nat;
    let delta = if at % 2 == 0 {
        256 * (b - d[at])
    } else {
        b - d[at]
    };
    word_sum_updated(d, at, b, n);
    word_sum_bounded(d, n);
    word_sum_bounded(e, n);
    let t = word_total(d);
    assert(word_total(e) == t + delta);
    let q = (t - 1) / 65535;
    assert(t == 65535 * q + 65535);
    assert(-65535 < delta < 65535 && delta != 0);
    if checksum_valid(e) {
        let p = (t + delta - 1) / 65535;
        assert(t + delta == 65535 * p + 65535);
        assert(delta == 65535 * (p - q));
    }
}

proof fn word_sum_updated(d: Seq<u8>, at: int, b: u8, n: nat)
    requires
        0 <= at < d.len(),
        n <= (d.len() + 1) / 2,
    ensures
        word_sum(d.update(at, b), n) == word_sum(d, n) + (if n > at / 2 {
            if at % 2 == 0 {
                256 * (b - d[at])
            } else {
                b - d[at]
            }
        } else {
            0
        }),
    decreases n,
{
    if n > 0 {
        word_sum_updated(d, at, b, (n - 1) as nat);
        let i = n - 1;
        assert(2 * i != at ==> d.update(at, b)[2 * i] == d[2 * i]);
        assert(2 * i + 1 < d.len() && 2 * i + 1 != at ==> d.update(at, b)[2 * i + 1] == d[2 * i
            + 1]);
    }
}

/// What the checksum of TCP and UDP goes over: the addresses, a zero, the protocol, the
/// length, and the segment itself.
pub open spec fn pseudo_message(
    source_ip: Seq<u8>,
    dest_ip: Seq<u8>,
    protocol: u8,
    segment: Seq<u8>,
) -> Seq<u8> {
    source_ip + dest_ip + seq![0u8, protocol] + be16_bytes((segment.len() % 65536) as u16)
        + segment
}

pub fn pseudo_header_checksum(
    source_ip: [u8; 4],
    dest_ip: [u8; 4],
    protocol: u8,
    segment: &[u8],
) -> (r: u16)
    requires
        word_total(pseudo_message(source_ip@, dest_ip@, protocol, segment@)) <= u32::MAX,
    ensures
        r == checksum(pseudo_message(source_ip@, dest_ip@, protocol, segment@)),
{
    let seg_len: u16 = (segment.len() % 65536) as u16;
    let mut buf: Vec<u8> = Vec::new();
    append_bytes(&mut buf, &source_ip);
    append_bytes(&mut buf, &dest_ip);
    buf.push(0);
    buf.push(protocol);
    append_bytes(&mut buf, &to_be16(seg_len));
    append_bytes(&mut buf, segment);
    assert(buf@ =~= pseudo_message(source_ip@, dest_ip@, protocol, segment@));
    internet_checksum(&buf)
}

/// A field of the segment is a field of what the checksum goes over, twelve bytes on.
pub proof fn pseudo_message_spliced(
    source_ip: Seq<u8>,
    dest_ip: Seq<u8>,
    protocol: u8,
    segment: Seq<u8>,
    at: int,
    x: u16,
)
    requires
        source_ip.len() == 4,
        dest_ip.len() == 4,
        0 <= at,
        at + 2 <= segment.len(),
    ensures
        pseudo_message(source_ip, dest_ip, protocol, splice(segment, at, be16_bytes(x)))
            == splice(
            pseudo_message(source_ip, dest_ip, protocol, segment),
            12 + at,
            be16_bytes(x),
        ),
        be16(pseudo_message(source_ip, dest_ip, protocol, segment), 12 + at) == be16(segment, at),
{
    assert(pseudo_message(source_ip, dest_ip, protocol, splice(segment, at, be16_bytes(x)))
        =~= splice(
        pseudo_message(source_ip, dest_ip, protocol, segment),
        12 + at,
        be16_bytes(x),
    ));
}

/// An Ethernet header.
pub open spec fn ethernet_header(dest_mac: Seq<u8>, src_mac: Seq<u8>, ethertype: u16) -> Seq<u8> {
    dest_mac + src_mac + be16_bytes(ethertype)
}

pub fn build_ethernet_header(dest_mac: [u8; 6], src_mac: [u8; 6], ethertype: u16) -> (header:
    [u8; 14])
    ensures
        header@ == ethernet_header(dest_mac@, src_mac@, ethertype),
{
    let mut header: [u8; 14] = [0;14];
    copy_into(&mut header, 0, &dest_mac);
    copy_into(&mut header, 6, &src_mac);
    copy_into(&mut header, 12, &to_be16(ethertype));
    assert(header@ =~= ethernet_header(dest_mac@, src_mac@, ethertype));
    header
}

/// An IPv4 header without options, with zeros for its checksum.
pub open spec fn ipv4_fields(
    identification: u16,
    ttl: u8,
    protocol: u8,
    source: Seq<u8>,
    destination: Seq<u8>,
    payload_len: int,
) -> Seq<u8> {
    seq![0x45u8, 0u8] + be16_bytes(((20 + payload_len) % 65536) as u16) + be16_bytes(identification)
        + seq![0u8, 0u8, ttl, protocol, 0u8, 0u8] + source + destination
}

/// An IPv4 header without options.
pub open spec fn ipv4_header(
    identification: u16,
    ttl: u8,
    protocol: u8,
    source: Seq<u8>,
    destination: Seq<u8>,
    payload_len: int,
) -> Seq<u8> {
    with_checksum(
        ipv4_fields(identification, ttl, protocol, source, destination, payload_len),
        10,
    )
}

/// An IPv4 header in front of `payload_len` bytes. Its checksum is in place.
pub fn build_ipv4_header(
    identification: u16,
    ttl: u8,
    protocol: u8,
    source: [u8; 4],
    destination: [u8; 4],
    payload_len: usize,
) -> (header: [u8; 20])
    requires
        payload_len <= usize::MAX - 20,
    ensures
        header@ == ipv4_header(
            identification,
            ttl,
            protocol,
            source@,
            destination@,
            payload_len as int,
        ),
        checksum_valid(header@),
{
    let ghost fields = ipv4_fields(
        identification,
        ttl,
        protocol,
        source@,
        destination@,
        payload_len as int,
    );
    let total_len: u16 = ((20 + payload_len) % 65536) as u16;
    let mut header: [u8; 20] = [0;20];
    header[0] = 0x45;
    copy_into(&mut header, 2, &to_be16(total_len));
    copy_into(&mut header, 4, &to_be16(identification));
    header[8] = ttl;
    header[9] = protocol;
    copy_into(&mut header, 12, &source);
    copy_into(&mut header, 16, &destination);
    assert(header@ =~= fields);
    proof {
        word_sum_bounded(header@, 10);
        checksum_verifies(fields, 10);
    }
    let sum: u16 = internet_checksum(&header);
    copy_into(&mut header, 10, &to_be16(sum));
    header
}

/// An echo message with zeros for its checksum.
pub open spec fn echo_fields(is_reply: bool, identifier: u16, sequence: u16, data: Seq<u8>) -> Seq<
    u8,
> {
    seq![
        if is_reply {
            ICMP_TYPE_ECHO_REPLY
        } else {
            ICMP_TYPE_ECHO_REQUEST
        },
        0u8,
        0u8,
        0u8,
    ] + be16_bytes(identifier) + be16_bytes(sequence) + data
}

/// An echo message.
pub open spec fn echo_message(
    is_reply: bool,
    identifier: u16,
    sequence: u16,
    data: Seq<u8>,
) -> Seq<u8> {
    with_checksum(echo_fields(is_reply, identifier, sequence, data), 2)
}

/// An echo request or reply. Its checksum, which goes over the data too, is in place.
pub fn build_icmp_echo(is_reply: bool, identifier: u16, sequence: u16, data: &[u8]) -> (message:
    Vec<u8>)
    requires
        word_total(echo_fields(is_reply, identifier, sequence, data@)) <= u32::MAX,
    ensures
        message@ == echo_message(is_reply, identifier, sequence, data@),
        checksum_valid(message@),
{
    let ghost fields = echo_fields(is_reply, identifier, sequence, data@);
    let mut message: Vec<u8> = Vec::new();
    message.push(
        if is_reply {
            ICMP_TYPE_ECHO_REPLY
        } else {
            ICMP_TYPE_ECHO_REQUEST
        },
    );
    message.push(0);
    message.push(0);
    message.push(0);
    append_bytes(&mut message, &to_be16(identifier));
    append_bytes(&mut message, &to_be16(sequence));
    append_bytes(&mut message, data);
    assert(message@ =~= fields);
    let sum: [u8; 2] = to_be16(internet_checksum(&message));
    message.set(2, sum[0]);
    message.set(3, sum[1]);
    assert(message@ =~= with_checksum(fields, 2));
    proof {
        checksum_verifies(fields, 2);
    }
    message
}

/// What an echo message says.
#[derive(Debug, Clone, Copy, PartialEq, Eq, Structural)]
pub struct IcmpEchoInfo {
    pub is_reply: bool,
    pub identifier: u16,
    pub sequence: u16,
}

/// What an echo message says, or what is wrong with it.
pub open spec fn echo_info(m: Seq<u8>) -> Result<IcmpEchoInfo, &'static str> {
    if m.len() < ICMP_ECHO_HEADER_LEN {
        Err("ICMP message shorter than the 8-byte echo header")
    } else if !checksum_valid(m) {
        Err("ICMP checksum mismatch - message is corrupt or not a valid echo message")
    } else if m[0] != ICMP_TYPE_ECHO_REPLY && m[0] != ICMP_TYPE_ECHO_REQUEST {
        Err("not an ICMP echo request/reply (unexpected type)")
    } else {
        Ok(
            IcmpEchoInfo {
                is_reply: m[0] == ICMP_TYPE_ECHO_REPLY,
                identifier: be16_value(m, 4),
                sequence: be16_value(m, 6),
            },
        )
    }
}

pub fn parse_icmp_echo(message: &[u8]) -> (r: Result<IcmpEchoInfo, &'static str>)
    requires
        word_total(message@) <= u32::MAX,
    ensures
        r == echo_info(message@),
{
    if message.len() < ICMP_ECHO_HEADER_LEN {
        return Err("ICMP message shorter than the 8-byte echo header");
    }
    if !checksum_is_valid(message) {
        return Err("ICMP checksum mismatch - message is corrupt or not a valid echo message");
    }
    let is_reply: bool = if message[0] == ICMP_TYPE_ECHO_REPLY {
        true
    } else if message[0] == ICMP_TYPE_ECHO_REQUEST {
        false
    } else {
        return Err("not an ICMP echo request/reply (unexpected type)");
    };
    Ok(
        IcmpEchoInfo {
            is_reply,
            identifier: get_be16(message, 4),
            sequence: get_be16(message, 6),
        },
    )
}

/// An echo message that was built is read back as what it was built from.
pub proof fn echo_round_trip(is_reply: bool, identifier: u16, sequence: u16, data: Seq<u8>)
    ensures
        echo_info(echo_message(is_reply, identifier, sequence, data)) == Ok::<
            IcmpEchoInfo,
            &'static str,
        >((IcmpEchoInfo { is_reply, identifier, sequence })),
        echo_message(is_reply, identifier, sequence, data).skip(8) == data,
{
    let fields = echo_fields(is_reply, identifier, sequence, data);
    let m = echo_message(is_reply, identifier, sequence, data);
    checksum_verifies(fields, 2);
    assert(m[4] == be16_bytes(identifier)[0] && m[5] == be16_bytes(identifier)[1]);
    assert(m[6] == be16_bytes(sequence)[0] && m[7] == be16_bytes(sequence)[1]);
    assert(m.skip(8) =~= data);
}

} // verus!
