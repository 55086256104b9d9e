//! ARP over Ethernet: asking who has an address, and what an answer says.

use crate::bytes::append_bytes;
use vstd::prelude::*;

verus! {

/// The length of an ARP frame: an Ethernet header and the 28 bytes of the question.
pub const ARP_FRAME_LEN: usize = 42;

/// The address that this machine asks with.
pub open spec fn guest_ip() -> Seq<u8> {
    seq![10u8, 0, 2, 15]
}

/// The address that is asked for.
pub open spec fn gateway_ip() -> Seq<u8> {
    seq![10u8, 0, 2, 2]
}

/// The frame that asks everyone who has the gateway's address.
pub open spec fn arp_request(mac: Seq<u8>) -> Seq<u8> {
    seq![0xFFu8, 0xFF, 0xFF, 0xFF, 0xFF, 0xFF] + mac + seq![
        0x08u8,
        0x06,
        0x00,
        0x01,
        0x08,
        0x00,
        6,
        4,
        0x00,
        0x01,
    ] + mac + guest_ip() + seq![0u8, 0, 0, 0, 0, 0] + gateway_ip()
}

pub fn build_arp_request(mac: &[u8; 6]) -> (frame: Vec<u8>)
    ensures
        frame@ == arp_request(mac@),
        frame@.len() == ARP_FRAME_LEN,
{
    let mut frame: Vec<u8> = Vec::new();
    append_bytes(&mut frame, &[0xFF, 0xFF, 0xFF, 0xFF, 0xFF, 0xFF]);
    append_bytes(&mut frame, mac);
    append_bytes(&mut frame, &[0x08, 0x06, 0x00, 0x01, 0x08, 0x00, 6, 4, 0x00, 0x01]);
    append_bytes(&mut frame, mac);
    append_bytes(&mut frame, &[10, 0, 2, 15]);
    append_bytes(&mut frame, &[0, 0, 0, 0, 0, 0]);
    append_bytes(&mut frame, &[10, 0, 2, 2]);
    assert(frame@ =~= arp_request(mac@));
    frame
}

/// A frame that answers such a question: it is ARP, it is an answer, and the sender that
/// it names is the one that sent it.
pub open spec fn answers_arp(eth: Seq<u8>) -> bool {
    &&& eth.len() >= 28
    &&& eth[12] == 0x08
    &&& eth[13] == 0x06
    &&& eth[20] == 0x00
    &&& eth[21] == 0x02
    &&& eth.subrange(22, 28) == eth.subrange(6, 12)
}

pub fn is_arp_reply(eth: &[u8]) -> (r: bool)
    ensures
        r == answers_arp(eth@),
{
    if eth.len() < 28 {
        return false;
    }
    let sender_matches: bool = eth[22] == eth[6] && eth[23] == eth[7] && eth[24] == eth[8]
        && eth[25] == eth[9] && eth[26] == eth[10] && eth[27] == eth[11];
    proof {
        let a = eth@.subrange(22, 28);
        let b = eth@.subrange(6, 12);
        if sender_matches {
            assert(a =~= b);
        }
        if a == b {
            assert(a[0] == eth@[22] && b[0] == eth@[6]);
            assert(a[1] == eth@[23] && b[1] == eth@[7]);
            assert(a[2] == eth@[24] && b[2] == eth@[8]);
            assert(a[3] == eth@[25] && b[3] == eth@[9]);
            assert(a[4] == eth@[26] && b[4] == eth@[10]);
            assert(a[5] == eth@[27] && b[5] == eth@[11]);
        }
    }
    eth[12] == 0x08 && eth[13] == 0x06 && eth[20] == 0x00 && eth[21] == 0x02 && sender_matches
}

/// The address of the sender of an ARP frame.
pub open spec fn sender_ip(eth: Seq<u8>) -> Option<Seq<u8>> {
    if eth.len() >= 32 {
        Some(eth.subrange(28, 32))
    } else {
        None
    }
}

/// A question is not taken for an answer, whoever asks.
pub proof fn request_is_no_reply(mac: Seq<u8>)
    requires
        mac.len() == 6,
    ensures
        !answers_arp(arp_request(mac)),
        sender_ip(arp_request(mac)) == Some(guest_ip()),
{
    assert(arp_request(mac)[21] == 0x01);
    assert(arp_request(mac).subrange(28, 32) =~= guest_ip());
}

/// The first 32 bytes of a frame say whether it is an answer, and whose.
pub proof fn reply_is_in_front(eth: Seq<u8>)
    ensures
        eth.len() > 32 ==> answers_arp(eth) == answers_arp(eth.take(32)),
        eth.len() > 32 ==> sender_ip(eth) == sender_ip(eth.take(32)),
{
    if eth.len() > 32 {
        let e = eth.take(32);
        assert(e.subrange(22, 28) =~= eth.subrange(22, 28));
        assert(e.subrange(6, 12) =~= eth.subrange(6, 12));
        assert(e.subrange(28, 32) =~= eth.subrange(28, 32));
    }
}

} // verus!
