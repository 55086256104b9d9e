//! DNS messages: a query for the address of a name, and the address in a reply.

use crate::bytes::{append_bytes, be16, be16_bytes, get_be16, to_be16};
use vstd::prelude::*;
use vstd::utf8::encode_utf8;

verus! {

pub const DNS_HEADER_LEN: usize = 12;

pub const DNS_TYPE_A: u16 = 1;

pub const DNS_QCLASS_IN: u16 = 1;

/// The most bytes of a label: its length has six bits.
pub const MAX_LABEL_LEN: usize = 63;

/// Where a NAME at offset `at` ends: labels up to an empty one, or up to a pointer to
/// labels elsewhere, which takes two bytes.
pub open spec fn name_end(m: Seq<u8>, at: int) -> Result<int, &'static str>
    decreases m.len() + MAX_LABEL_LEN + 1 - at,
{
    if at < 0 || at >= m.len() {
        Err("DNS message too short to contain an answer record NAME")
    } else if m[at] == 0 {
        Ok(at + 1)
    } else if m[at] >= 0xC0 {
        if at + 2 > m.len() {
            Err("DNS message too short to contain an answer record NAME")
        } else {
            Ok(at + 2)
        }
    } else if m[at] > MAX_LABEL_LEN {
        Err("answer record NAME holds a malformed label")
    } else {
        name_end(m, at + 1 + m[at])
    }
}

/// The address in the first A record of `count` records from offset `at` on. Records of
/// another type are passed over by their own lengths.
pub open spec fn first_address(m: Seq<u8>, at: int, count: nat) -> Result<Seq<u8>, &'static str>
    decreases count,
{
    if count == 0 {
        Err("no answer record is an A record")
    } else {
        match name_end(m, at) {
            Err(e) => Err(e),
            Ok(fixed) => if m.len() < fixed + 10 {
                Err("DNS message too short to contain the answer record's fixed fields")
            } else if be16(m, fixed) != DNS_TYPE_A {
                first_address(m, fixed + 10 + be16(m, fixed + 8), (count - 1) as nat)
            } else if be16(m, fixed + 8) != 4 {
                Err("A record's own RDLENGTH is not 4")
            } else if m.len() < fixed + 14 {
                Err("DNS message too short to contain the A record's RDATA")
            } else {
                Ok(m.subrange(fixed + 10, fixed + 14))
            },
        }
    }
}

/// The address in the first A record of a reply whose question takes `question_len` bytes.
pub open spec fn reply_address(m: Seq<u8>, question_len: int) -> Result<Seq<u8>, &'static str> {
    if m.len() < DNS_HEADER_LEN {
        Err("DNS message shorter than the 12-byte header")
    } else if be16(m, 6) == 0 {
        Err("DNS response has zero answer records")
    } else {
        first_address(m, DNS_HEADER_LEN + question_len, be16(m, 6) as nat)
    }
}

fn skip_name(message: &[u8], start: usize) -> (r: Result<usize, &'static str>)
    ensures
        match name_end(message@, start as int) {
            Ok(end) => r matches Ok(got) && got == end && start < got <= message.len(),
            Err(e) => r == Err::<usize, &'static str>(e),
        },
{
    let mut at: usize = start;
    while at < message.len()
        invariant
            start <= at,
            name_end(message@, at as int) == name_end(message@, start as int),
        decreases message.len() - at,
    {
        let len: u8 = message[at];
        if len == 0 {
            return Ok(at + 1);
        }
        if len >= 0xC0 {
            if message.len() - at < 2 {
                return Err("DNS message too short to contain an answer record NAME");
            }
            return Ok(at + 2);
        }
        if len > 63 {
            return Err("answer record NAME holds a malformed label");
        }
        if (len as usize) >= message.len() - at {
            assert(name_end(message@, at + 1 + len) is Err);
            return Err("DNS message too short to contain an answer record NAME");
        }
        at = at + 1 + len as usize;
    }
    Err("DNS message too short to contain an answer record NAME")
}

/// Reads the first address out of a reply.
pub fn parse_first_a_record(message: &[u8], question_len: usize) -> (r: Result<
    [u8; 4],
    &'static str,
>)
    ensures
        match reply_address(message@, question_len as int) {
            Ok(ip) => r matches Ok(got) && got@ == ip,
            Err(e) => r == Err::<[u8; 4], &'static str>(e),
        },
{
    if message.len() < DNS_HEADER_LEN {
        return Err("DNS message shorter than the 12-byte header");
    }
    let ancount: u16 = get_be16(message, 6);
    if ancount == 0 {
        return Err("DNS response has zero answer records");
    }
    if question_len >= message.len() - DNS_HEADER_LEN {
        return Err("DNS message too short to contain an answer record NAME");
    }
    let mut at: usize = DNS_HEADER_LEN + question_len;
    let mut left: u16 = ancount;
    while left > 0
        invariant
            at <= message.len(),
            reply_address(message@, question_len as int) == first_address(
                message@,
                at as int,
                left as nat,
            ),
        decreases left,
    {
        let fixed: usize = match skip_name(message, at) {
            Ok(end) => end,
            Err(e) => {
                return Err(e);
            },
        };
        if message.len() - fixed < 10 {
            return Err("DNS message too short to contain the answer record's fixed fields");
        }
        let record_type: u16 = get_be16(message, fixed);
        let rdlength: u16 = get_be16(message, fixed + 8);
        if record_type == DNS_TYPE_A {
            if rdlength != 4 {
                return Err("A record's own RDLENGTH is not 4");
            }
            if message.len() - fixed < 14 {
                return Err("DNS message too short to contain the A record's RDATA");
            }
            let ip: [u8; 4] = [
                message[fixed + 10],
                message[fixed + 11],
                message[fixed + 12],
                message[fixed + 13],
            ];
            assert(ip@ =~= message@.subrange(fixed + 10, fixed + 14));
            return Ok(ip);
        }
        left = left - 1;
        assert(reply_address(message@, question_len as int) == first_address(
            message@,
            fixed + 10 + rdlength,
            left as nat,
        ));
        if (rdlength as usize) > message.len() - fixed - 10 {
            if left == 0 {
                return Err("no answer record is an A record");
            }
            return Err("DNS message too short to contain an answer record NAME");
        }
        at = fixed + 10 + rdlength as usize;
    }
    Err("no answer record is an A record")
}

/// Where the label from offset `at` on ends: at the next dot, or at the end.
pub open spec fn label_end(name: Seq<u8>, at: int) -> int
    decreases name.len() - at,
{
    if at < 0 || at >= name.len() || name[at] == 46 {
        at
    } else {
        label_end(name, at + 1)
    }
}

/// The labels of a dotted name from offset `at` on, each behind its length, and a zero;
/// and what is wrong with the name, if anything is, in which case the labels before that
/// are there.
pub open spec fn labels(name: Seq<u8>, at: int) -> (Seq<u8>, Option<&'static str>)
    decreases name.len() - at,
    when 0 <= at <= name.len()
    via labels_end
{
    let end = label_end(name, at);
    if end == at {
        (Seq::empty(), Some("hostname has an empty label (leading, trailing, or doubled '.')"))
    } else if end - at > MAX_LABEL_LEN {
        (Seq::empty(), Some("hostname label exceeds 63 bytes"))
    } else {
        let label = seq![(end - at) as u8] + name.subrange(at, end);
        if end == name.len() {
            (label + seq![0u8], None)
        } else {
            let (rest, e) = labels(name, end + 1);
            (label + rest, e)
        }
    }
}

#[via_fn]
proof fn labels_end(name: Seq<u8>, at: int) {
    label_end_bounds(name, at);
}

proof fn label_end_bounds(name: Seq<u8>, at: int)
    requires
        0 <= at <= name.len(),
    ensures
        at <= label_end(name, at) <= name.len(),
        label_end(name, at) < name.len() ==> name[label_end(name, at)] == 46,
    decreases name.len() - at,
{
    if at < name.len() && name[at] != 46 {
        label_end_bounds(name, at + 1);
    }
}

/// The labels of a hostname, and what is wrong with it, if anything is.
pub open spec fn qname(name: Seq<u8>) -> (Seq<u8>, Option<&'static str>) {
    if name.len() == 0 {
        (Seq::empty(), Some("hostname is empty"))
    } else {
        labels(name, 0)
    }
}

fn find_label_end(name: &[u8], start: usize) -> (end: usize)
    requires
        start <= name.len(),
    ensures
        end == label_end(name@, start as int),
        start <= end <= name.len(),
{
    let mut at: usize = start;
    while at < name.len() && name[at] != 46
        invariant
            start <= at <= name.len(),
            label_end(name@, at as int) == label_end(name@, start as int),
        decreases name.len() - at,
    {
        at = at + 1;
    }
    at
}

/// Appends the labels of a hostname.
pub fn encode_qname(hostname: &str, out: &mut Vec<u8>) -> (r: Result<(), &'static str>)
    ensures
        final(out)@ == old(out)@ + qname(encode_utf8(hostname@)).0,
        r == match qname(encode_utf8(hostname@)).1 {
            None => Ok::<(), &'static str>(()),
            Some(e) => Err(e),
        },
{
    let name = hostname.as_bytes();
    if name.len() == 0 {
        assert(out@ =~= old(out)@ + Seq::<u8>::empty());
        return Err("hostname is empty");
    }
    let mut at: usize = 0;
    while at < name.len()
        invariant
            at <= name.len(),
            name@ == encode_utf8(hostname@),
            name.len() > 0,
            old(out)@ + qname(name@).0 =~= out@ + labels(name@, at as int).0,
            qname(name@).1 == labels(name@, at as int).1,
        decreases name.len() - at,
    {
        let end: usize = find_label_end(name, at);
        if end == at {
            assert(out@ =~= out@ + Seq::<u8>::empty());
            return Err("hostname has an empty label (leading, trailing, or doubled '.')");
        }
        if end - at > MAX_LABEL_LEN {
            assert(out@ =~= out@ + Seq::<u8>::empty());
            return Err("hostname label exceeds 63 bytes");
        }
        let ghost before = out@;
        out.push((end - at) as u8);
        append_bytes(out, vstd::slice::slice_subrange(name, at, end));
        assert(out@ =~= before + (seq![(end - at) as u8] + name@.subrange(at as int, end as int)));
        if end == name.len() {
            out.push(0);
            assert(out@ =~= before + labels(name@, at as int).0);
            return Ok(());
        }
        assert(out@ + labels(name@, end + 1).0 =~= before + labels(name@, at as int).0);
        at = end + 1;
    }
    assert(out@ =~= out@ + Seq::<u8>::empty());
    Err("hostname has an empty label (leading, trailing, or doubled '.')")
}

/// The header of a query with one question, for which the server is to ask others.
pub open spec fn query_header(transaction_id: u16) -> Seq<u8> {
    be16_bytes(transaction_id) + seq![0x01u8, 0x00, 0x00, 0x01, 0, 0, 0, 0, 0, 0]
}

/// A query for the address of a hostname.
pub open spec fn query(transaction_id: u16, name: Seq<u8>) -> Seq<u8> {
    query_header(transaction_id) + qname(name).0 + be16_bytes(DNS_TYPE_A) + be16_bytes(
        DNS_QCLASS_IN,
    )
}

/// Builds a query for the address of a hostname.
pub fn build_query(transaction_id: u16, hostname: &str) -> (r: Result<Vec<u8>, &'static str>)
    ensures
        match qname(encode_utf8(hostname@)).1 {
            None => r matches Ok(message) && message@ == query(
                transaction_id,
                encode_utf8(hostname@),
            ),
            Some(e) => r == Err::<Vec<u8>, &'static str>(e),
        },
{
    let mut message: Vec<u8> = Vec::new();
    append_bytes(&mut message, &to_be16(transaction_id));
    append_bytes(&mut message, &[0x01, 0x00, 0x00, 0x01, 0, 0, 0, 0, 0, 0]);
    assert(message@ =~= query_header(transaction_id));
    match encode_qname(hostname, &mut message) {
        Ok(()) => {},
        Err(e) => {
            return Err(e);
        },
    }
    append_bytes(&mut message, &to_be16(DNS_TYPE_A));
    append_bytes(&mut message, &to_be16(DNS_QCLASS_IN));
    assert(message@ =~= query(transaction_id, encode_utf8(hostname@)));
    Ok(message)
}

/// The dotted name that the labels from offset `at` on spell.
pub open spec fn spelled(w: Seq<u8>, at: int) -> Seq<u8>
    decreases w.len() - at,
{
    if at < 0 || at >= w.len() || w[at] == 0 {
        Seq::empty()
    } else {
        let next = at + 1 + w[at];
        let label = w.subrange(at + 1, next);
        if next < w.len() && w[next] != 0 {
            label + seq![46u8] + spelled(w, next)
        } else {
            label
        }
    }
}

/// The labels of a hostname spell the hostname, and take all the bytes up to the zero.
pub proof fn qname_round_trip(name: Seq<u8>)
    requires
        qname(name).1 is None,
    ensures
        spelled(qname(name).0, 0) == name,
        name_end(qname(name).0, 0) == Ok::<int, &'static str>(qname(name).0.len() as int),
{
    labels_spell(name, 0, Seq::empty(), Seq::empty());
    let w = qname(name).0;
    assert(Seq::<u8>::empty() + w + Seq::<u8>::empty() =~= w);
    assert(name.skip(0) =~= name);
}

/// The same with other bytes around the labels.
proof fn labels_spell(name: Seq<u8>, at: int, before: Seq<u8>, after: Seq<u8>)
    requires
        0 <= at <= name.len(),
        labels(name, at).1 is None,
    ensures
        ({
            let w = before + labels(name, at).0 + after;
            &&& labels(name, at).0.len() > 0
            &&& labels(name, at).0[0] != 0
            &&& spelled(w, before.len() as int) == name.skip(at)
            &&& name_end(w, before.len() as int) == Ok::<int, &'static str>(
                (before.len() + labels(name, at).0.len()) as int,
            )
        }),
    decreases name.len() - at,
{
    let end = label_end(name, at);
    label_end_bounds(name, at);
    let mine = labels(name, at).0;
    let w = before + mine + after;
    let n = before.len() as int;
    let text = name.subrange(at, end);
    let label = seq![(end - at) as u8] + text;
    let next = n + label.len();
    if end == name.len() {
        assert(mine =~= label + seq![0u8]);
        assert(w[n] == end - at);
        assert(w.subrange(n + 1, next) =~= text);
        assert(w[next] == 0);
        assert(text =~= name.skip(at));
        assert(name_end(w, next) == Ok::<int, &'static str>(next + 1));
    } else {
        let rest = labels(name, end + 1).0;
        assert(mine =~= label + rest);
        labels_spell(name, end + 1, before + label, after);
        assert((before + label) + rest + after =~= w);
        assert(w[n] == end - at);
        assert(w.subrange(n + 1, next) =~= text);
        assert(w[next] == rest[0]);
        assert(text + seq![46u8] + name.skip(end + 1) =~= name.skip(at));
    }
}

/// An A record behind its NAME: type, class, time to live, length, address.
pub open spec fn a_record(class: u16, ttl: Seq<u8>, ip: Seq<u8>) -> Seq<u8> {
    be16_bytes(DNS_TYPE_A) + be16_bytes(class) + ttl + be16_bytes(4) + ip
}

/// A reply whose first answer is an A record gives the address of that record, whether
/// its NAME is a pointer or is spelled out.
pub proof fn address_is_found(
    header: Seq<u8>,
    question: Seq<u8>,
    name: Seq<u8>,
    class: u16,
    ttl: Seq<u8>,
    ip: Seq<u8>,
    rest: Seq<u8>,
)
    requires
        header.len() == 12,
        be16(header, 6) > 0,
        name_end(header + question + name, 12 + question.len() as int) == Ok::<int, &'static str>(
            (12 + question.len() + name.len()) as int,
        ),
        ttl.len() == 4,
        ip.len() == 4,
    ensures
        reply_address(
            header + question + name + a_record(class, ttl, ip) + rest,
            question.len() as int,
        ) == Ok::<Seq<u8>, &'static str>(ip),
{
    let head = header + question + name;
    let record = a_record(class, ttl, ip);
    let m = header + question + name + record + rest;
    let start = 12 + question.len() as int;
    assert(m =~= head + (record + rest));
    name_end_kept(head, record + rest, start);
    let fixed = start + name.len() as int;
    assert(m[6] == header[6] && m[7] == header[7]);
    assert(m[fixed] == record[0] && m[fixed + 1] == record[1]);
    assert(m[fixed + 8] == record[8] && m[fixed + 9] == record[9]);
    assert(record[8] == be16_bytes(4)[0] && record[9] == be16_bytes(4)[1]);
    assert(m.subrange(fixed + 10, fixed + 14) =~= ip);
}

proof fn name_end_kept(m: Seq<u8>, more: Seq<u8>, at: int)
    requires
        0 <= at,
        name_end(m, at) is Ok,
    ensures
        name_end(m + more, at) == name_end(m, at),
    decreases m.len() + MAX_LABEL_LEN + 1 - at,
{
    if at < m.len() {
        assert((m + more)[at] == m[at]);
        if 0 < m[at] <= MAX_LABEL_LEN {
            name_end_kept(m, more, at + 1 + m[at]);
        }
    }
}

/// An answer of another type is passed over, whatever it holds.
pub proof fn other_record_is_skipped(m: Seq<u8>, at: int, count: nat, fixed: int)
    requires
        name_end(m, at) == Ok::<int, &'static str>(fixed),
        fixed + 10 <= m.len(),
        be16(m, fixed) != DNS_TYPE_A,
    ensures
        first_address(m, at, count + 1) == first_address(
            m,
            fixed + 10 + be16(m, fixed + 8),
            count,
        ),
{
}

} // verus!
