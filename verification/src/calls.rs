//! What the library's own calls give back, in terms of what goes into them.

use crate::bytes::{fields_of_four_bytes, low_first};
use crate::disk::{Disk, FsError};
use crate::fat32::laws::{all_sectors, end_at, files_below, listing_is_complete, whole_chain};
use crate::fat32::{short_entries, DirEntry, Fat32Info};
use crate::fat_common::layout::checksum_turns;
use crate::fat_common::lfn_checksum;
use crate::gdt::{ring3_info, Ring3Info};
use crate::gguf_loader::packing::{q4_k_block, q4_k_unpacks, within};
use crate::gguf_loader::{widened, GgufGtype, GgufModelLoader, QuantTerm};
use crate::interrupts::caller_rpl;
use crate::net::icmp::{build_icmp_echo, echo_round_trip, parse_icmp_echo, IcmpEchoInfo};
use crate::net::tcp::{build_tcp_header, parse_tcp_segment, tcp_round_trip, TcpSegmentInfo};
use crate::net::udp::{build_udp_header, parse_udp_datagram, udp_round_trip, UdpDatagramInfo};
use crate::net::{e1000, virtio};
use crate::partition::{parse_mbr, PartitionEntry};
use crate::pci::{find_device, PciDevice};
use vstd::prelude::*;

verus! {

/// Two calls for a name and for the same name with one more byte: the second sum is the first one,
/// turned right by one bit, and the byte.
pub proof fn checksum_calls_turn(name: &[u8], longer: &[u8], b: u8, first: u8, second: u8)
    requires
        longer@ == name@.push(b),
        call_ensures(lfn_checksum, (name,), first),
        call_ensures(lfn_checksum, (longer,), second),
    ensures
        name@.len() == 0 ==> first == 0,
        second == (first / 2 + 128 * (first % 2) + b) % 256,
{
    checksum_turns(name@, b);
    if name@.len() == 0 {
        assert(name@ =~= Seq::empty());
    }
    assert((first >> 1u8) | (first << 7u8) == first / 2 + 128 * (first % 2)) by (bit_vector);
}

/// Each partition is read from its own sixteen bytes.
pub proof fn partition_calls_read(sector: &[u8; 512], entries: [PartitionEntry; 4], i: int)
    requires
        call_ensures(parse_mbr, (sector,), entries),
        0 <= i < 4,
    ensures
        ({
            let raw = sector@.subrange(446 + 16 * i, 462 + 16 * i);
            let e = entries@[i];
            &&& e.bootable <==> raw[0] == 0x80
            &&& e.partition_type == raw[4]
            &&& e.start_lba == low_first(raw.subrange(8, 12))
            &&& e.sector_count == low_first(raw.subrange(12, 16))
        }),
{
    let at = 446 + 16 * i;
    let raw = sector@.subrange(at, at + 16);
    fields_of_four_bytes(sector@, at + 8);
    fields_of_four_bytes(sector@, at + 12);
    assert(raw.subrange(8, 12) =~= sector@.subrange(at + 8, at + 12));
    assert(raw.subrange(12, 16) =~= sector@.subrange(at + 12, at + 16));
    assert(entries@[i] == crate::partition::mbr_entry(sector@, i));
}

/// A directory whose chain ends and whose sectors are known is listed, and the listing is the
/// entries of all its slots in front of the first one that ends it.
pub proof fn listing_calls_are_complete(
    info: &Fat32Info,
    disk: &Disk,
    c: u32,
    cs: Seq<int>,
    m: int,
    r: Result<Vec<DirEntry>, FsError>,
)
    requires
        call_ensures(Fat32Info::list_directory, (info, disk, c), r),
        whole_chain(*info, disk@, c as int, cs),
        forall|j: int|
            0 <= j < all_sectors(*info, cs).len() ==> disk@.has(#[trigger] all_sectors(*info, cs)[j]),
        0 <= m <= 16 * all_sectors(*info, cs).len(),
        forall|j: int| 0 <= j < m ==> !#[trigger] end_at(disk@, all_sectors(*info, cs), j),
        m < 16 * all_sectors(*info, cs).len() ==> end_at(disk@, all_sectors(*info, cs), m),
    ensures
        r matches Ok(got) && short_entries(got@) == files_below(disk@, all_sectors(*info, cs), m),
{
    listing_is_complete(*info, disk@, c as int, cs, m);
}

/// The weights of a block come back as the numbers that were packed into it, whether the kind of
/// the tensor is named or told.
pub proof fn decoding_calls_unpack(
    bytes: &[u8],
    values: Vec<QuantTerm>,
    told: Result<Vec<QuantTerm>, &'static str>,
    before: Seq<u8>,
    n: int,
    d: u16,
    dmin: u16,
    sc: Seq<int>,
    m: Seq<int>,
    q: Seq<int>,
    after: Seq<u8>,
    i: int,
)
    requires
        call_ensures(GgufModelLoader::decode_q4_k, (bytes,), values),
        call_ensures(GgufModelLoader::decode_tensor, (bytes, GgufGtype::Q4_K), told),
        bytes@ == before + q4_k_block(d, dmin, sc, m, q) + after,
        0 <= n,
        before.len() == 144 * n,
        within(sc, 8, 0, 64),
        within(m, 8, 0, 64),
        within(q, 256, 0, 16),
        0 <= i < 256,
    ensures
        ({
            let weight = QuantTerm {
                d: widened(d) as u32,
                sc: sc[i / 32] as i32,
                q: q[i] as i32,
                dmin: widened(dmin) as u32,
                m: m[i / 32] as i32,
            };
            &&& 256 * n + i < values@.len()
            &&& values@[256 * n + i] == weight
            &&& told matches Ok(same) && 256 * n + i < same@.len() && same@[256 * n + i] == weight
        }),
{
    q4_k_unpacks(before, n, d, dmin, sc, m, q, after, i);
    let k = 256 * n + i;
    assert(k / 256 == n && k % 256 == i);
    assert(bytes@.len() == 144 * (n + 1) + after.len());
    assert(bytes@.len() / 144 >= n + 1);
}

/// The cards are found by their numbers: the first one with them, if there is one.
pub proof fn cards_are_found(
    devices: &Vec<PciDevice>,
    first: Option<PciDevice>,
    second: Option<PciDevice>,
    intel: Option<PciDevice>,
    virtual_one: Option<PciDevice>,
)
    requires
        call_ensures(find_device, (devices, 0x8086, 0x100E), first),
        call_ensures(find_device, (devices, 0x1AF4, 0x1000), second),
        call_ensures(e1000::find_e1000, (devices,), intel),
        call_ensures(virtio::find_virtio_net, (devices,), virtual_one),
    ensures
        intel == first,
        virtual_one == second,
{
}

/// A card behind ports has the lowest bit of its base address set and a card in memory has not; the
/// other is refused. The low bits that say so are not part of the address.
pub proof fn bases_are_told_apart(
    dev: PciDevice,
    bar0: u32,
    phys: u64,
    ports: Result<(PciDevice, u16), &'static str>,
    memory: Result<(PciDevice, u64), &'static str>,
)
    requires
        phys <= 0xFFFF_FFFE_0000_0000,
        call_ensures(virtio::find_io_base, (Some(dev), bar0), ports),
        call_ensures(e1000::find_mmio_base, (Some(dev), bar0, phys), memory),
    ensures
        ports is Ok <==> bar0 % 2 == 1,
        memory is Ok <==> bar0 % 2 == 0,
        ports matches Ok((found, io)) ==> found == dev && io % 4 == 0 && (bar0 < 65536 ==> io <= bar0
            < io + 4),
        memory matches Ok((found, mmio)) ==> found == dev && mmio <= phys + bar0 < mmio + 16 && (mmio
            - phys) % 16 == 0,
{
}

/// The privilege of the code that was interrupted is in the low two bits of its code segment, the
/// second of the five words that the processor saved behind the fifteen registers.
pub proof fn privilege_is_saved(saved: &[u64; 20], r: u64)
    requires
        call_ensures(caller_rpl, (saved,), r),
    ensures
        r == saved@[16] % 4,
{
}

/// What entering user code is told is what was given, with the privilege that each segment asks for.
pub proof fn segments_are_told(code: u16, data: u16, rsp0: u64, info: Ring3Info)
    requires
        call_ensures(ring3_info, (code, data, rsp0), info),
    ensures
        info.user_code_selector == code,
        info.user_data_selector == data,
        info.rsp0 == rsp0,
        info.user_code_rpl == code % 4,
        info.user_data_rpl == data % 4,
{
}

/// An echo that was built is read back as what it was built from, with its data behind it.
pub proof fn echo_calls_undo_each_other(
    is_reply: bool,
    identifier: u16,
    sequence: u16,
    data: &[u8],
    built: Vec<u8>,
    message: &[u8],
    r: Result<IcmpEchoInfo, &'static str>,
)
    requires
        call_ensures(build_icmp_echo, (is_reply, identifier, sequence, data), built),
        message@ == built@,
        call_ensures(parse_icmp_echo, (message,), r),
    ensures
        r == Ok::<IcmpEchoInfo, &'static str>((IcmpEchoInfo { is_reply, identifier, sequence })),
        built@.skip(8) == data@,
{
    echo_round_trip(is_reply, identifier, sequence, data@);
}

/// A datagram that was built is taken between the same addresses, and read back as what it was
/// built from.
pub proof fn datagram_calls_undo_each_other(
    source_ip: [u8; 4],
    dest_ip: [u8; 4],
    source_port: u16,
    dest_port: u16,
    payload: &[u8],
    header: [u8; 8],
    datagram: &[u8],
    r: Result<UdpDatagramInfo, &'static str>,
)
    requires
        payload@.len() < 65528,
        call_ensures(
            build_udp_header,
            (source_ip, dest_ip, source_port, dest_port, payload),
            header,
        ),
        datagram@ == header@ + payload@,
        call_ensures(parse_udp_datagram, (source_ip, dest_ip, datagram), r),
    ensures
        r matches Ok(info) && info.source_port == source_port && info.dest_port == dest_port
            && info.length == 8 + payload@.len(),
{
    udp_round_trip(source_ip@, dest_ip@, source_port, dest_port, payload@);
}

/// A segment that was built is taken between the same addresses, and read back as what it was built
/// from.
pub proof fn segment_calls_undo_each_other(
    source_ip: [u8; 4],
    dest_ip: [u8; 4],
    info: TcpSegmentInfo,
    payload: &[u8],
    header: [u8; 20],
    segment: &[u8],
    r: Result<TcpSegmentInfo, &'static str>,
)
    requires
        call_ensures(
            build_tcp_header,
            (
                source_ip,
                dest_ip,
                info.source_port,
                info.dest_port,
                info.seq_num,
                info.ack_num,
                info.flags,
                info.window,
                payload,
            ),
            header,
        ),
        segment@ == header@ + payload@,
        call_ensures(parse_tcp_segment, (source_ip, dest_ip, segment), r),
    ensures
        r == Ok::<TcpSegmentInfo, &'static str>(info),
{
    tcp_round_trip(source_ip@, dest_ip@, info, payload@);
}

} // verus!
