//! The partition table of a master boot record.

use crate::bytes::{
    bytes_stand_for_number, fields_of_four_bytes, get_le32, le32, le32_bytes,
};
use vstd::prelude::*;

verus! {

#[derive(Debug, Clone, Copy)]
pub struct PartitionEntry {
    pub bootable: bool,
    pub partition_type: u8,
    pub start_lba: u32,
    pub sector_count: u32,
}

/// The name of a partition type.
pub open spec fn name_of_type(t: u8) -> &'static str {
    if t == 0x00 {
        "empty"
    } else if t == 0x01 {
        "FAT12"
    } else if t == 0x04 || t == 0x06 || t == 0x0E {
        "FAT16"
    } else if t == 0x0B || t == 0x0C {
        "FAT32"
    } else if t == 0x07 {
        "NTFS/exFAT"
    } else if t == 0x82 {
        "Linux swap"
    } else if t == 0x83 {
        "Linux"
    } else if t == 0xEE {
        "GPT protective"
    } else {
        "unknown"
    }
}

pub fn partition_type_name(t: u8) -> (name: &'static str)
    ensures
        name == name_of_type(t),
{
    match t {
        0x00 => "empty",
        0x01 => "FAT12",
        0x04 | 0x06 | 0x0E => "FAT16",
        0x0B | 0x0C => "FAT32",
        0x07 => "NTFS/exFAT",
        0x82 => "Linux swap",
        0x83 => "Linux",
        0xEE => "GPT protective",
        _ => "unknown",
    }
}

/// Entry `i` of the partition table in `sector`.
pub open spec fn mbr_entry(sector: Seq<u8>, i: int) -> PartitionEntry {
    let at = 446 + 16 * i;
    PartitionEntry {
        bootable: sector[at] == 0x80,
        partition_type: sector[at + 4],
        start_lba: le32(sector, at + 8) as u32,
        sector_count: le32(sector, at + 12) as u32,
    }
}

/// The four primary entries of the partition table. Whether the sector is a boot
/// record at all is for the caller to check.
pub fn parse_mbr(sector: &[u8; 512]) -> (entries: [PartitionEntry; 4])
    ensures
        forall|i: int| 0 <= i < 4 ==> #[trigger] entries@[i] == mbr_entry(sector@, i),
{
    let mut entries: [PartitionEntry; 4] = [PartitionEntry {
        bootable: false,
        partition_type: 0,
        start_lba: 0,
        sector_count: 0,
    };4];
    let mut i: usize = 0;
    while i < 4
        invariant
            i <= 4,
            forall|j: int| 0 <= j < i ==> #[trigger] entries@[j] == mbr_entry(sector@, j),
        decreases 4 - i,
    {
        let at: usize = 446 + i * 16;
        entries[i] = PartitionEntry {
            bootable: sector[at] == 0x80,
            partition_type: sector[at + 4],
            start_lba: get_le32(sector, at + 8),
            sector_count: get_le32(sector, at + 12),
        };
        i = i + 1;
    }
    entries
}

/// The sixteen bytes of an entry of a partition table: a flag, three bytes that are not
/// looked at, the type, three more such bytes, the first sector, and the number of sectors.
pub open spec fn entry_bytes(
    flag: u8,
    first_chs: Seq<u8>,
    partition_type: u8,
    last_chs: Seq<u8>,
    start_lba: u32,
    sector_count: u32,
) -> Seq<u8> {
    seq![flag] + first_chs + seq![partition_type] + last_chs + le32_bytes(start_lba) + le32_bytes(
        sector_count,
    )
}

/// Entry number `i`, if the code in front of the table takes 446 bytes and each entry sixteen,
/// is read as what it was made of, whatever stands in front of it and behind it. It is
/// one to boot from if its flag is 0x80.
pub proof fn entries_are_read(
    code: Seq<u8>,
    in_front: Seq<u8>,
    i: int,
    flag: u8,
    first_chs: Seq<u8>,
    partition_type: u8,
    last_chs: Seq<u8>,
    start_lba: u32,
    sector_count: u32,
    behind: Seq<u8>,
)
    requires
        0 <= i < 4,
        code.len() == 446,
        in_front.len() == 16 * i,
        first_chs.len() == 3,
        last_chs.len() == 3,
    ensures
        mbr_entry(
            code + in_front + entry_bytes(
                flag,
                first_chs,
                partition_type,
                last_chs,
                start_lba,
                sector_count,
            ) + behind,
            i,
        ) == (PartitionEntry { bootable: flag == 0x80, partition_type, start_lba, sector_count }),
{
    let e = entry_bytes(flag, first_chs, partition_type, last_chs, start_lba, sector_count);
    let s = code + in_front + e + behind;
    let at = 446 + 16 * i;
    assert(s.subrange(at, at + 16) =~= e);
    assert(s.subrange(at, at + 16)[0] == flag);
    assert(s.subrange(at, at + 16)[4] == partition_type);
    bytes_stand_for_number(0, start_lba, 0);
    bytes_stand_for_number(0, sector_count, 0);
    fields_of_four_bytes(s, at + 8);
    fields_of_four_bytes(s, at + 12);
    assert(s.subrange(at + 8, at + 12) =~= le32_bytes(start_lba));
    assert(s.subrange(at + 12, at + 16) =~= le32_bytes(sector_count));
}

/// An entry depends on its own sixteen bytes only.
pub proof fn entries_stand_alone(s: Seq<u8>, t: Seq<u8>, i: int)
    requires
        0 <= i < 4,
        s.len() == 512,
        t.len() == 512,
        s.subrange(446 + 16 * i, 462 + 16 * i) == t.subrange(446 + 16 * i, 462 + 16 * i),
    ensures
        mbr_entry(s, i) == mbr_entry(t, i),
{
    let a = s.subrange(446 + 16 * i, 462 + 16 * i);
    let b = t.subrange(446 + 16 * i, 462 + 16 * i);
    let at = 446 + 16 * i;
    assert(a[0] == s[at] && b[0] == t[at]);
    assert(a[4] == s[at + 4] && b[4] == t[at + 4]);
    fields_of_four_bytes(s, at + 8);
    fields_of_four_bytes(t, at + 8);
    fields_of_four_bytes(s, at + 12);
    fields_of_four_bytes(t, at + 12);
    assert(s.subrange(at + 8, at + 12) =~= a.subrange(8, 12));
    assert(t.subrange(at + 8, at + 12) =~= b.subrange(8, 12));
    assert(s.subrange(at + 12, at + 16) =~= a.subrange(12, 16));
    assert(t.subrange(at + 12, at + 16) =~= b.subrange(12, 16));
}

/// The types of FAT volumes go by the width of their table's entries, and no other type goes
/// by the name of one of them.
pub proof fn fat_types_are_named(t: u8)
    ensures
        name_of_type(t)@ == "FAT12"@ <==> t == 0x01,
        name_of_type(t)@ == "FAT16"@ <==> (t == 0x04 || t == 0x06 || t == 0x0E),
        name_of_type(t)@ == "FAT32"@ <==> (t == 0x0B || t == 0x0C),
        name_of_type(t)@ == "empty"@ <==> t == 0,
{
    reveal_strlit("empty");
    reveal_strlit("FAT12");
    reveal_strlit("FAT16");
    reveal_strlit("FAT32");
    reveal_strlit("NTFS/exFAT");
    reveal_strlit("Linux swap");
    reveal_strlit("Linux");
    reveal_strlit("GPT protective");
    reveal_strlit("unknown");
    assert("FAT12"@[4] == '2' && "FAT16"@[4] == '6' && "FAT32"@[4] == '2' && "FAT32"@[3] == '3');
    assert("FAT12"@[3] == '1' && "FAT16"@[3] == '1' && "empty"@[0] == 'e' && "Linux"@[0] == 'L');
}

} // verus!
