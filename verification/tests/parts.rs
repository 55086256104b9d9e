use agentos_kernel::bytes::{
    append_bytes, copy_into, get_be16, get_be32, get_le16, get_le32, get_le64, to_be16, to_be32,
    to_le16, to_le32, to_le64,
};
use agentos_kernel::disk::{Disk, FsError};
use agentos_kernel::fat_common::{
    format_short_name, get_slot, lfn_checksum, parse_dir_sector, short_entry_if_matches, LfnState,
};
use agentos_kernel::partition::{parse_mbr, partition_type_name};
use agentos_kernel::text::{eq_ignore_case, text_of, to_upper};

#[test]
fn numbers_in_bytes() {
    let s = [0x01, 0x02, 0x03, 0x04, 0x05, 0x06, 0x07, 0x08, 0x09];
    assert_eq!(get_le16(&s, 1), 0x0302);
    assert_eq!(get_le32(&s, 1), 0x0504_0302);
    assert_eq!(get_le64(&s, 1), 0x0908_0706_0504_0302);
    assert_eq!(get_be16(&s, 1), 0x0203);
    assert_eq!(get_be32(&s, 1), 0x0203_0405);
    assert_eq!(to_le16(0x0302), [2, 3]);
    assert_eq!(to_le32(0x0504_0302), [2, 3, 4, 5]);
    assert_eq!(to_le64(0x0908_0706_0504_0302), [2, 3, 4, 5, 6, 7, 8, 9]);
    assert_eq!(to_be16(0x0203), [2, 3]);
    assert_eq!(to_be32(0x0203_0405), [2, 3, 4, 5]);
    for x in [0u16, 1, 0x00FF, 0xFF00, 0xABCD, 0xFFFF] {
        assert_eq!(get_le16(&to_le16(x), 0), x);
    }
}

#[test]
fn bytes_are_copied() {
    let mut a = [0u8; 5];
    copy_into(&mut a, 2, &[7, 8]);
    assert_eq!(a, [0, 0, 7, 8, 0]);
    let mut v = vec![1];
    append_bytes(&mut v, &[2, 3]);
    assert_eq!(v, vec![1, 2, 3]);
}

#[test]
fn sectors_are_remembered() {
    let mut disk = Disk::new();
    assert!(matches!(disk.read_sector(7), Err(FsError::Missing(7))));
    disk.load(7, &[1; 512]);
    assert_eq!(disk.read_sector(7).ok(), Some([1; 512]));
    disk.write_sector(7, &[2; 512]);
    disk.write_sector(8, &[3; 512]);
    assert_eq!(disk.read_sector(7).ok(), Some([2; 512]));
    assert_eq!(disk.pending(), vec![(7, [2; 512]), (8, [3; 512])]);
    disk.undo_to(1);
    assert!(matches!(disk.read_sector(8), Err(FsError::Missing(8))));
    disk.write_sector(7, &[9; 512]);
    assert_eq!(disk.pending(), vec![(7, [2; 512]), (7, [9; 512])]);
    disk.undo_to(1);
    assert_eq!(disk.read_sector(7).ok(), Some([2; 512]));
    disk.undo_to(0);
    assert_eq!(disk.read_sector(7).ok(), Some([1; 512]));
    disk.write_sector(7, &[2; 512]);
    disk.write_sector(8, &[3; 512]);
    disk.settle();
    assert!(disk.pending().is_empty());
    assert_eq!(disk.read_sector(7).ok(), Some([2; 512]));
    disk.forget(7);
    assert!(matches!(disk.read_sector(7), Err(FsError::Missing(7))));
    assert_eq!(disk.read_sector(8).ok(), Some([3; 512]));
    disk.fail(9, "broken");
    assert!(matches!(disk.read_sector(9), Err(FsError::Failed("broken"))));
    disk.forget_failures();
    assert!(matches!(disk.read_sector(9), Err(FsError::Missing(9))));
    assert_eq!(disk.read_sector(8).ok(), Some([3; 512]));
}

#[test]
fn letters() {
    assert_eq!((to_upper(b'a'), to_upper(b'z')), (b'A', b'Z'));
    assert_eq!((to_upper(b'`'), to_upper(b'{'), to_upper(b'A'), to_upper(0xE9)), (b'`', b'{', b'A', 0xE9));
    assert!(eq_ignore_case(b"ReadMe.txt", b"README.TXT"));
    assert!(!eq_ignore_case(b"a", b"ab"));
    assert!(!eq_ignore_case(b"a", b"b"));
    assert_eq!(text_of(&vec!['a', '\u{00E4}', '\u{1F600}']), "a\u{00E4}\u{1F600}");
}

#[test]
fn partition_tables() {
    let mut s = [0u8; 512];
    let first = [
        0x80, 0, 2, 0, 0x0C, 0, 0, 0, 0x00, 0x08, 0x00, 0x00, 0x00, 0x00, 0x10, 0x00,
    ];
    s[446..462].copy_from_slice(&first);
    s[494] = 0x01;
    s[498] = 0x83;
    let entries = parse_mbr(&s);
    assert!(entries[0].bootable);
    assert_eq!(entries[0].partition_type, 0x0C);
    assert_eq!(entries[0].start_lba, 2048);
    assert_eq!(entries[0].sector_count, 0x0010_0000);
    assert_eq!(entries[1].partition_type, 0);
    assert!(!entries[3].bootable);
    assert_eq!(entries[3].partition_type, 0x83);
}

#[test]
fn partition_kinds() {
    let names: [(u8, &str); 12] = [
        (0x00, "empty"),
        (0x01, "FAT12"),
        (0x04, "FAT16"),
        (0x06, "FAT16"),
        (0x0E, "FAT16"),
        (0x0B, "FAT32"),
        (0x0C, "FAT32"),
        (0x07, "NTFS/exFAT"),
        (0x82, "Linux swap"),
        (0x83, "Linux"),
        (0xEE, "GPT protective"),
        (0x42, "unknown"),
    ];
    for (t, name) in names {
        assert_eq!(partition_type_name(t), name);
    }
}

#[test]
fn short_names() {
    assert_eq!(format_short_name(b"KERNEL~1", b"   "), "KERNEL~1");
    assert_eq!(format_short_name(b"A       ", b"TX "), "A.TX");
    assert_eq!(format_short_name(b"A B     ", b" X "), "A");
    assert_eq!(format_short_name(b"\xE4       ", b"   "), "\u{00E4}");
}

#[test]
fn sums_of_short_names() {
    assert_eq!(lfn_checksum(b""), 0);
    assert_eq!(lfn_checksum(b"A"), 0x41);
    // 0x41 turned right is 0xA0, and 0x42 more is 0xE2.
    assert_eq!(lfn_checksum(b"AB"), 0xE2);
}

const SHORT: &[u8; 11] = b"LONGN~1 TXT";

/// The entry with the thirteen characters `part`, at place `seq`.
fn long_entry(seq: u8, part: &str, checksum: u8) -> [u8; 32] {
    let mut units: Vec<u16> = part.chars().map(|c| c as u16).collect();
    if units.len() < 13 {
        units.push(0);
    }
    while units.len() < 13 {
        units.push(0xFFFF);
    }
    let mut raw = [0u8; 32];
    raw[0] = seq;
    raw[11] = 0x0F;
    raw[13] = checksum;
    let places = [1, 3, 5, 7, 9, 14, 16, 18, 20, 22, 24, 28, 30];
    for (u, at) in units.iter().zip(places) {
        raw[at..at + 2].copy_from_slice(&u.to_le_bytes());
    }
    raw
}

fn short_entry() -> [u8; 32] {
    let mut raw = [0u8; 32];
    raw[..11].copy_from_slice(SHORT);
    raw[11] = 0x20;
    raw[26] = 5;
    raw[28] = 9;
    raw
}

#[test]
fn long_names_are_put_together() {
    let sum = lfn_checksum(SHORT);
    let mut lfn = LfnState::default();
    lfn.push_long_entry(&long_entry(0x42, "st.txt", sum));
    lfn.push_long_entry(&long_entry(1, "a long name, ", sum));
    assert_eq!(lfn.take_verified(SHORT), Some("a long name, st.txt".to_string()));
    assert_eq!(lfn.take_verified(SHORT), None);
    lfn.push_long_entry(&long_entry(0x41, "other.txt", sum ^ 1));
    assert_eq!(lfn.take_verified(SHORT), None);
    lfn.push_long_entry(&long_entry(0x41, "other.txt", sum));
    lfn.reset();
    assert_eq!(lfn.take_verified(SHORT), None);
}

#[test]
fn entries_go_by_either_name() {
    let sum = lfn_checksum(SHORT);
    for (target, found) in [("LONGN~1.TXT", true), ("LONG NAME.txt", true), ("other", false)] {
        let mut lfn = LfnState::default();
        lfn.push_long_entry(&long_entry(0x41, "long name.txt", sum));
        match short_entry_if_matches(&short_entry(), &mut lfn, target) {
            Some(e) => {
                assert!(found);
                assert_eq!(e.name, "long name.txt");
                assert_eq!((e.is_dir, e.size, e.start_cluster), (false, 9, 5));
            }
            None => assert!(!found),
        }
    }
}

#[test]
fn sectors_of_a_directory() {
    let sum = lfn_checksum(SHORT);
    let mut sector = [0u8; 512];
    sector[..32].copy_from_slice(&long_entry(0x41, "long name.txt", sum));
    sector[32..64].copy_from_slice(&short_entry());
    sector[64..96].copy_from_slice(&short_entry());
    sector[64] = 0xE5;
    assert_eq!(get_slot(&sector, 1), short_entry());
    let mut entries = Vec::new();
    let mut lfn = LfnState::default();
    assert!(parse_dir_sector(&sector, &mut entries, &mut lfn));
    assert_eq!(entries.len(), 1);
    assert_eq!(entries[0].name, "long name.txt");
    // A sector with no free slot does not end the directory.
    let mut full = [0u8; 512];
    for i in 0..16 {
        full[32 * i..32 * i + 32].copy_from_slice(&short_entry());
    }
    assert!(!parse_dir_sector(&full, &mut entries, &mut lfn));
    assert_eq!(entries.len(), 17);
    assert_eq!(entries[16].name, "LONGN~1.TXT");
}
