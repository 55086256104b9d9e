use agentos_kernel::disk::{Disk, FsError};
use agentos_kernel::fat32::{read_bpb, Fat32Info};
use agentos_kernel::partition::PartitionEntry;

const START: u32 = 50;
const FIRST_FAT: u32 = START + 32;
const FIRST_DATA: u32 = FIRST_FAT + 2 * 8;

fn partition() -> PartitionEntry {
    PartitionEntry { bootable: false, partition_type: 0x0C, start_lba: START, sector_count: 9000 }
}

fn boot_sector() -> [u8; 512] {
    let mut s = [0u8; 512];
    s[12] = 2; // 512 bytes per sector
    s[13] = 1; // sectors per cluster
    s[14] = 32; // reserved sectors
    s[16] = 2; // tables
    s[36] = 8; // sectors per table
    s[44] = 2; // root cluster
    s[510] = 0x55;
    s[511] = 0xAA;
    s
}

fn mounted(disk: &Disk) -> Fat32Info {
    match read_bpb(disk, &partition()) {
        Ok(info) => info,
        Err(_) => panic!("the boot sector was refused"),
    }
}

fn entry(name: &[u8; 11], attr: u8, cluster: u32, size: u32) -> [u8; 32] {
    let mut e = [0u8; 32];
    e[..11].copy_from_slice(name);
    e[11] = attr;
    e[20..22].copy_from_slice(&((cluster >> 16) as u16).to_le_bytes());
    e[26..28].copy_from_slice(&(cluster as u16).to_le_bytes());
    e[28..].copy_from_slice(&size.to_le_bytes());
    e
}

fn sector_of(entries: &[[u8; 32]]) -> [u8; 512] {
    let mut s = [0u8; 512];
    for (i, e) in entries.iter().enumerate() {
        s[32 * i..32 * i + 32].copy_from_slice(e);
    }
    s
}

fn table(entries: &[(usize, u32)]) -> [u8; 512] {
    let mut s = [0u8; 512];
    for (c, v) in entries {
        s[4 * c..4 * c + 4].copy_from_slice(&v.to_le_bytes());
    }
    s
}

#[test]
fn fat32_boot_sector() {
    let mut disk = Disk::new();
    assert!(matches!(read_bpb(&disk, &partition()), Err(FsError::Missing(START))));
    disk.load(START, &boot_sector());
    let info = mounted(&disk);
    assert_eq!(info.sectors_per_cluster, 1);
    assert_eq!(info.reserved_sector_count, 32);
    assert_eq!(info.num_fats, 2);
    assert_eq!(info.fat_size_32, 8);
    assert_eq!(info.root_cluster, 2);
    assert_eq!(info.partition_start_lba, START);
}

#[test]
fn fat32_boot_sector_errors() {
    let changes: [(usize, u8, &str); 4] = [
        (511, 0, "FAT32: boot sector missing 0x55AA signature"),
        (12, 8, "FAT32: only 512-byte sectors are supported"),
        (
            17,
            1,
            "not FAT32 (root_entry_count != 0 means this is FAT12/16, not supported yet)",
        ),
        (36, 0, "FAT32: fat_size_32 is 0 - not a valid FAT32 BPB"),
    ];
    for (at, byte, message) in changes {
        let mut s = boot_sector();
        s[at] = byte;
        let mut disk = Disk::new();
        disk.load(START, &s);
        assert!(matches!(
            read_bpb(&disk, &partition()),
            Err(FsError::Failed(m)) if m == message
        ));
    }
}

#[test]
fn a_volume_is_of_one_kind() {
    let mut disk = Disk::new();
    disk.load(START, &boot_sector());
    assert!(read_bpb(&disk, &partition()).is_ok());
    assert!(matches!(
        agentos_kernel::fat12::read_bpb(&disk, &partition()),
        Err(FsError::Failed("not FAT12/16 (root_entry_count == 0 means this is FAT32)"))
    ));
}

#[test]
fn directories_over_several_clusters() {
    let mut disk = Disk::new();
    disk.load(START, &boot_sector());
    let info = mounted(&disk);
    // The top four bits of an entry do not count.
    disk.load(FIRST_FAT, &table(&[(2, 0xF000_0009), (9, 0x0FFF_FFF8)]));
    let mut first = vec![
        entry(b"KERNEL  BIN", 0x20, 0x0012_3456, 1000),
        entry(b"\xE5LD     TXT", 0x20, 3, 1),
        entry(b"Am\0y\0l\0o\0n\0", 0x0F, 0, 0),
        entry(b"VOLUME     ", 0x08, 0, 0),
        entry(b"DOCS       ", 0x10, 5, 0),
    ];
    while first.len() < 16 {
        first.push(entry(b"\xE5          ", 0, 0, 0));
    }
    disk.load(FIRST_DATA, &sector_of(&first));
    let second = [
        entry(b"A       B  ", 0x20, 7, 3),
        entry(b"\0          ", 0, 0, 0),
        entry(b"HIDDEN  TXT", 0x20, 8, 3),
    ];
    disk.load(FIRST_DATA + 7, &sector_of(&second));
    assert!(info.is_listable(&disk, info.root_cluster));
    let es = match info.list_directory(&disk, info.root_cluster) {
        Ok(es) => es,
        Err(_) => panic!("not listed"),
    };
    let got: Vec<(&str, bool, u32, u32)> = es
        .iter()
        .map(|e| (e.name.as_str(), e.is_dir, e.start_cluster, e.size))
        .collect();
    assert_eq!(
        got,
        vec![
            ("KERNEL.BIN", false, 0x0012_3456, 1000),
            ("DOCS", true, 5, 0),
            ("A.B", false, 7, 3),
        ]
    );
}

#[test]
fn chains_that_break_off() {
    let mut disk = Disk::new();
    disk.load(START, &boot_sector());
    let info = mounted(&disk);
    let full = sector_of(&[entry(b"A          ", 0x20, 7, 3); 16]);
    assert!(info.is_listable(&disk, 2));
    assert!(matches!(info.list_directory(&disk, 2), Err(FsError::Missing(FIRST_DATA))));
    disk.load(FIRST_DATA, &full);
    assert!(matches!(info.list_directory(&disk, 2), Err(FsError::Missing(FIRST_FAT))));
    disk.load(FIRST_FAT, &table(&[]));
    assert!(matches!(
        info.list_directory(&disk, 2),
        Err(FsError::Failed("FAT32: cluster chain hit a free (0) entry unexpectedly"))
    ));
    disk.load(FIRST_FAT, &table(&[(2, 0x0FFF_FFFF)]));
    assert_eq!(info.list_directory(&disk, 2).map(|es| es.len()).ok(), Some(16));
}

#[test]
fn chains_that_cannot_be_walked() {
    let mut disk = Disk::new();
    disk.load(START, &boot_sector());
    let info = mounted(&disk);
    let full = sector_of(&[entry(b"A          ", 0x20, 7, 3); 16]);
    for c in 0..10 {
        disk.load(FIRST_DATA + c, &full);
    }
    // One that comes back to itself after a while, and one that leaves the data area.
    disk.load(
        FIRST_FAT,
        &table(&[(2, 3), (3, 4), (4, 5), (5, 6), (6, 7), (7, 5), (8, 1), (9, 0x0FFF_FFFF)]),
    );
    assert!(!info.is_listable(&disk, 2));
    assert!(!info.is_listable(&disk, 8));
    assert!(!info.is_listable(&disk, 0));
    assert!(!info.is_listable(&disk, 0x4000_0000));
    assert!(info.is_listable(&disk, 9));
    // The end of the directory comes before the chain comes back.
    disk.load(FIRST_DATA + 4, &[0; 512]);
    assert!(info.is_listable(&disk, 2));
    assert_eq!(info.list_directory(&disk, 2).map(|es| es.len()).ok(), Some(64));
}
