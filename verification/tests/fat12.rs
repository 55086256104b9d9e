use agentos_kernel::disk::{Disk, FsError};
use agentos_kernel::fat12::volume::DirLocation;
use agentos_kernel::fat12::{read_bpb, to_fat_datetime, Fat12Info};
use agentos_kernel::partition::PartitionEntry;
use agentos_kernel::rtc::RtcTime;

const START: u32 = 100;
const RESERVED: u32 = 1;
const FATS: u32 = 2;
const FAT_SIZE: u32 = 6;
const ROOT_SECTORS: u32 = 32;
const FIRST_FAT: u32 = START + RESERVED;
const FIRST_ROOT: u32 = FIRST_FAT + FATS * FAT_SIZE;
const FIRST_DATA: u32 = FIRST_ROOT + ROOT_SECTORS;

const NOW: RtcTime = RtcTime { year: 2026, month: 11, day: 15, hours: 13, minutes: 37, seconds: 42 };

fn partition() -> PartitionEntry {
    PartitionEntry { bootable: true, partition_type: 0x0C, start_lba: START, sector_count: 8000 }
}

fn boot_sector() -> [u8; 512] {
    let mut s = [0u8; 512];
    s[12] = 2; // 512 bytes per sector
    s[13] = 2; // sectors per cluster
    s[14] = RESERVED as u8;
    s[16] = FATS as u8;
    s[18] = 2; // 512 root entries
    s[22] = FAT_SIZE as u8;
    s[510] = 0x55;
    s[511] = 0xAA;
    s
}

/// A formatted volume with nothing on it.
fn volume() -> (Disk, Fat12Info) {
    let mut disk = Disk::new();
    disk.load(START, &boot_sector());
    for lba in FIRST_FAT..FIRST_DATA + 1200 {
        disk.load(lba, &[0u8; 512]);
    }
    let mut fat = [0u8; 512];
    fat[0] = 0xF8;
    fat[1] = 0xFF;
    fat[2] = 0xFF;
    disk.load(FIRST_FAT, &fat);
    disk.load(FIRST_FAT + FAT_SIZE, &fat);
    let fs = match read_bpb(&disk, &partition()) {
        Ok(fs) => fs,
        Err(_) => panic!("the boot sector was refused"),
    };
    assert!(fs.geometry_is_sound());
    (disk, fs)
}

fn pattern(len: u32, modulus: u32) -> Vec<u8> {
    (0..len).map(|i| (i % modulus) as u8).collect()
}

fn root_names(fs: &Fat12Info, disk: &Disk) -> Vec<String> {
    match fs.list_root_directory(disk) {
        Ok(entries) => entries.into_iter().map(|e| e.name).collect(),
        Err(_) => panic!("the root directory was not read"),
    }
}

fn cluster_of(fs: &Fat12Info, disk: &Disk, name: &str) -> u32 {
    match fs.find_entry_location_in(disk, DirLocation::Root, name) {
        Ok((_, _, entry)) => entry.start_cluster,
        Err(_) => panic!("no such entry"),
    }
}

fn read(fs: &Fat12Info, disk: &Disk, name: &str) -> Option<Vec<u8>> {
    assert!(fs.is_usable(disk, DirLocation::Root, name));
    fs.read_file(disk, name).ok()
}

fn refused(r: Result<Fat12Info, FsError>) -> &'static str {
    match r {
        Err(FsError::Failed(m)) => m,
        _ => panic!("not refused"),
    }
}

#[test]
fn boot_sector_errors() {
    let changes: [(usize, u8, &str); 4] = [
        (510, 0, "FAT12: boot sector missing 0x55AA signature"),
        (12, 4, "FAT12: only 512-byte sectors are supported"),
        (18, 0, "not FAT12/16 (root_entry_count == 0 means this is FAT32)"),
        (22, 0, "FAT12: fat_size_16 is 0 - not a valid FAT12/16 BPB"),
    ];
    for (at, byte, message) in changes {
        let mut s = boot_sector();
        s[at] = byte;
        let mut disk = Disk::new();
        disk.load(START, &s);
        assert_eq!(refused(read_bpb(&disk, &partition())), message);
    }
}

#[test]
fn sectors_that_are_not_there_are_asked_for() {
    let mut disk = Disk::new();
    assert!(matches!(read_bpb(&disk, &partition()), Err(FsError::Missing(START))));
    disk.load(START, &boot_sector());
    for lba in FIRST_FAT..FIRST_FAT + FAT_SIZE {
        assert!(matches!(read_bpb(&disk, &partition()), Err(FsError::Missing(l)) if l == lba));
        disk.load(lba, &[0u8; 512]);
    }
    assert!(read_bpb(&disk, &partition()).is_ok());
}

#[test]
fn a_sector_that_cannot_be_read_is_an_error() {
    let mut disk = Disk::new();
    disk.fail(START, "ATA read: drive reported an error (ERR bit set)");
    assert_eq!(
        refused(read_bpb(&disk, &partition())),
        "ATA read: drive reported an error (ERR bit set)"
    );
}

#[test]
fn created_file_reads_back() {
    let (mut disk, mut fs) = volume();
    let content = b"AgentOS created this file for real.";
    assert!(fs.create_file(&mut disk, "AGENTOS.TXT", content, &NOW).is_ok());
    assert_eq!(read(&fs, &disk, "AGENTOS.TXT"), Some(content.to_vec()));
    assert_eq!(read(&fs, &disk, "agentos.txt"), Some(content.to_vec()));
    assert_eq!(root_names(&fs, &disk), vec!["AGENTOS.TXT"]);
}

#[test]
fn the_disk_holds_what_was_created() {
    let (mut disk, mut fs) = volume();
    assert!(fs.create_file(&mut disk, "AGENTOS.TXT", b"abc", &NOW).is_ok());
    // What is written comes out in order, and another mount finds the file.
    let mut other = Disk::new();
    other.load(START, &boot_sector());
    for lba in FIRST_FAT..FIRST_DATA + 100 {
        other.load(lba, &[0u8; 512]);
    }
    let writes = disk.pending();
    for (lba, sector) in &writes {
        other.load(*lba, sector);
    }
    assert!(matches!(fs.finish(&mut disk, Ok(7), writes.len(), None), Ok(7)));
    assert!(disk.pending().is_empty());
    let again = match read_bpb(&other, &partition()) {
        Ok(fs) => fs,
        Err(_) => panic!("the boot sector was refused"),
    };
    assert_eq!(read(&again, &other, "AGENTOS.TXT"), Some(b"abc".to_vec()));
    // The first copy of the table ends the file's chain, and the second is left alone.
    match other.read_sector(FIRST_FAT) {
        Ok(s) => assert_eq!(&s[..5], &[0xF8, 0xFF, 0xFF, 0xFF, 0x0F]),
        Err(_) => panic!("not read"),
    }
    match other.read_sector(FIRST_FAT + FAT_SIZE) {
        Ok(s) => assert_eq!(s, [0; 512]),
        Err(_) => panic!("not read"),
    }
    // The entry: name, attribute, first cluster, size and dates.
    let root = match other.read_sector(FIRST_ROOT) {
        Ok(s) => s,
        Err(_) => panic!("not read"),
    };
    assert_eq!(&root[0..11], b"AGENTOS TXT");
    assert_eq!(root[11], 0x20);
    assert_eq!([root[26], root[27]], [2, 0]);
    assert_eq!([root[28], root[29], root[30], root[31]], [3, 0, 0, 0]);
    let (time, date) = to_fat_datetime(&NOW);
    assert_eq!([root[22], root[23]], time.to_le_bytes());
    assert_eq!([root[24], root[25]], date.to_le_bytes());
}

#[test]
fn dates_are_packed() {
    let (time, date) = to_fat_datetime(&NOW);
    assert_eq!(date, (46 << 9) | (11 << 5) | 15);
    assert_eq!(time, (13 << 11) | (37 << 5) | 21);
    assert_eq!(to_fat_datetime(&RtcTime { year: 1970, ..NOW }).1, (11 << 5) | 15);
    assert_eq!(to_fat_datetime(&RtcTime { year: 2200, ..NOW }).1, (127 << 9) | (11 << 5) | 15);
}

#[test]
fn deleted_file_is_gone() {
    let (mut disk, mut fs) = volume();
    let content = b"temporary file for delete_file test";
    assert!(fs.create_file(&mut disk, "DELETEME.TXT", content, &NOW).is_ok());
    assert!(read(&fs, &disk, "DELETEME.TXT").is_some());
    let cluster = cluster_of(&fs, &disk, "DELETEME.TXT");
    assert!(!fs.cluster_is_free(cluster));
    assert!(fs.delete_file(&mut disk, "DELETEME.TXT").is_ok());
    assert!(read(&fs, &disk, "DELETEME.TXT").is_none());
    assert!(fs.cluster_is_free(cluster));
    assert!(root_names(&fs, &disk).is_empty());
    assert!(matches!(
        fs.delete_file(&mut disk, "DELETEME.TXT"),
        Err(FsError::Failed(_))
    ));
}

#[test]
fn file_of_several_clusters() {
    let (mut disk, mut fs) = volume();
    let content = pattern(3100, 256);
    assert!(fs.create_file(&mut disk, "BIGFILE.TXT", &content, &NOW).is_ok());
    assert_eq!(read(&fs, &disk, "BIGFILE.TXT"), Some(content));
    assert!(fs.chain_is_sound(cluster_of(&fs, &disk, "BIGFILE.TXT")));
    assert!(fs.delete_file(&mut disk, "BIGFILE.TXT").is_ok());
    assert!(read(&fs, &disk, "BIGFILE.TXT").is_none());
}

#[test]
fn chain_over_several_sectors_of_the_table() {
    let (mut disk, mut fs) = volume();
    let content = pattern(500 * 1024, 251);
    assert!(fs.create_file(&mut disk, "LONG.BIN", &content, &NOW).is_ok());
    assert_eq!(read(&fs, &disk, "LONG.BIN"), Some(content));
    // Number 341 stands in two sectors of the table.
    assert!(!fs.cluster_is_free(341));
    assert!(fs.write_file(&mut disk, "LONG.BIN", b"short").is_ok());
    assert!(fs.cluster_is_free(341));
    assert_eq!(read(&fs, &disk, "LONG.BIN"), Some(b"short".to_vec()));
}

#[test]
fn file_grows_and_shrinks() {
    let (mut disk, mut fs) = volume();
    let initial = pattern(500, 200);
    let grown = pattern(2500, 231);
    let shrunk = pattern(300, 199);
    assert!(fs.create_file(&mut disk, "RESIZE.TXT", &initial, &NOW).is_ok());
    assert_eq!(read(&fs, &disk, "RESIZE.TXT"), Some(initial));
    assert!(fs.write_file(&mut disk, "RESIZE.TXT", &grown).is_ok());
    assert_eq!(read(&fs, &disk, "RESIZE.TXT"), Some(grown));
    let third = 4u32;
    assert!(!fs.cluster_is_free(third));
    assert!(fs.write_file(&mut disk, "RESIZE.TXT", &shrunk).is_ok());
    assert_eq!(read(&fs, &disk, "RESIZE.TXT"), Some(shrunk));
    assert!(fs.cluster_is_free(third));
    assert!(fs.delete_file(&mut disk, "RESIZE.TXT").is_ok());
    assert!(read(&fs, &disk, "RESIZE.TXT").is_none());
}

#[test]
fn file_keeps_its_size_when_overwritten() {
    let (mut disk, mut fs) = volume();
    let original = pattern(2048, 7);
    assert!(fs.create_file(&mut disk, "BOOT-S~2", &original, &NOW).is_ok());
    let other = pattern(2048, 256);
    assert!(fs.write_file(&mut disk, "BOOT-S~2", &other).is_ok());
    assert_eq!(read(&fs, &disk, "BOOT-S~2"), Some(other));
    assert!(fs.write_file(&mut disk, "BOOT-S~2", &original).is_ok());
    assert_eq!(read(&fs, &disk, "BOOT-S~2"), Some(original));
}

#[test]
fn writing_a_file_that_is_not_there() {
    let (mut disk, mut fs) = volume();
    assert!(matches!(fs.write_file(&mut disk, "NONE.TXT", b"x"), Err(FsError::Failed(_))));
    assert!(disk.pending().is_empty());
}

#[test]
fn name_that_is_taken_is_refused() {
    let (mut disk, mut fs) = volume();
    assert!(fs.create_file(&mut disk, "A.TXT", b"1", &NOW).is_ok());
    assert!(fs.create_file(&mut disk, "a.txt", b"2", &NOW).is_err());
    assert!(fs.create_directory(&mut disk, "A.TXT", &NOW).is_err());
    assert_eq!(read(&fs, &disk, "A.TXT"), Some(b"1".to_vec()));
}

#[test]
fn directories_hold_files() {
    let (mut disk, mut fs) = volume();
    assert!(fs.create_directory(&mut disk, "SUBTEST", &NOW).is_ok());
    let dir = cluster_of(&fs, &disk, "SUBTEST");
    let initial = b"hello from inside a subdirectory";
    let grown = pattern(1500, 211);
    assert!(fs.create_file_in(&mut disk, dir, "INSIDE.TXT", initial, &NOW).is_ok());
    assert_eq!(fs.read_file_in(&disk, dir, "INSIDE.TXT").ok(), Some(initial.to_vec()));
    assert!(fs.write_file_in(&mut disk, dir, "INSIDE.TXT", &grown).is_ok());
    assert_eq!(fs.read_file_in(&disk, dir, "INSIDE.TXT").ok(), Some(grown));
    assert!(matches!(fs.delete_directory(&mut disk, "SUBTEST"), Err(FsError::Failed(_))));
    assert!(fs.delete_file_in(&mut disk, dir, "INSIDE.TXT").is_ok());
    assert!(fs.read_file_in(&disk, dir, "INSIDE.TXT").is_err());
    assert!(fs.delete_directory(&mut disk, "SUBTEST").is_ok());
    assert!(root_names(&fs, &disk).is_empty());
}

#[test]
fn a_directory_is_no_file() {
    let (mut disk, mut fs) = volume();
    assert!(fs.create_directory(&mut disk, "TESTDIR", &NOW).is_ok());
    assert!(fs.create_file(&mut disk, "FILE.TXT", b"x", &NOW).is_ok());
    assert!(fs.read_file(&disk, "TESTDIR").is_err());
    assert!(fs.delete_file(&mut disk, "TESTDIR").is_err());
    assert!(fs.write_file(&mut disk, "TESTDIR", b"y").is_err());
    assert!(fs.delete_directory(&mut disk, "FILE.TXT").is_err());
}

#[test]
fn nested_directories_know_their_parents() {
    let (mut disk, mut fs) = volume();
    assert!(fs.create_directory(&mut disk, "NESTTEST", &NOW).is_ok());
    let outer = cluster_of(&fs, &disk, "NESTTEST");
    assert!(fs.create_directory_in(&mut disk, outer, "INNER", &NOW).is_ok());
    let entries = match fs.list_directory(&disk, outer) {
        Ok(e) => e,
        Err(_) => panic!("not listed"),
    };
    assert_eq!(entries.len(), 3);
    assert_eq!(entries[0].name, ".");
    assert_eq!(entries[0].start_cluster, outer);
    assert_eq!(entries[1].name, "..");
    assert_eq!(entries[1].start_cluster, 0);
    assert_eq!(entries[2].name, "INNER");
    assert!(entries[2].is_dir);
    let inner = entries[2].start_cluster;
    let inside = match fs.list_directory(&disk, inner) {
        Ok(e) => e,
        Err(_) => panic!("not listed"),
    };
    assert_eq!(inside.len(), 2);
    assert_eq!(inside[1].name, "..");
    assert_eq!(inside[1].start_cluster, outer);
    assert!(fs.delete_directory(&mut disk, "NESTTEST").is_err());
    assert!(fs.delete_directory_in(&mut disk, outer, "INNER").is_ok());
    assert!(fs.delete_directory(&mut disk, "NESTTEST").is_ok());
}

#[test]
fn a_directory_grows() {
    let (mut disk, mut fs) = volume();
    assert!(fs.create_directory(&mut disk, "GROWTEST", &NOW).is_ok());
    let dir = cluster_of(&fs, &disk, "GROWTEST");
    for i in 0..31u8 {
        let name = format!("F{}.TXT", i);
        assert!(fs.create_file_in(&mut disk, dir, &name, &[i], &NOW).is_ok());
    }
    assert_eq!(fs.list_directory(&disk, dir).map(|e| e.len()).ok(), Some(33));
    assert_eq!(fs.read_file_in(&disk, dir, "F30.TXT").ok(), Some(vec![30u8]));
    for i in 0..31u8 {
        assert!(fs.delete_file_in(&mut disk, dir, &format!("F{}.TXT", i)).is_ok());
    }
    assert!(fs.delete_directory(&mut disk, "GROWTEST").is_ok());
}

#[test]
fn long_names_have_aliases() {
    let (mut disk, mut fs) = volume();
    let data = b"Real VFAT long name support!";
    assert!(fs.create_file(&mut disk, "long name.txt", data, &NOW).is_ok());
    assert_eq!(root_names(&fs, &disk), vec!["long name.txt"]);
    assert_eq!(read(&fs, &disk, "long name.txt"), Some(data.to_vec()));
    assert_eq!(read(&fs, &disk, "LONGN~1.TXT"), Some(data.to_vec()));
    assert!(fs.create_file(&mut disk, "LONGN~1.TXT", b"other", &NOW).is_err());
    assert!(fs.delete_file(&mut disk, "LONGN~1.TXT").is_ok());
    assert!(read(&fs, &disk, "long name.txt").is_none());
    assert!(read(&fs, &disk, "LONGN~1.TXT").is_none());
    assert!(fs.create_directory(&mut disk, "My Documents", &NOW).is_ok());
    let entries = match fs.list_root_directory(&disk) {
        Ok(e) => e,
        Err(_) => panic!("not listed"),
    };
    assert!(entries.iter().any(|e| e.name == "My Documents" && e.is_dir));
    assert!(fs.delete_directory(&mut disk, "My Documents").is_ok());
    assert!(root_names(&fs, &disk).is_empty());
}

#[test]
fn long_names_of_several_entries() {
    let (mut disk, mut fs) = volume();
    let name = "a very long descriptive name.txt";
    let data = b"multi-chunk VFAT works!";
    assert!(fs.create_file(&mut disk, name, data, &NOW).is_ok());
    assert_eq!(root_names(&fs, &disk), vec![name]);
    assert_eq!(read(&fs, &disk, name), Some(data.to_vec()));
    assert_eq!(read(&fs, &disk, "AVERY~1.TXT"), Some(data.to_vec()));
    // A second name with the same beginning gets the next alias.
    assert!(fs.create_file(&mut disk, "a very long other name.txt", b"2", &NOW).is_ok());
    assert_eq!(read(&fs, &disk, "AVERY~2.TXT"), Some(b"2".to_vec()));
    assert!(fs.delete_file(&mut disk, name).is_ok());
    assert!(read(&fs, &disk, name).is_none());
    assert!(read(&fs, &disk, "AVERY~1.TXT").is_none());
    assert_eq!(read(&fs, &disk, "a very long other name.txt"), Some(b"2".to_vec()));
}

#[test]
fn a_name_that_cannot_be_written_is_refused() {
    let (mut disk, mut fs) = volume();
    assert!(fs.create_file(&mut disk, "a*b?c long.txt", b"x", &NOW).is_err());
    assert!(root_names(&fs, &disk).is_empty());
}

#[test]
fn a_full_volume_is_refused() {
    let (mut disk, mut fs) = volume();
    let too_much = vec![1u8; 3 * 1024 * 1024];
    assert!(fs.create_file(&mut disk, "HUGE.BIN", &too_much, &NOW).is_err());
    assert!(root_names(&fs, &disk).is_empty());
}

#[test]
fn an_empty_file() {
    let (mut disk, mut fs) = volume();
    assert!(fs.create_file(&mut disk, "EMPTY.TXT", b"", &NOW).is_ok());
    assert_eq!(read(&fs, &disk, "EMPTY.TXT"), Some(Vec::new()));
}

#[test]
fn other_files_are_left_alone() {
    let (mut disk, mut fs) = volume();
    let a = pattern(1500, 13);
    let b = pattern(1500, 17);
    assert!(fs.create_file(&mut disk, "A.BIN", &a, &NOW).is_ok());
    assert!(fs.create_file(&mut disk, "B.BIN", &b, &NOW).is_ok());
    assert!(fs.write_file(&mut disk, "A.BIN", &pattern(5000, 19)).is_ok());
    assert_eq!(read(&fs, &disk, "B.BIN"), Some(b.clone()));
    assert!(fs.delete_file(&mut disk, "A.BIN").is_ok());
    assert_eq!(read(&fs, &disk, "B.BIN"), Some(b));
}

#[test]
fn new_entries_leave_other_files_alone() {
    let (mut disk, mut fs) = volume();
    let long = "a name that takes several entries.txt";
    assert!(fs.create_file(&mut disk, "FIRST.TXT", b"1", &NOW).is_ok());
    assert!(fs.create_file(&mut disk, long, b"2", &NOW).is_ok());
    assert!(fs.create_file(&mut disk, "LAST.TXT", b"3", &NOW).is_ok());
    // The slots of the first entry are taken again, in front of the others.
    assert!(fs.delete_file(&mut disk, "FIRST.TXT").is_ok());
    assert!(fs.create_file(&mut disk, "AGAIN.TXT", &pattern(4000, 7), &NOW).is_ok());
    assert!(fs.create_directory(&mut disk, "A directory", &NOW).is_ok());
    assert_eq!(read(&fs, &disk, long), Some(b"2".to_vec()));
    assert_eq!(read(&fs, &disk, "LAST.TXT"), Some(b"3".to_vec()));
    assert!(fs.delete_directory(&mut disk, "A directory").is_ok());
    assert_eq!(read(&fs, &disk, long), Some(b"2".to_vec()));
    assert_eq!(read(&fs, &disk, "AGAIN.TXT"), Some(pattern(4000, 7)));
}

#[test]
fn requests_are_repeated_until_all_sectors_are_there() {
    let (whole, _) = volume();
    let mut disk = Disk::new();
    let mut asked = 0;
    let mut fs = loop {
        match read_bpb(&disk, &partition()) {
            Ok(fs) => break fs,
            Err(FsError::Missing(lba)) => {
                asked += 1;
                match whole.read_sector(lba) {
                    Ok(sector) => disk.load(lba, &sector),
                    Err(_) => panic!("no such sector"),
                }
            }
            Err(FsError::Failed(m)) => panic!("{}", m),
        }
    };
    assert_eq!(asked, 1 + FAT_SIZE);
    for (name, made) in [("NEW.TXT", true), ("NEW.TXT", false)] {
        let outcome = loop {
            match fs.create_file(&mut disk, name, b"data", &NOW) {
                Err(FsError::Missing(lba)) => {
                    // Nothing was changed by the request.
                    assert!(disk.pending().is_empty());
                    match whole.read_sector(lba) {
                        Ok(sector) => disk.load(lba, &sector),
                        Err(_) => panic!("no such sector"),
                    }
                }
                other => break other,
            }
        };
        let taken = disk.pending().len();
        assert_eq!(fs.finish(&mut disk, outcome, taken, None).is_ok(), made);
    }
    assert_eq!(read(&fs, &disk, "NEW.TXT"), Some(b"data".to_vec()));
}

fn sectors(disk: &Disk, from: u32, to: u32) -> Vec<[u8; 512]> {
    (from..to)
        .map(|lba| match disk.read_sector(lba) {
            Ok(s) => s,
            Err(_) => panic!("sector {} is not there", lba),
        })
        .collect()
}

fn table(disk: &Disk) -> Vec<[u8; 512]> {
    sectors(disk, FIRST_FAT, FIRST_FAT + FAT_SIZE)
}

/// The entry of a cluster in the table on disk.
fn link(disk: &Disk, cluster: u32) -> u32 {
    let bytes: Vec<u8> = table(disk).concat();
    let at = (cluster * 3 / 2) as usize;
    let pair = bytes[at] as u32 + 256 * bytes[at + 1] as u32;
    if cluster % 2 == 0 {
        pair % 4096
    } else {
        pair / 16
    }
}

#[test]
fn a_new_file_is_listed_once() {
    let (mut disk, mut fs) = volume();
    for name in ["ONE.TXT", "TWO.TXT", "THREE.TXT"] {
        assert!(fs.create_file(&mut disk, name, b"x", &NOW).is_ok());
    }
    // The slot of the second one is taken by the next short name.
    assert!(fs.delete_file(&mut disk, "TWO.TXT").is_ok());
    assert!(fs.create_file(&mut disk, "A long name.text", &[7; 1500], &NOW).is_ok());
    assert!(fs.create_file(&mut disk, "four.txt", b"", &NOW).is_ok());
    assert_eq!(
        root_names(&fs, &disk),
        vec!["ONE.TXT", "FOUR.TXT", "THREE.TXT", "A long name.text"]
    );
    let entries = match fs.list_root_directory(&disk) {
        Ok(entries) => entries,
        Err(_) => panic!("the root directory was not read"),
    };
    let long: Vec<_> = entries.iter().filter(|e| e.name == "A long name.text").collect();
    assert_eq!(long.len(), 1);
    assert!(!long[0].is_dir);
    assert_eq!(long[0].size, 1500);
}

#[test]
fn a_write_resizes_the_chain() {
    let (mut disk, mut fs) = volume();
    assert!(fs.create_file(&mut disk, "GROW.BIN", &pattern(5000, 251), &NOW).is_ok());
    let start = cluster_of(&fs, &disk, "GROW.BIN");
    assert_eq!(start, 2);
    assert_eq!([2, 3, 4, 5, 6].map(|c| link(&disk, c)), [3, 4, 5, 6, 0xFFF]);
    assert!(fs.write_file(&mut disk, "GROW.BIN", &pattern(1025, 251)).is_ok());
    assert_eq!([2, 3, 4, 5, 6].map(|c| link(&disk, c)), [3, 0xFFF, 0, 0, 0]);
    assert_eq!(cluster_of(&fs, &disk, "GROW.BIN"), start);
    assert!(fs.write_file(&mut disk, "GROW.BIN", &[]).is_ok());
    assert_eq!([2, 3].map(|c| link(&disk, c)), [0xFFF, 0]);
    assert!(fs.write_file(&mut disk, "GROW.BIN", &pattern(3000, 13)).is_ok());
    assert_eq!([2, 3, 4].map(|c| link(&disk, c)), [3, 4, 0xFFF]);
    assert_eq!(cluster_of(&fs, &disk, "GROW.BIN"), start);
    match fs.find_entry_location_in(&disk, DirLocation::Root, "GROW.BIN") {
        Ok((_, _, e)) => assert_eq!(e.size, 3000),
        Err(_) => panic!("no such entry"),
    }
}

#[test]
fn deleting_takes_creating_back() {
    let (mut disk, mut fs) = volume();
    assert!(fs.create_file(&mut disk, "KEPT.TXT", &pattern(1500, 5), &NOW).is_ok());
    let before = table(&disk);
    for (name, len) in [("GONE.TXT", 0), ("GONE.TXT", 4000), ("a rather long name.txt", 2049)] {
        assert!(fs.create_file(&mut disk, name, &pattern(len, 99), &NOW).is_ok());
        assert_ne!(table(&disk), before);
        let (lba, offset) = match fs.find_entry_location_in(&disk, DirLocation::Root, name) {
            Ok((lba, offset, _)) => (lba, offset),
            Err(_) => panic!("no such entry"),
        };
        let mut root = sectors(&disk, FIRST_ROOT, FIRST_DATA);
        assert!(fs.delete_file(&mut disk, name).is_ok());
        assert_eq!(table(&disk), before);
        assert_eq!(read(&fs, &disk, name), None);
        root[(lba - FIRST_ROOT) as usize][offset] = 0xE5;
        assert_eq!(sectors(&disk, FIRST_ROOT, FIRST_DATA), root);
    }
}

#[test]
fn a_new_directory_is_cleared() {
    let (mut disk, mut fs) = volume();
    for lba in FIRST_DATA..FIRST_DATA + 2 {
        disk.load(lba, &[0xAA; 512]);
    }
    assert!(fs.create_directory(&mut disk, "TESTDIR", &NOW).is_ok());
    let c = cluster_of(&fs, &disk, "TESTDIR");
    assert_eq!(c, 2);
    let cluster: Vec<u8> = sectors(&disk, FIRST_DATA, FIRST_DATA + 2).concat();
    assert!(cluster[64..].iter().all(|b| *b == 0));
    assert_eq!(root_names(&fs, &disk), vec!["TESTDIR"]);
    let inside = match fs.list_directory(&disk, c) {
        Ok(entries) => entries,
        Err(_) => panic!("the directory was not read"),
    };
    let seen: Vec<(String, bool, u32)> =
        inside.into_iter().map(|e| (e.name, e.is_dir, e.start_cluster)).collect();
    assert_eq!(seen, vec![(".".to_string(), true, c), ("..".to_string(), true, 0)]);
}

#[test]
fn a_directory_gains_one_entry() {
    let (mut disk, mut fs) = volume();
    assert!(fs.create_directory(&mut disk, "OUTER", &NOW).is_ok());
    let outer = cluster_of(&fs, &disk, "OUTER");
    assert!(fs.create_file_in(&mut disk, outer, "FILE.TXT", b"x", &NOW).is_ok());
    assert!(fs.create_directory_in(&mut disk, outer, "INNER", &NOW).is_ok());
    let entries = match fs.list_directory(&disk, outer) {
        Ok(entries) => entries,
        Err(_) => panic!("the directory was not read"),
    };
    let names: Vec<&str> = entries.iter().map(|e| e.name.as_str()).collect();
    assert_eq!(names, vec![".", "..", "FILE.TXT", "INNER"]);
    let inner = entries[3].start_cluster;
    assert!(entries[3].is_dir);
    let inside = match fs.list_directory(&disk, inner) {
        Ok(entries) => entries,
        Err(_) => panic!("the directory was not read"),
    };
    let links: Vec<u32> = inside.iter().map(|e| e.start_cluster).collect();
    assert_eq!(links, vec![inner, outer]);
}

fn known_as(disk: &Disk, lba: u32) -> Option<[u8; 512]> {
    disk.read_sector(lba).ok()
}

/// Runs a request against a drive that takes only so many writes, for all numbers of writes.
fn refuse_each_write(
    prepare: impl Fn(&mut Disk, &mut Fat12Info),
    request: impl Fn(&mut Disk, &mut Fat12Info) -> Result<(), FsError>,
) {
    let mut taken = 0;
    loop {
        let (mut disk, mut fs) = volume();
        prepare(&mut disk, &mut fs);
        let n = disk.pending().len();
        assert!(fs.finish(&mut disk, Ok(()), n, None).is_ok());
        let end = FIRST_DATA + 60;
        let mut drive = sectors(&disk, START, end);
        let outcome = request(&mut disk, &mut fs);
        assert!(outcome.is_ok());
        let writes = disk.pending();
        assert!(writes.len() > 1);
        if taken == writes.len() {
            break;
        }
        for (lba, sector) in &writes[..taken] {
            drive[(lba - START) as usize] = *sector;
        }
        let refused = writes[taken].0;
        let said = fs.finish(&mut disk, outcome, taken, Some("no more"));
        assert!(matches!(said, Err(FsError::Failed("no more"))));
        assert!(disk.pending().is_empty());
        for lba in START..end {
            let want = if lba == refused { None } else { Some(drive[(lba - START) as usize]) };
            assert_eq!(known_as(&disk, lba), want);
        }
        // Once the sector is read again, the volume is what another mount finds.
        disk.load(refused, &drive[(refused - START) as usize]);
        let again = match read_bpb(&disk, &partition()) {
            Ok(fs) => fs,
            Err(_) => panic!("the boot sector was refused"),
        };
        for c in 2..30 {
            assert_eq!(fs.cluster_is_free(c), again.cluster_is_free(c));
        }
        assert_eq!(root_names(&fs, &disk), root_names(&again, &disk));
        taken += 1;
    }
}

#[test]
fn a_refused_write_ends_creating() {
    refuse_each_write(
        |_, _| {},
        |disk, fs| fs.create_file(disk, "a long name.txt", &pattern(3000, 7), &NOW),
    );
    refuse_each_write(|_, _| {}, |disk, fs| fs.create_directory(disk, "DIR", &NOW));
}

#[test]
fn a_refused_write_ends_writing_and_deleting() {
    let two = |disk: &mut Disk, fs: &mut Fat12Info| {
        assert!(fs.create_file(disk, "ONE.TXT", &pattern(5000, 7), &NOW).is_ok());
        assert!(fs.create_directory(disk, "DIR", &NOW).is_ok());
    };
    refuse_each_write(two, |disk, fs| fs.write_file(disk, "ONE.TXT", &pattern(2000, 9)));
    refuse_each_write(two, |disk, fs| fs.write_file(disk, "ONE.TXT", &pattern(9000, 9)));
    refuse_each_write(two, |disk, fs| fs.delete_file(disk, "ONE.TXT"));
    refuse_each_write(two, |disk, fs| fs.delete_directory(disk, "DIR"));
}

#[test]
fn an_empty_file_without_a_cluster_is_read() {
    let (mut disk, fs) = volume();
    let mut root = [0u8; 512];
    root[..11].copy_from_slice(b"EMPTY   TXT");
    root[11] = 0x20;
    root[32..43].copy_from_slice(b"BAD     TXT");
    root[43] = 0x20;
    root[60] = 5;
    disk.load(FIRST_ROOT, &root);
    let root_dir = DirLocation::Root;
    assert!(fs.is_readable(&disk, root_dir, "EMPTY.TXT"));
    assert!(!fs.is_usable(&disk, root_dir, "EMPTY.TXT"));
    assert_eq!(fs.read_file(&disk, "EMPTY.TXT").ok(), Some(vec![]));
    assert!(fs.is_readable(&disk, root_dir, "NONE.TXT"));
    // Bytes in a cluster that is none.
    assert!(!fs.is_readable(&disk, root_dir, "BAD.TXT"));
}

#[test]
fn files_that_were_created_are_readable() {
    let (mut disk, mut fs) = volume();
    assert!(fs.create_file(&mut disk, "LONG.BIN", &pattern(9000, 7), &NOW).is_ok());
    assert!(fs.is_readable(&disk, DirLocation::Root, "LONG.BIN"));
    assert!(fs.create_directory(&mut disk, "DIR", &NOW).is_ok());
    let dir = DirLocation::Cluster(cluster_of(&fs, &disk, "DIR"));
    assert!(fs.is_readable(&disk, dir, "NONE"));
    assert!(!fs.is_readable(&disk, DirLocation::Cluster(0), "NONE"));
}
