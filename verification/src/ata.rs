//! Reading and writing sectors of the first ATA disk, a word at a time.

use crate::bytes::{fields_of_two_bytes, low_first};
use crate::device::{fits, Op, Step, StepView};
use vstd::prelude::*;

verus! {

pub const DATA: u16 = 0x1F0;

pub const ERROR_FEATURES: u16 = 0x1F1;

pub const SECTOR_COUNT: u16 = 0x1F2;

pub const LBA_LOW: u16 = 0x1F3;

pub const LBA_MID: u16 = 0x1F4;

pub const LBA_HIGH: u16 = 0x1F5;

pub const DRIVE_HEAD: u16 = 0x1F6;

pub const COMMAND_STATUS: u16 = 0x1F7;

pub const CMD_READ_SECTORS: u8 = 0x20;

pub const CMD_WRITE_SECTORS: u8 = 0x30;

pub const CMD_CACHE_FLUSH: u8 = 0xE7;

/// How often the disk is asked for its status before it is given up.
pub const MAX_POLL_ITERATIONS: u32 = 50_000_000;

/// The disk has met an error: bit 0 of its status.
pub open spec fn has_error(status: u64) -> bool {
    status % 2 == 1
}

/// The disk is ready for data: bit 3 of its status.
pub open spec fn wants_data(status: u64) -> bool {
    status / 8 % 2 == 1
}

/// The disk is busy: bit 7 of its status.
pub open spec fn is_busy(status: u64) -> bool {
    status / 128 % 2 == 1
}

/// What selects the first disk and the top four bits of a sector's number.
pub open spec fn head_of(lba: u32) -> u8 {
    (0xE0 + lba / 0x100_0000 % 16) as u8
}

/// What is written to hand the disk a sector's number and a command.
pub open spec fn command_writes(lba: u32, command: u8) -> Seq<Op> {
    seq![
        Op::Out8(SECTOR_COUNT, 1),
        Op::Out8(LBA_LOW, (lba % 256) as u8),
        Op::Out8(LBA_MID, (lba / 256 % 256) as u8),
        Op::Out8(LBA_HIGH, (lba / 65536 % 256) as u8),
        Op::Out8(COMMAND_STATUS, command),
    ]
}

/// The parts of a sector's number make up its low 28 bits.
pub proof fn number_is_handed_over(lba: u32)
    ensures
        lba % 256 + 256 * (lba / 256 % 256) + 65536 * (lba / 65536 % 256) + 0x100_0000 * (head_of(
            lba,
        ) % 16) == lba % 0x1000_0000,
{
    let x = lba as int;
    let a = x / 256;
    let b = x / 65536;
    let c = x / 0x100_0000;
    assert(a / 256 == b && b / 256 == c && c / 16 == x / 0x1000_0000);
    assert(x == 256 * a + x % 256);
    assert(a == 256 * b + a % 256);
    assert(b == 256 * c + b % 256);
    assert(c == 16 * (x / 0x1000_0000) + c % 16);
    assert(head_of(lba) == 0xE0 + c % 16);
    assert(head_of(lba) as int % 16 == c % 16);
}

fn push_command(writes: &mut Vec<Op>, lba: u32, command: u8)
    ensures
        final(writes)@ == old(writes)@ + command_writes(lba, command),
{
    writes.push(Op::Out8(SECTOR_COUNT, 1));
    writes.push(Op::Out8(LBA_LOW, (lba % 256) as u8));
    writes.push(Op::Out8(LBA_MID, (lba / 256 % 256) as u8));
    writes.push(Op::Out8(LBA_HIGH, (lba / 65536 % 256) as u8));
    writes.push(Op::Out8(COMMAND_STATUS, command));
    assert(writes@ =~= old(writes)@ + command_writes(lba, command));
}

/// Reads that take the time that a disk needs after it was selected.
pub open spec fn settling() -> Seq<Op> {
    seq![
        Op::In8(ERROR_FEATURES),
        Op::In8(ERROR_FEATURES),
        Op::In8(ERROR_FEATURES),
        Op::In8(ERROR_FEATURES),
    ]
}

fn push_settling(asks: &mut Vec<Op>)
    ensures
        final(asks)@ == old(asks)@ + settling(),
{
    asks.push(Op::In8(ERROR_FEATURES));
    asks.push(Op::In8(ERROR_FEATURES));
    asks.push(Op::In8(ERROR_FEATURES));
    asks.push(Op::In8(ERROR_FEATURES));
    assert(asks@ =~= old(asks)@ + settling());
}

/// Word `i` of a sector: the low byte comes first.
pub open spec fn word_of(sector: Seq<u8>, i: int) -> u16 {
    (sector[2 * i] + 256 * sector[2 * i + 1]) as u16
}

/// The words of a sector, written one after the other.
pub open spec fn word_writes(sector: Seq<u8>) -> Seq<Op> {
    Seq::new(256, |i: int| Op::Out16(DATA, word_of(sector, i)))
}

/// The words of a sector, read one after the other.
pub open spec fn word_reads() -> Seq<Op> {
    Seq::new(256, |i: int| Op::In16(DATA))
}

/// The bytes of words.
pub open spec fn bytes_of(words: Seq<u64>) -> Seq<u8> {
    Seq::new(
        512,
        |i: int|
            if i % 2 == 0 {
                (words[i / 2] % 256) as u8
            } else {
                (words[i / 2] / 256) as u8
            },
    )
}

/// A sector that is read as the words that it was written as is the same.
pub proof fn words_keep_sector(sector: Seq<u8>, words: Seq<u64>)
    requires
        sector.len() == 512,
        words.len() == 256,
        forall|i: int| 0 <= i < 256 ==> #[trigger] words[i] == word_of(sector, i),
    ensures
        bytes_of(words) == sector,
{
    assert forall|i: int| 0 <= i < 512 implies bytes_of(words)[i] == #[trigger] sector[i] by {
        let w = words[i / 2];
        assert(w == sector[2 * (i / 2)] + 256 * sector[2 * (i / 2) + 1]);
        if i % 2 == 0 {
            assert(2 * (i / 2) == i);
        } else {
            assert(2 * (i / 2) + 1 == i);
        }
    }
    assert(bytes_of(words) =~= sector);
}

fn push_word_writes(writes: &mut Vec<Op>, sector: &[u8; 512])
    ensures
        final(writes)@ == old(writes)@ + word_writes(sector@),
{
    let mut i: usize = 0;
    assert(writes@ =~= old(writes)@ + word_writes(sector@).take(0));
    while i < 256
        invariant
            i <= 256,
            writes@ == old(writes)@ + word_writes(sector@).take(i as int),
        decreases 256 - i,
    {
        let word: u16 = sector[2 * i] as u16 + 256 * (sector[2 * i + 1] as u16);
        writes.push(Op::Out16(DATA, word));
        i = i + 1;
        assert(writes@ =~= old(writes)@ + word_writes(sector@).take(i as int));
    }
    assert(word_writes(sector@).take(256) =~= word_writes(sector@));
}

fn push_word_reads(asks: &mut Vec<Op>)
    ensures
        final(asks)@ == old(asks)@ + word_reads(),
{
    let mut i: usize = 0;
    assert(asks@ =~= old(asks)@ + word_reads().take(0));
    while i < 256
        invariant
            i <= 256,
            asks@ == old(asks)@ + word_reads().take(i as int),
        decreases 256 - i,
    {
        asks.push(Op::In16(DATA));
        i = i + 1;
        assert(asks@ =~= old(asks)@ + word_reads().take(i as int));
    }
    assert(word_reads().take(256) =~= word_reads());
}

/// The array with these bytes.
pub open spec fn sector_with(s: Seq<u8>) -> [u8; 512] {
    choose|a: [u8; 512]| a@ == s
}

fn sector_of(words: &[u64]) -> (sector: [u8; 512])
    requires
        words.len() == 256,
        forall|i: int| 0 <= i < 256 ==> #[trigger] words@[i] < 0x1_0000,
    ensures
        sector == sector_with(bytes_of(words@)),
        sector@ == bytes_of(words@),
{
    let mut sector: [u8; 512] = [0;512];
    let mut i: usize = 0;
    while i < 256
        invariant
            i <= 256,
            words.len() == 256,
            forall|i: int| 0 <= i < 256 ==> #[trigger] words@[i] < 0x1_0000,
            forall|k: int| 0 <= k < 2 * i ==> #[trigger] sector@[k] == bytes_of(words@)[k],
        decreases 256 - i,
    {
        sector[2 * i] = (words[i] % 256) as u8;
        sector[2 * i + 1] = (words[i] / 256) as u8;
        i = i + 1;
    }
    assert(sector@ =~= bytes_of(words@));
    assert(sector =~= sector_with(bytes_of(words@)));
    sector
}

/// How far the reading of a sector is.
#[derive(Debug, Clone, Copy)]
pub enum ReadSector {
    /// The disk is selected.
    Select { lba: u32 },
    /// The disk is given the number and the command.
    Command { lba: u32 },
    /// The disk is waited for.
    Busy { left: u32 },
    /// The data is waited for.
    Ready { left: u32 },
    /// The data is read.
    Data,
    Got { sector: [u8; 512] },
    DriveError,
    TimedOut,
}

impl ReadSector {
    /// A wait has looks left, and not more than a wait can have.
    pub open spec fn wf(self) -> bool {
        match self {
            ReadSector::Select { lba } => true,
            ReadSector::Command { lba } => true,
            ReadSector::Busy { left } => 0 < left <= MAX_POLL_ITERATIONS,
            ReadSector::Ready { left } => 0 < left <= MAX_POLL_ITERATIONS,
            ReadSector::Data => true,
            ReadSector::Got { sector } => true,
            ReadSector::DriveError => true,
            ReadSector::TimedOut => true,
        }
    }

    /// What is done and asked in this state.
    pub open spec fn step(self) -> StepView<Result<[u8; 512], &'static str>> {
        match self {
            ReadSector::Select { lba } => StepView::Next {
                writes: seq![Op::Out8(DRIVE_HEAD, head_of(lba))],
                asks: settling(),
            },
            ReadSector::Command { lba } => StepView::Next {
                writes: command_writes(lba, CMD_READ_SECTORS),
                asks: seq![Op::In8(COMMAND_STATUS)],
            },
            ReadSector::Busy { left } => StepView::Next {
                writes: Seq::empty(),
                asks: seq![Op::In8(COMMAND_STATUS)],
            },
            ReadSector::Ready { left } => StepView::Next {
                writes: Seq::empty(),
                asks: seq![Op::In8(COMMAND_STATUS)],
            },
            ReadSector::Data => StepView::Next {
                writes: Seq::empty(),
                asks: word_reads(),
            },
            ReadSector::Got { sector } => StepView::Done(Ok(sector)),
            ReadSector::DriveError => StepView::Done(
                Err("ATA read: drive reported an error (ERR bit set)"),
            ),
            ReadSector::TimedOut => StepView::Done(
                Err("ATA read: timed out waiting for the drive to respond"),
            ),
        }
    }

    /// Where the answers lead.
    pub open spec fn answered(self, a: Seq<u64>) -> ReadSector {
        match self {
            ReadSector::Select { lba } => ReadSector::Command { lba },
            ReadSector::Command { lba } => if !is_busy(a[0]) {
                if has_error(a[0]) {
                    ReadSector::DriveError
                } else {
                    ReadSector::Ready { left: MAX_POLL_ITERATIONS }
                }
            } else {
                ReadSector::Busy { left: (MAX_POLL_ITERATIONS - 1) as u32 }
            },
            ReadSector::Busy { left } => if !is_busy(a[0]) {
                if has_error(a[0]) {
                    ReadSector::DriveError
                } else {
                    ReadSector::Ready { left: MAX_POLL_ITERATIONS }
                }
            } else if left == 1 {
                ReadSector::TimedOut
            } else {
                ReadSector::Busy { left: (left - 1) as u32 }
            },
            ReadSector::Ready { left } => if wants_data(a[0]) {
                if has_error(a[0]) {
                    ReadSector::DriveError
                } else {
                    ReadSector::Data
                }
            } else if left == 1 {
                ReadSector::TimedOut
            } else {
                ReadSector::Ready { left: (left - 1) as u32 }
            },
            ReadSector::Data => ReadSector::Got { sector: sector_with(bytes_of(a)) },
            ReadSector::Got { sector } => self,
            ReadSector::DriveError => self,
            ReadSector::TimedOut => self,
        }
    }

    /// What is to be done and asked now, or the end of the conversation.
    #[verifier::spinoff_prover]
    #[verifier::rlimit(60)]
    pub fn next(&self) -> (s: Step<Result<[u8; 512], &'static str>>)
        requires
            self.wf(),
        ensures
            s@ == self.step(),
    {
        let mut writes: Vec<Op> = Vec::new();
        let mut asks: Vec<Op> = Vec::new();
        match *self {
            ReadSector::Select { lba } => {
                writes.push(Op::Out8(DRIVE_HEAD, (0xE0 + lba / 0x100_0000 % 16) as u8));
                push_settling(&mut asks);
            },
            ReadSector::Command { lba } => {
                push_command(&mut writes, lba, CMD_READ_SECTORS);
                asks.push(Op::In8(COMMAND_STATUS));
            },
            ReadSector::Busy { left } => {
                asks.push(Op::In8(COMMAND_STATUS));
            },
            ReadSector::Ready { left } => {
                asks.push(Op::In8(COMMAND_STATUS));
            },
            ReadSector::Data => {
                push_word_reads(&mut asks);
            },
            ReadSector::Got { sector } => {
                return Step::Done(Ok(sector));
            },
            ReadSector::DriveError => {
                return Step::Done(
                                Err("ATA read: drive reported an error (ERR bit set)"),
                            );
            },
            ReadSector::TimedOut => {
                return Step::Done(
                                Err("ATA read: timed out waiting for the drive to respond"),
                            );
            },
        }
        proof {
            if let StepView::Next { writes: w, asks: q } = self.step() {
                assert(writes@ =~= w);
                assert(asks@ =~= q);
            }
        }
        Step::Next { writes, asks }
    }

    /// Takes the answers in.
    #[verifier::spinoff_prover]
    #[verifier::rlimit(60)]
    pub fn answer(&self, a: &[u64]) -> (r: ReadSector)
        requires
            self.wf(),
            self.step().answered_by(a@),
        ensures
            r == self.answered(a@),
            r.wf(),
    {
        proof {
            if let StepView::Next { writes, asks } = self.step() {
                assert forall|i: int| 0 <= i < asks.len() implies fits(
                    asks[i],
                    #[trigger] a@[i],
                ) by {}
            }
        }
        match *self {
            ReadSector::Select { lba } => {
                ReadSector::Command { lba }
            },
            ReadSector::Command { lba } => {
                if a[0] / 128 % 2 == 0 {
                    if a[0] % 2 == 1 {
                        ReadSector::DriveError
                    } else {
                        ReadSector::Ready { left: MAX_POLL_ITERATIONS }
                    }
                } else {
                    ReadSector::Busy { left: MAX_POLL_ITERATIONS - 1 }
                }
            },
            ReadSector::Busy { left } => {
                if a[0] / 128 % 2 == 0 {
                    if a[0] % 2 == 1 {
                        ReadSector::DriveError
                    } else {
                        ReadSector::Ready { left: MAX_POLL_ITERATIONS }
                    }
                } else if left == 1 {
                    ReadSector::TimedOut
                } else {
                    ReadSector::Busy { left: left - 1 }
                }
            },
            ReadSector::Ready { left } => {
                if a[0] / 8 % 2 == 1 {
                    if a[0] % 2 == 1 {
                        ReadSector::DriveError
                    } else {
                        ReadSector::Data
                    }
                } else if left == 1 {
                    ReadSector::TimedOut
                } else {
                    ReadSector::Ready { left: left - 1 }
                }
            },
            ReadSector::Data => {
                assert forall|i: int| 0 <= i < 256 implies #[trigger] a@[i] < 0x1_0000 by {
                    assert(fits(word_reads()[i], a@[i]));
                }
                ReadSector::Got { sector: sector_of(a) }
            },
            ReadSector::Got { sector } => {
                ReadSector::Got { sector }
            },
            ReadSector::DriveError => {
                ReadSector::DriveError
            },
            ReadSector::TimedOut => {
                ReadSector::TimedOut
            },
        }
    }
}

/// Begins to read a sector.
pub fn read_sector(lba: u32) -> (r: ReadSector)
    ensures
        r == (ReadSector::Select { lba }),
{
    ReadSector::Select { lba }
}

/// How far the writing of a sector is.
#[derive(Debug, Clone, Copy)]
pub enum WriteSector {
    /// The disk is selected.
    Select { lba: u32, sector: [u8; 512] },
    /// The disk is given the number and the command.
    Command { lba: u32, sector: [u8; 512] },
    /// The disk is waited for.
    Busy { sector: [u8; 512], left: u32 },
    /// The disk is waited for until it takes data.
    Ready { sector: [u8; 512], left: u32 },
    /// The data is written.
    Data { sector: [u8; 512] },
    /// The disk is waited for.
    Written { left: u32 },
    /// The disk is told to keep what it was given.
    Flush,
    /// The disk is waited for.
    Flushing { left: u32 },
    Kept,
    DriveError,
    TransferError,
    TimedOut,
}

impl WriteSector {
    /// A wait has looks left, and not more than a wait can have.
    pub open spec fn wf(self) -> bool {
        match self {
            WriteSector::Select { lba, sector } => true,
            WriteSector::Command { lba, sector } => true,
            WriteSector::Busy { sector, left } => 0 < left <= MAX_POLL_ITERATIONS,
            WriteSector::Ready { sector, left } => 0 < left <= MAX_POLL_ITERATIONS,
            WriteSector::Data { sector } => true,
            WriteSector::Written { left } => 0 < left <= MAX_POLL_ITERATIONS,
            WriteSector::Flush => true,
            WriteSector::Flushing { left } => 0 < left <= MAX_POLL_ITERATIONS,
            WriteSector::Kept => true,
            WriteSector::DriveError => true,
            WriteSector::TransferError => true,
            WriteSector::TimedOut => true,
        }
    }

    /// What is done and asked in this state.
    pub open spec fn step(self) -> StepView<Result<(), &'static str>> {
        match self {
            WriteSector::Select { lba, sector } => StepView::Next {
                writes: seq![Op::Out8(DRIVE_HEAD, head_of(lba))],
                asks: settling(),
            },
            WriteSector::Command { lba, sector } => StepView::Next {
                writes: command_writes(lba, CMD_WRITE_SECTORS),
                asks: seq![Op::In8(COMMAND_STATUS)],
            },
            WriteSector::Busy { sector, left } => StepView::Next {
                writes: Seq::empty(),
                asks: seq![Op::In8(COMMAND_STATUS)],
            },
            WriteSector::Ready { sector, left } => StepView::Next {
                writes: Seq::empty(),
                asks: seq![Op::In8(COMMAND_STATUS)],
            },
            WriteSector::Data { sector } => StepView::Next {
                writes: word_writes(sector@),
                asks: seq![Op::In8(COMMAND_STATUS)],
            },
            WriteSector::Written { left } => StepView::Next {
                writes: Seq::empty(),
                asks: seq![Op::In8(COMMAND_STATUS)],
            },
            WriteSector::Flush => StepView::Next {
                writes: seq![Op::Out8(COMMAND_STATUS, CMD_CACHE_FLUSH)],
                asks: seq![Op::In8(COMMAND_STATUS)],
            },
            WriteSector::Flushing { left } => StepView::Next {
                writes: Seq::empty(),
                asks: seq![Op::In8(COMMAND_STATUS)],
            },
            WriteSector::Kept => StepView::Done(Ok(())),
            WriteSector::DriveError => StepView::Done(
                Err("ATA write: drive reported an error (ERR bit set)"),
            ),
            WriteSector::TransferError => StepView::Done(
                Err("ATA write: drive reported an error after transfer (ERR bit set)"),
            ),
            WriteSector::TimedOut => StepView::Done(
                Err("ATA write: timed out waiting for the drive to respond"),
            ),
        }
    }

    /// Where the answers lead.
    pub open spec fn answered(self, a: Seq<u64>) -> WriteSector {
        match self {
            WriteSector::Select { lba, sector } => WriteSector::Command { lba, sector },
            WriteSector::Command { lba, sector } => if !is_busy(a[0]) {
                if has_error(a[0]) {
                    WriteSector::DriveError
                } else {
                    WriteSector::Ready { sector, left: MAX_POLL_ITERATIONS }
                }
            } else {
                WriteSector::Busy { sector, left: (MAX_POLL_ITERATIONS - 1) as u32 }
            },
            WriteSector::Busy { sector, left } => if !is_busy(a[0]) {
                if has_error(a[0]) {
                    WriteSector::DriveError
                } else {
                    WriteSector::Ready { sector, left: MAX_POLL_ITERATIONS }
                }
            } else if left == 1 {
                WriteSector::TimedOut
            } else {
                WriteSector::Busy { sector, left: (left - 1) as u32 }
            },
            WriteSector::Ready { sector, left } => if wants_data(a[0]) {
                if has_error(a[0]) {
                    WriteSector::DriveError
                } else {
                    WriteSector::Data { sector }
                }
            } else if left == 1 {
                WriteSector::TimedOut
            } else {
                WriteSector::Ready { sector, left: (left - 1) as u32 }
            },
            WriteSector::Data { sector } => if !is_busy(a[0]) {
                if has_error(a[0]) {
                    WriteSector::TransferError
                } else {
                    WriteSector::Flush
                }
            } else {
                WriteSector::Written { left: (MAX_POLL_ITERATIONS - 1) as u32 }
            },
            WriteSector::Written { left } => if !is_busy(a[0]) {
                if has_error(a[0]) {
                    WriteSector::TransferError
                } else {
                    WriteSector::Flush
                }
            } else if left == 1 {
                WriteSector::TimedOut
            } else {
                WriteSector::Written { left: (left - 1) as u32 }
            },
            WriteSector::Flush => if !is_busy(a[0]) {
                WriteSector::Kept
            } else {
                WriteSector::Flushing { left: (MAX_POLL_ITERATIONS - 1) as u32 }
            },
            WriteSector::Flushing { left } => if !is_busy(a[0]) {
                WriteSector::Kept
            } else if left == 1 {
                WriteSector::TimedOut
            } else {
                WriteSector::Flushing { left: (left - 1) as u32 }
            },
            WriteSector::Kept => self,
            WriteSector::DriveError => self,
            WriteSector::TransferError => self,
            WriteSector::TimedOut => self,
        }
    }

    /// What is to be done and asked now, or the end of the conversation.
    #[verifier::spinoff_prover]
    #[verifier::rlimit(60)]
    pub fn next(&self) -> (s: Step<Result<(), &'static str>>)
        requires
            self.wf(),
        ensures
            s@ == self.step(),
    {
        let mut writes: Vec<Op> = Vec::new();
        let mut asks: Vec<Op> = Vec::new();
        match *self {
            WriteSector::Select { lba, sector } => {
                writes.push(Op::Out8(DRIVE_HEAD, (0xE0 + lba / 0x100_0000 % 16) as u8));
                push_settling(&mut asks);
            },
            WriteSector::Command { lba, sector } => {
                push_command(&mut writes, lba, CMD_WRITE_SECTORS);
                asks.push(Op::In8(COMMAND_STATUS));
            },
            WriteSector::Busy { sector, left } => {
                asks.push(Op::In8(COMMAND_STATUS));
            },
            WriteSector::Ready { sector, left } => {
                asks.push(Op::In8(COMMAND_STATUS));
            },
            WriteSector::Data { sector } => {
                push_word_writes(&mut writes, &sector);
                asks.push(Op::In8(COMMAND_STATUS));
            },
            WriteSector::Written { left } => {
                asks.push(Op::In8(COMMAND_STATUS));
            },
            WriteSector::Flush => {
                writes.push(Op::Out8(COMMAND_STATUS, CMD_CACHE_FLUSH));
                asks.push(Op::In8(COMMAND_STATUS));
            },
            WriteSector::Flushing { left } => {
                asks.push(Op::In8(COMMAND_STATUS));
            },
            WriteSector::Kept => {
                return Step::Done(Ok(()));
            },
            WriteSector::DriveError => {
                return Step::Done(
                                Err("ATA write: drive reported an error (ERR bit set)"),
                            );
            },
            WriteSector::TransferError => {
                return Step::Done(
                                Err("ATA write: drive reported an error after transfer (ERR bit set)"),
                            );
            },
            WriteSector::TimedOut => {
                return Step::Done(
                                Err("ATA write: timed out waiting for the drive to respond"),
                            );
            },
        }
        proof {
            if let StepView::Next { writes: w, asks: q } = self.step() {
                assert(writes@ =~= w);
                assert(asks@ =~= q);
            }
        }
        Step::Next { writes, asks }
    }

    /// Takes the answers in.
    #[verifier::spinoff_prover]
    #[verifier::rlimit(60)]
    pub fn answer(&self, a: &[u64]) -> (r: WriteSector)
        requires
            self.wf(),
            self.step().answered_by(a@),
        ensures
            r == self.answered(a@),
            r.wf(),
    {
        proof {
            if let StepView::Next { writes, asks } = self.step() {
                assert forall|i: int| 0 <= i < asks.len() implies fits(
                    asks[i],
                    #[trigger] a@[i],
                ) by {}
            }
        }
        match *self {
            WriteSector::Select { lba, sector } => {
                WriteSector::Command { lba, sector }
            },
            WriteSector::Command { lba, sector } => {
                if a[0] / 128 % 2 == 0 {
                    if a[0] % 2 == 1 {
                        WriteSector::DriveError
                    } else {
                        WriteSector::Ready { sector, left: MAX_POLL_ITERATIONS }
                    }
                } else {
                    WriteSector::Busy { sector, left: MAX_POLL_ITERATIONS - 1 }
                }
            },
            WriteSector::Busy { sector, left } => {
                if a[0] / 128 % 2 == 0 {
                    if a[0] % 2 == 1 {
                        WriteSector::DriveError
                    } else {
                        WriteSector::Ready { sector, left: MAX_POLL_ITERATIONS }
                    }
                } else if left == 1 {
                    WriteSector::TimedOut
                } else {
                    WriteSector::Busy { sector, left: left - 1 }
                }
            },
            WriteSector::Ready { sector, left } => {
                if a[0] / 8 % 2 == 1 {
                    if a[0] % 2 == 1 {
                        WriteSector::DriveError
                    } else {
                        WriteSector::Data { sector }
                    }
                } else if left == 1 {
                    WriteSector::TimedOut
                } else {
                    WriteSector::Ready { sector, left: left - 1 }
                }
            },
            WriteSector::Data { sector } => {
                if a[0] / 128 % 2 == 0 {
                    if a[0] % 2 == 1 {
                        WriteSector::TransferError
                    } else {
                        WriteSector::Flush
                    }
                } else {
                    WriteSector::Written { left: MAX_POLL_ITERATIONS - 1 }
                }
            },
            WriteSector::Written { left } => {
                if a[0] / 128 % 2 == 0 {
                    if a[0] % 2 == 1 {
                        WriteSector::TransferError
                    } else {
                        WriteSector::Flush
                    }
                } else if left == 1 {
                    WriteSector::TimedOut
                } else {
                    WriteSector::Written { left: left - 1 }
                }
            },
            WriteSector::Flush => {
                if a[0] / 128 % 2 == 0 {
                    WriteSector::Kept
                } else {
                    WriteSector::Flushing { left: MAX_POLL_ITERATIONS - 1 }
                }
            },
            WriteSector::Flushing { left } => {
                if a[0] / 128 % 2 == 0 {
                    WriteSector::Kept
                } else if left == 1 {
                    WriteSector::TimedOut
                } else {
                    WriteSector::Flushing { left: left - 1 }
                }
            },
            WriteSector::Kept => {
                WriteSector::Kept
            },
            WriteSector::DriveError => {
                WriteSector::DriveError
            },
            WriteSector::TransferError => {
                WriteSector::TransferError
            },
            WriteSector::TimedOut => {
                WriteSector::TimedOut
            },
        }
    }
}

/// Begins to write a sector.
pub fn write_sector(lba: u32, sector: &[u8; 512]) -> (r: WriteSector)
    ensures
        r == (WriteSector::Select { lba, sector: *sector }),
{
    WriteSector::Select { lba, sector: *sector }
}

/// A sector counts as written only once the disk was told to keep it and is no longer
/// busy.
pub proof fn written_is_kept(s: WriteSector, a: Seq<u64>)
    requires
        s.answered(a) is Kept,
        !(s is Kept),
    ensures
        s is Flush || s is Flushing,
        !is_busy(a[0]),
{
}

impl ReadSector {
    /// No more answers than this are taken in before the reading ends.
    pub open spec fn answers_left(self) -> int {
        let most = MAX_POLL_ITERATIONS as int;
        match self {
            ReadSector::Select { .. } => 2 * most + 2,
            ReadSector::Command { .. } => 2 * most + 1,
            ReadSector::Busy { left } => most + 1 + left,
            ReadSector::Ready { left } => 1 + left,
            ReadSector::Data => 1,
            _ => 0,
        }
    }
}

impl WriteSector {
    /// No more answers than this are taken in before the writing ends.
    pub open spec fn answers_left(self) -> int {
        let most = MAX_POLL_ITERATIONS as int;
        match self {
            WriteSector::Select { .. } => 4 * most + 1,
            WriteSector::Command { .. } => 4 * most,
            WriteSector::Busy { left, .. } => 3 * most + left,
            WriteSector::Ready { left, .. } => 2 * most + left,
            WriteSector::Data { .. } => 2 * most,
            WriteSector::Written { left } => most + left,
            WriteSector::Flush => most,
            WriteSector::Flushing { left } => left as int,
            _ => 0,
        }
    }
}

/// A disk that does not answer is given up: each look at its status leaves fewer, and the
/// last one ends the wait. So a sector is read, or it is known why not, after a bounded
/// number of answers.
pub proof fn waiting_ends(s: ReadSector, a: Seq<u64>)
    requires
        s.wf(),
    ensures
        s matches ReadSector::Busy { left } ==> (s.answered(a) matches ReadSector::Busy { left: l }
            ==> l < left),
        s matches ReadSector::Ready { left } ==> (s.answered(a) matches ReadSector::Ready { left: l }
            ==> l < left),
        s matches ReadSector::Busy { left } ==> left == 1 ==> !(s.answered(a) is Busy),
        s matches ReadSector::Ready { left } ==> left == 1 ==> !(s.answered(a) is Ready),
        s.step() is Next ==> 0 <= s.answered(a).answers_left() < s.answers_left(),
        s.step() is Done <==> s.answers_left() == 0,
{
}

/// The same of every wait of writing: for the disk to be free, for it to take data, for the
/// data to be written, and for it to be kept.
pub proof fn writing_ends(s: WriteSector, a: Seq<u64>)
    requires
        s.wf(),
    ensures
        s matches WriteSector::Busy { left, .. } ==> (s.answered(a) matches WriteSector::Busy {
            left: l,
            ..
        } ==> l < left),
        s matches WriteSector::Ready { left, .. } ==> (s.answered(a) matches WriteSector::Ready {
            left: l,
            ..
        } ==> l < left),
        s matches WriteSector::Written { left } ==> (s.answered(a) matches WriteSector::Written {
            left: l,
        } ==> l < left),
        s matches WriteSector::Flushing { left } ==> (s.answered(a) matches WriteSector::Flushing {
            left: l,
        } ==> l < left),
        s matches WriteSector::Busy { left, .. } ==> left == 1 ==> !(s.answered(a) is Busy),
        s matches WriteSector::Ready { left, .. } ==> left == 1 ==> !(s.answered(a) is Ready),
        s matches WriteSector::Written { left } ==> left == 1 ==> !(s.answered(a) is Written),
        s matches WriteSector::Flushing { left } ==> left == 1 ==> !(s.answered(a) is Flushing),
        s.step() is Next ==> 0 <= s.answered(a).answers_left() < s.answers_left(),
        s.step() is Done <==> s.answers_left() == 0,
{
}

/// The disk is handed one sector, and its number in four parts, of which the top four bits come with
/// the choice of the first disk.
pub proof fn number_reaches_the_disk(lba: u32, command: u8, a: u8, b: u8, c: u8)
    requires
        command_writes(lba, command)[1] == Op::Out8(0x1F3, a),
        command_writes(lba, command)[2] == Op::Out8(0x1F4, b),
        command_writes(lba, command)[3] == Op::Out8(0x1F5, c),
    ensures
        command_writes(lba, command).len() == 5,
        command_writes(lba, command)[0] == Op::Out8(0x1F2, 1),
        command_writes(lba, command)[4] == Op::Out8(0x1F7, command),
        a + 0x100 * b + 0x1_0000 * c + 0x100_0000 * (head_of(lba) % 16) == lba % 0x1000_0000,
        head_of(lba) / 16 == 0xE,
{
    number_is_handed_over(lba);
}

/// The number of a sector always goes to the three registers of its low parts.
pub proof fn number_goes_to_its_registers(lba: u32, command: u8)
    ensures
        command_writes(lba, command)[1] matches Op::Out8(port, _) && port == 0x1F3,
        command_writes(lba, command)[2] matches Op::Out8(port, _) && port == 0x1F4,
        command_writes(lba, command)[3] matches Op::Out8(port, _) && port == 0x1F5,
{
}

/// A word of a sector is two bytes of it, the first one the low one.
pub proof fn words_are_byte_pairs(sector: Seq<u8>, words: Seq<u64>, i: int)
    requires
        sector.len() == 512,
        words.len() == 256,
        0 <= i < 256,
        words[i] < 0x1_0000,
    ensures
        word_of(sector, i) as int == low_first(sector.subrange(2 * i, 2 * i + 2)),
        low_first(bytes_of(words).subrange(2 * i, 2 * i + 2)) == words[i],
{
    fields_of_two_bytes(sector, 2 * i);
    let b = bytes_of(words);
    fields_of_two_bytes(b, 2 * i);
    assert((2 * i) / 2 == i && (2 * i) % 2 == 0 && (2 * i + 1) / 2 == i && (2 * i + 1) % 2 == 1);
    assert(b[2 * i] == words[i] % 256 && b[2 * i + 1] == words[i] / 256);
}

/// A disk that is never busy, wants to hand over data and has no error is read: it is chosen, told
/// the number and to read, and the words that it gives, low byte first, are the sector.
pub proof fn ready_disk_is_read(
    lba: u32,
    first: Seq<u64>,
    free: u64,
    ready: u64,
    words: Seq<u64>,
    sector: [u8; 512],
)
    requires
        free / 128 % 2 == 0 && free % 2 == 0,
        ready / 8 % 2 == 1 && ready % 2 == 0,
        words.len() == 256,
        forall|i: int|
            0 <= i < 256 ==> #[trigger] words[i] == sector@[2 * i] + 256 * sector@[2 * i + 1],
    ensures
        ({
            let chosen = ReadSector::Select { lba };
            let told = chosen.answered(first);
            let waiting = told.answered(seq![free]);
            let data = waiting.answered(seq![ready]);
            let end = data.answered(words);
            &&& chosen.step() matches StepView::Next { writes, .. } && writes == seq![
                Op::Out8(0x1F6, head_of(lba)),
            ]
            &&& told.step() matches StepView::Next { writes, asks } && writes == command_writes(
                lba,
                0x20,
            ) && asks == seq![Op::In8(0x1F7)]
            &&& waiting.step() matches StepView::Next { writes, asks } && writes.len() == 0 && asks
                == seq![Op::In8(0x1F7)]
            &&& data.step() matches StepView::Next { writes, asks } && writes.len() == 0
                && asks.len() == 256 && (forall|i: int|
                0 <= i < 256 ==> #[trigger] asks[i] == Op::In16(0x1F0))
            &&& end.step() == StepView::<Result<[u8; 512], &'static str>>::Done(Ok(sector))
        }),
{
    assert forall|i: int| 0 <= i < 256 implies #[trigger] words[i] == word_of(sector@, i) by {}
    words_keep_sector(sector@, words);
    assert(sector_with(bytes_of(words))@ == sector@);
    assert(sector_with(bytes_of(words)) =~= sector);
    let free_answer = seq![free];
    assert(free_answer[0] == free);
    let ready_answer = seq![ready];
    assert(ready_answer[0] == ready);
}

/// A disk that is never busy, takes data and has no error is written to: it is chosen, told the
/// number and to write, given the words of the sector, low byte first, and told to keep them.
pub proof fn ready_disk_is_written(
    lba: u32,
    sector: [u8; 512],
    first: Seq<u64>,
    free: u64,
    ready: u64,
)
    requires
        free / 128 % 2 == 0 && free % 2 == 0,
        ready / 8 % 2 == 1 && ready % 2 == 0,
    ensures
        ({
            let chosen = WriteSector::Select { lba, sector };
            let told = chosen.answered(first);
            let waiting = told.answered(seq![free]);
            let data = waiting.answered(seq![ready]);
            let flush = data.answered(seq![free]);
            let end = flush.answered(seq![free]);
            &&& chosen.step() matches StepView::Next { writes, .. } && writes == seq![
                Op::Out8(0x1F6, head_of(lba)),
            ]
            &&& told.step() matches StepView::Next { writes, asks } && writes == command_writes(
                lba,
                0x30,
            ) && asks == seq![Op::In8(0x1F7)]
            &&& waiting.step() matches StepView::Next { writes, asks } && writes.len() == 0 && asks
                == seq![Op::In8(0x1F7)]
            &&& data.step() matches StepView::Next { writes, asks } && writes.len() == 256
                && (forall|i: int|
                0 <= i < 256 ==> #[trigger] writes[i] == Op::Out16(
                    0x1F0,
                    (sector@[2 * i] + 256 * sector@[2 * i + 1]) as u16,
                )) && asks == seq![Op::In8(0x1F7)]
            &&& flush.step() matches StepView::Next { writes, asks } && writes == seq![
                Op::Out8(0x1F7, 0xE7),
            ] && asks == seq![Op::In8(0x1F7)]
            &&& end.step() == StepView::<Result<(), &'static str>>::Done(Ok(()))
        }),
{
    let free_answer = seq![free];
    assert(free_answer[0] == free);
    let ready_answer = seq![ready];
    assert(ready_answer[0] == ready);
}

/// A disk that says that it has met an error, once it is not busy, is not read from or written to:
/// the request ends there, and never with success.
pub proof fn errors_end_the_request(r: ReadSector, w: WriteSector, status: u64)
    requires
        status % 2 == 1,
        status / 128 % 2 == 0,
        status / 8 % 2 == 1,
    ensures
        r is Command || r is Busy || r is Ready ==> (r.answered(seq![status]).step() matches
            StepView::Done(e) && e is Err),
        w is Command || w is Busy || w is Ready || w is Data || w is Written ==> (w.answered(
            seq![status],
        ).step() matches StepView::Done(e) && e is Err),
{
    let a = seq![status];
    assert(a[0] == status);
}

} // verus!
