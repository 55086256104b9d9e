//! The 32-byte directory entries that all FAT variants share, with their long names.

use crate::bytes::{get_le16, get_le32, le16, le32};
use crate::text::{eq_ignore_case, same_name};
use vstd::prelude::*;
use vstd::utf8::encode_utf8;

pub mod layout;

verus! {

/// A directory entry as the code above the file system sees it.
pub struct DirEntry {
    pub name: String,
    pub is_dir: bool,
    pub size: u32,
    pub start_cluster: u32,
    pub fat_time: u16,
    pub fat_date: u16,
}

/// What a `DirEntry` stands for.
#[verifier::ext_equal]
pub struct Entry {
    pub name: Seq<char>,
    pub is_dir: bool,
    pub size: u32,
    pub start_cluster: u32,
    pub fat_time: u16,
    pub fat_date: u16,
}

impl View for DirEntry {
    type V = Entry;

    open spec fn view(&self) -> Entry {
        Entry {
            name: self.name@,
            is_dir: self.is_dir,
            size: self.size,
            start_cluster: self.start_cluster,
            fat_time: self.fat_time,
            fat_date: self.fat_date,
        }
    }
}

/// The entries that a list of `DirEntry` values stands for.
pub open spec fn entries_view(es: Seq<DirEntry>) -> Seq<Entry> {
    es.map_values(|e: DirEntry| e@)
}

/// The running checksum over a short name: rotate right by one bit, add the next byte.
pub open spec fn name_sum(s: Seq<u8>) -> u8
    decreases s.len(),
{
    if s.len() == 0 {
        0
    } else {
        let prev = name_sum(s.drop_last());
        ((prev / 2 + prev % 2 * 128 + s.last()) % 256) as u8
    }
}

pub fn lfn_checksum(short_name: &[u8]) -> (sum: u8)
    ensures
        sum == name_sum(short_name@),
{
    let mut sum: u8 = 0;
    let mut i: usize = 0;
    assert(short_name@.take(0) =~= Seq::<u8>::empty());
    while i < short_name.len()
        invariant
            i <= short_name.len(),
            sum == name_sum(short_name@.take(i as int)),
        decreases short_name.len() - i,
    {
        let turned: u8 = sum / 2 + sum % 2 * 128;
        sum = ((turned as u16 + short_name[i] as u16) % 256) as u8;
        assert(short_name@.take(i + 1).drop_last() =~= short_name@.take(i as int));
        i = i + 1;
    }
    assert(short_name@.take(short_name@.len() as int) =~= short_name@);
    sum
}

/// A long name that is being put together from the entries in front of a short entry.
#[verifier::ext_equal]
pub struct LfnView {
    pub chunks: Seq<Seq<u16>>,
    pub checksum: u8,
}

impl LfnView {
    /// No long name is pending.
    pub open spec fn cleared(self) -> LfnView {
        LfnView { chunks: Seq::empty(), checksum: self.checksum }
    }

    /// After a long-name entry. Bit 0x40 of the sequence byte marks the entry
    /// that holds the end of the name, with which a new sequence starts.
    pub open spec fn pushed(self, raw: Seq<u8>) -> LfnView {
        if raw[0] & 0x40 != 0 {
            LfnView { chunks: seq![long_chars(raw)], checksum: raw[13] }
        } else {
            LfnView { chunks: self.chunks.push(long_chars(raw)), checksum: self.checksum }
        }
    }

    /// The pending name, if there is one and it belongs to this short name.
    pub open spec fn verified(self, short_name: Seq<u8>) -> Option<Seq<char>> {
        if self.chunks.len() > 0 && self.checksum == name_sum(short_name) {
            Some(long_name(self.chunks))
        } else {
            None
        }
    }
}

/// The state before the first entry of a directory.
pub open spec fn no_lfn() -> LfnView {
    LfnView { chunks: Seq::empty(), checksum: 0 }
}

/// The 13 characters of a long-name entry.
pub open spec fn long_chars(raw: Seq<u8>) -> Seq<u16> {
    Seq::new(
        13,
        |i: int|
            if i < 5 {
                le16(raw, 1 + 2 * i) as u16
            } else if i < 11 {
                le16(raw, 14 + 2 * (i - 5)) as u16
            } else {
                le16(raw, 28 + 2 * (i - 11)) as u16
            },
    )
}

/// The characters from `i` on up to the first 0, each narrowed to its low byte.
pub open spec fn text_from(chars: Seq<u16>, i: int) -> Seq<char>
    decreases chars.len() - i,
{
    if i < 0 || i >= chars.len() || chars[i] == 0 {
        Seq::empty()
    } else {
        seq![((chars[i] % 256) as u8) as char] + text_from(chars, i + 1)
    }
}

/// The name that chunks describe: the chunk that came last holds its beginning.
pub open spec fn long_name(chunks: Seq<Seq<u16>>) -> Seq<char>
    decreases chunks.len(),
{
    if chunks.len() == 0 {
        Seq::empty()
    } else {
        long_name(chunks.skip(1)) + text_from(chunks[0], 0)
    }
}

pub struct LfnState {
    chunks: Vec<[u16; 13]>,
    checksum: u8,
}

impl View for LfnState {
    type V = LfnView;

    closed spec fn view(&self) -> LfnView {
        LfnView {
            chunks: self.chunks@.map_values(|c: [u16; 13]| c@),
            checksum: self.checksum,
        }
    }
}

impl Default for LfnState {
    fn default() -> (s: LfnState)
        ensures
            s@ == no_lfn(),
    {
        let s = LfnState { chunks: Vec::new(), checksum: 0 };
        assert(s@ =~= no_lfn());
        s
    }
}

impl LfnState {
    /// Takes in one long-name entry.
    pub fn push_long_entry(&mut self, raw: &[u8; 32])
        ensures
            final(self)@ == old(self)@.pushed(raw@),
    {
        let mut chars: [u16; 13] = [0u16; 13];
        let mut i: usize = 0;
        while i < 13
            invariant
                i <= 13,
                forall|j: int| 0 <= j < i ==> chars@[j] == #[trigger] long_chars(raw@)[j],
            decreases 13 - i,
        {
            let at: usize = if i < 5 {
                1 + 2 * i
            } else if i < 11 {
                14 + 2 * (i - 5)
            } else {
                28 + 2 * (i - 11)
            };
            chars[i] = get_le16(raw, at);
            i = i + 1;
        }
        assert(chars@ =~= long_chars(raw@));
        if raw[0] & 0x40 != 0 {
            self.chunks.clear();
            self.checksum = raw[13];
        }
        self.chunks.push(chars);
        assert(self@ =~= old(self)@.pushed(raw@));
    }

    /// Ends the pending sequence at a short entry and gives the long name if it
    /// belongs to that entry.
    pub fn take_verified(&mut self, short_name_bytes: &[u8]) -> (r: Option<String>)
        ensures
            r is Some <==> old(self)@.verified(short_name_bytes@) is Some,
            r matches Some(s) ==> old(self)@.verified(short_name_bytes@) == Some(s@),
            final(self)@ == old(self)@.cleared(),
    {
        let result = if self.chunks.len() > 0 && self.checksum == lfn_checksum(short_name_bytes) {
            let mut s: String = String::new();
            let mut i: usize = self.chunks.len();
            let ghost views = self@.chunks;
            assert(views.skip(i as int) =~= Seq::<Seq<u16>>::empty());
            while i > 0
                invariant
                    i <= self.chunks.len(),
                    views == self@.chunks,
                    views.len() == self.chunks.len(),
                    s@ == long_name(views.skip(i as int)),
                decreases i,
            {
                i = i - 1;
                decode_lfn_chunk(&self.chunks[i], &mut s);
                assert(views.skip(i as int).skip(1) =~= views.skip(i + 1));
                assert(views.skip(i as int)[0] == self.chunks@[i as int]@);
            }
            assert(views.skip(0) =~= views);
            Some(s)
        } else {
            None
        };
        self.chunks.clear();
        assert(self@ =~= old(self)@.cleared());
        result
    }

    /// Drops a pending sequence.
    pub fn reset(&mut self)
        ensures
            final(self)@ == old(self)@.cleared(),
    {
        self.chunks.clear();
        assert(self@ =~= old(self)@.cleared());
    }
}

/// Appends the characters of one long-name entry.
fn decode_lfn_chunk(chars: &[u16; 13], out: &mut String)
    ensures
        final(out)@ == old(out)@ + text_from(chars@, 0),
{
    let mut i: usize = 0;
    while i < 13
        invariant
            i <= 13,
            old(out)@ + text_from(chars@, 0) == out@ + text_from(chars@, i as int),
        decreases 13 - i,
    {
        if chars[i] == 0 {
            assert(out@ + text_from(chars@, i as int) =~= out@);
            return;
        }
        let b: u8 = (chars[i] % 256) as u8;
        let ghost before = out@;
        out.push(b as char);
        assert(before + text_from(chars@, i as int) =~= out@ + text_from(chars@, i + 1));
        i = i + 1;
    }
    assert(out@ + text_from(chars@, 13) =~= out@);
}

/// The characters of a space-padded field from `i` on up to the first space.
pub open spec fn field_text(f: Seq<u8>, i: int) -> Seq<char>
    decreases f.len() - i,
{
    if i < 0 || i >= f.len() || f[i] == 0x20 {
        Seq::empty()
    } else {
        seq![f[i] as char] + field_text(f, i + 1)
    }
}

/// "NAME" or "NAME.EXT" for the two fields of a short name.
pub open spec fn short_text(name: Seq<u8>, ext: Seq<u8>) -> Seq<char> {
    if ext.len() > 0 && ext[0] != 0x20 {
        field_text(name, 0) + seq!['.'] + field_text(ext, 0)
    } else {
        field_text(name, 0)
    }
}

/// Appends the text of a space-padded field.
fn push_field(f: &[u8], out: &mut String)
    ensures
        final(out)@ == old(out)@ + field_text(f@, 0),
{
    let mut i: usize = 0;
    while i < f.len()
        invariant
            i <= f.len(),
            old(out)@ + field_text(f@, 0) == out@ + field_text(f@, i as int),
        decreases f.len() - i,
    {
        if f[i] == 0x20 {
            assert(out@ + field_text(f@, i as int) =~= out@);
            return;
        }
        let ghost before = out@;
        out.push(f[i] as char);
        assert(before + field_text(f@, i as int) =~= out@ + field_text(f@, i + 1));
        i = i + 1;
    }
    assert(out@ + field_text(f@, f@.len() as int) =~= out@);
}

/// The text of a short name from its two space-padded fields.
pub fn format_short_name(name: &[u8], ext: &[u8]) -> (s: String)
    ensures
        s@ == short_text(name@, ext@),
{
    let mut s: String = String::new();
    push_field(name, &mut s);
    assert(s@ =~= field_text(name@, 0));
    if ext.len() > 0 && ext[0] != 0x20 {
        s.push('.');
        push_field(ext, &mut s);
        assert(s@ =~= short_text(name@, ext@));
    }
    s
}

/// What a 32-byte slot of a directory is.
pub enum Slot {
    /// Nothing is in use from here to the end of the directory.
    Terminator,
    Deleted,
    LongName,
    Label,
    Short,
}

pub open spec fn slot_kind(raw: Seq<u8>) -> Slot {
    if raw[0] == 0 {
        Slot::Terminator
    } else if raw[0] == 0xE5 {
        Slot::Deleted
    } else if raw[11] == 0x0F {
        Slot::LongName
    } else if raw[11] & 0x08 != 0 {
        Slot::Label
    } else {
        Slot::Short
    }
}

/// Slot `i` of a sector.
pub open spec fn slot(sector: Seq<u8>, i: int) -> Seq<u8> {
    sector.subrange(32 * i, 32 * i + 32)
}

/// The pending long name after a slot that does not end the directory.
pub open spec fn lfn_after(lfn: LfnView, raw: Seq<u8>) -> LfnView {
    if slot_kind(raw) is LongName {
        lfn.pushed(raw)
    } else {
        lfn.cleared()
    }
}

/// The text of the short name of an entry.
pub open spec fn short_name_of(raw: Seq<u8>) -> Seq<char> {
    short_text(raw.subrange(0, 8), raw.subrange(8, 11))
}

/// The entry in a short slot, under its long name if it has one.
pub open spec fn entry_of(raw: Seq<u8>, lfn: LfnView) -> Entry {
    Entry {
        name: match lfn.verified(raw.subrange(0, 11)) {
            Some(n) => n,
            None => short_name_of(raw),
        },
        is_dir: raw[11] & 0x10 != 0,
        size: le32(raw, 28) as u32,
        start_cluster: (65536 * le16(raw, 20) + le16(raw, 26)) as u32,
        fat_time: le16(raw, 22) as u16,
        fat_date: le16(raw, 24) as u16,
    }
}

/// A short slot goes by `target` if its long name or its short name is that name.
pub open spec fn goes_by(raw: Seq<u8>, lfn: LfnView, target: Seq<u8>) -> bool {
    ||| match lfn.verified(raw.subrange(0, 11)) {
        Some(n) => same_name(encode_utf8(n), target),
        None => false,
    }
    ||| same_name(encode_utf8(short_name_of(raw)), target)
}

/// The fields of a short slot under the name `name`.
fn entry_with_name(raw: &[u8; 32], name: String) -> (e: DirEntry)
    ensures
        e.name == name,
        forall|lfn: LfnView|
            (#[trigger] entry_of(raw@, lfn)).name == name@ ==> e@ == entry_of(raw@, lfn),
{
    DirEntry {
        name,
        is_dir: raw[11] & 0x10 != 0,
        size: get_le32(raw, 28),
        start_cluster: 65536 * (get_le16(raw, 20) as u32) + get_le16(raw, 26) as u32,
        fat_time: get_le16(raw, 22),
        fat_date: get_le16(raw, 24),
    }
}

/// The entry in a short slot, if it goes by `target_name`. Ends the pending long
/// name either way.
pub fn short_entry_if_matches(raw: &[u8; 32], lfn: &mut LfnState, target_name: &str) -> (r: Option<
    DirEntry,
>)
    ensures
        r is Some <==> goes_by(raw@, old(lfn)@, encode_utf8(target_name@)),
        r matches Some(e) ==> e@ == entry_of(raw@, old(lfn)@),
        final(lfn)@ == old(lfn)@.cleared(),
{
    let short_bytes = vstd::slice::slice_subrange(raw, 0, 11);
    let long_name = lfn.take_verified(short_bytes);
    let short_name = format_short_name(
        vstd::slice::slice_subrange(raw, 0, 8),
        vstd::slice::slice_subrange(raw, 8, 11),
    );
    let target = target_name.as_bytes();
    let by_short: bool = eq_ignore_case(short_name.as_str().as_bytes(), target);
    match long_name {
        Some(n) => {
            if by_short || eq_ignore_case(n.as_str().as_bytes(), target) {
                Some(entry_with_name(raw, n))
            } else {
                None
            }
        },
        None => {
            if by_short {
                Some(entry_with_name(raw, short_name))
            } else {
                None
            }
        },
    }
}

/// A directory listing on its way: the entries so far, the pending long name,
/// and whether the end of the directory was seen.
#[verifier::ext_equal]
pub struct Listing {
    pub entries: Seq<Entry>,
    pub lfn: LfnView,
    pub done: bool,
}

/// The listing after the slots of `sector` from `i` on.
pub open spec fn list_slots(sector: Seq<u8>, i: int, st: Listing) -> Listing
    decreases 16 - i,
{
    if i < 0 || i >= 16 || st.done {
        st
    } else {
        let raw = slot(sector, i);
        if slot_kind(raw) is Terminator {
            Listing { done: true, ..st }
        } else if slot_kind(raw) is Short {
            list_slots(
                sector,
                i + 1,
                Listing {
                    entries: st.entries.push(entry_of(raw, st.lfn)),
                    lfn: lfn_after(st.lfn, raw),
                    done: false,
                },
            )
        } else {
            list_slots(sector, i + 1, Listing { lfn: lfn_after(st.lfn, raw), ..st })
        }
    }
}

/// Copies slot `i` out of a sector.
pub fn get_slot(sector: &[u8; 512], i: usize) -> (raw: [u8; 32])
    requires
        i < 16,
    ensures
        raw@ == slot(sector@, i as int),
{
    let mut raw: [u8; 32] = [0u8; 32];
    let mut j: usize = 0;
    while j < 32
        invariant
            j <= 32,
            i < 16,
            forall|k: int| 0 <= k < j ==> raw@[k] == sector@[32 * i + k],
        decreases 32 - j,
    {
        raw[j] = sector[32 * i + j];
        j = j + 1;
    }
    assert(raw@ =~= slot(sector@, i as int));
    raw
}

/// Adds the entries of one sector of a directory to `entries`. True if the end of
/// the directory was seen.
pub fn parse_dir_sector(
    sector: &[u8; 512],
    entries: &mut Vec<DirEntry>,
    lfn: &mut LfnState,
) -> (done: bool)
    ensures
        ({
            let st = list_slots(
                sector@,
                0,
                Listing { entries: entries_view(old(entries)@), lfn: old(lfn)@, done: false },
            );
            &&& entries_view(final(entries)@) == st.entries
            &&& final(lfn)@ == st.lfn
            &&& done == st.done
        }),
{
    let ghost st0 = Listing { entries: entries_view(entries@), lfn: lfn@, done: false };
    let mut i: usize = 0;
    while i < 16
        invariant
            i <= 16,
            st0 == (Listing {
                entries: entries_view(old(entries)@),
                lfn: old(lfn)@,
                done: false,
            }),
            list_slots(sector@, 0, st0) == list_slots(
                sector@,
                i as int,
                Listing { entries: entries_view(entries@), lfn: lfn@, done: false },
            ),
        decreases 16 - i,
    {
        let raw = get_slot(sector, i);
        if raw[0] == 0x00 {
            return true;
        }
        if raw[0] == 0xE5 {
            lfn.reset();
        } else if raw[11] == 0x0F {
            lfn.push_long_entry(&raw);
        } else if raw[11] & 0x08 != 0 {
            lfn.reset();
        } else {
            let ghost lfn0 = lfn@;
            let ghost before = entries@;
            let short_bytes = vstd::slice::slice_subrange(&raw, 0, 11);
            let name = match lfn.take_verified(short_bytes) {
                Some(n) => n,
                None => format_short_name(
                    vstd::slice::slice_subrange(&raw, 0, 8),
                    vstd::slice::slice_subrange(&raw, 8, 11),
                ),
            };
            let e = entry_with_name(&raw, name);
            assert(e@ == entry_of(raw@, lfn0));
            entries.push(e);
            assert(entries_view(entries@) =~= entries_view(before).push(entry_of(raw@, lfn0)));
        }
        i = i + 1;
    }
    false
}

/// The list of entries that a caller gets is the list that is spoken of: as many, in the same order,
/// with the same fields.
pub proof fn entries_are_seen_as_they_are(es: Seq<DirEntry>, i: int)
    requires
        0 <= i < es.len(),
    ensures
        entries_view(es).len() == es.len(),
        entries_view(es)[i].name == es[i].name@,
        entries_view(es)[i].is_dir == es[i].is_dir,
        entries_view(es)[i].size == es[i].size,
        entries_view(es)[i].start_cluster == es[i].start_cluster,
        entries_view(es)[i].fat_time == es[i].fat_time,
        entries_view(es)[i].fat_date == es[i].fat_date,
{
}

} // verus!
