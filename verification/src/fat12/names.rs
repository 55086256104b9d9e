//! How names and entries are written down in a directory.

use crate::bytes::{copy_into, le16_bytes, le32_bytes, to_le16, to_le32};
use crate::disk::{Disk, DiskView, FsError};
use crate::fat12::reading::arrays_view;
use crate::fat12::volume::{dir_ready, short_names, DirLocation, Volume};
use crate::fat12::Fat12Info;
use crate::fat_common::{lfn_checksum, name_sum};
use crate::rtc::RtcTime;
use crate::text::{to_upper, upper};
use vstd::prelude::*;
use vstd::utf8::encode_utf8;

verus! {

/// The index of the first dot from `i` on, or the length.
pub open spec fn first_dot(b: Seq<u8>, i: int) -> int
    decreases b.len() - i,
{
    if i < 0 || i >= b.len() || b[i] == 0x2E {
        i
    } else {
        first_dot(b, i + 1)
    }
}

/// The part of a name in front of its first dot.
pub open spec fn base_part(b: Seq<u8>) -> Seq<u8> {
    b.take(first_dot(b, 0))
}

/// The part of a name behind its first dot.
pub open spec fn ext_part(b: Seq<u8>) -> Seq<u8> {
    let dot = first_dot(b, 0);
    if dot < b.len() {
        b.skip(dot + 1)
    } else {
        Seq::empty()
    }
}

/// A name of at most 8 bytes in front of the dot and at most 3 behind it.
pub open spec fn fits_short(b: Seq<u8>) -> bool {
    0 < base_part(b).len() <= 8 && ext_part(b).len() <= 3
}

/// Byte `i` of `f`, or a space behind its end.
pub open spec fn padded(f: Seq<u8>, i: int) -> u8 {
    if i < f.len() {
        f[i]
    } else {
        0x20
    }
}

/// Eight bytes of base and three of extension, padded with spaces.
pub open spec fn name_field(base: Seq<u8>, ext: Seq<u8>) -> Seq<u8> {
    Seq::new(
        11,
        |i: int|
            if i < 8 {
                padded(base, i)
            } else {
                padded(ext, i - 8)
            },
    )
}

/// `b` in upper case.
pub open spec fn uppered(b: Seq<u8>) -> Seq<u8> {
    b.map_values(|x: u8| upper(x))
}

/// The short-name field of a name that fits it.
pub open spec fn short_field(b: Seq<u8>) -> Seq<u8> {
    name_field(uppered(base_part(b)), uppered(ext_part(b)))
}

/// The place of the first dot stays within the name.
pub proof fn first_dot_bounds(b: Seq<u8>, i: int)
    requires
        0 <= i <= b.len(),
    ensures
        i <= first_dot(b, i) <= b.len(),
        first_dot(b, i) < b.len() ==> b[first_dot(b, i)] == 0x2E,
        forall|j: int| i <= j < first_dot(b, i) ==> b[j] != 0x2E,
    decreases b.len() - i,
{
    if i < b.len() && b[i] != 0x2E {
        first_dot_bounds(b, i + 1);
    }
}

fn find_dot(b: &[u8]) -> (r: usize)
    ensures
        r == first_dot(b@, 0),
        r <= b.len(),
{
    let mut i: usize = 0;
    while i < b.len()
        invariant
            i <= b.len(),
            first_dot(b@, 0) == first_dot(b@, i as int),
        decreases b.len() - i,
    {
        if b[i] == 0x2E {
            return i;
        }
        i = i + 1;
    }
    i
}

/// The short-name field of `name`, if `name` fits it.
pub(crate) fn to_short_name(name: &str) -> (r: Result<[u8; 11], FsError>)
    ensures
        fits_short(encode_utf8(name@)) ==> (r matches Ok(f) && f@ == short_field(
            encode_utf8(name@),
        )),
        !fits_short(encode_utf8(name@)) ==> r == Err::<[u8; 11], FsError>(
            FsError::Failed("FAT12: name must fit the 8.3 short-name format"),
        ),
{
    let b = name.as_bytes();
    let dot: usize = find_dot(b);
    let ext_start: usize = if dot < b.len() {
        dot + 1
    } else {
        dot
    };
    let ext_len: usize = b.len() - ext_start;
    assert(base_part(b@).len() == dot);
    assert(ext_part(b@).len() == ext_len);
    if dot == 0 || dot > 8 || ext_len > 3 {
        return Err(FsError::Failed("FAT12: name must fit the 8.3 short-name format"));
    }
    let mut out: [u8; 11] = [0x20u8; 11];
    let mut i: usize = 0;
    while i < dot
        invariant
            i <= dot <= 8,
            dot <= b.len(),
            forall|j: int| 0 <= j < i ==> out@[j] == upper(b@[j]),
            forall|j: int| i <= j < 11 ==> out@[j] == 0x20,
        decreases dot - i,
    {
        out[i] = to_upper(b[i]);
        i = i + 1;
    }
    let ghost with_base = out@;
    assert(forall|j: int| 0 <= j < dot ==> #[trigger] with_base[j] == upper(b@[j]));
    assert(forall|j: int| dot <= j < 11 ==> #[trigger] with_base[j] == 0x20);
    i = 0;
    while i < ext_len
        invariant
            i <= ext_len <= 3,
            ext_start + ext_len == b.len(),
            forall|j: int| 0 <= j < 8 ==> out@[j] == with_base[j],
            forall|j: int| 8 <= j < 8 + i ==> #[trigger] out@[j] == upper(b@[ext_start + j - 8]),
            forall|j: int| 8 + i <= j < 11 ==> out@[j] == 0x20,
        decreases ext_len - i,
    {
        out[8 + i] = to_upper(b[ext_start + i]);
        i = i + 1;
    }
    let ghost field = short_field(b@);
    assert forall|k: int| 0 <= k < 11 implies out@[k] == #[trigger] field[k] by {
        if k < 8 {
            assert(out@[k] == with_base[k]);
        } else if k < 8 + ext_len {
            assert(out@[k] == upper(b@[ext_start + k - 8]));
            assert(ext_part(b@)[k - 8] == b@[ext_start + k - 8]);
        }
    }
    assert(out@ =~= field);
    Ok(out)
}

/// A byte that a long name may hold: printable ASCII but for the reserved characters.
pub open spec fn lfn_byte(b: u8) -> bool {
    &&& 0x20 <= b <= 0x7E
    &&& b != 0x22 && b != 0x2A && b != 0x2F && b != 0x3A && b != 0x3C && b != 0x3E && b != 0x3F
        && b != 0x5C && b != 0x7C
}

pub(crate) fn is_valid_lfn_char(b: u8) -> (r: bool)
    ensures
        r == lfn_byte(b),
{
    0x20 <= b && b <= 0x7E && b != 0x22 && b != 0x2A && b != 0x2F && b != 0x3A && b != 0x3C && b
        != 0x3E && b != 0x3F && b != 0x5C && b != 0x7C
}

/// The number of long-name entries for a name of `len` bytes.
pub open spec fn chunk_count(len: int) -> int {
    if len == 0 {
        1
    } else {
        (len + 12) / 13
    }
}

/// The characters of chunk `index` of a name: a 0 behind the last one, and 0xFFFF
/// behind that.
pub open spec fn chunk_chars(b: Seq<u8>, index: int) -> Seq<u16> {
    Seq::new(
        13,
        |i: int|
            if 13 * index + i < b.len() {
                b[13 * index + i] as u16
            } else if 13 * index + i == b.len() {
                0u16
            } else {
                0xFFFFu16
            },
    )
}

/// One byte of a character, low byte first.
pub open spec fn char_byte(chars: Seq<u16>, i: int) -> u8 {
    if i % 2 == 0 {
        (chars[i / 2] % 256) as u8
    } else {
        (chars[i / 2] / 256) as u8
    }
}

/// The 32 bytes of a long-name entry.
pub open spec fn lfn_entry(chars: Seq<u16>, sequence: u8, checksum: u8) -> Seq<u8> {
    Seq::new(
        32,
        |i: int|
            if i == 0 {
                sequence
            } else if i < 11 {
                char_byte(chars, i - 1)
            } else if i == 11 {
                0x0Fu8
            } else if i == 12 {
                0u8
            } else if i == 13 {
                checksum
            } else if i < 26 {
                char_byte(chars, 10 + i - 14)
            } else if i < 28 {
                0u8
            } else {
                char_byte(chars, 22 + i - 28)
            },
    )
}

/// The sequence number of chunk `index` out of `count`: the last chunk has bit 0x40.
pub open spec fn chunk_sequence(index: int, count: int) -> u8 {
    if index == count - 1 {
        (index + 1 + 64) as u8
    } else {
        (index + 1) as u8
    }
}

/// The long-name entries of a name in the order of the disk: the end of the name first.
pub open spec fn lfn_entries(b: Seq<u8>, short_name: Seq<u8>) -> Seq<Seq<u8>> {
    let n = chunk_count(b.len() as int);
    Seq::new(
        n as nat,
        |k: int|
            lfn_entry(
                chunk_chars(b, n - 1 - k),
                chunk_sequence(n - 1 - k, n),
                name_sum(short_name),
            ),
    )
}

/// Entries as byte sequences.
pub open spec fn slots_view(entries: Seq<[u8; 32]>) -> Seq<Seq<u8>> {
    entries.map_values(|e: [u8; 32]| e@)
}

fn build_lfn_entry(b: &[u8], index: usize, count: usize, checksum: u8) -> (entry: [u8; 32])
    requires
        index < count <= 15,
        count == chunk_count(b.len() as int),
    ensures
        entry@ == lfn_entry(
            chunk_chars(b@, index as int),
            chunk_sequence(index as int, count as int),
            checksum,
        ),
{
    let ghost chars = chunk_chars(b@, index as int);
    let ghost whole = lfn_entry(chars, chunk_sequence(index as int, count as int), checksum);
    let mut entry: [u8; 32] = [0u8; 32];
    entry[0] = if index == count - 1 {
        (index + 1 + 64) as u8
    } else {
        (index + 1) as u8
    };
    entry[11] = 0x0F;
    entry[13] = checksum;
    let mut i: usize = 0;
    while i < 13
        invariant
            i <= 13,
            index < count <= 15,
            chars == chunk_chars(b@, index as int),
            whole == lfn_entry(chars, chunk_sequence(index as int, count as int), checksum),
            entry@[0] == whole[0],
            entry@[11] == 0x0F,
            entry@[12] == 0,
            entry@[13] == checksum,
            entry@[26] == 0,
            entry@[27] == 0,
            forall|k: int| 1 <= k < 11 && (k - 1) / 2 < i ==> entry@[k] == whole[k],
            forall|k: int| 14 <= k < 26 && 5 + (k - 14) / 2 < i ==> entry@[k] == whole[k],
            forall|k: int| 28 <= k < 32 && 11 + (k - 28) / 2 < i ==> entry@[k] == whole[k],
        decreases 13 - i,
    {
        let at: usize = 13 * index + i;
        let c: u16 = if at < b.len() {
            b[at] as u16
        } else if at == b.len() {
            0
        } else {
            0xFFFF
        };
        assert(c == chars[i as int]);
        let to: usize = if i < 5 {
            1 + 2 * i
        } else if i < 11 {
            14 + 2 * (i - 5)
        } else {
            28 + 2 * (i - 11)
        };
        entry[to] = (c % 256) as u8;
        entry[to + 1] = (c / 256) as u8;
        assert(whole[to as int] == (c % 256) as u8 && whole[to + 1] == (c / 256) as u8);
        i = i + 1;
    }
    assert(entry@ =~= whole);
    entry
}

/// The long-name entries of `name`, which describe the short name `short_name`.
pub(crate) fn build_lfn_entries(name: &str, short_name: &[u8; 11]) -> (entries: Vec<[u8; 32]>)
    requires
        encode_utf8(name@).len() <= 195,
    ensures
        slots_view(entries@) == lfn_entries(encode_utf8(name@), short_name@),
{
    let b = name.as_bytes();
    let count: usize = if b.len() == 0 {
        1
    } else {
        (b.len() + 12) / 13
    };
    let checksum: u8 = lfn_checksum(short_name);
    let ghost whole = lfn_entries(b@, short_name@);
    let mut entries: Vec<[u8; 32]> = Vec::new();
    let mut k: usize = 0;
    while k < count
        invariant
            k <= count <= 15,
            count == chunk_count(b.len() as int),
            checksum == name_sum(short_name@),
            whole == lfn_entries(b@, short_name@),
            slots_view(entries@) == whole.take(k as int),
        decreases count - k,
    {
        let entry = build_lfn_entry(b, count - 1 - k, count, checksum);
        let ghost before = entries@;
        entries.push(entry);
        assert(slots_view(entries@) =~= slots_view(before).push(entry@));
        k = k + 1;
        assert(slots_view(entries@) =~= whole.take(k as int));
    }
    assert(whole.take(count as int) =~= whole);
    entries
}

/// Time and date in the 16-bit forms of a directory entry: hours, minutes and
/// seconds by two in 5, 6 and 5 bits; years from 1980, month and day in 7, 4 and
/// 5 bits.
pub open spec fn fat_datetime(t: RtcTime) -> (u16, u16) {
    let years: u16 = if t.year < 1980 {
        0
    } else if t.year > 2107 {
        127
    } else {
        (t.year - 1980) as u16
    };
    (
        ((t.hours as u16) << 11) | ((t.minutes as u16) << 5) | (t.seconds as u16 / 2),
        (years << 9) | ((t.month as u16) << 5) | (t.day as u16),
    )
}

pub fn to_fat_datetime(t: &RtcTime) -> (r: (u16, u16))
    ensures
        r == fat_datetime(*t),
{
    let fat_time: u16 = ((t.hours as u16) << 11) | ((t.minutes as u16) << 5) | (t.seconds as u16
        / 2);
    let since: u16 = if t.year < 1980 {
        0
    } else {
        t.year - 1980
    };
    let year_offset: u16 = if since > 127 {
        127
    } else {
        since
    };
    let fat_date: u16 = (year_offset << 9) | ((t.month as u16) << 5) | (t.day as u16);
    (fat_time, fat_date)
}

proof fn packed_fields(hours: u16, minutes: u16, half: u16, years: u16, month: u16, day: u16)
    by (bit_vector)
    requires
        hours < 24,
        minutes < 60,
        half < 30,
        years <= 127,
        month <= 12,
        day <= 31,
    ensures
        (hours << 11) | (minutes << 5) | half == hours * 2048 + minutes * 32 + half,
        (years << 9) | (month << 5) | day == years * 512 + month * 32 + day,
{
}

proof fn unpacked_time(x: int, high: int, mid: int, low: int)
    requires
        x == high * 2048 + mid * 32 + low,
        0 <= high,
        0 <= mid < 64,
        0 <= low < 32,
    ensures
        x / 2048 == high,
        x / 32 % 64 == mid,
        x % 32 == low,
{
    let y = high * 64 + mid;
    assert(x == 32 * y + low);
    assert(x / 32 == y && x % 32 == low);
    assert(y % 64 == mid);
    let r = mid * 32 + low;
    assert(x == 2048 * high + r && 0 <= r < 2048);
}

proof fn unpacked_date(x: int, high: int, mid: int, low: int)
    requires
        x == high * 512 + mid * 32 + low,
        0 <= high,
        0 <= mid < 16,
        0 <= low < 32,
    ensures
        x / 512 == high,
        x / 32 % 16 == mid,
        x % 32 == low,
{
    let y = high * 16 + mid;
    assert(x == 32 * y + low);
    assert(x / 32 == y && x % 32 == low);
    assert(y % 16 == mid);
    let r = mid * 32 + low;
    assert(x == 512 * high + r && 0 <= r < 512);
}

/// A calendar time can be read back from its packed form, to two seconds.
pub proof fn datetime_unpacks(t: RtcTime)
    requires
        t.hours < 24,
        t.minutes < 60,
        t.seconds < 60,
        1980 <= t.year <= 2107,
        1 <= t.month <= 12,
        1 <= t.day <= 31,
    ensures
        fat_datetime(t).0 / 2048 == t.hours,
        fat_datetime(t).0 / 32 % 64 == t.minutes,
        fat_datetime(t).0 % 32 == t.seconds / 2,
        fat_datetime(t).1 / 512 == t.year - 1980,
        fat_datetime(t).1 / 32 % 16 == t.month,
        fat_datetime(t).1 % 32 == t.day,
{
    packed_fields(
        t.hours as u16,
        t.minutes as u16,
        (t.seconds as u16 / 2) as u16,
        (t.year - 1980) as u16,
        t.month as u16,
        t.day as u16,
    );
    unpacked_time(
        fat_datetime(t).0 as int,
        t.hours as int,
        t.minutes as int,
        t.seconds as int / 2,
    );
    unpacked_date(
        fat_datetime(t).1 as int,
        t.year - 1980,
        t.month as int,
        t.day as int,
    );
}

/// The 32 bytes of a short entry. One time stamp stands for creation, access and
/// last write.
pub open spec fn dir_entry_bytes(
    short_name: Seq<u8>,
    attr: u8,
    cluster: u32,
    size: u32,
    fat_time: u16,
    fat_date: u16,
) -> Seq<u8> {
    short_name + seq![attr, 0u8, 0u8] + le16_bytes(fat_time) + le16_bytes(fat_date) + le16_bytes(
        fat_date,
    ) + le16_bytes((cluster / 65536) as u16) + le16_bytes(fat_time) + le16_bytes(fat_date)
        + le16_bytes((cluster % 65536) as u16) + le32_bytes(size)
}

pub(crate) fn build_dir_entry(
    short_name: &[u8; 11],
    attr: u8,
    cluster: u32,
    size: u32,
    fat_time: u16,
    fat_date: u16,
) -> (entry: [u8; 32])
    ensures
        entry@ == dir_entry_bytes(short_name@, attr, cluster, size, fat_time, fat_date),
{
    let mut entry: [u8; 32] = [0u8; 32];
    copy_into(&mut entry, 0, short_name);
    entry[11] = attr;
    copy_into(&mut entry, 14, &to_le16(fat_time));
    copy_into(&mut entry, 16, &to_le16(fat_date));
    copy_into(&mut entry, 18, &to_le16(fat_date));
    copy_into(&mut entry, 20, &to_le16((cluster / 65536) as u16));
    copy_into(&mut entry, 22, &to_le16(fat_time));
    copy_into(&mut entry, 24, &to_le16(fat_date));
    copy_into(&mut entry, 26, &to_le16((cluster % 65536) as u16));
    copy_into(&mut entry, 28, &to_le32(size));
    assert(entry@ =~= dir_entry_bytes(short_name@, attr, cluster, size, fat_time, fat_date));
    entry
}

/// A byte that an alias keeps.
pub open spec fn alias_byte(b: u8) -> bool {
    65 <= b <= 90 || 48 <= b <= 57 || b == 0x5F || b == 0x2D
}

/// The bytes of `b` that an alias keeps, in upper case.
pub open spec fn cleaned(b: Seq<u8>) -> Seq<u8>
    decreases b.len(),
{
    if b.len() == 0 {
        Seq::empty()
    } else {
        let u = upper(b.last());
        if alias_byte(u) {
            cleaned(b.drop_last()).push(u)
        } else {
            cleaned(b.drop_last())
        }
    }
}

/// At most the first `n` elements.
pub open spec fn at_most(s: Seq<u8>, n: int) -> Seq<u8> {
    if s.len() > n {
        s.take(n)
    } else {
        s
    }
}

/// The base of an alias: up to five characters, at least an underscore.
pub open spec fn alias_base(b: Seq<u8>) -> Seq<u8> {
    let base = cleaned(base_part(b));
    if base.len() == 0 {
        seq![0x5Fu8]
    } else {
        at_most(base, 5)
    }
}

/// The extension of an alias.
pub open spec fn alias_ext(b: Seq<u8>) -> Seq<u8> {
    at_most(cleaned(ext_part(b)), 3)
}

/// A tilde and the decimal digits of `n`, which is below 100.
pub open spec fn alias_suffix(n: int) -> Seq<u8> {
    if n < 10 {
        seq![0x7Eu8, (48 + n) as u8]
    } else {
        seq![0x7Eu8, (48 + n / 10) as u8, (48 + n % 10) as u8]
    }
}

/// The alias number `n` of a name.
pub open spec fn alias(b: Seq<u8>, n: int) -> Seq<u8> {
    name_field(alias_base(b) + alias_suffix(n), alias_ext(b))
}

/// The first alias from number `n` on that is not among `names`, up to number 99.
pub open spec fn free_alias(b: Seq<u8>, names: Seq<Seq<u8>>, n: int) -> Option<Seq<u8>>
    decreases 100 - n,
{
    if n > 99 {
        None
    } else if !names.contains(alias(b, n)) {
        Some(alias(b, n))
    } else {
        free_alias(b, names, n + 1)
    }
}

fn clean(b: &[u8]) -> (r: Vec<u8>)
    ensures
        r@ == cleaned(b@),
{
    let mut r: Vec<u8> = Vec::new();
    let mut i: usize = 0;
    assert(b@.take(0) =~= Seq::<u8>::empty());
    while i < b.len()
        invariant
            i <= b.len(),
            r@ == cleaned(b@.take(i as int)),
        decreases b.len() - i,
    {
        let u: u8 = to_upper(b[i]);
        assert(b@.take(i + 1).drop_last() =~= b@.take(i as int));
        if (65 <= u && u <= 90) || (48 <= u && u <= 57) || u == 0x5F || u == 0x2D {
            r.push(u);
        }
        i = i + 1;
    }
    assert(b@.take(b@.len() as int) =~= b@);
    r
}

fn holds_name(names: &Vec<[u8; 11]>, name: &[u8; 11]) -> (r: bool)
    ensures
        r == arrays_view(names@).contains(name@),
{
    let mut i: usize = 0;
    while i < names.len()
        invariant
            i <= names.len(),
            forall|j: int| 0 <= j < i ==> #[trigger] arrays_view(names@)[j] != name@,
        decreases names.len() - i,
    {
        let mut same: bool = true;
        let mut k: usize = 0;
        while k < 11
            invariant
                k <= 11,
                i < names.len(),
                same == (forall|m: int| 0 <= m < k ==> names@[i as int]@[m] == name@[m]),
            decreases 11 - k,
        {
            if names[i][k] != name[k] {
                same = false;
            }
            k = k + 1;
        }
        if same {
            assert(names@[i as int]@ =~= name@);
            assert(arrays_view(names@)[i as int] == name@);
            return true;
        }
        assert(arrays_view(names@)[i as int] != name@);
        i = i + 1;
    }
    false
}

impl Fat12Info {
    /// An 8.3 alias for a name that does not fit: up to five characters of its
    /// base, a tilde, the first number that gives a name which the directory does
    /// not have, and up to three characters of its extension.
    fn generate_short_alias(&self, disk: &Disk, dir: DirLocation, name: &str) -> (r: Result<
        [u8; 11],
        FsError,
    >)
        requires
            self@.geometry_fits(),
            self@.wf(),
            dir_ready(self@, dir),
        ensures
            match short_names(self@, disk@, dir) {
                Err(e) => r == Err::<[u8; 11], FsError>(e),
                Ok(names) => match free_alias(encode_utf8(name@), names, 1) {
                    Some(a) => r matches Ok(got) && got@ == a,
                    None => r == Err::<[u8; 11], FsError>(
                        FsError::Failed(
                            "FAT12: too many colliding short-name aliases in this directory",
                        ),
                    ),
                },
            },
    {
        let b = name.as_bytes();
        let dot: usize = find_dot(b);
        let ext_start: usize = if dot < b.len() {
            dot + 1
        } else {
            dot
        };
        let mut base: Vec<u8> = clean(vstd::slice::slice_subrange(b, 0, dot));
        assert(b@.subrange(0, dot as int) =~= base_part(b@));
        if base.len() == 0 {
            base.push(0x5F);
        }
        base.truncate(5);
        assert(base@ =~= alias_base(b@));
        let mut ext: Vec<u8> = clean(vstd::slice::slice_subrange(b, ext_start, b.len()));
        assert(b@.subrange(ext_start as int, b@.len() as int) =~= ext_part(b@));
        ext.truncate(3);
        assert(ext@ =~= alias_ext(b@));
        let existing = match self.existing_short_names_in(disk, dir) {
            Ok(names) => names,
            Err(e) => {
                return Err(e);
            },
        };
        let mut n: u8 = 1;
        while n <= 99
            invariant
                1 <= n <= 100,
                base@ == alias_base(b@),
                ext@ == alias_ext(b@),
                0 < base.len() <= 5,
                ext.len() <= 3,
                b@ == encode_utf8(name@),
                short_names(self@, disk@, dir) == Ok::<Seq<Seq<u8>>, FsError>(
                    arrays_view(existing@),
                ),
                free_alias(b@, arrays_view(existing@), 1) == free_alias(
                    b@,
                    arrays_view(existing@),
                    n as int,
                ),
            decreases 100 - n,
        {
            let mut out: [u8; 11] = [0x20u8; 11];
            copy_into(&mut out, 0, base.as_slice());
            out[base.len()] = 0x7E;
            if n < 10 {
                out[base.len() + 1] = 48 + n;
            } else {
                out[base.len() + 1] = 48 + n / 10;
                out[base.len() + 2] = 48 + n % 10;
            }
            copy_into(&mut out, 8, ext.as_slice());
            assert(out@ =~= alias(b@, n as int));
            if !holds_name(&existing, &out) {
                return Ok(out);
            }
            n = n + 1;
        }
        Err(FsError::Failed("FAT12: too many colliding short-name aliases in this directory"))
    }

    /// How `name` is to be written down in a directory: its short-name field and
    /// the long-name entries in front of it.
    pub(crate) fn build_name_entries(&self, disk: &Disk, dir: DirLocation, name: &str) -> (r:
        Result<([u8; 11], Vec<[u8; 32]>), FsError>)
        requires
            self@.geometry_fits(),
            self@.wf(),
            dir_ready(self@, dir),
        ensures
            match name_entries(self@, disk@, dir, name@) {
                Ok((short, long)) => r matches Ok(got) && got.0@ == short && slots_view(got.1@)
                    == long && long.len() <= 15,
                Err(e) => r == Err::<([u8; 11], Vec<[u8; 32]>), FsError>(e),
            },
    {
        match to_short_name(name) {
            Ok(short_name) => {
                let existing = match self.existing_short_names_in(disk, dir) {
                    Ok(names) => names,
                    Err(e) => {
                        return Err(e);
                    },
                };
                if holds_name(&existing, &short_name) {
                    return Err(FsError::Failed("FAT12: that short name is already in use"));
                }
                let none: Vec<[u8; 32]> = Vec::new();
                assert(slots_view(none@) =~= Seq::<Seq<u8>>::empty());
                return Ok((short_name, none));
            },
            Err(_) => {},
        }
        let b = name.as_bytes();
        let mut valid: bool = b.len() > 0 && b.len() <= 195;
        let mut i: usize = 0;
        while i < b.len()
            invariant
                i <= b.len(),
                valid == (0 < b.len() <= 195 && forall|j: int| 0 <= j < i ==> lfn_byte(b@[j])),
            decreases b.len() - i,
        {
            if !is_valid_lfn_char(b[i]) {
                valid = false;
            }
            i = i + 1;
        }
        if !valid {
            return Err(
                FsError::Failed(
                    "FAT12: name must fit the 8.3 short-name format, or be a valid name of 195 characters or fewer",
                ),
            );
        }
        match self.generate_short_alias(disk, dir, name) {
            Ok(short_name) => {
                let long_entries = build_lfn_entries(name, &short_name);
                Ok((short_name, long_entries))
            },
            Err(e) => Err(e),
        }
    }
}

/// A name that can be written down as a long name.
pub open spec fn valid_long(b: Seq<u8>) -> bool {
    0 < b.len() <= 195 && forall|j: int| 0 <= j < b.len() ==> lfn_byte(#[trigger] b[j])
}

/// The short-name field and the long-name entries for a new name in a directory.
pub open spec fn name_entries(v: Volume, d: DiskView, dir: DirLocation, name: Seq<char>) -> Result<
    (Seq<u8>, Seq<Seq<u8>>),
    FsError,
> {
    let b = encode_utf8(name);
    if fits_short(b) {
        match short_names(v, d, dir) {
            Err(e) => Err(e),
            Ok(names) => if names.contains(short_field(b)) {
                Err(FsError::Failed("FAT12: that short name is already in use"))
            } else {
                Ok((short_field(b), Seq::empty()))
            },
        }
    } else if !valid_long(b) {
        Err(
            FsError::Failed(
                "FAT12: name must fit the 8.3 short-name format, or be a valid name of 195 characters or fewer",
            ),
        )
    } else {
        match short_names(v, d, dir) {
            Err(e) => Err(e),
            Ok(names) => match free_alias(b, names, 1) {
                Some(a) => Ok((a, lfn_entries(b, a))),
                None => Err(
                    FsError::Failed(
                        "FAT12: too many colliding short-name aliases in this directory",
                    ),
                ),
            },
        }
    }
}

} // verus!
