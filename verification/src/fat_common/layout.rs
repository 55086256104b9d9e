//! How directory entries and long names are laid out on disk.

use crate::bytes::{
    bytes_stand_for_number, fields_of_four_bytes, fields_of_two_bytes, le16, le16_bytes, le32_bytes,
};
use crate::fat_common::{
    entry_of, field_text, goes_by, lfn_after, long_chars, long_name, name_sum, short_name_of,
    short_text, slot, slot_kind, text_from, Entry, LfnView,
};
use crate::text::same_name;
use vstd::prelude::*;
use vstd::utf8::encode_utf8;

verus! {

/// One more byte turns the sum right by one bit, in which the lowest bit becomes the highest
/// one, and is added to it; what goes beyond a byte is dropped. The sum starts at zero.
pub proof fn checksum_turns(s: Seq<u8>, b: u8)
    ensures
        name_sum(Seq::empty()) == 0,
        ({
            let prev = name_sum(s);
            let turned = (prev >> 1u8) | (prev << 7u8);
            &&& name_sum(s.push(b)) == (turned + b) % 256
            &&& (turned >> 7u8) & 1 == prev & 1
            &&& forall|i: u8|
                i < 7 ==> (#[trigger] (turned >> i)) & 1 == (prev >> ((i + 1) as u8)) & 1
        }),
{
    let prev = name_sum(s);
    let turned = (prev >> 1u8) | (prev << 7u8);
    assert(s.push(b).drop_last() =~= s);
    assert(prev / 2 + prev % 2 * 128 == (prev >> 1u8) | (prev << 7u8)) by (bit_vector);
    assert(((prev >> 1u8) | (prev << 7u8)) >> 7u8 & 1 == prev & 1) by (bit_vector);
    assert forall|i: u8| i < 7 implies (#[trigger] (turned >> i)) & 1 == (prev >> ((i + 1) as u8))
        & 1 by {
        assert((((prev >> 1u8) | (prev << 7u8)) >> i) & 1 == (prev >> ((i + 1) as u8)) & 1)
            by (bit_vector)
            requires
                i < 7,
        ;
    }
}

proof fn turns_differ(x: int, y: int)
    requires
        0 <= x < 256,
        0 <= y < 256,
        x != y,
    ensures
        x / 2 + x % 2 * 128 != y / 2 + y % 2 * 128,
{
    assert(x % 2 == 0 || x % 2 == 1);
    assert(y % 2 == 0 || y % 2 == 1);
}

proof fn sums_differ(x: int, y: int, a: int, b: int)
    requires
        0 <= x < 256,
        0 <= y < 256,
        x != y,
        0 <= a < 256,
        a == b,
    ensures
        (x + a) % 256 != (y + b) % 256,
        (a + x) % 256 != (b + y) % 256,
{
}

/// Names that differ in one byte have different sums.
pub proof fn checksum_tells_apart(s: Seq<u8>, at: int, b: u8)
    requires
        0 <= at < s.len(),
        b != s[at],
    ensures
        name_sum(s.update(at, b)) != name_sum(s),
    decreases s.len(),
{
    let t = s.update(at, b);
    if at == s.len() - 1 {
        assert(t.drop_last() =~= s.drop_last());
        let x = name_sum(s.drop_last()) as int;
        let y = x / 2 + x % 2 * 128;
        sums_differ(s.last() as int, b as int, y, y);
    } else {
        assert(t.drop_last() =~= s.drop_last().update(at, b));
        checksum_tells_apart(s.drop_last(), at, b);
        let x = name_sum(s.drop_last()) as int;
        let y = name_sum(t.drop_last()) as int;
        turns_differ(x, y);
        sums_differ(x / 2 + x % 2 * 128, y / 2 + y % 2 * 128, s.last() as int, s.last() as int);
    }
}

/// Slot `i` of a sector is its 32 bytes number `i`.
pub proof fn slots_are_in_a_row(before: Seq<u8>, i: int, raw: Seq<u8>, after: Seq<u8>)
    requires
        0 <= i,
        before.len() == 32 * i,
        raw.len() == 32,
    ensures
        slot(before + raw + after, i) == raw,
{
    assert(slot(before + raw + after, i) =~= raw);
}

/// What a slot is: nothing is in use from one that begins with zero on, one that begins with
/// 0xE5 was deleted, and of the others the attributes decide, of which bit 3 marks what is
/// no file, and the lowest four together a part of a long name.
pub proof fn slots_are_told_apart(raw: Seq<u8>)
    requires
        raw.len() == 32,
    ensures
        slot_kind(raw) is Terminator <==> raw[0] == 0,
        slot_kind(raw) is Deleted <==> raw[0] == 0xE5,
        slot_kind(raw) is LongName <==> raw[0] != 0 && raw[0] != 0xE5 && raw[11] == 15,
        slot_kind(raw) is Short <==> raw[0] != 0 && raw[0] != 0xE5 && raw[11] / 8 % 2 == 0,
{
    let a = raw[11];
    assert((a & 0x08 != 0) == (a / 8 % 2 == 1)) by (bit_vector);
}

/// The bytes of a short entry: name, extension, attributes, eight bytes that are not looked at,
/// the high half of the first cluster, time, date, the low half of the first cluster, size.
pub open spec fn short_slot(
    name: Seq<u8>,
    ext: Seq<u8>,
    attributes: u8,
    other: Seq<u8>,
    time: u16,
    date: u16,
    cluster: u32,
    size: u32,
) -> Seq<u8> {
    name + ext + seq![attributes] + other + le16_bytes((cluster / 0x1_0000) as u16) + le16_bytes(time)
        + le16_bytes(date) + le16_bytes((cluster % 0x1_0000) as u16) + le32_bytes(size)
}

proof fn half(s: Seq<u8>, at: int, x: u16)
    requires
        0 <= at,
        at + 2 <= s.len(),
        s.subrange(at, at + 2) == le16_bytes(x),
    ensures
        le16(s, at) == x,
{
    fields_of_two_bytes(s, at);
    bytes_stand_for_number(x, 0, 0);
}

/// A short entry is read as what it was made of, under its long name if there is one that
/// belongs to it, and under its short name otherwise. Bit 4 of the attributes marks a directory.
pub proof fn short_slot_is_read(
    name: Seq<u8>,
    ext: Seq<u8>,
    attributes: u8,
    other: Seq<u8>,
    time: u16,
    date: u16,
    cluster: u32,
    size: u32,
    lfn: LfnView,
)
    requires
        name.len() == 8,
        ext.len() == 3,
        other.len() == 8,
    ensures
        entry_of(short_slot(name, ext, attributes, other, time, date, cluster, size), lfn) == (
        Entry {
            name: match lfn.verified(name + ext) {
                Some(n) => n,
                None => short_text(name, ext),
            },
            is_dir: attributes / 16 % 2 == 1,
            size,
            start_cluster: cluster,
            fat_time: time,
            fat_date: date,
        }),
        short_name_of(short_slot(name, ext, attributes, other, time, date, cluster, size))
            == short_text(name, ext),
{
    let raw = short_slot(name, ext, attributes, other, time, date, cluster, size);
    assert(raw.len() == 32);
    assert(raw.subrange(0, 8) =~= name);
    assert(raw.subrange(8, 11) =~= ext);
    assert(raw.subrange(0, 11) =~= name + ext);
    assert(raw[11] == attributes);
    assert((attributes & 0x10 != 0) == (attributes / 16 % 2 == 1)) by (bit_vector);
    assert(raw.subrange(20, 22) =~= le16_bytes((cluster / 0x1_0000) as u16));
    assert(raw.subrange(22, 24) =~= le16_bytes(time));
    assert(raw.subrange(24, 26) =~= le16_bytes(date));
    assert(raw.subrange(26, 28) =~= le16_bytes((cluster % 0x1_0000) as u16));
    assert(raw.subrange(28, 32) =~= le32_bytes(size));
    half(raw, 20, (cluster / 0x1_0000) as u16);
    half(raw, 22, time);
    half(raw, 24, date);
    half(raw, 26, (cluster % 0x1_0000) as u16);
    fields_of_four_bytes(raw, 28);
    bytes_stand_for_number(0, size, 0);
}

/// The text of ASCII bytes.
pub open spec fn text_of_bytes(b: Seq<u8>) -> Seq<char> {
    b.map_values(|x: u8| x as char)
}

/// A field of `n` bytes that holds `b` and is filled up with spaces.
pub open spec fn filled_up(b: Seq<u8>, n: int) -> Seq<u8> {
    b + Seq::new((n - b.len()) as nat, |i: int| 0x20u8)
}

proof fn filled_up_reads(b: Seq<u8>, n: int, i: int)
    requires
        0 <= i <= b.len() <= n,
        forall|j: int| 0 <= j < b.len() ==> #[trigger] b[j] != 0x20,
    ensures
        field_text(filled_up(b, n), i) == text_of_bytes(b.skip(i)),
    decreases b.len() - i,
{
    let f = filled_up(b, n);
    if i < b.len() {
        assert(f[i] == b[i]);
        filled_up_reads(b, n, i + 1);
        assert(text_of_bytes(b.skip(i)) =~= seq![b[i] as char] + text_of_bytes(b.skip(i + 1)));
    } else {
        assert(i < n ==> f[i] == 0x20);
        assert(text_of_bytes(b.skip(i)) =~= Seq::empty());
    }
}

/// A short name reads as its name, a dot and its extension, without the spaces that fill them
/// up, and without the dot if it has no extension.
pub proof fn short_name_is_read(name: Seq<u8>, ext: Seq<u8>)
    requires
        name.len() <= 8,
        ext.len() <= 3,
        forall|j: int| 0 <= j < name.len() ==> #[trigger] name[j] != 0x20,
        forall|j: int| 0 <= j < ext.len() ==> #[trigger] ext[j] != 0x20,
    ensures
        short_text(filled_up(name, 8), filled_up(ext, 3)) == text_of_bytes(name) + (if ext.len()
            == 0 {
            Seq::empty()
        } else {
            seq!['.'] + text_of_bytes(ext)
        }),
{
    filled_up_reads(name, 8, 0);
    filled_up_reads(ext, 3, 0);
    assert(name.skip(0) =~= name);
    assert(ext.skip(0) =~= ext);
    let e = filled_up(ext, 3);
    assert(e.len() == 3);
    if ext.len() == 0 {
        assert(e[0] == 0x20);
        assert(text_of_bytes(name) + Seq::<char>::empty() =~= text_of_bytes(name));
    } else {
        assert(e[0] == ext[0]);
        assert(text_of_bytes(name) + seq!['.'] + text_of_bytes(ext) =~= text_of_bytes(name) + (
        seq!['.'] + text_of_bytes(ext)));
    }
}

/// Characters of 16 bits, the low byte of each in front.
pub open spec fn wide_bytes(chars: Seq<u16>) -> Seq<u8> {
    Seq::new(2 * chars.len(), |i: int| le16_bytes(chars[i / 2])[i % 2])
}

/// The bytes of a long-name entry: a number, five characters, the attributes, a byte that is
/// not looked at, the sum of the short name, six characters, two bytes that are not looked at,
/// and two characters.
pub open spec fn long_slot(
    number: u8,
    chars: Seq<u16>,
    kind: u8,
    sum: u8,
    other: Seq<u8>,
) -> Seq<u8> {
    seq![number] + wide_bytes(chars.subrange(0, 5)) + seq![0x0Fu8, kind, sum] + wide_bytes(
        chars.subrange(5, 11),
    ) + other + wide_bytes(chars.subrange(11, 13))
}

proof fn wide_at(raw: Seq<u8>, at: int, part: Seq<u16>, i: int)
    requires
        0 <= at,
        at + 2 * part.len() <= raw.len(),
        raw.subrange(at, at + 2 * part.len()) == wide_bytes(part),
        0 <= i < part.len(),
    ensures
        le16(raw, at + 2 * i) == part[i],
{
    let w = wide_bytes(part);
    let run = raw.subrange(at, at + 2 * part.len());
    assert(run[2 * i] == raw[at + 2 * i] && run[2 * i + 1] == raw[at + 2 * i + 1]);
    assert((2 * i) / 2 == i && (2 * i) % 2 == 0 && (2 * i + 1) / 2 == i && (2 * i + 1) % 2 == 1);
    assert(w[2 * i] == le16_bytes(part[i])[0] && w[2 * i + 1] == le16_bytes(part[i])[1]);
    assert(raw.subrange(at + 2 * i, at + 2 * i + 2) =~= le16_bytes(part[i]));
    half(raw, at + 2 * i, part[i]);
}

/// A long-name entry is one, and holds its thirteen characters. The one with bit 6 in its number
/// starts a new name and brings the sum; each other one goes on with what is pending.
pub proof fn long_slot_is_read(
    number: u8,
    chars: Seq<u16>,
    kind: u8,
    sum: u8,
    other: Seq<u8>,
    lfn: LfnView,
)
    requires
        number != 0,
        number != 0xE5,
        chars.len() == 13,
        other.len() == 2,
    ensures
        ({
            let raw = long_slot(number, chars, kind, sum, other);
            &&& slot_kind(raw) is LongName
            &&& number / 64 % 2 == 1 ==> lfn_after(lfn, raw) == (LfnView {
                chunks: seq![chars],
                checksum: sum,
            })
            &&& number / 64 % 2 == 0 ==> lfn_after(lfn, raw) == (LfnView {
                chunks: lfn.chunks.push(chars),
                checksum: lfn.checksum,
            })
        }),
{
    let raw = long_slot(number, chars, kind, sum, other);
    assert(raw.len() == 32);
    assert(raw[0] == number && raw[11] == 0x0F && raw[13] == sum);
    assert((number & 0x40 != 0) == (number / 64 % 2 == 1)) by (bit_vector);
    assert(raw.subrange(1, 11) =~= wide_bytes(chars.subrange(0, 5)));
    assert(raw.subrange(14, 26) =~= wide_bytes(chars.subrange(5, 11)));
    assert(raw.subrange(28, 32) =~= wide_bytes(chars.subrange(11, 13)));
    assert forall|i: int| 0 <= i < 13 implies long_chars(raw)[i] == chars[i] by {
        if i < 5 {
            wide_at(raw, 1, chars.subrange(0, 5), i);
        } else if i < 11 {
            wide_at(raw, 14, chars.subrange(5, 11), i - 5);
        } else {
            wide_at(raw, 28, chars.subrange(11, 13), i - 11);
        }
    }
    assert(long_chars(raw) =~= chars);
}

/// The text of thirteen characters ends at the first zero; each character that fits in a byte is
/// itself.
pub proof fn chunk_is_read(chars: Seq<u16>, n: int, i: int)
    requires
        0 <= i <= n <= chars.len(),
        forall|j: int| 0 <= j < n ==> 0 < #[trigger] chars[j] < 256,
        n < chars.len() ==> chars[n] == 0,
    ensures
        text_from(chars, i) == chars.subrange(i, n).map_values(|c: u16| (c as u8) as char),
    decreases n - i,
{
    if i < n {
        chunk_is_read(chars, n, i + 1);
        assert(0 < chars[i] < 256);
        assert(text_from(chars, i) =~= chars.subrange(i, n).map_values(|c: u16| (c as u8) as char));
    } else {
        assert(chars.subrange(i, n) =~= Seq::empty());
        assert(chars.subrange(i, n).map_values(|c: u16| (c as u8) as char) =~= Seq::empty());
    }
}

/// The text of the parts of a name, one behind the other.
pub open spec fn joined(parts: Seq<Seq<u16>>) -> Seq<char>
    decreases parts.len(),
{
    if parts.len() == 0 {
        Seq::empty()
    } else {
        joined(parts.drop_last()) + text_from(parts.last(), 0)
    }
}

/// The pending name after some slots.
pub open spec fn after_slots(lfn: LfnView, slots: Seq<Seq<u8>>) -> LfnView
    decreases slots.len(),
{
    if slots.len() == 0 {
        lfn
    } else {
        lfn_after(after_slots(lfn, slots.drop_last()), slots.last())
    }
}

/// Slot `j` of a long name of several parts, of which the last one stands first.
pub open spec fn slot_of_part(raw: Seq<u8>, parts: Seq<Seq<u16>>, sum: u8, j: int) -> bool {
    exists|number: u8, kind: u8, own: u8, other: Seq<u8>|
        {
            &&& number != 0 && number != 0xE5
            &&& number / 64 % 2 == (if j == 0 {
                1int
            } else {
                0
            })
            &&& j == 0 ==> own == sum
            &&& other.len() == 2
            &&& raw == #[trigger] long_slot(number, parts[parts.len() - 1 - j], kind, own, other)
        }
}

proof fn parts_pile_up(
    lfn: LfnView,
    slots: Seq<Seq<u8>>,
    parts: Seq<Seq<u16>>,
    sum: u8,
    n: int,
)
    requires
        slots.len() == parts.len(),
        0 < n <= slots.len(),
        forall|j: int| 0 <= j < parts.len() ==> (#[trigger] parts[j]).len() == 13,
        forall|j: int| 0 <= j < slots.len() ==> slot_of_part(#[trigger] slots[j], parts, sum, j),
    ensures
        ({
            let l = after_slots(lfn, slots.take(n));
            &&& l.checksum == sum
            &&& l.chunks.len() == n
            &&& forall|i: int| 0 <= i < n ==> #[trigger] l.chunks[i] == parts[parts.len() - 1 - i]
        }),
    decreases n,
{
    let raw = slots[n - 1];
    assert(slot_of_part(raw, parts, sum, n - 1));
    let part = parts[parts.len() - 1 - (n - 1)];
    let (number, kind, own, other) = choose|number: u8, kind: u8, own: u8, other: Seq<u8>|
        {
            &&& number != 0 && number != 0xE5
            &&& number / 64 % 2 == (if n - 1 == 0 {
                1int
            } else {
                0
            })
            &&& n - 1 == 0 ==> own == sum
            &&& other.len() == 2
            &&& raw == #[trigger] long_slot(number, part, kind, own, other)
        };
    assert(slots.take(n).drop_last() =~= slots.take(n - 1));
    assert(slots.take(n).last() == raw);
    let before = after_slots(lfn, slots.take(n - 1));
    long_slot_is_read(number, part, kind, own, other, before);
    if n > 1 {
        parts_pile_up(lfn, slots, parts, sum, n - 1);
    }
}

proof fn pile_is_joined(chunks: Seq<Seq<u16>>, parts: Seq<Seq<u16>>)
    requires
        chunks.len() == parts.len(),
        forall|i: int| 0 <= i < chunks.len() ==> #[trigger] chunks[i] == parts[parts.len() - 1 - i],
    ensures
        long_name(chunks) == joined(parts),
    decreases chunks.len(),
{
    if chunks.len() > 0 {
        let c = chunks.skip(1);
        let p = parts.drop_last();
        assert forall|i: int| 0 <= i < c.len() implies #[trigger] c[i] == p[p.len() - 1 - i] by {
            assert(c[i] == chunks[i + 1]);
        }
        pile_is_joined(c, p);
        assert(chunks[0] == parts.last());
    }
}

/// A long name of any number of parts, in slots of which the first one holds its last part, is
/// the name of the short entry behind them if the sum that the first slot holds is that of the
/// short name, and is dropped if it is not. What was pending before does not matter.
pub proof fn long_name_is_read(
    lfn: LfnView,
    slots: Seq<Seq<u8>>,
    parts: Seq<Seq<u16>>,
    sum: u8,
    short_name: Seq<u8>,
)
    requires
        parts.len() > 0,
        slots.len() == parts.len(),
        forall|j: int| 0 <= j < parts.len() ==> (#[trigger] parts[j]).len() == 13,
        forall|j: int| 0 <= j < slots.len() ==> slot_of_part(#[trigger] slots[j], parts, sum, j),
    ensures
        after_slots(lfn, slots).verified(short_name) == if sum == name_sum(short_name) {
            Some(joined(parts))
        } else {
            None
        },
{
    let n = slots.len() as int;
    assert(slots.take(n) =~= slots);
    parts_pile_up(lfn, slots, parts, sum, n);
    pile_is_joined(after_slots(lfn, slots).chunks, parts);
}

/// A slot that is no part of a long name ends what is pending: the entry behind it goes by its
/// short name, if no part of a long name stands between.
pub proof fn other_slots_end_names(lfn: LfnView, raw: Seq<u8>, short_name: Seq<u8>)
    requires
        !(slot_kind(raw) is LongName),
    ensures
        lfn_after(lfn, raw).verified(short_name) is None,
{
}

/// An entry goes by the name that it is listed under and by its short name, in any case, and by no
/// other.
pub proof fn entries_go_by_their_names(raw: Seq<u8>, lfn: LfnView, target: Seq<u8>)
    ensures
        goes_by(raw, lfn, target) <==> same_name(encode_utf8(entry_of(raw, lfn).name), target)
            || same_name(encode_utf8(short_name_of(raw)), target),
{
}

} // verus!
