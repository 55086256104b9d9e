//! Names that were written down are read back.

use crate::bytes::{le16, le32};
use crate::fat12::changes::{file_entry, subdir_entry};
use crate::fat12::names::{
    alias, alias_base, alias_byte, base_part, chunk_chars, chunk_count, chunk_sequence, cleaned,
    dir_entry_bytes, ext_part, fat_datetime, first_dot, first_dot_bounds, fits_short, free_alias,
    lfn_byte, lfn_entries, lfn_entry, padded, short_field, uppered, valid_long,
};
use crate::fat_common::{
    entry_of, field_text, lfn_after, long_chars, long_name, name_sum, short_name_of, slot_kind,
    text_from, LfnView,
};
use crate::rtc::RtcTime;
use crate::text::same_name;
use vstd::prelude::*;
use vstd::utf8::{encode_utf8, is_ascii_chars, is_ascii_chars_encode_utf8};

verus! {

/// Bytes as the characters with these numbers.
pub open spec fn as_chars(b: Seq<u8>) -> Seq<char> {
    Seq::new(b.len(), |i: int| b[i] as char)
}

/// ASCII bytes are the UTF-8 form of their characters.
pub proof fn ascii_encodes(b: Seq<u8>)
    requires
        forall|i: int| 0 <= i < b.len() ==> #[trigger] b[i] < 128,
    ensures
        encode_utf8(as_chars(b)) == b,
{
    let cs = as_chars(b);
    assert(is_ascii_chars(cs)) by {
        assert forall|i: int| 0 <= i < cs.len() implies '\0' <= #[trigger] cs[i] <= '\u{7f}' by {
            assert(b[i] < 128);
        }
    }
    is_ascii_chars_encode_utf8(cs);
    assert(encode_utf8(cs) =~= b);
}

/// A long-name entry holds its characters.
pub proof fn lfn_entry_chars(chars: Seq<u16>, sequence: u8, checksum: u8)
    requires
        chars.len() == 13,
    ensures
        long_chars(lfn_entry(chars, sequence, checksum)) == chars,
        lfn_entry(chars, sequence, checksum).len() == 32,
{
    let raw = lfn_entry(chars, sequence, checksum);
    let got = long_chars(raw);
    assert forall|i: int| 0 <= i < 13 implies got[i] == chars[i] by {
        let at: int = if i < 5 {
            1 + 2 * i
        } else if i < 11 {
            14 + 2 * (i - 5)
        } else {
            28 + 2 * (i - 11)
        };
        assert(raw[at] == (chars[i] % 256) as u8);
        assert(raw[at + 1] == (chars[i] / 256) as u8);
        assert(le16(raw, at) == chars[i]);
    }
    assert(got =~= chars);
}

proof fn sequence_bit(x: u8)
    by (bit_vector)
    ensures
        x < 64 ==> x & 0x40 == 0,
        64 <= x < 128 ==> x & 0x40 != 0,
{
}

/// The text of a chunk is its part of the name.
pub proof fn chunk_text(b: Seq<u8>, index: int, i: int)
    requires
        0 <= index,
        0 <= i <= 13,
        13 * index + i <= b.len() || i == 13,
        13 * index <= b.len(),
        forall|j: int| 0 <= j < b.len() ==> #[trigger] b[j] != 0,
    ensures
        text_from(chunk_chars(b, index), i) == as_chars(
            b.subrange(
                if 13 * index + i <= b.len() { 13 * index + i } else { b.len() as int },
                if 13 * index + 13 <= b.len() { 13 * index + 13 } else { b.len() as int },
            ),
        ),
    decreases 13 - i,
{
    let chars = chunk_chars(b, index);
    let end = if 13 * index + 13 <= b.len() {
        13 * index + 13
    } else {
        b.len() as int
    };
    let at = 13 * index + i;
    if i < 13 && at < b.len() {
        assert(chars[i] == b[at] as u16);
        chunk_text(b, index, i + 1);
        assert(text_from(chars, i) =~= as_chars(b.subrange(at, end)));
    } else if i < 13 {
        assert(at == b.len());
        assert(chars[i] == 0);
        assert(text_from(chars, i) =~= as_chars(b.subrange(at, end)));
    } else {
        assert(text_from(chars, i) =~= Seq::<char>::empty());
        assert(as_chars(
            b.subrange(
                if at <= b.len() { at } else { b.len() as int },
                end,
            ),
        ) =~= Seq::<char>::empty());
    }
}

/// The first `j` chunks of a name, the last of them first.
pub open spec fn first_chunks(b: Seq<u8>, j: int) -> Seq<Seq<u16>> {
    Seq::new(j as nat, |k: int| chunk_chars(b, j - 1 - k))
}

/// The chunks of a name spell the name.
pub proof fn chunks_spell(b: Seq<u8>, j: int)
    requires
        0 <= j <= chunk_count(b.len() as int),
        b.len() > 0,
        forall|i: int| 0 <= i < b.len() ==> #[trigger] b[i] != 0,
    ensures
        long_name(first_chunks(b, j)) == as_chars(
            b.take(if 13 * j <= b.len() { 13 * j } else { b.len() as int }),
        ),
    decreases j,
{
    let chunks = first_chunks(b, j);
    let end = if 13 * j <= b.len() {
        13 * j
    } else {
        b.len() as int
    };
    if j > 0 {
        chunks_spell(b, j - 1);
        chunk_text(b, j - 1, 0);
        assert(chunks.skip(1) =~= first_chunks(b, j - 1));
        assert(chunks[0] == chunk_chars(b, j - 1));
        assert(13 * (j - 1) <= b.len());
        assert(long_name(chunks) =~= as_chars(b.take(end)));
    } else {
        assert(long_name(chunks) =~= as_chars(b.take(end)));
    }
}

/// The pending long name after the first `m` long-name entries of a name.
pub open spec fn lfn_after_entries(
    lfn: LfnView,
    b: Seq<u8>,
    short_name: Seq<u8>,
    m: int,
) -> LfnView
    decreases m,
{
    if m <= 0 {
        lfn
    } else {
        lfn_after(lfn_after_entries(lfn, b, short_name, m - 1), lfn_entries(b, short_name)[m - 1])
    }
}

/// Each long-name entry of a name is one, and they add up to the chunks of the name.
pub proof fn entries_add_up(lfn: LfnView, b: Seq<u8>, short_name: Seq<u8>, m: int)
    requires
        0 <= m <= chunk_count(b.len() as int),
        0 < b.len() <= 195,
    ensures
        m < chunk_count(b.len() as int) ==> slot_kind(lfn_entries(b, short_name)[m]) is LongName,
        m < chunk_count(b.len() as int) ==> lfn_entries(b, short_name)[m].len() == 32,
        m > 0 ==> lfn_after_entries(lfn, b, short_name, m) == (LfnView {
            chunks: Seq::new(
                m as nat,
                |k: int| chunk_chars(b, chunk_count(b.len() as int) - 1 - k),
            ),
            checksum: name_sum(short_name),
        }),
    decreases m,
{
    let n = chunk_count(b.len() as int);
    let all = lfn_entries(b, short_name);
    if m < n {
        sequence_bit(chunk_sequence(n - 1 - m, n));
    }
    if m > 0 {
        entries_add_up(lfn, b, short_name, m - 1);
        let index = n - m;
        let raw = all[m - 1];
        assert(raw == lfn_entry(
            chunk_chars(b, index),
            chunk_sequence(index, n),
            name_sum(short_name),
        ));
        sequence_bit(chunk_sequence(index, n));
        lfn_entry_chars(chunk_chars(b, index), chunk_sequence(index, n), name_sum(short_name));
        let before = lfn_after_entries(lfn, b, short_name, m - 1);
        let after = lfn_after_entries(lfn, b, short_name, m);
        assert(slot_kind(raw) is LongName);
        assert(after == before.pushed(raw));
        assert(after.chunks =~= Seq::new(m as nat, |k: int| chunk_chars(b, n - 1 - k)));
    }
}

/// A name that was written down in long-name entries is verified at its short entry
/// and reads as itself.
pub proof fn long_name_round_trip(lfn: LfnView, b: Seq<u8>, short_name: Seq<u8>)
    requires
        valid_long(b),
    ensures
        lfn_after_entries(lfn, b, short_name, chunk_count(b.len() as int)).verified(short_name)
            == Some(as_chars(b)),
        encode_utf8(as_chars(b)) == b,
{
    let n = chunk_count(b.len() as int);
    assert forall|i: int| 0 <= i < b.len() implies #[trigger] b[i] != 0 && b[i] < 128 by {
        assert(lfn_byte(b[i]));
    }
    entries_add_up(lfn, b, short_name, n);
    let after = lfn_after_entries(lfn, b, short_name, n);
    assert(after.chunks =~= first_chunks(b, n));
    chunks_spell(b, n);
    assert(b.take(b.len() as int) =~= b);
    ascii_encodes(b);
}

/// The text of a padded field is what was put in it, if that has no spaces.
pub proof fn padded_text(f: Seq<u8>, base: Seq<u8>, i: int)
    requires
        base.len() <= f.len(),
        0 <= i <= base.len(),
        forall|j: int| 0 <= j < base.len() ==> #[trigger] base[j] != 0x20,
        forall|j: int| 0 <= j < f.len() ==> #[trigger] f[j] == padded(base, j),
    ensures
        field_text(f, i) == as_chars(base.skip(i)),
    decreases base.len() - i,
{
    if i < base.len() {
        padded_text(f, base, i + 1);
        assert(field_text(f, i) =~= as_chars(base.skip(i)));
    } else {
        assert(field_text(f, i) =~= as_chars(base.skip(i)));
    }
}

/// A short name that reads as it was spelled: ASCII without spaces, with an
/// extension behind the dot if there is a dot.
pub open spec fn plain_short(b: Seq<u8>) -> bool {
    &&& fits_short(b)
    &&& b[0] != 0
    &&& forall|i: int| 0 <= i < b.len() ==> #[trigger] b[i] < 128 && b[i] != 0x20
    &&& first_dot(b, 0) < b.len() ==> ext_part(b).len() > 0
}

/// A short name reads as it was spelled, in capital letters.
pub proof fn short_name_spelled(b: Seq<u8>, raw: Seq<u8>)
    requires
        plain_short(b),
        raw.len() == 32,
        raw.subrange(0, 11) == short_field(b),
    ensures
        short_name_of(raw) == as_chars(uppered(b)),
        encode_utf8(short_name_of(raw)) == uppered(b),
        raw[0] != 0,
        raw[0] != 0xE5,
{
    first_dot_bounds(b, 0);
    let dot = first_dot(b, 0);
    let base = uppered(base_part(b));
    let ext = uppered(ext_part(b));
    let f = raw.subrange(0, 8);
    let g = raw.subrange(8, 11);
    assert forall|j: int| 0 <= j < 11 implies raw[j] == #[trigger] short_field(b)[j] by {
        assert(raw.subrange(0, 11)[j] == raw[j]);
    }
    assert forall|j: int| 0 <= j < f.len() implies #[trigger] f[j] == padded(base, j) by {
        assert(raw[j] == short_field(b)[j]);
    }
    assert forall|j: int| 0 <= j < g.len() implies #[trigger] g[j] == padded(ext, j) by {
        assert(raw[8 + j] == short_field(b)[8 + j]);
    }
    assert forall|j: int| 0 <= j < base.len() implies #[trigger] base[j] != 0x20 by {
        assert(b[j] < 128);
    }
    assert forall|j: int| 0 <= j < ext.len() implies #[trigger] ext[j] != 0x20 by {
        assert(b[dot + 1 + j] < 128);
    }
    padded_text(f, base, 0);
    padded_text(g, ext, 0);
    assert(base.skip(0) =~= base);
    assert(ext.skip(0) =~= ext);
    assert(raw[0] == short_field(b)[0] && b[0] < 128);
    let whole = uppered(b);
    if dot < b.len() {
        assert(g[0] == ext[0]);
        assert(whole =~= base + seq![0x2Eu8] + ext);
    } else {
        assert(ext.len() == 0);
        assert(g[0] == 0x20);
        assert(whole =~= base);
    }
    assert(short_name_of(raw) =~= as_chars(whole));
    assert forall|i: int| 0 <= i < whole.len() implies #[trigger] whole[i] < 128 by {
        assert(b[i] < 128);
    }
    ascii_encodes(whole);
}

/// A short name reads as it was spelled, but for the case of its letters.
pub proof fn short_name_round_trip(b: Seq<u8>, raw: Seq<u8>)
    requires
        plain_short(b),
        raw.len() == 32,
        raw.subrange(0, 11) == short_field(b),
    ensures
        same_name(encode_utf8(short_name_of(raw)), b),
        raw[0] != 0,
        raw[0] != 0xE5,
{
    short_name_spelled(b, raw);
}

/// A name is spelled by the characters of its bytes, if these are ASCII.
pub proof fn ascii_name(name: Seq<char>)
    requires
        forall|i: int|
            0 <= i < encode_utf8(name).len() ==> #[trigger] encode_utf8(name)[i] < 128,
    ensures
        as_chars(encode_utf8(name)) == name,
{
    let b = encode_utf8(name);
    ascii_encodes(b);
    vstd::utf8::encode_utf8_decode_utf8(name);
    vstd::utf8::encode_utf8_decode_utf8(as_chars(b));
}

/// The fields of a short entry are read back.
pub proof fn entry_round_trip(
    short_name: Seq<u8>,
    attr: u8,
    cluster: u32,
    size: u32,
    fat_time: u16,
    fat_date: u16,
)
    requires
        short_name.len() == 11,
    ensures
        ({
            let raw = dir_entry_bytes(short_name, attr, cluster, size, fat_time, fat_date);
            &&& raw.len() == 32
            &&& raw.subrange(0, 11) == short_name
            &&& raw[0] == short_name[0]
            &&& raw[11] == attr
            &&& forall|lfn: LfnView|
                (#[trigger] entry_of(raw, lfn)).is_dir == (attr & 0x10 != 0) && entry_of(
                    raw,
                    lfn,
                ).size == size && entry_of(raw, lfn).start_cluster == cluster && entry_of(
                    raw,
                    lfn,
                ).fat_time == fat_time && entry_of(raw, lfn).fat_date == fat_date
        }),
{
    let raw = dir_entry_bytes(short_name, attr, cluster, size, fat_time, fat_date);
    assert(raw.subrange(0, 11) =~= short_name);
    assert(le16(raw, 20) == cluster / 65536);
    assert(le16(raw, 22) == fat_time);
    assert(le16(raw, 24) == fat_date);
    assert(le16(raw, 26) == cluster % 65536);
    assert(le32(raw, 28) == size);
    assert(65536 * (cluster / 65536) + cluster % 65536 == cluster);
}

/// The attributes of files and directories.
pub proof fn attribute_bits()
    by (bit_vector)
    ensures
        0x20u8 & 0x10 == 0,
        0x20u8 & 0x08 == 0,
        0x10u8 & 0x10 != 0,
        0x10u8 & 0x08 == 0,
{
}

/// The entry of a new file is a short entry of a file.
pub proof fn file_entry_reads(short_name: Seq<u8>, cluster: int, len: nat, time: RtcTime)
    requires
        short_name.len() == 11,
        short_name[0] != 0,
        short_name[0] != 0xE5,
        0 <= cluster <= u32::MAX,
        len <= u32::MAX,
    ensures
        ({
            let raw = file_entry(short_name, cluster, len, time);
            &&& raw.len() == 32
            &&& raw.subrange(0, 11) == short_name
            &&& slot_kind(raw) is Short
            &&& forall|lfn: LfnView|
                !(#[trigger] entry_of(raw, lfn)).is_dir && entry_of(raw, lfn).size == len && entry_of(
                    raw,
                    lfn,
                ).start_cluster == cluster && (entry_of(raw, lfn).fat_time, entry_of(
                    raw,
                    lfn,
                ).fat_date) == fat_datetime(time)
        }),
{
    let (t, dt) = fat_datetime(time);
    entry_round_trip(short_name, 0x20, cluster as u32, len as u32, t, dt);
    attribute_bits();
}

/// The entry of a new directory is a short entry of a directory.
pub proof fn subdir_entry_reads(short_name: Seq<u8>, cluster: int, time: RtcTime)
    requires
        short_name.len() == 11,
        short_name[0] != 0,
        short_name[0] != 0xE5,
        0 <= cluster <= u32::MAX,
    ensures
        ({
            let raw = subdir_entry(short_name, cluster, time);
            &&& raw.len() == 32
            &&& raw.subrange(0, 11) == short_name
            &&& slot_kind(raw) is Short
            &&& forall|lfn: LfnView|
                (#[trigger] entry_of(raw, lfn)).is_dir && entry_of(raw, lfn).size == 0 && entry_of(
                    raw,
                    lfn,
                ).start_cluster == cluster
        }),
{
    let (t, dt) = fat_datetime(time);
    entry_round_trip(short_name, 0x10, cluster as u32, 0, t, dt);
    attribute_bits();
}

/// The bytes of an alias are those that an alias keeps.
pub proof fn cleaned_bytes(b: Seq<u8>)
    ensures
        forall|i: int| 0 <= i < cleaned(b).len() ==> alias_byte(#[trigger] cleaned(b)[i]),
    decreases b.len(),
{
    if b.len() > 0 {
        cleaned_bytes(b.drop_last());
        let front = cleaned(b.drop_last());
        assert forall|i: int| 0 <= i < cleaned(b).len() implies alias_byte(
            #[trigger] cleaned(b)[i],
        ) by {
            if i < front.len() {
                assert(cleaned(b)[i] == front[i]);
            }
        }
    }
}

/// An alias is a name of 11 bytes that starts with a letter, a digit, an underscore
/// or a hyphen.
pub proof fn alias_reads(b: Seq<u8>, n: int)
    ensures
        alias(b, n).len() == 11,
        alias(b, n)[0] != 0,
        alias(b, n)[0] != 0xE5,
{
    cleaned_bytes(base_part(b));
    let base = alias_base(b);
    assert(base.len() > 0);
    assert(alias_byte(base[0])) by {
        let c = cleaned(base_part(b));
        if c.len() > 0 {
            assert(alias_byte(c[0]));
            assert(base[0] == c[0]);
        }
    }
    assert(alias(b, n)[0] == base[0]);
}

/// An alias that is picked is none of the names that are taken.
pub proof fn free_alias_is_free(b: Seq<u8>, names: Seq<Seq<u8>>, n: int)
    ensures
        free_alias(b, names, n) matches Some(a) ==> !names.contains(a) && exists|m: int|
            n <= m <= 99 && a == #[trigger] alias(b, m),
        free_alias(b, names, n) is None ==> forall|m: int|
            n <= m <= 99 ==> names.contains(#[trigger] alias(b, m)),
    decreases 100 - n,
{
    if n <= 99 && names.contains(alias(b, n)) {
        free_alias_is_free(b, names, n + 1);
    }
}

} // verus!
