//! How names are written down: in fields that are filled up, in parts, and as aliases.

use crate::bytes::le16_bytes;
use crate::fat12::names::{
    alias, alias_base, alias_byte, alias_ext, alias_suffix, base_part, chunk_chars, chunk_count,
    chunk_sequence, cleaned, dir_entry_bytes, ext_part, fat_datetime, first_dot, first_dot_bounds, free_alias,
    lfn_byte, lfn_entries, lfn_entry, name_field, short_field, uppered,
};
use crate::fat_common::layout::{filled_up, long_slot, short_slot, wide_bytes};
use crate::fat_common::name_sum;
use crate::rtc::RtcTime;
use crate::text::upper;
use vstd::prelude::*;

verus! {

/// A name is what is in front of its first dot, and the dot and what is behind it, if it has one.
pub proof fn names_are_parted_at_the_dot(b: Seq<u8>)
    ensures
        forall|i: int| 0 <= i < base_part(b).len() ==> #[trigger] base_part(b)[i] != 0x2E,
        b.contains(0x2E) ==> b == base_part(b) + seq![0x2Eu8] + ext_part(b),
        !b.contains(0x2E) ==> b == base_part(b) && ext_part(b).len() == 0,
{
    first_dot_bounds(b, 0);
    let dot = first_dot(b, 0);
    if dot < b.len() {
        assert(b[dot] == 0x2E);
        assert(b =~= base_part(b) + seq![0x2Eu8] + ext_part(b));
    } else {
        assert(b =~= base_part(b));
        assert(!b.contains(0x2E));
    }
}

/// The two parts of a short name stand in eight and three bytes, filled up with spaces, in capital
/// letters.
pub proof fn short_names_are_filled_up(b: Seq<u8>)
    requires
        base_part(b).len() <= 8,
        ext_part(b).len() <= 3,
    ensures
        short_field(b) == filled_up(uppered(base_part(b)), 8) + filled_up(uppered(ext_part(b)), 3),
        forall|i: int| 0 <= i < b.len() ==> #[trigger] uppered(b)[i] == upper(b[i]),
{
    assert(short_field(b) =~= filled_up(uppered(base_part(b)), 8) + filled_up(
        uppered(ext_part(b)),
        3,
    ));
}

/// The bytes of a short entry are those of its layout, with the time for all its time stamps.
pub proof fn short_entries_are_laid_out(
    name: Seq<u8>,
    ext: Seq<u8>,
    attr: u8,
    cluster: u32,
    size: u32,
    time: u16,
    date: u16,
)
    requires
        name.len() == 8,
        ext.len() == 3,
    ensures
        dir_entry_bytes(name + ext, attr, cluster, size, time, date) == short_slot(
            name,
            ext,
            attr,
            seq![0u8, 0] + le16_bytes(time) + le16_bytes(date) + le16_bytes(date),
            time,
            date,
            cluster,
            size,
        ),
{
    assert(dir_entry_bytes(name + ext, attr, cluster, size, time, date) =~= short_slot(
        name,
        ext,
        attr,
        seq![0u8, 0] + le16_bytes(time) + le16_bytes(date) + le16_bytes(date),
        time,
        date,
        cluster,
        size,
    ));
}

/// A long name has as many entries as it fills, of thirteen characters each. The entries are numbered
/// from one on in the order of the name and stand in the other order, so that the one with the end
/// of the name, whose number has bit 6 set, is first; each has the sum of the short name.
pub proof fn long_entries_are_laid_out(b: Seq<u8>, short_name: Seq<u8>, k: int)
    requires
        0 < b.len() <= 255,
        0 <= k < chunk_count(b.len() as int),
    ensures
        ({
            let n = chunk_count(b.len() as int);
            &&& 13 * (n - 1) < b.len() <= 13 * n
            &&& lfn_entries(b, short_name).len() == n
            &&& lfn_entries(b, short_name)[k] == long_slot(
                (n - k + if k == 0 {
                    64int
                } else {
                    0
                }) as u8,
                chunk_chars(b, n - 1 - k),
                0,
                name_sum(short_name),
                seq![0u8, 0],
            )
        }),
{
    let n = chunk_count(b.len() as int);
    let chars = chunk_chars(b, n - 1 - k);
    let number = chunk_sequence(n - 1 - k, n);
    entry_is_laid_out(chars, number, name_sum(short_name));
}

proof fn entry_is_laid_out(chars: Seq<u16>, number: u8, sum: u8)
    requires
        chars.len() == 13,
    ensures
        lfn_entry(chars, number, sum) == long_slot(number, chars, 0, sum, seq![0u8, 0]),
{
    let e = lfn_entry(chars, number, sum);
    let s = long_slot(number, chars, 0, sum, seq![0u8, 0]);
    let a = chars.subrange(0, 5);
    let b = chars.subrange(5, 11);
    let c = chars.subrange(11, 13);
    assert(s.len() == 32);
    assert forall|i: int| 0 <= i < 32 implies e[i] == #[trigger] s[i] by {
        if 1 <= i < 11 {
            let j = i - 1;
            assert(s[i] == wide_bytes(a)[j]);
            assert(a[j / 2] == chars[j / 2]);
        } else if 14 <= i < 26 {
            let j = i - 14;
            assert(s[i] == wide_bytes(b)[j]);
            assert(b[j / 2] == chars[5 + j / 2]);
            assert((10 + i - 14) / 2 == 5 + j / 2 && (10 + i - 14) % 2 == j % 2);
        } else if 28 <= i {
            let j = i - 28;
            assert(s[i] == wide_bytes(c)[j]);
            assert(c[j / 2] == chars[11 + j / 2]);
            assert((22 + i - 28) / 2 == 11 + j / 2 && (22 + i - 28) % 2 == j % 2);
        }
    }
    assert(e =~= s);
}

/// The parts of a long name, one behind the other, are its characters, a zero if they do not fill the
/// last part, and ones behind that.
pub proof fn parts_are_the_name(b: Seq<u8>, index: int, i: int)
    requires
        0 <= index,
        0 <= i < 13,
    ensures
        chunk_chars(b, index).len() == 13,
        chunk_chars(b, index)[i] == (b.map_values(|x: u8| x as u16) + seq![0u16] + Seq::new(
            (13 * (index + 1)) as nat,
            |j: int| 0xFFFFu16,
        ))[13 * index + i],
{
}

/// A long name is made of printable ASCII without nine characters that are kept for other uses.
pub proof fn long_names_have_these_bytes(b: u8)
    ensures
        lfn_byte(b) <==> 0x20 <= b < 0x7F && !("\"*/:<>?\\|"@.contains(b as char)),
{
    reveal_strlit("\"*/:<>?\\|");
    let s = "\"*/:<>?\\|"@;
    assert(s.len() == 9);
    assert(s[0] == 0x22 as char && s[1] == 0x2A as char && s[2] == 0x2F as char);
    assert(s[3] == 0x3A as char && s[4] == 0x3C as char && s[5] == 0x3E as char);
    assert(s[6] == 0x3F as char && s[7] == 0x5C as char && s[8] == 0x7C as char);
    if s.contains(b as char) {
        let i = choose|i: int| 0 <= i < s.len() && s[i] == b as char;
        assert(i == 0 || i == 1 || i == 2 || i == 3 || i == 4 || i == 5 || i == 6 || i == 7 || i
            == 8);
    }
}

/// What an alias keeps of a name is what it keeps of its parts: of each byte the capital letter, digit,
/// underscore or hyphen that it is in capital letters, and nothing of any other.
pub proof fn aliases_keep_letters_and_digits(a: Seq<u8>, b: u8)
    ensures
        cleaned(Seq::empty()) == Seq::<u8>::empty(),
        cleaned(a.push(b)) == cleaned(a) + (if 65 <= upper(b) <= 90 || 48 <= b <= 57 || b == 0x5F
            || b == 0x2D {
            seq![upper(b)]
        } else {
            Seq::empty()
        }),
{
    assert(a.push(b).drop_last() =~= a);
    let keeps = alias_byte(upper(b));
    if keeps {
        assert(cleaned(a).push(upper(b)) =~= cleaned(a) + seq![upper(b)]);
    } else {
        assert(cleaned(a) =~= cleaned(a) + Seq::<u8>::empty());
    }
}

/// An alias is up to five of the bytes that are kept of what is in front of the dot, or an
/// underscore, with a tilde and its number behind it, and up to three of those behind the dot.
pub proof fn aliases_are_made_up(b: Seq<u8>, n: int)
    requires
        1 <= n <= 99,
    ensures
        ({
            let base = cleaned(base_part(b));
            let ext = cleaned(ext_part(b));
            let front = if base.len() == 0 {
                seq![0x5Fu8]
            } else {
                base.take(if base.len() < 5 {
                    base.len() as int
                } else {
                    5
                })
            };
            let behind = ext.take(if ext.len() < 3 {
                ext.len() as int
            } else {
                3
            });
            let digits = if n < 10 {
                seq![(48 + n) as u8]
            } else {
                seq![(48 + n / 10) as u8, (48 + n % 10) as u8]
            };
            alias(b, n) == filled_up(front + seq![0x7Eu8] + digits, 8) + filled_up(behind, 3)
        }),
{
    let base = cleaned(base_part(b));
    let ext = cleaned(ext_part(b));
    let front = alias_base(b);
    let behind = alias_ext(b);
    assert(base.take(base.len() as int) =~= base);
    assert(ext.take(ext.len() as int) =~= ext);
    let digits = if n < 10 {
        seq![(48 + n) as u8]
    } else {
        seq![(48 + n / 10) as u8, (48 + n % 10) as u8]
    };
    assert(alias_suffix(n) =~= seq![0x7Eu8] + digits);
    assert(front + alias_suffix(n) =~= front + seq![0x7Eu8] + digits);
    assert(name_field(front + alias_suffix(n), behind) =~= filled_up(
        front + seq![0x7Eu8] + digits,
        8,
    ) + filled_up(behind, 3));
}

/// The alias that is picked is the first one that is not taken.
pub proof fn first_alias_is_picked(b: Seq<u8>, names: Seq<Seq<u8>>, n: int, m: int)
    requires
        1 <= n <= m <= 99,
        !names.contains(alias(b, m)),
        forall|i: int| n <= i < m ==> names.contains(#[trigger] alias(b, i)),
    ensures
        free_alias(b, names, n) == Some(alias(b, m)),
    decreases m - n,
{
    if n < m {
        assert(names.contains(alias(b, n)));
        first_alias_is_picked(b, names, n + 1, m);
    }
}

/// A year that the packed form has no room for is the nearest one that it has.
pub proof fn years_are_kept_in_range(t: RtcTime)
    ensures
        t.year < 1980 ==> fat_datetime(t) == fat_datetime((RtcTime { year: 1980, ..t })),
        t.year > 2107 ==> fat_datetime(t) == fat_datetime((RtcTime { year: 2107, ..t })),
{
}

} // verus!
