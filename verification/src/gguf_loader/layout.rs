//! How the header and the tensor table of a model file are laid out.

use crate::bytes::{
    bytes_stand_for_number, fields_of_eight_bytes, fields_of_four_bytes, le32, le32_bytes,
    le64_bytes,
};
use crate::gguf_loader::{
    gtype_number, header_of, info_error, info_len, info_start, infos_end, is_info, known_gtype,
    widened, GgufGtype, GgufTensorInfo,
};
use vstd::prelude::*;
use vstd::utf8::{encode_utf8, encode_utf8_decode_utf8, valid_utf8};

verus! {

/// The first 24 bytes of a model file: four letters, a version, the number of tensors, and
/// the number of entries with facts about the model.
pub open spec fn header_bytes(version: u32, tensor_count: u64, kv_count: u64) -> Seq<u8> {
    seq![0x47u8, 0x47, 0x55, 0x46] + le32_bytes(version) + le64_bytes(tensor_count) + le64_bytes(
        kv_count,
    )
}

/// A header is read as what it was made of, whatever comes behind it.
pub proof fn header_is_read(version: u32, tensor_count: u64, kv_count: u64, rest: Seq<u8>)
    ensures
        header_of(header_bytes(version, tensor_count, kv_count) + rest) matches Ok(h) && h.version
            == version && h.tensor_count == tensor_count as usize && h.kv_count
            == kv_count as usize,
{
    let b = header_bytes(version, tensor_count, kv_count) + rest;
    bytes_stand_for_number(0, version, tensor_count);
    bytes_stand_for_number(0, version, kv_count);
    assert(b.subrange(4, 8) =~= le32_bytes(version));
    assert(b.subrange(8, 16) =~= le64_bytes(tensor_count));
    assert(b.subrange(16, 24) =~= le64_bytes(kv_count));
    fields_of_four_bytes(b, 4);
    fields_of_eight_bytes(b, 8);
    fields_of_eight_bytes(b, 16);
    assert(b[0] == 0x47 && b[1] == 0x47 && b[2] == 0x55 && b[3] == 0x46);
}

/// A file that starts with other letters, or that ends within the header, is refused.
pub proof fn other_files_are_refused(b: Seq<u8>)
    ensures
        header_of(b) is Ok <==> b.len() >= 24 && b.take(4) == seq![0x47u8, 0x47, 0x55, 0x46],
{
    if b.len() >= 24 {
        fields_of_four_bytes(b, 0);
        let t = b.take(4);
        assert(t[0] == b[0] && t[1] == b[1] && t[2] == b[2] && t[3] == b[3]);
        if b[0] == 0x47 && b[1] == 0x47 && b[2] == 0x55 && b[3] == 0x46 {
            assert(t =~= seq![0x47u8, 0x47, 0x55, 0x46]);
        }
        if t == seq![0x47u8, 0x47, 0x55, 0x46] {
            assert(seq![0x47u8, 0x47, 0x55, 0x46][0] == 0x47);
            assert(seq![0x47u8, 0x47, 0x55, 0x46][1] == 0x47);
            assert(seq![0x47u8, 0x47, 0x55, 0x46][2] == 0x55);
            assert(seq![0x47u8, 0x47, 0x55, 0x46][3] == 0x46);
        }
    }
}

/// The bytes of an entry of the tensor table: the length of the name, the name, two
/// dimensions, the storage type and the offset.
pub open spec fn info_bytes(
    name: Seq<char>,
    dim0: u32,
    dim1: u32,
    gtype: u32,
    offset: u32,
) -> Seq<u8> {
    le32_bytes(encode_utf8(name).len() as u32) + encode_utf8(name) + le32_bytes(dim0) + le32_bytes(
        dim1,
    ) + le32_bytes(gtype) + le32_bytes(offset)
}

proof fn info_parts(name: Seq<char>, dim0: u32, dim1: u32, gtype: u32, offset: u32, rest: Seq<u8>)
    requires
        encode_utf8(name).len() <= u32::MAX,
    ensures
        ({
            let b = info_bytes(name, dim0, dim1, gtype, offset) + rest;
            let at = 4 + encode_utf8(name).len() as int;
            &&& le32(b, 0) == encode_utf8(name).len()
            &&& b.subrange(4, at) == encode_utf8(name)
            &&& le32(b, at) == dim0
            &&& le32(b, at + 4) == dim1
            &&& le32(b, at + 8) == gtype
            &&& le32(b, at + 12) == offset
            &&& b.len() == at + 16 + rest.len()
        }),
{
    let text = encode_utf8(name);
    let b = info_bytes(name, dim0, dim1, gtype, offset) + rest;
    let at = 4 + text.len() as int;
    bytes_stand_for_number(0, text.len() as u32, 0);
    bytes_stand_for_number(0, dim0, 0);
    bytes_stand_for_number(0, dim1, 0);
    bytes_stand_for_number(0, gtype, 0);
    bytes_stand_for_number(0, offset, 0);
    assert(b.subrange(0, 4) =~= le32_bytes(text.len() as u32));
    assert(b.subrange(4, at) =~= text);
    assert(b.subrange(at, at + 4) =~= le32_bytes(dim0));
    assert(b.subrange(at + 4, at + 8) =~= le32_bytes(dim1));
    assert(b.subrange(at + 8, at + 12) =~= le32_bytes(gtype));
    assert(b.subrange(at + 12, at + 16) =~= le32_bytes(offset));
    fields_of_four_bytes(b, 0);
    fields_of_four_bytes(b, at);
    fields_of_four_bytes(b, at + 4);
    fields_of_four_bytes(b, at + 8);
    fields_of_four_bytes(b, at + 12);
}

/// An entry of the tensor table is read as what it was made of, and takes its own bytes,
/// whatever comes behind it. One of an unknown storage type is refused.
pub proof fn info_is_read(
    name: Seq<char>,
    dim0: u32,
    dim1: u32,
    gtype: u32,
    offset: u32,
    rest: Seq<u8>,
    info: GgufTensorInfo,
)
    requires
        encode_utf8(name).len() <= u32::MAX,
        valid_utf8(encode_utf8(name)),
    ensures
        ({
            let own = info_bytes(name, dim0, dim1, gtype, offset);
            let b = own + rest;
            &&& info_error(b) is None <==> known_gtype(gtype as int)
            &&& info_len(b) == own.len()
            &&& is_info(info, b) ==> info.name@ == name && info.dimensions@[0] == dim0
                && info.dimensions@[1] == dim1 && gtype_number(info.gtype) == gtype && info.offset
                == offset
        }),
{
    info_parts(name, dim0, dim1, gtype, offset, rest);
    encode_utf8_decode_utf8(name);
    let b = info_bytes(name, dim0, dim1, gtype, offset) + rest;
    assert(dim0 as usize == dim0 && dim1 as usize == dim1);
}

/// An entry whose bytes are not all there is refused.
pub proof fn short_info_is_refused(
    name: Seq<char>,
    dim0: u32,
    dim1: u32,
    gtype: u32,
    offset: u32,
    n: int,
)
    requires
        encode_utf8(name).len() <= u32::MAX,
        0 <= n < info_bytes(name, dim0, dim1, gtype, offset).len(),
    ensures
        info_error(info_bytes(name, dim0, dim1, gtype, offset).take(n)) is Some,
{
    let own = info_bytes(name, dim0, dim1, gtype, offset);
    info_parts(name, dim0, dim1, gtype, offset, Seq::empty());
    assert(own + Seq::<u8>::empty() =~= own);
    if n >= 4 {
        let b = own.take(n);
        assert(b[0] == own[0] && b[1] == own[1] && b[2] == own[2] && b[3] == own[3]);
    }
}

/// The entries of a table stand one behind the other: each starts where the one before it
/// ends, and the table ends where its last entry does.
pub proof fn infos_are_in_a_row(b: Seq<u8>, n: nat)
    requires
        infos_end(b, 0, n) is Ok,
    ensures
        infos_end(b, 0, n) == Ok::<int, &'static str>(info_start(b, n)),
        info_start(b, 0) == 0,
        forall|i: nat|
            i < n ==> info_error(b.skip(#[trigger] info_start(b, i))) is None && info_start(b, i + 1)
                == info_start(b, i) + 4 + le32(b.skip(info_start(b, i)), 0) + 16,
{
    infos_from(b, 0, n);
}

proof fn infos_from(b: Seq<u8>, k: nat, left: nat)
    requires
        infos_end(b, info_start(b, k), left) is Ok,
    ensures
        infos_end(b, info_start(b, k), left) == Ok::<int, &'static str>(info_start(b, k + left)),
        forall|i: nat|
            k <= i < k + left ==> info_error(b.skip(#[trigger] info_start(b, i))) is None
                && info_start(b, i + 1) == info_start(b, i) + 4 + le32(b.skip(info_start(b, i)), 0)
                + 16,
    decreases left,
{
    if left > 0 {
        assert(info_start(b, k + 1) == info_start(b, k) + info_len(b.skip(info_start(b, k))));
        infos_from(b, k + 1, (left - 1) as nat);
    }
}

/// The numbers of the storage types are those that files use.
pub proof fn gtypes_have_their_numbers(g: GgufGtype)
    ensures
        gtype_number(g) == 0 <==> g == GgufGtype::F32,
        gtype_number(g) == 1 <==> g == GgufGtype::F16,
        gtype_number(g) == 2 <==> g == GgufGtype::Q4_0,
        gtype_number(g) == 3 <==> g == GgufGtype::Q4_1,
        gtype_number(g) == 8 <==> g == GgufGtype::Q8_0,
        gtype_number(g) == 10 <==> g == GgufGtype::Q2_K,
        gtype_number(g) == 11 <==> g == GgufGtype::Q3_K,
        gtype_number(g) == 12 <==> g == GgufGtype::Q4_K,
        gtype_number(g) == 13 <==> g == GgufGtype::Q5_K,
        gtype_number(g) == 14 <==> g == GgufGtype::Q6_K,
        gtype_number(g) == 15 <==> g == GgufGtype::Q8_K,
        !known_gtype(4) && !known_gtype(5) && !known_gtype(6) && !known_gtype(7) && !known_gtype(9),
        forall|raw: int| raw < 0 || raw > 15 ==> !known_gtype(raw),
{
}

/// Widening keeps a zero, an infinity and what is no number, with their signs: the
/// exponent is zero or all ones, and the mantissa is zero where it was zero.
pub proof fn widening_keeps_kind(bits: u16)
    ensures
        0 <= widened(bits) <= u32::MAX,
        bits % 0x8000 == 0 ==> widened(bits) == bits * 0x1_0000,
        bits / 1024 % 32 == 31 ==> {
            &&& widened(bits) / 0x80_0000 % 256 == 255
            &&& widened(bits) / 0x8000_0000 == bits / 0x8000
            &&& widened(bits) % 0x80_0000 == (bits % 1024) * 0x2000
        },
{
    crate::gguf_loader::widening_in_range(bits);
}

} // verus!
