use vstd::prelude::*;

use vstd::utf8::{
    char_is_scalar,
    char_u32_cast,
    encode_utf8,
    encode_utf8_decode_utf8,
    encode_utf8_valid_utf8,
};

use crate::reader::{
    fresh_reader,
    ReaderModel,
    TagOrEndModel,
    dec_body,
    dec_fixed,
    dec_str,
    dec_svar,
    dec_uvar,
    dec_variant,
    from_le,
    is_char_value,
    PackedI128,
    PackedU128,
};
use crate::tag::{IntegerTag, OptionTag, StructTag, StructType, TagModel, TagType};
use crate::varint::{
    le_bytes,
    spec_bit_len,
    spec_is_varint_better,
    lemma_unsigned_varint_roundtrip,
    lemma_varint_with_sign_roundtrip,
    lemma_fits_iff_small,
    low_mask,
    svarint_bytes,
    trunc,
    uvarint_bytes,
    lemma_signed_varint_roundtrip,
    SignedInt,
    UnsignedInt,
};
use crate::writer::{
    abs_int,
    int_bytes,
    int_case_bytes,
    lemma_string_id_holds,
    str_ref_bytes,
    string_id,
    struct_code,
    struct_len_bytes,
    flush_bytes,
    tag_bytes,
    variant_code,
    WriterModel,
};

verus! {

/// One more low byte below the low `k` bits of `v >> 8` gives the low `k + 8`
/// bits of `v`.
proof fn lemma_le_step(v: u128, k: u32)
    requires
        k <= 120,
    ensures
        ((trunc(v >> 8u32, k) << 8u32) | (v & 0xff)) == trunc(v, (k + 8) as u32),
{
    assert(((((v >> 8u32) & low_mask(k)) << 8u32) | (v & 0xff)) == v & low_mask((k + 8) as u32))
        by (bit_vector)
        requires
            k <= 120,
    ;
}

/// Reading back `n` little-endian bytes of `v` gives the low `8 n` bits of `v`.
pub proof fn lemma_from_le_bytes(v: u128, n: nat)
    requires
        n <= 16,
    ensures
        from_le(le_bytes(v, n)) == trunc(v, (8 * n) as u32),
    decreases n,
{
    if n == 0 {
        assert(trunc(v, 0) == 0) by (bit_vector);
    } else {
        lemma_from_le_bytes(v >> 8u32, (n - 1) as nat);
        assert(le_bytes(v, n).drop_first() =~= le_bytes(v >> 8u32, (n - 1) as nat));
        assert(le_bytes(v, n)[0] == (v & 0xff) as u8);
        assert(((v & 0xff) as u8) as u128 == v & 0xff) by (bit_vector);
        lemma_le_step(v, (8 * (n - 1)) as u32);
    }
}

/// The reader's string map holds the writer's strings, each under its
/// position as id.
pub open spec fn strings_agree(strs: Seq<Seq<char>>, m: Map<u32, Seq<char>>) -> bool {
    &&& strs.len() <= u32::MAX
    &&& forall|i: u32| #[trigger] m.contains_key(i) <==> i < strs.len()
    &&& forall|i: u32| i < strs.len() ==> #[trigger] m[i] == strs[i as int]
}

/// The bytes at `pos` of `input` are `b`.
pub open spec fn bytes_at(input: Seq<u8>, pos: nat, b: Seq<u8>) -> bool {
    &&& pos + b.len() <= input.len()
    &&& input.subrange(pos as int, (pos + b.len()) as int) == b
}

proof fn lemma_skip_split(input: Seq<u8>, pos: nat, b: Seq<u8>)
    requires
        bytes_at(input, pos, b),
    ensures
        input.skip(pos as int) == b + input.skip((pos + b.len()) as int),
{
    assert(input.skip(pos as int) =~= b + input.skip((pos + b.len()) as int));
}

/// Reading a string reference that the writer wrote, with string maps that
/// agree, gives the string back, and the maps agree after.
pub proof fn lemma_read_str_ref(
    strs: Seq<Seq<char>>,
    m: Map<u32, Seq<char>>,
    s: Seq<char>,
    input: Seq<u8>,
    pos: nat,
)
    requires
        strings_agree(strs, m),
        str_ref_bytes(strs, s) is Some,
        bytes_at(input, pos, str_ref_bytes(strs, s).unwrap().0),
        input.len() <= usize::MAX,
    ensures
        ({
            let (b, st) = str_ref_bytes(strs, s).unwrap();
            dec_str(input, pos, m) matches Ok((s2, p2, m2)) && s2 == s && p2 == pos + b.len()
                && strings_agree(st, m2)
        }),
{
    let (b, st) = str_ref_bytes(strs, s).unwrap();
    let rest = input.skip((pos + b.len()) as int);
    lemma_skip_split(input, pos, b);
    lemma_string_id_holds(strs, s);
    match string_id(strs, s) {
        Some(i) => {
            let iv = i as u32;
            assert(iv.spec_value() == i as u128);
            lemma_varint_with_sign_roundtrip::<u32>(iv, false, rest);
            assert(m.contains_key(iv));
        },
        None => {
            let n = strs.len();
            let e = encode_utf8(s);
            let nv = n as u32;
            assert(nv.spec_value() == n as u128);
            let sv = svarint_bytes(n as u128, true);
            let uv = uvarint_bytes(e.len() as u128);
            assert(b == sv + uv + e);
            lemma_varint_with_sign_roundtrip::<u32>(nv, true, uv + e + rest);
            assert(b + rest =~= sv + (uv + e + rest));
            let p1 = pos + sv.len();
            assert(input.skip(p1 as int) =~= uv + (e + rest)) by {
                assert(input.skip(pos as int).skip(sv.len() as int) =~= input.skip(p1 as int));
            }
            let ev = e.len() as usize;
            assert(ev.spec_value() == e.len() as u128);
            lemma_unsigned_varint_roundtrip::<usize>(ev, e + rest);
            let p2 = p1 + uv.len();
            assert(input.subrange(p2 as int, (p2 + e.len()) as int) =~= e) by {
                assert(input.subrange(pos as int, (pos + b.len()) as int) == b);
                assert forall|k: int| 0 <= k < e.len() implies input[p2 + k] == e[k] by {
                    assert(input[p2 + k] == input.subrange(pos as int, (pos + b.len()) as int)[(sv.len()
                        + uv.len() + k) as int]);
                }
            }
            encode_utf8_valid_utf8(s);
            encode_utf8_decode_utf8(s);
            let m2 = m.insert(nv, s);
            assert forall|j: u32| j < st.len() implies #[trigger] m2[j] == st[j as int] by {
                if j < n {
                    assert(m.contains_key(j));
                }
            }
        },
    }
}

/// `n` little-endian bytes are `n` bytes.
pub proof fn lemma_le_bytes_len(v: u128, n: nat)
    ensures
        le_bytes(v, n).len() == n,
    decreases n,
{
    if n > 0 {
        lemma_le_bytes_len(v >> 8u32, (n - 1) as nat);
    }
}

/// A tag byte and the fixed-width form of `raw` are read back as `raw`,
/// kept to `8 w` bits.
proof fn lemma_read_fixed_at(input: Seq<u8>, pos: nat, code: u8, raw: u128, w: nat)
    requires
        w <= 16,
        bytes_at(input, pos, seq![code] + le_bytes(raw, w)),
    ensures
        input[pos as int] == code,
        dec_fixed(input, pos + 1, w) == Some(trunc(raw, (8 * w) as u32)),
        pos + 1 + w <= input.len(),
{
    let b = seq![code] + le_bytes(raw, w);
    lemma_le_bytes_len(raw, w);
    assert(input[pos as int] == input.subrange(pos as int, (pos + b.len()) as int)[0]);
    assert(input.subrange((pos + 1) as int, (pos + 1 + w) as int) =~= le_bytes(raw, w)) by {
        assert forall|k: int| 0 <= k < w implies input[pos + 1 + k] == le_bytes(raw, w)[k] by {
            assert(input[pos + 1 + k] == input.subrange(pos as int, (pos + b.len()) as int)[1
                + k]);
        }
    }
    lemma_from_le_bytes(raw, w);
}

/// A tag byte and the varint form of `x` are read back as `x`.
proof fn lemma_read_uvar_at<I: UnsignedInt>(input: Seq<u8>, pos: nat, code: u8, x: I)
    requires
        bytes_at(input, pos, seq![code] + uvarint_bytes(x.spec_value())),
    ensures
        input[pos as int] == code,
        dec_uvar(input, pos + 1, I::spec_bits()) == Ok::<(u128, nat), crate::reader::ReadError>(
            (x.spec_value(), pos + 1 + uvarint_bytes(x.spec_value()).len()),
        ),
{
    let e = uvarint_bytes(x.spec_value());
    let b = seq![code] + e;
    lemma_skip_split(input, pos, b);
    assert(input[pos as int] == input.skip(pos as int)[0]);
    let rest = input.skip((pos + b.len()) as int);
    assert(input.skip((pos + 1) as int) =~= e + rest) by {
        assert(input.skip(pos as int).skip(1) =~= input.skip((pos + 1) as int));
        assert((b + rest).skip(1) =~= e + rest);
    }
    lemma_unsigned_varint_roundtrip::<I>(x, rest);
}

/// A tag byte and the signed varint form of `x` are read back as `x`.
proof fn lemma_read_svar_at<S: SignedInt>(input: Seq<u8>, pos: nat, code: u8, x: S)
    requires
        bytes_at(
            input,
            pos,
            seq![code] + svarint_bytes(
                abs_int(x.spec_value()) as u128,
                x.spec_value() < 0,
            ),
        ),
    ensures
        input[pos as int] == code,
        dec_svar(input, pos + 1, S::Unsigned::spec_bits(), S::spec_min(), S::spec_max())
            == Ok::<(int, nat), crate::reader::ReadError>(
            (
                x.spec_value(),
                pos + 1 + svarint_bytes(abs_int(x.spec_value()) as u128, x.spec_value() < 0).len(),
            ),
        ),
{
    let e = svarint_bytes(abs_int(x.spec_value()) as u128, x.spec_value() < 0);
    let b = seq![code] + e;
    lemma_skip_split(input, pos, b);
    assert(input[pos as int] == input.skip(pos as int)[0]);
    let rest = input.skip((pos + b.len()) as int);
    assert(input.skip((pos + 1) as int) =~= e + rest) by {
        assert(input.skip(pos as int).skip(1) =~= input.skip((pos + 1) as int));
        assert((b + rest).skip(1) =~= e + rest);
    }
    lemma_signed_varint_roundtrip::<S>(x, rest);
}

/// A signed value seen as unsigned of its width and back is itself.
proof fn lemma_signed_casts(a: i8, b: i16, c: i32, d: i64, e: i128)
    by (bit_vector)
    ensures
        (a as u8 as i8) == a,
        (b as u16 as i16) == b,
        (c as u32 as i32) == c,
        (d as u64 as i64) == d,
        (e as u128 as i128) == e,
{
}

proof fn lemma_signed_casts_i8(v: i8)
    ensures
        (v as u8 as u128) as u8 as i8 == v,
{
    lemma_signed_casts(v, 0, 0, 0, 0);
}

proof fn lemma_signed_casts_i16(v: i16)
    ensures
        (v as u16 as u128) as u16 as i16 == v,
{
    lemma_signed_casts(0, v, 0, 0, 0);
}

proof fn lemma_signed_casts_i32(v: i32)
    ensures
        (v as u32 as u128) as u32 as i32 == v,
{
    lemma_signed_casts(0, 0, v, 0, 0);
}

proof fn lemma_signed_casts_i64(v: i64)
    ensures
        (v as u64 as u128) as u64 as i64 == v,
{
    lemma_signed_casts(0, 0, 0, v, 0);
}

proof fn lemma_signed_casts_i128(v: i128)
    ensures
        (v as u128) as i128 == v,
{
    lemma_signed_casts(0, 0, 0, 0, v);
}

/// The bytes of integer `i` at `pos` are read back as `i`.
pub open spec fn reads_int(i: IntegerTag, input: Seq<u8>, pos: nat, m: Map<u32, Seq<char>>) -> bool {
    &&& pos < input.len()
    &&& TagType::spec_from_code(input[pos as int]) matches Some(ty) && dec_body(input, pos + 1, m, ty)
        == Ok::<(TagModel, nat, Map<u32, Seq<char>>), crate::reader::ReadError>(
        (TagModel::Integer(i), pos + int_bytes(i).len(), m),
    )
}

proof fn lemma_read_u16(v: u16, input: Seq<u8>, pos: nat, m: Map<u32, Seq<char>>)
    requires
        bytes_at(input, pos, int_bytes(IntegerTag::U16(v))),
    ensures
        reads_int(IntegerTag::U16(v), input, pos, m),
{
    let mag = v as u128;
    if spec_is_varint_better((2 * 8 - spec_bit_len(mag)) as nat, 2, false) {
        assert(v.spec_value() == mag);
        lemma_read_uvar_at::<u16>(input, pos, TagType::U16Var.spec_code(), v);
    } else {
        lemma_read_fixed_at(input, pos, TagType::U16.spec_code(), mag, 2);
        lemma_le_bytes_len(mag, 2);
        lemma_fits_iff_small(mag, 16);
    }
}

proof fn lemma_read_u32(v: u32, input: Seq<u8>, pos: nat, m: Map<u32, Seq<char>>)
    requires
        bytes_at(input, pos, int_bytes(IntegerTag::U32(v))),
    ensures
        reads_int(IntegerTag::U32(v), input, pos, m),
{
    let mag = v as u128;
    if spec_is_varint_better((4 * 8 - spec_bit_len(mag)) as nat, 4, false) {
        assert(v.spec_value() == mag);
        lemma_read_uvar_at::<u32>(input, pos, TagType::U32Var.spec_code(), v);
    } else {
        lemma_read_fixed_at(input, pos, TagType::U32.spec_code(), mag, 4);
        lemma_le_bytes_len(mag, 4);
        lemma_fits_iff_small(mag, 32);
    }
}

proof fn lemma_read_u64(v: u64, input: Seq<u8>, pos: nat, m: Map<u32, Seq<char>>)
    requires
        bytes_at(input, pos, int_bytes(IntegerTag::U64(v))),
    ensures
        reads_int(IntegerTag::U64(v), input, pos, m),
{
    let mag = v as u128;
    if spec_is_varint_better((8 * 8 - spec_bit_len(mag)) as nat, 8, false) {
        assert(v.spec_value() == mag);
        lemma_read_uvar_at::<u64>(input, pos, TagType::U64Var.spec_code(), v);
    } else {
        lemma_read_fixed_at(input, pos, TagType::U64.spec_code(), mag, 8);
        lemma_le_bytes_len(mag, 8);
        lemma_fits_iff_small(mag, 64);
    }
}

proof fn lemma_read_i16(v: i16, input: Seq<u8>, pos: nat, m: Map<u32, Seq<char>>)
    requires
        bytes_at(input, pos, int_bytes(IntegerTag::I16(v))),
    ensures
        reads_int(IntegerTag::I16(v), input, pos, m),
{
    let mag = abs_int(v as int) as u128;
    if spec_is_varint_better((2 * 8 - spec_bit_len(mag)) as nat, 2, true) {
        assert(v.spec_value() == v as int);
        lemma_read_svar_at::<i16>(input, pos, TagType::I16Var.spec_code(), v);
    } else {
        let raw = v as u16 as u128;
        lemma_read_fixed_at(input, pos, TagType::I16.spec_code(), raw, 2);
        lemma_le_bytes_len(raw, 2);
        lemma_fits_iff_small(raw, 16);
        lemma_signed_casts_i16(v);
    }
}

proof fn lemma_read_i32(v: i32, input: Seq<u8>, pos: nat, m: Map<u32, Seq<char>>)
    requires
        bytes_at(input, pos, int_bytes(IntegerTag::I32(v))),
    ensures
        reads_int(IntegerTag::I32(v), input, pos, m),
{
    let mag = abs_int(v as int) as u128;
    if spec_is_varint_better((4 * 8 - spec_bit_len(mag)) as nat, 4, true) {
        assert(v.spec_value() == v as int);
        lemma_read_svar_at::<i32>(input, pos, TagType::I32Var.spec_code(), v);
    } else {
        let raw = v as u32 as u128;
        lemma_read_fixed_at(input, pos, TagType::I32.spec_code(), raw, 4);
        lemma_le_bytes_len(raw, 4);
        lemma_fits_iff_small(raw, 32);
        lemma_signed_casts_i32(v);
    }
}

proof fn lemma_read_i64(v: i64, input: Seq<u8>, pos: nat, m: Map<u32, Seq<char>>)
    requires
        bytes_at(input, pos, int_bytes(IntegerTag::I64(v))),
    ensures
        reads_int(IntegerTag::I64(v), input, pos, m),
{
    let mag = abs_int(v as int) as u128;
    if spec_is_varint_better((8 * 8 - spec_bit_len(mag)) as nat, 8, true) {
        assert(v.spec_value() == v as int);
        lemma_read_svar_at::<i64>(input, pos, TagType::I64Var.spec_code(), v);
    } else {
        let raw = v as u64 as u128;
        lemma_read_fixed_at(input, pos, TagType::I64.spec_code(), raw, 8);
        lemma_le_bytes_len(raw, 8);
        lemma_fits_iff_small(raw, 64);
        lemma_signed_casts_i64(v);
    }
}

proof fn lemma_read_u128(v: u128, input: Seq<u8>, pos: nat, m: Map<u32, Seq<char>>)
    requires
        bytes_at(input, pos, int_bytes(IntegerTag::U128(PackedU128(v)))),
    ensures
        reads_int(IntegerTag::U128(PackedU128(v)), input, pos, m),
{
    if spec_is_varint_better((16 * 8 - spec_bit_len(v)) as nat, 16, false) {
        lemma_read_uvar_at::<u128>(input, pos, TagType::U128Var.spec_code(), v);
    } else {
        lemma_read_fixed_at(input, pos, TagType::U128.spec_code(), v, 16);
        lemma_le_bytes_len(v, 16);
        lemma_fits_iff_small(v, 128);
    }
}

proof fn lemma_read_i128(v: i128, input: Seq<u8>, pos: nat, m: Map<u32, Seq<char>>)
    requires
        bytes_at(input, pos, int_bytes(IntegerTag::I128(PackedI128(v)))),
    ensures
        reads_int(IntegerTag::I128(PackedI128(v)), input, pos, m),
{
    let mag = abs_int(v as int) as u128;
    if spec_is_varint_better((16 * 8 - spec_bit_len(mag)) as nat, 16, true) {
        assert(v.spec_value() == v as int);
        lemma_read_svar_at::<i128>(input, pos, TagType::I128Var.spec_code(), v);
    } else {
        let raw = v as u128;
        lemma_read_fixed_at(input, pos, TagType::I128.spec_code(), raw, 16);
        lemma_le_bytes_len(raw, 16);
        lemma_fits_iff_small(raw, 128);
        lemma_signed_casts_i128(v);
    }
}

proof fn lemma_read_u8(v: u8, input: Seq<u8>, pos: nat, m: Map<u32, Seq<char>>)
    requires
        bytes_at(input, pos, int_bytes(IntegerTag::U8(v))),
    ensures
        reads_int(IntegerTag::U8(v), input, pos, m),
{
    let raw = v as u128;
    assert(int_bytes(IntegerTag::U8(v)) =~= seq![TagType::U8.spec_code()] + le_bytes(raw, 1)) by {
        assert(le_bytes(raw >> 8u32, 0) =~= Seq::<u8>::empty());
        assert(le_bytes(raw, 1) =~= seq![(raw & 0xff) as u8]);
        assert(((raw & 0xff) as u8) == v) by (bit_vector)
            requires
                raw == v as u128,
        ;
    }
    lemma_read_fixed_at(input, pos, TagType::U8.spec_code(), raw, 1);
    lemma_fits_iff_small(raw, 8);
}

proof fn lemma_read_i8(v: i8, input: Seq<u8>, pos: nat, m: Map<u32, Seq<char>>)
    requires
        bytes_at(input, pos, int_bytes(IntegerTag::I8(v))),
    ensures
        reads_int(IntegerTag::I8(v), input, pos, m),
{
    let raw = v as u8 as u128;
    assert(int_bytes(IntegerTag::I8(v)) =~= seq![TagType::I8.spec_code()] + le_bytes(raw, 1)) by {
        assert(le_bytes(raw >> 8u32, 0) =~= Seq::<u8>::empty());
        assert(le_bytes(raw, 1) =~= seq![(raw & 0xff) as u8]);
        assert(((raw & 0xff) as u8) == v as u8) by (bit_vector)
            requires
                raw == v as u8 as u128,
        ;
    }
    lemma_read_fixed_at(input, pos, TagType::I8.spec_code(), raw, 1);
    lemma_fits_iff_small(raw, 8);
    lemma_signed_casts_i8(v);
}

/// The bytes of an integer are read back as the integer.
pub proof fn lemma_read_int(i: IntegerTag, input: Seq<u8>, pos: nat, m: Map<u32, Seq<char>>)
    requires
        bytes_at(input, pos, int_bytes(i)),
    ensures
        reads_int(i, input, pos, m),
{
    match i {
        IntegerTag::I8(v) => lemma_read_i8(v, input, pos, m),
        IntegerTag::U8(v) => lemma_read_u8(v, input, pos, m),
        IntegerTag::I16(v) => lemma_read_i16(v, input, pos, m),
        IntegerTag::U16(v) => lemma_read_u16(v, input, pos, m),
        IntegerTag::I32(v) => lemma_read_i32(v, input, pos, m),
        IntegerTag::U32(v) => lemma_read_u32(v, input, pos, m),
        IntegerTag::I64(v) => lemma_read_i64(v, input, pos, m),
        IntegerTag::U64(v) => lemma_read_u64(v, input, pos, m),
        IntegerTag::I128(p) => lemma_read_i128(p.0, input, pos, m),
        IntegerTag::U128(p) => lemma_read_u128(p.0, input, pos, m),
    }
}

/// Bytes `a + b` at `pos` are `a` at `pos` and `b` after it.
proof fn lemma_bytes_at_split(input: Seq<u8>, pos: nat, a: Seq<u8>, b: Seq<u8>)
    requires
        bytes_at(input, pos, a + b),
    ensures
        bytes_at(input, pos, a),
        bytes_at(input, pos + a.len(), b),
{
    let ab = a + b;
    assert(input.subrange(pos as int, (pos + a.len()) as int) =~= a) by {
        assert forall|k: int| 0 <= k < a.len() implies input[pos + k] == a[k] by {
            assert(input[pos + k] == input.subrange(pos as int, (pos + ab.len()) as int)[k]);
        }
    }
    assert(input.subrange((pos + a.len()) as int, (pos + a.len() + b.len()) as int) =~= b) by {
        assert forall|k: int| 0 <= k < b.len() implies input[pos + a.len() + k] == b[k] by {
            assert(input[pos + a.len() + k] == input.subrange(pos as int, (pos + ab.len()) as int)[a.len()
                + k]);
        }
    }
}

/// The varint form of `x` is read back as `x`.
proof fn lemma_read_uvar_plain<I: UnsignedInt>(input: Seq<u8>, pos: nat, x: I)
    requires
        bytes_at(input, pos, uvarint_bytes(x.spec_value())),
    ensures
        dec_uvar(input, pos, I::spec_bits()) == Ok::<(u128, nat), crate::reader::ReadError>(
            (x.spec_value(), pos + uvarint_bytes(x.spec_value()).len()),
        ),
{
    let e = uvarint_bytes(x.spec_value());
    lemma_skip_split(input, pos, e);
    lemma_unsigned_varint_roundtrip::<I>(x, input.skip((pos + e.len()) as int));
}

/// The first byte at `pos` is `code`.
proof fn lemma_first_byte(input: Seq<u8>, pos: nat, code: u8, b: Seq<u8>)
    requires
        bytes_at(input, pos, seq![code] + b),
    ensures
        pos < input.len(),
        input[pos as int] == code,
        bytes_at(input, pos + 1, b),
{
    lemma_bytes_at_split(input, pos, seq![code], b);
    assert(input[pos as int] == input.subrange(pos as int, (pos + 1) as int)[0]);
}

/// A length written as a varint after a tag byte is read back.
proof fn lemma_read_len_at(input: Seq<u8>, pos: nat, code: u8, len: usize)
    requires
        bytes_at(input, pos, seq![code] + uvarint_bytes(len as u128)),
    ensures
        pos < input.len(),
        input[pos as int] == code,
        dec_uvar(input, pos + 1, usize::BITS) == Ok::<(u128, nat), crate::reader::ReadError>(
            (len as u128, pos + 1 + uvarint_bytes(len as u128).len()),
        ),
{
    lemma_first_byte(input, pos, code, uvarint_bytes(len as u128));
    assert(len.spec_value() == len as u128);
    lemma_read_uvar_plain::<usize>(input, pos + 1, len);
}

/// Reading at `pos` the bytes that the writer wrote for tag `t` with string map
/// `strs` gives `t` back, with the string maps in step after.
pub open spec fn reads_tag(
    strs: Seq<Seq<char>>,
    m: Map<u32, Seq<char>>,
    t: TagModel,
    input: Seq<u8>,
    pos: nat,
) -> bool {
    let (b, st) = tag_bytes(strs, t).unwrap();
    &&& pos < input.len()
    &&& TagType::spec_from_code(input[pos as int]) matches Some(ty)
    &&& ty != TagType::RepeatTag && ty != TagType::RepeatTagMany && ty != TagType::End
    &&& dec_body(input, pos + 1, m, ty) matches Ok((t2, p2, m2))
    &&& t2 == t
    &&& p2 == pos + b.len()
    &&& strings_agree(st, m2)
}

/// A `char` is read back from its number.
proof fn lemma_char_value(c: char)
    ensures
        is_char_value(c as u32),
        ((c as u32) as char) == c,
{
    char_is_scalar(c);
    char_u32_cast(c, c as u32);
}

proof fn lemma_read_char(
    strs: Seq<Seq<char>>,
    m: Map<u32, Seq<char>>,
    c: char,
    input: Seq<u8>,
    pos: nat,
)
    requires
        strings_agree(strs, m),
        bytes_at(input, pos, tag_bytes(strs, TagModel::Char(c)).unwrap().0),
    ensures
        reads_tag(strs, m, TagModel::Char(c), input, pos),
{
    let v = c as u32;
    let mag = v as u128;
    lemma_char_value(c);
    if spec_is_varint_better((4 * 8 - spec_bit_len(mag)) as nat, 4, false) {
        assert(v.spec_value() == mag);
        lemma_read_uvar_at::<u32>(input, pos, TagType::CharVar.spec_code(), v);
    } else {
        lemma_read_fixed_at(input, pos, TagType::Char32.spec_code(), mag, 4);
        lemma_le_bytes_len(mag, 4);
        lemma_fits_iff_small(mag, 32);
    }
}

proof fn lemma_read_struct_tag(
    strs: Seq<Seq<char>>,
    m: Map<u32, Seq<char>>,
    st: StructTag,
    input: Seq<u8>,
    pos: nat,
)
    requires
        strings_agree(strs, m),
        bytes_at(input, pos, tag_bytes(strs, TagModel::Struct(st)).unwrap().0),
    ensures
        reads_tag(strs, m, TagModel::Struct(st), input, pos),
{
    let b = tag_bytes(strs, TagModel::Struct(st)).unwrap().0;
    match st {
        StructTag::Tuple { len } => {
            lemma_read_len_at(input, pos, struct_code(st), len);
        },
        StructTag::Struct { len } => {
            lemma_read_len_at(input, pos, struct_code(st), len);
        },
        _ => {
            assert(b =~= seq![struct_code(st)] + Seq::<u8>::empty());
            lemma_first_byte(input, pos, struct_code(st), Seq::empty());
        },
    }
}

proof fn lemma_read_variant_tag(
    strs: Seq<Seq<char>>,
    m: Map<u32, Seq<char>>,
    name: Seq<char>,
    st: StructTag,
    input: Seq<u8>,
    pos: nat,
)
    requires
        strings_agree(strs, m),
        tag_bytes(strs, TagModel::Variant(name, st)) is Some,
        bytes_at(input, pos, tag_bytes(strs, TagModel::Variant(name, st)).unwrap().0),
        input.len() <= usize::MAX,
    ensures
        reads_tag(strs, m, TagModel::Variant(name, st), input, pos),
{
    let (rb, st2) = str_ref_bytes(strs, name).unwrap();
    let lb = struct_len_bytes(st);
    let b = tag_bytes(strs, TagModel::Variant(name, st)).unwrap().0;
    assert(b =~= seq![variant_code(st)] + (rb + lb));
    lemma_first_byte(input, pos, variant_code(st), rb + lb);
    lemma_bytes_at_split(input, pos + 1, rb, lb);
    lemma_read_str_ref(strs, m, name, input, pos + 1);
    let p = pos + 1 + rb.len();
    match st {
        StructTag::Tuple { len } => {
            assert(len.spec_value() == len as u128);
            lemma_read_uvar_plain::<usize>(input, p, len);
        },
        StructTag::Struct { len } => {
            assert(len.spec_value() == len as u128);
            lemma_read_uvar_plain::<usize>(input, p, len);
        },
        _ => {},
    }
}

/// The tag that the writer wrote at `pos` with string map `strs` is read back
/// by a reader whose string map agrees, and the maps agree after.
pub proof fn lemma_read_tag_bytes(
    strs: Seq<Seq<char>>,
    m: Map<u32, Seq<char>>,
    t: TagModel,
    input: Seq<u8>,
    pos: nat,
)
    requires
        strings_agree(strs, m),
        tag_bytes(strs, t) is Some,
        bytes_at(input, pos, tag_bytes(strs, t).unwrap().0),
        input.len() <= usize::MAX,
    ensures
        reads_tag(strs, m, t, input, pos),
{
    let b = tag_bytes(strs, t).unwrap().0;
    match t {
        TagModel::Integer(i) => {
            lemma_read_int(i, input, pos, m);
        },
        TagModel::F32(v) => {
            let raw = v as u128;
            lemma_read_fixed_at(input, pos, TagType::F32.spec_code(), raw, 4);
            lemma_le_bytes_len(raw, 4);
            lemma_fits_iff_small(raw, 32);
        },
        TagModel::F64(v) => {
            let raw = v as u128;
            lemma_read_fixed_at(input, pos, TagType::F64.spec_code(), raw, 8);
            lemma_le_bytes_len(raw, 8);
            lemma_fits_iff_small(raw, 64);
        },
        TagModel::Char(c) => {
            lemma_read_char(strs, m, c, input, pos);
        },
        TagModel::Str(st) => {
            let rb = str_ref_bytes(strs, st).unwrap().0;
            lemma_first_byte(input, pos, TagType::Str.spec_code(), rb);
            lemma_read_str_ref(strs, m, st, input, pos + 1);
        },
        TagModel::StrDirect(len) => {
            lemma_read_len_at(input, pos, TagType::StrDirect.spec_code(), len);
        },
        TagModel::Bytes(len) => {
            lemma_read_len_at(input, pos, TagType::Bytes.spec_code(), len);
        },
        TagModel::Struct(st) => {
            lemma_read_struct_tag(strs, m, st, input, pos);
        },
        TagModel::Variant(name, st) => {
            lemma_read_variant_tag(strs, m, name, st, input, pos);
        },
        TagModel::Array(Some(len)) => {
            lemma_read_len_at(input, pos, TagType::LenArray.spec_code(), len);
        },
        TagModel::Mapping(Some(len)) => {
            lemma_read_len_at(input, pos, TagType::LenMap.spec_code(), len);
        },
        TagModel::Tuple(len) => {
            lemma_read_len_at(input, pos, TagType::Tuple.spec_code(), len);
        },
        _ => {
            assert(b.len() == 1);
            assert(b =~= seq![b[0]] + Seq::<u8>::empty());
            lemma_first_byte(input, pos, b[0], Seq::empty());
        },
    }
}

/// The tag that the writer wrote at the reader's position, with no repeat
/// pending and string maps in step, is the tag the reader reads next; it
/// becomes the reader's last tag and the maps stay in step.
pub proof fn lemma_next_tag_of_written(strs: Seq<Seq<char>>, t: TagModel, r: ReaderModel)
    requires
        r.wf(),
        !r.peeked,
        r.repeat == 0,
        strings_agree(strs, r.strings),
        tag_bytes(strs, t) is Some,
        bytes_at(r.input, r.pos, tag_bytes(strs, t).unwrap().0),
    ensures
        ({
            let (b, st) = tag_bytes(strs, t).unwrap();
            r.next_tag() matches Ok((t2, r2)) && t2 == t && r2 == (ReaderModel {
                pos: r.pos + b.len(),
                strings: r2.strings,
                last_tag: Some(t),
                ..r
            }) && strings_agree(st, r2.strings)
        }),
{
    lemma_read_tag_bytes(strs, r.strings, t, r.input, r.pos);
}

/// A repeat marker for `k` repeats at the reader's position gives the last tag
/// once and leaves `k - 1` repeats pending.
pub proof fn lemma_next_tag_of_repeat_marker(k: nat, r: ReaderModel)
    requires
        r.wf(),
        !r.peeked,
        r.repeat == 0,
        r.last_tag is Some,
        1 <= k <= usize::MAX,
        bytes_at(r.input, r.pos, flush_bytes(k)),
    ensures
        r.next_tag() == Ok::<(TagModel, ReaderModel), crate::reader::ReadError>(
            (
                r.last_tag.unwrap(),
                ReaderModel { pos: r.pos + flush_bytes(k).len(), repeat: (k - 1) as nat, ..r },
            ),
        ),
{
    if k == 1 {
        assert(flush_bytes(1) =~= seq![TagType::RepeatTag.spec_code()] + Seq::<u8>::empty());
        lemma_first_byte(r.input, r.pos, TagType::RepeatTag.spec_code(), Seq::empty());
    } else {
        let c = (k - 2) as usize;
        lemma_read_len_at(r.input, r.pos, TagType::RepeatTagMany.spec_code(), c);
    }
}

/// One step of writing a stream: a tag, a string reference (as a struct field
/// name), the end marker of a sequence, or raw bytes.
pub enum WriteEvent {
    Tag(TagModel),
    Str(Seq<char>),
    End,
    Raw(Seq<u8>),
}

/// The writer after `e`; `None` when the write fails for a full string map.
pub open spec fn write_step(w: WriterModel, e: WriteEvent) -> Option<WriterModel> {
    match e {
        WriteEvent::Tag(t) => w.write_tag(t),
        WriteEvent::Str(s) => w.write_str(s),
        WriteEvent::End => Some(w.write_seq_end()),
        WriteEvent::Raw(b) => Some(w.write_raw(b)),
    }
}

/// The writer after the steps `es`, in order.
pub open spec fn write_all(w: WriterModel, es: Seq<WriteEvent>) -> Option<WriterModel>
    decreases es.len(),
{
    if es.len() == 0 {
        Some(w)
    } else {
        match write_step(w, es[0]) {
            Some(w2) => write_all(w2, es.drop_first()),
            None => None,
        }
    }
}

/// Reading what step `e` wrote: a tag, a string reference, an end marker, or as
/// many raw bytes. Gives what was read and the reader after.
pub open spec fn read_step(r: ReaderModel, e: WriteEvent) -> Option<(WriteEvent, ReaderModel)> {
    match e {
        WriteEvent::Tag(_) => match r.next_tag() {
            Ok((t, r2)) => Some((WriteEvent::Tag(t), r2)),
            Err(_) => None,
        },
        WriteEvent::Str(_) => match r.next_str() {
            Ok((s, r2)) => Some((WriteEvent::Str(s), r2)),
            Err(_) => None,
        },
        WriteEvent::End => match r.next_seq_end() {
            Ok((true, r2)) => Some((WriteEvent::End, r2)),
            _ => None,
        },
        WriteEvent::Raw(b) => match r.next_raw(b.len()) {
            Ok((x, r2)) => Some((WriteEvent::Raw(x), r2)),
            Err(_) => None,
        },
    }
}

/// Reading what the steps `es` wrote, in order.
pub open spec fn read_all(r: ReaderModel, es: Seq<WriteEvent>) -> Option<
    (Seq<WriteEvent>, ReaderModel),
>
    decreases es.len(),
{
    if es.len() == 0 {
        Some((Seq::empty(), r))
    } else {
        match read_step(r, es[0]) {
            Some((e2, r2)) => match read_all(r2, es.drop_first()) {
                Some((rest, r3)) => Some((seq![e2] + rest, r3)),
                None => None,
            },
            None => None,
        }
    }
}

/// What was read is what was written, tags compared as the writer compares
/// them for repeats.
pub open spec fn event_matches(written: WriteEvent, read: WriteEvent) -> bool {
    match (written, read) {
        (WriteEvent::Tag(a), WriteEvent::Tag(b)) => b.eq_with_nan(a),
        _ => written == read,
    }
}

pub open spec fn events_match(written: Seq<WriteEvent>, read: Seq<WriteEvent>) -> bool {
    &&& written.len() == read.len()
    &&& forall|i: int| 0 <= i < written.len() ==> event_matches(written[i], #[trigger] read[i])
}

/// The number of repeats of `lt` that the writer writes out in one marker, when
/// `k` are counted and `fut` is still to be written.
pub open spec fn run_total(k: nat, fut: Seq<WriteEvent>, lt: TagModel) -> nat
    decreases fut.len(),
{
    if fut.len() == 0 {
        k
    } else {
        match fut[0] {
            WriteEvent::Tag(t) => if lt.eq_with_nan(t) && k < usize::MAX {
                run_total(k + 1, fut.drop_first(), lt)
            } else {
                k
            },
            _ => k,
        }
    }
}

/// The bytes of the whole stream, once the writer has written `fut`.
pub open spec fn final_bytes(w: WriterModel, fut: Seq<WriteEvent>) -> Seq<u8> {
    write_all(w, fut).unwrap().flushed().out
}

pub open spec fn is_prefix(a: Seq<u8>, b: Seq<u8>) -> bool {
    a.len() <= b.len() && b.subrange(0, a.len() as int) == a
}

/// Comparing tags as the writer does for repeats: every tag equals itself.
pub proof fn lemma_eq_with_nan_refl(t: TagModel)
    ensures
        t.eq_with_nan(t),
{
}

proof fn lemma_prefix_trans(a: Seq<u8>, b: Seq<u8>, c: Seq<u8>)
    requires
        is_prefix(a, b),
        is_prefix(b, c),
    ensures
        is_prefix(a, c),
{
    assert(c.subrange(0, a.len() as int) =~= b.subrange(0, a.len() as int));
}

proof fn lemma_prefix_bytes_at(a: Seq<u8>, x: Seq<u8>, c: Seq<u8>)
    requires
        is_prefix(a + x, c),
    ensures
        bytes_at(c, a.len(), x),
{
    let ax = a + x;
    assert(c.subrange(a.len() as int, (a.len() + x.len()) as int) =~= x) by {
        assert forall|k: int| 0 <= k < x.len() implies c[a.len() + k] == x[k] by {
            assert(c[a.len() + k] == c.subrange(0, ax.len() as int)[a.len() + k]);
        }
    }
}

/// A write step only appends to the output.
proof fn lemma_step_appends(w: WriterModel, e: WriteEvent)
    requires
        write_step(w, e) is Some,
    ensures
        is_prefix(w.out, write_step(w, e).unwrap().out),
{
    let w2 = write_step(w, e).unwrap();
    assert(w2.out.subrange(0, w.out.len() as int) =~= w.out);
}

/// The output so far is the start of the whole stream.
pub(crate) proof fn lemma_out_is_prefix(w: WriterModel, fut: Seq<WriteEvent>)
    requires
        write_all(w, fut) is Some,
    ensures
        is_prefix(w.out, final_bytes(w, fut)),
    decreases fut.len(),
{
    if fut.len() == 0 {
        assert(w.flushed().out.subrange(0, w.out.len() as int) =~= w.out);
    } else {
        let w2 = write_step(w, fut[0]).unwrap();
        lemma_step_appends(w, fut[0]);
        lemma_out_is_prefix(w2, fut.drop_first());
        lemma_prefix_trans(w.out, w2.out, final_bytes(w2, fut.drop_first()));
    }
}

/// Counted repeats are written out, as one marker for their whole run, right
/// after the output so far.
proof fn lemma_pending_marker(w: WriterModel, fut: Seq<WriteEvent>)
    requires
        w.wf(),
        w.repeats > 0,
        write_all(w, fut) is Some,
    ensures
        ({
            let k = run_total(w.repeats, fut, w.last_tag.unwrap());
            &&& w.repeats <= k <= usize::MAX
            &&& bytes_at(final_bytes(w, fut), w.out.len(), flush_bytes(k))
        }),
    decreases fut.len(),
{
    let l = w.last_tag.unwrap();
    let k = w.repeats;
    if fut.len() == 0 {
        assert(is_prefix(w.out + flush_bytes(k), final_bytes(w, fut))) by {
            assert(final_bytes(w, fut) == w.out + flush_bytes(k));
            assert(final_bytes(w, fut).subrange(0, (w.out + flush_bytes(k)).len() as int)
                =~= w.out + flush_bytes(k));
        }
        lemma_prefix_bytes_at(w.out, flush_bytes(k), final_bytes(w, fut));
    } else {
        let e = fut[0];
        let rest = fut.drop_first();
        let w2 = write_step(w, e).unwrap();
        match e {
            WriteEvent::Tag(t) => {
                if l.eq_with_nan(t) && k < usize::MAX {
                    lemma_pending_marker(w2, rest);
                } else {
                    lemma_out_is_prefix(w2, rest);
                    assert(w2.out.subrange(0, (w.out + flush_bytes(k)).len() as int) =~= w.out
                        + flush_bytes(k)) by {
                        if l.eq_with_nan(t) {
                            assert(w2.out == w.out + flush_bytes(k));
                        } else {
                            let b = tag_bytes(w.strings, t).unwrap().0;
                            assert(w2.out == w.out + flush_bytes(k) + b);
                        }
                    }
                    assert(is_prefix(w.out + flush_bytes(k), final_bytes(w, fut))) by {
                        let f = final_bytes(w, fut);
                        assert(f.subrange(0, (w.out + flush_bytes(k)).len() as int) =~= (w.out
                            + flush_bytes(k))) by {
                            assert(f.subrange(0, w2.out.len() as int) == w2.out);
                        }
                    }
                    lemma_prefix_bytes_at(w.out, flush_bytes(k), final_bytes(w, fut));
                }
            },
            WriteEvent::Raw(b) => {
                lemma_out_is_prefix(w2, rest);
                assert(w2.out =~= w.out + flush_bytes(k) + b);
                assert(is_prefix(w.out + flush_bytes(k), final_bytes(w, fut))) by {
                    let f = final_bytes(w, fut);
                    assert(f.subrange(0, (w.out + flush_bytes(k)).len() as int) =~= (w.out
                        + flush_bytes(k))) by {
                        assert(f.subrange(0, w2.out.len() as int) == w2.out);
                    }
                }
                lemma_prefix_bytes_at(w.out, flush_bytes(k), final_bytes(w, fut));
            },
            WriteEvent::Str(st) => {
                lemma_out_is_prefix(w2, rest);
                let (b, _) = str_ref_bytes(w.strings, st).unwrap();
                assert(w2.out =~= w.out + flush_bytes(k) + b);
                assert(is_prefix(w.out + flush_bytes(k), final_bytes(w, fut))) by {
                    let f = final_bytes(w, fut);
                    assert(f.subrange(0, (w.out + flush_bytes(k)).len() as int) =~= (w.out
                        + flush_bytes(k))) by {
                        assert(f.subrange(0, w2.out.len() as int) == w2.out);
                    }
                }
                lemma_prefix_bytes_at(w.out, flush_bytes(k), final_bytes(w, fut));
            },
            WriteEvent::End => {
                lemma_out_is_prefix(w2, rest);
                assert(w2.out =~= w.out + flush_bytes(k) + seq![TagType::End.spec_code()]);
                assert(is_prefix(w.out + flush_bytes(k), final_bytes(w, fut))) by {
                    let f = final_bytes(w, fut);
                    assert(f.subrange(0, (w.out + flush_bytes(k)).len() as int) =~= (w.out
                        + flush_bytes(k))) by {
                        assert(f.subrange(0, w2.out.len() as int) == w2.out);
                    }
                }
                lemma_prefix_bytes_at(w.out, flush_bytes(k), final_bytes(w, fut));
            },
        }
    }
}

/// The reader has read what the writer wrote so far, and the stream is the one
/// the writer makes once it has written `fut`: the string maps are in step,
/// both have the same last tag, and repeats the writer has counted but not
/// written out the reader has read from the marker that will hold them.
pub open spec fn in_step(w: WriterModel, r: ReaderModel, fut: Seq<WriteEvent>) -> bool {
    &&& w.wf()
    &&& r.wf()
    &&& !r.peeked
    &&& strings_agree(w.strings, r.strings)
    &&& r.last_tag == w.last_tag
    &&& write_all(w, fut) is Some
    &&& r.input == final_bytes(w, fut)
    &&& if w.repeats == 0 {
        r.pos == w.out.len() && r.repeat == 0
    } else {
        let k = run_total(w.repeats, fut, w.last_tag.unwrap());
        r.pos == w.out.len() + flush_bytes(k).len() && r.repeat == k - w.repeats
    }
}

/// The reader's position holds the bytes after the output so far, past the
/// marker of the repeats.
proof fn lemma_bytes_after_flush(w: WriterModel, r: ReaderModel, fut: Seq<WriteEvent>, x: Seq<u8>)
    requires
        in_step(w, r, fut),
        fut.len() > 0,
        match fut[0] {
            WriteEvent::Tag(t) => !(w.last_tag matches Some(l) && l.eq_with_nan(t)),
            _ => true,
        },
        is_prefix(w.out + flush_bytes(w.repeats) + x, final_bytes(w, fut)),
    ensures
        r.repeat == 0,
        r.pos == w.out.len() + flush_bytes(w.repeats).len(),
        bytes_at(r.input, r.pos, x),
{
    lemma_prefix_bytes_at(w.out + flush_bytes(w.repeats), x, final_bytes(w, fut));
}

/// One step written is read back, and reader and writer stay in step.
proof fn lemma_step_read(w: WriterModel, r: ReaderModel, fut: Seq<WriteEvent>)
    requires
        in_step(w, r, fut),
        fut.len() > 0,
    ensures
        ({
            let w2 = write_step(w, fut[0]).unwrap();
            read_step(r, fut[0]) matches Some((e2, r2)) && event_matches(fut[0], e2) && in_step(
                w2,
                r2,
                fut.drop_first(),
            )
        }),
{
    let e = fut[0];
    let rest = fut.drop_first();
    let w2 = write_step(w, e).unwrap();
    let k = w.repeats;
    assert(write_all(w, fut) == write_all(w2, rest));
    assert(final_bytes(w, fut) == final_bytes(w2, rest));
    lemma_out_is_prefix(w2, rest);
    match e {
        WriteEvent::Tag(t) => {
            if w.last_tag is Some && w.last_tag.unwrap().eq_with_nan(t) {
                let l = w.last_tag.unwrap();
                if l.has_more_data() {
                    assert(w2.out == w.out + flush_bytes(1));
                    lemma_prefix_bytes_at(w.out, flush_bytes(1), final_bytes(w2, rest));
                    lemma_next_tag_of_repeat_marker(1, r);
                } else if k == 0 {
                    lemma_pending_marker(w2, rest);
                    lemma_next_tag_of_repeat_marker(run_total(1, rest, l), r);
                } else if k < usize::MAX {
                    assert(run_total(k, fut, l) == run_total(k + 1, rest, l));
                    lemma_pending_marker(w2, rest);
                } else {
                    assert(run_total(k, fut, l) == k);
                    assert(w2.out == w.out + flush_bytes(k));
                    lemma_pending_marker(w2, rest);
                    lemma_next_tag_of_repeat_marker(run_total(1, rest, l), r);
                }
            } else {
                let (b, st) = tag_bytes(w.strings, t).unwrap();
                assert(w2.out == w.out + flush_bytes(k) + b);
                lemma_bytes_after_flush(w, r, fut, b);
                lemma_next_tag_of_written(w.strings, t, r);
                lemma_eq_with_nan_refl(t);
            }
        },
        WriteEvent::Str(st) => {
            let (b, _) = str_ref_bytes(w.strings, st).unwrap();
            assert(w2.out == w.out + flush_bytes(k) + b);
            lemma_bytes_after_flush(w, r, fut, b);
            lemma_read_str_ref(w.strings, r.strings, st, r.input, r.pos);
        },
        WriteEvent::End => {
            let b = seq![TagType::End.spec_code()];
            assert(w2.out == w.out + flush_bytes(k) + b);
            lemma_bytes_after_flush(w, r, fut, b);
            assert(b =~= seq![TagType::End.spec_code()] + Seq::<u8>::empty());
            lemma_first_byte(r.input, r.pos, TagType::End.spec_code(), Seq::empty());
        },
        WriteEvent::Raw(b) => {
            assert(w2.out == w.out + flush_bytes(k) + b);
            lemma_bytes_after_flush(w, r, fut, b);
        },
    }
}

/// Everything written is read back, in order, up to the end of the stream.
proof fn lemma_all_read(w: WriterModel, r: ReaderModel, fut: Seq<WriteEvent>)
    requires
        in_step(w, r, fut),
    ensures
        read_all(r, fut) matches Some((es, r2)) && events_match(fut, es) && r2.pos
            == r.input.len(),
    decreases fut.len(),
{
    if fut.len() == 0 {
        assert(final_bytes(w, fut) == w.out + flush_bytes(w.repeats));
    } else {
        lemma_step_read(w, r, fut);
        let w2 = write_step(w, fut[0]).unwrap();
        let (e2, r2) = read_step(r, fut[0]).unwrap();
        lemma_all_read(w2, r2, fut.drop_first());
        let (es, r3) = read_all(r2, fut.drop_first()).unwrap();
        assert forall|i: int| 0 <= i < fut.len() implies event_matches(
            fut[i],
            #[trigger] (seq![e2] + es)[i],
        ) by {
            if i > 0 {
                assert(fut[i] == fut.drop_first()[i - 1]);
            }
        }
    }
}

/// What a reader reads back of a stream is what the writer wrote into it: for
/// any steps written by a fresh writer (after any header), a reader of the
/// whole output, started after the header, reads every tag, string reference,
/// end marker and run of raw bytes back in order, tags equal as the writer
/// compares them, and ends at the end of the output.
pub proof fn lemma_stream_roundtrip(
    header: Seq<u8>,
    es: Seq<WriteEvent>,
    format_version: u32,
)
    requires
        format_version <= crate::FORMAT_VERSION,
        write_all(
            WriterModel { out: header, strings: Seq::empty(), last_tag: None, repeats: 0 },
            es,
        ) is Some,
        final_bytes(
            WriterModel { out: header, strings: Seq::empty(), last_tag: None, repeats: 0 },
            es,
        ).len() <= usize::MAX,
    ensures
        ({
            let w = WriterModel { out: header, strings: Seq::empty(), last_tag: None, repeats: 0 };
            let out = final_bytes(w, es);
            read_all(fresh_reader(out, header.len(), format_version), es) matches Some((read, r))
                && events_match(es, read) && r.pos == out.len()
        }),
{
    let w = WriterModel { out: header, strings: Seq::empty(), last_tag: None, repeats: 0 };
    let out = final_bytes(w, es);
    lemma_out_is_prefix(w, es);
    let r = fresh_reader(out, header.len(), format_version);
    assert(strings_agree(w.strings, r.strings));
    lemma_all_read(w, r, es);
}

} // verus!
