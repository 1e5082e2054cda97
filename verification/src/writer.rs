use vstd::prelude::*;
use vstd::string::StringSliceAdditionalSpecFns;
use vstd::utf8::encode_utf8;

use crate::raw::InvalidRawValueData;
use crate::reader::{PackedI128, PackedU128};
use crate::str::{str_eq, RefArcStr};
use crate::tag::{IntegerTag, OptionTag, StructTag, Tag, TagModel, TagType};
use crate::varint::{
    bit_len,
    is_varint_better,
    le_bytes,
    lemma_bit_len_bound,
    push_le_bytes,
    spec_bit_len,
    spec_is_varint_better,
    svarint_bytes,
    uvarint_bytes,
    write_unsigned_varint,
    write_varint_with_sign,
    Sign,
};

verus! {

/// A magnitude no larger than the largest value of 16, 32 or 64 bits has no
/// bit past those.
proof fn lemma_small_shifts(mag: u128)
    by (bit_vector)
    ensures
        mag <= 0xffff ==> mag >> 16u32 == 0,
        mag <= 0xffff_ffff ==> mag >> 32u32 == 0,
        mag <= 0xffff_ffff_ffff_ffff ==> mag >> 64u32 == 0,
{
}

broadcast use vstd::string::group_string_axioms;

/// Strings longer than this many bytes are written in place, not through the
/// string map.
pub const MAX_OPT_STR_LEN: usize = 255;

/// Errors while writing.
#[derive(Debug)]
pub enum WriteError {
    /// A new string needs an id, but all `u32` ids but the last are taken.
    StringTableFull,
    /// The bytes of a raw value do not hold one object.
    InvalidRawValueData(InvalidRawValueData),
    /// The bytes of a raw value go on past its object.
    RawValueTrailingData,
}

/// What a writer holds: the bytes written, the strings of the string map in the
/// order of their ids, the last tag written and how many times it was repeated
/// since without being written yet.
pub struct WriterModel {
    pub out: Seq<u8>,
    pub strings: Seq<Seq<char>>,
    pub last_tag: Option<TagModel>,
    pub repeats: nat,
}

/// The id of `s` in the string map: the first position that holds it.
pub open spec fn string_id(strs: Seq<Seq<char>>, s: Seq<char>) -> Option<nat>
    decreases strs.len(),
{
    if strs.len() == 0 {
        None
    } else {
        match string_id(strs.drop_last(), s) {
            Some(i) => Some(i),
            None => if strs.last() == s {
                Some((strs.len() - 1) as nat)
            } else {
                None
            },
        }
    }
}

/// The bytes that refer to string `s` and the string map after: the id of a known
/// string as a positive signed varint, or a new id as a negative signed varint
/// followed by the length and the UTF-8 bytes of the string. `None` when a new
/// id is needed and the map is full.
pub open spec fn str_ref_bytes(strs: Seq<Seq<char>>, s: Seq<char>) -> Option<
    (Seq<u8>, Seq<Seq<char>>),
> {
    match string_id(strs, s) {
        Some(i) => Some((svarint_bytes(i as u128, false), strs)),
        None => if strs.len() < u32::MAX {
            Some(
                (
                    svarint_bytes(strs.len() as u128, true) + uvarint_bytes(
                        encode_utf8(s).len() as u128,
                    ) + encode_utf8(s),
                    strs.push(s),
                ),
            )
        } else {
            None
        },
    }
}

/// The bytes of an integer: the varint form when it is shorter, else the fixed
/// little-endian form.
pub open spec fn int_case_bytes(
    mag: u128,
    neg: bool,
    signed: bool,
    width: nat,
    raw: u128,
    fixed: TagType,
    var: TagType,
) -> Seq<u8> {
    if spec_is_varint_better((width * 8 - spec_bit_len(mag)) as nat, width, signed) {
        seq![var.spec_code()] + if signed {
            svarint_bytes(mag, neg)
        } else {
            uvarint_bytes(mag)
        }
    } else {
        seq![fixed.spec_code()] + le_bytes(raw, width)
    }
}

pub open spec fn abs_int(v: int) -> int {
    if v < 0 {
        -v
    } else {
        v
    }
}

/// The bytes of an integer tag.
pub open spec fn int_bytes(i: IntegerTag) -> Seq<u8> {
    match i {
        IntegerTag::I8(v) => seq![TagType::I8.spec_code(), v as u8],
        IntegerTag::U8(v) => seq![TagType::U8.spec_code(), v],
        IntegerTag::I16(v) => int_case_bytes(
            abs_int(v as int) as u128,
            v < 0,
            true,
            2,
            v as u16 as u128,
            TagType::I16,
            TagType::I16Var,
        ),
        IntegerTag::U16(v) => int_case_bytes(
            v as u128,
            false,
            false,
            2,
            v as u128,
            TagType::U16,
            TagType::U16Var,
        ),
        IntegerTag::I32(v) => int_case_bytes(
            abs_int(v as int) as u128,
            v < 0,
            true,
            4,
            v as u32 as u128,
            TagType::I32,
            TagType::I32Var,
        ),
        IntegerTag::U32(v) => int_case_bytes(
            v as u128,
            false,
            false,
            4,
            v as u128,
            TagType::U32,
            TagType::U32Var,
        ),
        IntegerTag::I64(v) => int_case_bytes(
            abs_int(v as int) as u128,
            v < 0,
            true,
            8,
            v as u64 as u128,
            TagType::I64,
            TagType::I64Var,
        ),
        IntegerTag::U64(v) => int_case_bytes(
            v as u128,
            false,
            false,
            8,
            v as u128,
            TagType::U64,
            TagType::U64Var,
        ),
        IntegerTag::I128(p) => int_case_bytes(
            abs_int(p.0 as int) as u128,
            p.0 < 0,
            true,
            16,
            p.0 as u128,
            TagType::I128,
            TagType::I128Var,
        ),
        IntegerTag::U128(p) => int_case_bytes(
            p.0,
            false,
            false,
            16,
            p.0,
            TagType::U128,
            TagType::U128Var,
        ),
    }
}

/// The bytes of the length that follows some tags.
pub open spec fn struct_len_bytes(t: StructTag) -> Seq<u8> {
    match t {
        StructTag::Tuple { len } => uvarint_bytes(len as u128),
        StructTag::Struct { len } => uvarint_bytes(len as u128),
        _ => Seq::empty(),
    }
}

pub open spec fn struct_code(t: StructTag) -> u8 {
    match t {
        StructTag::Unit => TagType::UnitStruct.spec_code(),
        StructTag::Newtype => TagType::NewtypeStruct.spec_code(),
        StructTag::Tuple { .. } => TagType::TupleStruct.spec_code(),
        StructTag::Struct { .. } => TagType::Struct.spec_code(),
    }
}

pub open spec fn variant_code(t: StructTag) -> u8 {
    match t {
        StructTag::Unit => TagType::UnitVariant.spec_code(),
        StructTag::Newtype => TagType::NewtypeVariant.spec_code(),
        StructTag::Tuple { .. } => TagType::TupleVariant.spec_code(),
        StructTag::Struct { .. } => TagType::StructVariant.spec_code(),
    }
}

/// The bytes of tag `t` and the string map after writing it; `None` when it
/// needs a new string id and the map is full.
pub open spec fn tag_bytes(strs: Seq<Seq<char>>, t: TagModel) -> Option<(Seq<u8>, Seq<Seq<char>>)> {
    match t {
        TagModel::Unit => Some((seq![TagType::Unit.spec_code()], strs)),
        TagModel::Bool(b) => Some(
            (
                seq![
                    if b {
                        TagType::BoolTrue.spec_code()
                    } else {
                        TagType::BoolFalse.spec_code()
                    },
                ],
                strs,
            ),
        ),
        TagModel::Integer(i) => Some((int_bytes(i), strs)),
        TagModel::F32(v) => Some((seq![TagType::F32.spec_code()] + le_bytes(v as u128, 4), strs)),
        TagModel::F64(v) => Some((seq![TagType::F64.spec_code()] + le_bytes(v as u128, 8), strs)),
        TagModel::Char(c) => Some(
            (
                int_case_bytes(
                    c as u32 as u128,
                    false,
                    false,
                    4,
                    c as u32 as u128,
                    TagType::Char32,
                    TagType::CharVar,
                ),
                strs,
            ),
        ),
        TagModel::Str(s) => match str_ref_bytes(strs, s) {
            Some((b, st)) => Some((seq![TagType::Str.spec_code()] + b, st)),
            None => None,
        },
        TagModel::StrDirect(len) => Some(
            (seq![TagType::StrDirect.spec_code()] + uvarint_bytes(len as u128), strs),
        ),
        TagModel::EmptyStr => Some((seq![TagType::EmptyStr.spec_code()], strs)),
        TagModel::Bytes(len) => Some(
            (seq![TagType::Bytes.spec_code()] + uvarint_bytes(len as u128), strs),
        ),
        TagModel::Option(o) => Some(
            (
                seq![
                    if o == OptionTag::Present {
                        TagType::Present.spec_code()
                    } else {
                        TagType::Absent.spec_code()
                    },
                ],
                strs,
            ),
        ),
        TagModel::Struct(t) => Some((seq![struct_code(t)] + struct_len_bytes(t), strs)),
        TagModel::Variant(name, t) => match str_ref_bytes(strs, name) {
            Some((b, st)) => Some((seq![variant_code(t)] + b + struct_len_bytes(t), st)),
            None => None,
        },
        TagModel::Array(len) => match len {
            None => Some((seq![TagType::Array.spec_code()], strs)),
            Some(l) => Some((seq![TagType::LenArray.spec_code()] + uvarint_bytes(l as u128), strs)),
        },
        TagModel::Mapping(len) => match len {
            None => Some((seq![TagType::Mapping.spec_code()], strs)),
            Some(l) => Some((seq![TagType::LenMap.spec_code()] + uvarint_bytes(l as u128), strs)),
        },
        TagModel::Tuple(len) => Some(
            (seq![TagType::Tuple.spec_code()] + uvarint_bytes(len as u128), strs),
        ),
    }
}

/// The bytes that stand for `rep` repeats of the last tag.
pub open spec fn flush_bytes(rep: nat) -> Seq<u8> {
    if rep == 0 {
        Seq::empty()
    } else if rep == 1 {
        seq![TagType::RepeatTag.spec_code()]
    } else {
        seq![TagType::RepeatTagMany.spec_code()] + uvarint_bytes((rep - 2) as u128)
    }
}

impl WriterModel {
    /// Repeats are only counted for a last tag that no data follows.
    pub open spec fn wf(self) -> bool {
        &&& self.repeats > 0 ==> (self.last_tag matches Some(t) && !t.has_more_data())
        &&& self.repeats <= usize::MAX
        &&& self.strings.len() <= u32::MAX
    }

    /// The writer after the repeats are written out.
    pub open spec fn flushed(self) -> WriterModel {
        WriterModel { out: self.out + flush_bytes(self.repeats), repeats: 0, ..self }
    }

    /// The writer after writing tag `t`: a tag equal to the last one is written
    /// as a repeat (at once when data follows it, else counted); another tag is
    /// written after the counted repeats. `None` when the string map is full.
    pub open spec fn write_tag(self, t: TagModel) -> Option<WriterModel> {
        match self.last_tag {
            Some(l) if l.eq_with_nan(t) => Some(
                if l.has_more_data() {
                    WriterModel { out: self.out.push(TagType::RepeatTag.spec_code()), ..self }
                } else if self.repeats < usize::MAX {
                    WriterModel { repeats: self.repeats + 1, ..self }
                } else {
                    WriterModel { repeats: 1, ..self.flushed() }
                },
            ),
            _ => match tag_bytes(self.strings, t) {
                Some((b, st)) => Some(
                    WriterModel {
                        out: self.out + flush_bytes(self.repeats) + b,
                        strings: st,
                        last_tag: Some(t),
                        repeats: 0,
                    },
                ),
                None => None,
            },
        }
    }

    /// The writer after a reference to string `s` that stands on its own, as a
    /// struct field name: counted repeats are written out first, so that they
    /// come where the values they repeat were written.
    pub open spec fn write_str(self, s: Seq<char>) -> Option<WriterModel> {
        self.flushed().write_str_ref(s)
    }

    /// The writer after the bytes of a reference to string `s`, right after the
    /// output so far, as inside a tag.
    pub open spec fn write_str_ref(self, s: Seq<char>) -> Option<WriterModel> {
        match str_ref_bytes(self.strings, s) {
            Some((b, st)) => Some(WriterModel { out: self.out + b, strings: st, ..self }),
            None => None,
        }
    }

    /// The writer after the end marker of a sequence.
    pub open spec fn write_seq_end(self) -> WriterModel {
        WriterModel { out: self.flushed().out.push(TagType::End.spec_code()), ..self.flushed() }
    }

    /// The writer after raw bytes that stand on their own, as the data a tag
    /// announced: counted repeats are written out first.
    pub open spec fn write_raw(self, bytes: Seq<u8>) -> WriterModel {
        self.flushed().append_raw(bytes)
    }

    /// The writer after bytes right after the output so far, as inside a tag.
    pub open spec fn append_raw(self, bytes: Seq<u8>) -> WriterModel {
        WriterModel { out: self.out + bytes, ..self }
    }
}

/// The writer of the format: collects the bytes of the objects written.
pub struct Writer {
    out: Vec<u8>,
    strings: Vec<String>,
    last_tag: Option<Tag<'static>>,
    last_tag_extra_repeat_times: usize,
}

impl View for Writer {
    type V = WriterModel;

    closed spec fn view(&self) -> WriterModel {
        WriterModel {
            out: self.out@,
            strings: self.strings@.map_values(|s: String| s@),
            last_tag: match self.last_tag {
                Some(t) => Some(t@),
                None => None,
            },
            repeats: self.last_tag_extra_repeat_times as nat,
        }
    }
}

/// The id of a string known at some position stays its id when the map grows.
proof fn lemma_string_id_prefix(strs: Seq<Seq<char>>, n: int, s: Seq<char>)
    requires
        0 <= n <= strs.len(),
        string_id(strs.take(n), s) is Some,
    ensures
        string_id(strs, s) == string_id(strs.take(n), s),
    decreases strs.len() - n,
{
    if n < strs.len() {
        assert(strs.take(n + 1).drop_last() =~= strs.take(n));
        lemma_string_id_prefix(strs, n + 1, s);
    } else {
        assert(strs.take(n) =~= strs);
    }
}

/// The id of a string is a position that holds it.
pub proof fn lemma_string_id_holds(strs: Seq<Seq<char>>, s: Seq<char>)
    ensures
        string_id(strs, s) matches Some(i) ==> i < strs.len() && strs[i as int] == s,
        string_id(strs, s) is None ==> forall|j: int| 0 <= j < strs.len() ==> strs[j] != s,
    decreases strs.len(),
{
    if strs.len() > 0 {
        lemma_string_id_holds(strs.drop_last(), s);
        assert forall|j: int| 0 <= j < strs.len() - 1 implies strs.drop_last()[j] == strs[j] by {}
    }
}

/// The header of a stream: the magic bytes "sd" and the format version as a varint.
pub open spec fn header_bytes() -> Seq<u8> {
    seq![0x73u8, 0x64u8] + uvarint_bytes(crate::FORMAT_VERSION as u128)
}

impl Writer {
    /// A writer whose output starts with the header.
    pub fn new() -> (w: Writer)
        ensures
            w@ == (WriterModel {
                out: header_bytes(),
                strings: Seq::empty(),
                last_tag: None,
                repeats: 0,
            }),
    {
        let mut out: Vec<u8> = Vec::new();
        out.push(0x73);
        out.push(0x64);
        write_unsigned_varint(&mut out, crate::FORMAT_VERSION);
        let w = Writer { out, strings: Vec::new(), last_tag: None, last_tag_extra_repeat_times: 0 };
        assert(w@.strings =~= Seq::<Seq<char>>::empty());
        assert(w@.out =~= header_bytes());
        w
    }

    /// A writer with no header.
    pub fn new_headerless() -> (w: Writer)
        ensures
            w@ == (WriterModel {
                out: Seq::empty(),
                strings: Seq::empty(),
                last_tag: None,
                repeats: 0,
            }),
    {
        let w = Writer {
            out: Vec::new(),
            strings: Vec::new(),
            last_tag: None,
            last_tag_extra_repeat_times: 0,
        };
        assert(w@.strings =~= Seq::<Seq<char>>::empty());
        assert(w@.out =~= Seq::<u8>::empty());
        w
    }

    /// A writer for the root object.
    pub fn write(&mut self) -> (vw: ValueWriter<'_>)
        ensures
            *vw.writer == *old(self),
            *final(vw.writer) == *final(self),
    {
        ValueWriter { writer: self }
    }

    /// The bytes written, the repeats written out.
    pub fn finish(self) -> (out: Vec<u8>)
        ensures
            out@ == self@.flushed().out,
    {
        let mut this = self;
        this.flush_repeats();
        this.out
    }

    /// The bytes written so far, repeats still counted not included.
    pub fn bytes(&self) -> (r: &[u8])
        ensures
            r@ == self@.out,
    {
        self.out.as_slice()
    }

    fn flush_repeats(&mut self)
        ensures
            final(self)@ == old(self)@.flushed(),
    {
        let rep = self.last_tag_extra_repeat_times;
        if rep == 1 {
            self.out.push(TagType::RepeatTag.into_u8());
        } else if rep >= 2 {
            self.out.push(TagType::RepeatTagMany.into_u8());
            write_unsigned_varint(&mut self.out, rep - 2);
        }
        self.last_tag_extra_repeat_times = 0;
        assert(self@.out =~= old(self)@.flushed().out);
        assert(self@.strings =~= old(self)@.flushed().strings);
    }

    /// The id of string `s` in the string map.
    fn find_string(&self, s: &str) -> (r: Option<usize>)
        ensures
            r matches Some(i) ==> i < self.strings.len() && self@.strings[i as int] == s@
                && self.strings@[i as int]@ == s@,
            match string_id(self@.strings, s@) {
                Some(i) => r == Some(i as usize),
                None => r is None,
            },
    {
        let ghost strs = self@.strings;
        proof {
            lemma_string_id_holds(strs, s@);
        }
        let mut i: usize = 0;
        while i < self.strings.len()
            invariant
                i <= self.strings.len(),
                strs == self@.strings,
                strs.len() == self.strings.len(),
                string_id(strs.take(i as int), s@) is None,
            decreases self.strings.len() - i,
        {
            assert(strs[i as int] == self.strings[i as int]@);
            if str_eq(self.strings[i].as_str(), s) {
                proof {
                    assert(strs.take(i + 1).drop_last() =~= strs.take(i as int));
                    lemma_string_id_prefix(strs, i + 1, s@);
                }
                return Some(i);
            }
            proof {
                assert(strs.take(i + 1).drop_last() =~= strs.take(i as int));
            }
            i = i + 1;
        }
        assert(strs.take(i as int) =~= strs);
        None
    }

    /// The string of the string map with the contents of `s`, if any.
    pub fn try_get_cached_str(&self, s: &str) -> (r: Option<String>)
        ensures
            r is Some <==> string_id(self@.strings, s@) is Some,
            r matches Some(x) ==> x@ == s@,
    {
        match self.find_string(s) {
            Some(i) => {
                proof {
                    lemma_string_id_holds(self@.strings, s@);
                    assert(self@.strings[i as int] == self.strings[i as int]@);
                }
                Some(self.strings[i].clone())
            },
            None => None,
        }
    }

    /// Writes a reference to string `s` that stands on its own, as a struct
    /// field name: first the counted repeats, then its id, or a new id with its
    /// contents.
    pub fn write_str(&mut self, s: &str) -> (r: Result<(), WriteError>)
        ensures
            match old(self)@.write_str(s@) {
                Some(m) => r is Ok && final(self)@ == m,
                None => r matches Err(WriteError::StringTableFull) && final(self)@ == old(
                    self,
                )@.flushed(),
            },
    {
        self.flush_repeats();
        self.write_str_ref(s)
    }

    /// Writes a reference to string `s` right after the output so far: its id,
    /// or a new id with its contents.
    fn write_str_ref(&mut self, s: &str) -> (r: Result<(), WriteError>)
        ensures
            match old(self)@.write_str_ref(s@) {
                Some(m) => r is Ok && final(self)@ == m,
                None => r matches Err(WriteError::StringTableFull) && final(self)@ == old(self)@,
            },
    {
        match self.find_string(s) {
            Some(i) => {
                write_varint_with_sign(&mut self.out, i as u128, Sign::Positive);
                proof {
                    let id = string_id(old(self)@.strings, s@).unwrap();
                    lemma_string_id_holds(old(self)@.strings, s@);
                    assert(old(self)@.strings.len() == old(self).strings.len());
                    assert(id == i as nat);
                    assert(str_ref_bytes(old(self)@.strings, s@) == Some(
                        (svarint_bytes(i as u128, false), old(self)@.strings),
                    ));
                    assert(self@.strings =~= old(self)@.strings);
                    assert(self@.out =~= old(self)@.out + svarint_bytes(i as u128, false));
                }
                Ok(())
            },
            None => {
                if self.strings.len() >= 0xffff_ffff {
                    return Err(WriteError::StringTableFull);
                }
                let index = self.strings.len() as u32;
                write_varint_with_sign(&mut self.out, index, Sign::Negative);
                let bytes = s.as_bytes();
                write_unsigned_varint(&mut self.out, bytes.len());
                let ghost before = self.out@;
                self.out.extend_from_slice(bytes);
                let ghost strs0 = self.strings@;
                self.strings.push(str::to_owned(s));
                proof {
                    assert(self@.strings =~= old(self)@.strings.push(s@));
                    assert(self@.out =~= old(self)@.out + (svarint_bytes(
                        old(self)@.strings.len() as u128,
                        true,
                    ) + uvarint_bytes(encode_utf8(s@).len() as u128) + encode_utf8(s@)));
                }
                Ok(())
            },
        }
    }

    /// Writes the end marker of a sequence.
    pub fn write_seq_end(&mut self)
        ensures
            final(self)@ == old(self)@.write_seq_end(),
    {
        self.flush_repeats();
        self.out.push(TagType::End.into_u8());
    }

    /// Writes raw bytes that stand on their own, as the data a tag announced:
    /// first the counted repeats, then the bytes.
    pub fn write_raw(&mut self, bytes: &[u8])
        ensures
            final(self)@ == old(self)@.write_raw(bytes@),
    {
        self.flush_repeats();
        let ghost mid = self@;
        self.out.extend_from_slice(bytes);
        assert(self@.out =~= mid.out + bytes@);
        assert(self@.strings =~= mid.strings);
    }

    /// Appends bytes right after the output so far.
    fn append_raw(&mut self, bytes: &[u8])
        ensures
            final(self)@ == old(self)@.append_raw(bytes@),
    {
        self.out.extend_from_slice(bytes);
        assert(self@.out =~= old(self)@.out + bytes@);
        assert(self@.strings =~= old(self)@.strings);
    }
}


impl Writer {
    /// Writes an integer in its varint form when that is shorter, else in its
    /// fixed little-endian form.
    fn write_int_case(
        &mut self,
        mag: u128,
        neg: bool,
        signed: bool,
        width: u32,
        raw: u128,
        fixed: TagType,
        var: TagType,
    )
        requires
            1 <= width <= 16,
            spec_bit_len(mag) <= width * 8,
        ensures
            final(self)@ == old(self)@.append_raw(
                int_case_bytes(mag, neg, signed, width as nat, raw, fixed, var),
            ),
    {
        let lz = width * 8 - bit_len(mag);
        if is_varint_better(lz, width, signed) {
            self.out.push(var.into_u8());
            let ghost mid = self.out@;
            if signed {
                write_varint_with_sign(
                    &mut self.out,
                    mag,
                    if neg {
                        Sign::Negative
                    } else {
                        Sign::Positive
                    },
                );
            } else {
                write_unsigned_varint(&mut self.out, mag);
            }
            assert(self.out@ =~= old(self).out@ + int_case_bytes(
                mag,
                neg,
                signed,
                width as nat,
                raw,
                fixed,
                var,
            ));
        } else {
            self.out.push(fixed.into_u8());
            push_le_bytes(&mut self.out, raw, width as usize);
            assert(self.out@ =~= old(self).out@ + int_case_bytes(
                mag,
                neg,
                signed,
                width as nat,
                raw,
                fixed,
                var,
            ));
        }
    }

    fn write_integer(&mut self, it: &IntegerTag)
        ensures
            final(self)@ == old(self)@.append_raw(int_bytes(*it)),
    {
        match it {
            IntegerTag::I8(v) => {
                self.out.push(TagType::I8.into_u8());
                self.out.push(*v as u8);
                assert(self.out@ =~= old(self).out@ + int_bytes(*it));
            },
            IntegerTag::U8(v) => {
                self.out.push(TagType::U8.into_u8());
                self.out.push(*v);
                assert(self.out@ =~= old(self).out@ + int_bytes(*it));
            },
            IntegerTag::I16(v) => {
                let mag: u128 = if *v < 0 {
                    (-(*v as i32)) as u128
                } else {
                    *v as u128
                };
                proof {
                    lemma_small_shifts(mag);
                    lemma_bit_len_bound(mag, 16);
                }
                self.write_int_case(mag, *v < 0, true, 2, *v as u16 as u128, TagType::I16, TagType::I16Var);
            },
            IntegerTag::U16(v) => {
                let mag = *v as u128;
                proof {
                    lemma_small_shifts(mag);
                    lemma_bit_len_bound(mag, 16);
                }
                self.write_int_case(mag, false, false, 2, mag, TagType::U16, TagType::U16Var);
            },
            IntegerTag::I32(v) => {
                let mag: u128 = if *v < 0 {
                    (-(*v as i64)) as u128
                } else {
                    *v as u128
                };
                proof {
                    lemma_small_shifts(mag);
                    lemma_bit_len_bound(mag, 32);
                }
                self.write_int_case(mag, *v < 0, true, 4, *v as u32 as u128, TagType::I32, TagType::I32Var);
            },
            IntegerTag::U32(v) => {
                let mag = *v as u128;
                proof {
                    lemma_small_shifts(mag);
                    lemma_bit_len_bound(mag, 32);
                }
                self.write_int_case(mag, false, false, 4, mag, TagType::U32, TagType::U32Var);
            },
            IntegerTag::I64(v) => {
                let mag: u128 = if *v < 0 {
                    (-(*v as i128)) as u128
                } else {
                    *v as u128
                };
                proof {
                    lemma_small_shifts(mag);
                    lemma_bit_len_bound(mag, 64);
                }
                self.write_int_case(mag, *v < 0, true, 8, *v as u64 as u128, TagType::I64, TagType::I64Var);
            },
            IntegerTag::U64(v) => {
                let mag = *v as u128;
                proof {
                    lemma_small_shifts(mag);
                    lemma_bit_len_bound(mag, 64);
                }
                self.write_int_case(mag, false, false, 8, mag, TagType::U64, TagType::U64Var);
            },
            IntegerTag::I128(p) => {
                let v = p.0;
                let mag: u128 = if v < 0 {
                    ((-(v + 1)) as u128) + 1
                } else {
                    v as u128
                };
                proof {
                    lemma_bit_len_bound(mag, 128);
                }
                self.write_int_case(mag, v < 0, true, 16, v as u128, TagType::I128, TagType::I128Var);
            },
            IntegerTag::U128(p) => {
                let mag = p.0;
                proof {
                    lemma_bit_len_bound(mag, 128);
                }
                self.write_int_case(mag, false, false, 16, mag, TagType::U128, TagType::U128Var);
            },
        }
    }

    fn write_struct_len(&mut self, t: &StructTag)
        ensures
            final(self)@ == old(self)@.append_raw(struct_len_bytes(*t)),
    {
        match t {
            StructTag::Tuple { len } => {
                write_unsigned_varint(&mut self.out, *len);
            },
            StructTag::Struct { len } => {
                write_unsigned_varint(&mut self.out, *len);
            },
            _ => {
                assert(self.out@ =~= old(self).out@ + struct_len_bytes(*t));
            },
        }
    }

    /// Whether writing `tag` needs a new string id while the map is full.
    fn string_table_full_for(&self, tag: &Tag) -> (r: bool)
        ensures
            r == (tag_bytes(self@.strings, tag@) is None),
    {
        let name = match tag {
            Tag::Str(s) => s.as_str(),
            Tag::Variant { name, ty: _ } => name.as_str(),
            _ => {
                return false;
            },
        };
        self.strings.len() >= 0xffff_ffff && self.find_string(name).is_none()
    }

    /// Writes a tag. A tag equal to the last tag written (floats compared as
    /// floats, NaNs equal) is a repeat: written at once when data follows the
    /// tag, else counted and written before the next other tag, sequence end or
    /// the end of the output.
    pub fn write_tag(&mut self, tag: Tag) -> (r: Result<(), WriteError>)
        ensures
            match old(self)@.write_tag(tag@) {
                Some(m) => r is Ok && final(self)@ == m,
                None => r matches Err(WriteError::StringTableFull) && final(self)@ == old(self)@,
            },
    {
        let mut equal = false;
        let mut more = false;
        match &self.last_tag {
            Some(last) => {
                equal = last.eq_with_nan(&tag);
                more = last.has_more_data();
            },
            None => {},
        }
        if equal {
            if more {
                self.out.push(TagType::RepeatTag.into_u8());
            } else if self.last_tag_extra_repeat_times < usize::MAX {
                self.last_tag_extra_repeat_times = self.last_tag_extra_repeat_times + 1;
            } else {
                self.flush_repeats();
                self.last_tag_extra_repeat_times = 1;
            }
            return Ok(());
        }
        if self.string_table_full_for(&tag) {
            return Err(WriteError::StringTableFull);
        }
        self.flush_repeats();
        let ghost start = self@;
        match &tag {
            Tag::Unit => {
                self.out.push(TagType::Unit.into_u8());
            },
            Tag::Bool(true) => {
                self.out.push(TagType::BoolTrue.into_u8());
            },
            Tag::Bool(false) => {
                self.out.push(TagType::BoolFalse.into_u8());
            },
            Tag::Integer(v) => {
                self.write_integer(v);
            },
            Tag::F32(v) => {
                self.out.push(TagType::F32.into_u8());
                push_le_bytes(&mut self.out, *v as u128, 4);
            },
            Tag::F64(v) => {
                self.out.push(TagType::F64.into_u8());
                push_le_bytes(&mut self.out, *v as u128, 8);
            },
            Tag::Char(c) => {
                let v = *c as u32 as u128;
                proof {
                    assert((*c as u32 as u128) <= 0xffff_ffff);
                    lemma_small_shifts(v);
                    lemma_bit_len_bound(v, 32);
                }
                self.write_int_case(v, false, false, 4, v, TagType::Char32, TagType::CharVar);
            },
            Tag::Str(s) => {
                self.out.push(TagType::Str.into_u8());
                let _ = self.write_str_ref(s.as_str());
            },
            Tag::StrDirect { len } => {
                self.out.push(TagType::StrDirect.into_u8());
                write_unsigned_varint(&mut self.out, *len);
            },
            Tag::EmptyStr => {
                self.out.push(TagType::EmptyStr.into_u8());
            },
            Tag::Bytes { len } => {
                self.out.push(TagType::Bytes.into_u8());
                write_unsigned_varint(&mut self.out, *len);
            },
            Tag::Option(OptionTag::Absent) => {
                self.out.push(TagType::Absent.into_u8());
            },
            Tag::Option(OptionTag::Present) => {
                self.out.push(TagType::Present.into_u8());
            },
            Tag::Struct(t) => {
                let code = match t {
                    StructTag::Unit => TagType::UnitStruct,
                    StructTag::Newtype => TagType::NewtypeStruct,
                    StructTag::Tuple { .. } => TagType::TupleStruct,
                    StructTag::Struct { .. } => TagType::Struct,
                };
                self.out.push(code.into_u8());
                self.write_struct_len(t);
            },
            Tag::Variant { name, ty } => {
                let code = match ty {
                    StructTag::Unit => TagType::UnitVariant,
                    StructTag::Newtype => TagType::NewtypeVariant,
                    StructTag::Tuple { .. } => TagType::TupleVariant,
                    StructTag::Struct { .. } => TagType::StructVariant,
                };
                self.out.push(code.into_u8());
                let _ = self.write_str_ref(name.as_str());
                self.write_struct_len(ty);
            },
            Tag::Array { len: None } => {
                self.out.push(TagType::Array.into_u8());
            },
            Tag::Array { len: Some(len) } => {
                self.out.push(TagType::LenArray.into_u8());
                write_unsigned_varint(&mut self.out, *len);
            },
            Tag::Mapping { len: None } => {
                self.out.push(TagType::Mapping.into_u8());
            },
            Tag::Mapping { len: Some(len) } => {
                self.out.push(TagType::LenMap.into_u8());
                write_unsigned_varint(&mut self.out, *len);
            },
            Tag::Tuple { len } => {
                self.out.push(TagType::Tuple.into_u8());
                write_unsigned_varint(&mut self.out, *len);
            },
        }
        proof {
            let b = tag_bytes(start.strings, tag@).unwrap();
            assert(self.out@ =~= start.out + b.0);
            assert(self@.strings =~= b.1);
        }
        self.last_tag_extra_repeat_times = 0;
        self.last_tag = Some(tag.into_static());
        Ok(())
    }
}

/// A writer for one value.
pub struct ValueWriter<'a> {
    pub writer: &'a mut Writer,
}

/// The outcome of writing tag `t` on a writer that held `before`: `r` and
/// `after` are the result and the writer after the call.
pub open spec fn tag_write_outcome(
    before: WriterModel,
    t: TagModel,
    r: Result<(), WriteError>,
    after: WriterModel,
) -> bool {
    match before.write_tag(t) {
        Some(m) => r is Ok && after == m,
        None => r is Err && after == before,
    }
}

/// A value of a primitive type that is written as one tag.
pub trait WritePrimitive: Sized {
    /// The tag of the value.
    spec fn spec_tag(self) -> TagModel;

    fn into_tag(self) -> (t: Tag<'static>)
        ensures
            t@ == self.spec_tag(),
    ;
}

impl WritePrimitive for () {
    open spec fn spec_tag(self) -> TagModel {
        TagModel::Unit
    }

    fn into_tag(self) -> (t: Tag<'static>) {
        Tag::Unit
    }
}

impl WritePrimitive for bool {
    open spec fn spec_tag(self) -> TagModel {
        TagModel::Bool(self)
    }

    fn into_tag(self) -> (t: Tag<'static>) {
        Tag::Bool(self)
    }
}

impl WritePrimitive for char {
    open spec fn spec_tag(self) -> TagModel {
        TagModel::Char(self)
    }

    fn into_tag(self) -> (t: Tag<'static>) {
        Tag::Char(self)
    }
}

impl WritePrimitive for i8 {
    open spec fn spec_tag(self) -> TagModel {
        TagModel::Integer(IntegerTag::I8(self))
    }

    fn into_tag(self) -> (t: Tag<'static>) {
        Tag::Integer(IntegerTag::I8(self))
    }
}

impl WritePrimitive for u8 {
    open spec fn spec_tag(self) -> TagModel {
        TagModel::Integer(IntegerTag::U8(self))
    }

    fn into_tag(self) -> (t: Tag<'static>) {
        Tag::Integer(IntegerTag::U8(self))
    }
}

impl WritePrimitive for i16 {
    open spec fn spec_tag(self) -> TagModel {
        TagModel::Integer(IntegerTag::I16(self))
    }

    fn into_tag(self) -> (t: Tag<'static>) {
        Tag::Integer(IntegerTag::I16(self))
    }
}

impl WritePrimitive for u16 {
    open spec fn spec_tag(self) -> TagModel {
        TagModel::Integer(IntegerTag::U16(self))
    }

    fn into_tag(self) -> (t: Tag<'static>) {
        Tag::Integer(IntegerTag::U16(self))
    }
}

impl WritePrimitive for i32 {
    open spec fn spec_tag(self) -> TagModel {
        TagModel::Integer(IntegerTag::I32(self))
    }

    fn into_tag(self) -> (t: Tag<'static>) {
        Tag::Integer(IntegerTag::I32(self))
    }
}

impl WritePrimitive for u32 {
    open spec fn spec_tag(self) -> TagModel {
        TagModel::Integer(IntegerTag::U32(self))
    }

    fn into_tag(self) -> (t: Tag<'static>) {
        Tag::Integer(IntegerTag::U32(self))
    }
}

impl WritePrimitive for i64 {
    open spec fn spec_tag(self) -> TagModel {
        TagModel::Integer(IntegerTag::I64(self))
    }

    fn into_tag(self) -> (t: Tag<'static>) {
        Tag::Integer(IntegerTag::I64(self))
    }
}

impl WritePrimitive for u64 {
    open spec fn spec_tag(self) -> TagModel {
        TagModel::Integer(IntegerTag::U64(self))
    }

    fn into_tag(self) -> (t: Tag<'static>) {
        Tag::Integer(IntegerTag::U64(self))
    }
}

impl WritePrimitive for i128 {
    open spec fn spec_tag(self) -> TagModel {
        TagModel::Integer(IntegerTag::I128(PackedI128(self)))
    }

    fn into_tag(self) -> (t: Tag<'static>) {
        Tag::Integer(IntegerTag::I128(PackedI128(self)))
    }
}

impl WritePrimitive for u128 {
    open spec fn spec_tag(self) -> TagModel {
        TagModel::Integer(IntegerTag::U128(PackedU128(self)))
    }

    fn into_tag(self) -> (t: Tag<'static>) {
        Tag::Integer(IntegerTag::U128(PackedU128(self)))
    }
}

impl WriterModel {
    /// The writer after a string value: the empty string as its own tag, a
    /// string longer than `MAX_OPT_STR_LEN` bytes as its length followed by its
    /// bytes, any other string through the string map.
    pub open spec fn write_string(self, s: Seq<char>) -> Option<WriterModel> {
        let n = encode_utf8(s).len();
        if n == 0 {
            self.write_tag(TagModel::EmptyStr)
        } else if n > MAX_OPT_STR_LEN {
            match self.write_tag(TagModel::StrDirect(n as usize)) {
                Some(m) => Some(m.write_raw(encode_utf8(s))),
                None => None,
            }
        } else {
            self.write_tag(TagModel::Str(s))
        }
    }

    /// The writer after a byte string value: its length, then its bytes.
    pub open spec fn write_bytes(self, b: Seq<u8>) -> Option<WriterModel> {
        match self.write_tag(TagModel::Bytes(b.len() as usize)) {
            Some(m) => Some(m.write_raw(b)),
            None => None,
        }
    }
}

/// `after` is the writer after an operation whose effect from `before` is
/// `step` (`None` when it fails), and `r` tells whether it succeeded.
pub open spec fn write_outcome<T>(
    before: WriterModel,
    step: Option<WriterModel>,
    r: Result<T, WriteError>,
    after: WriterModel,
) -> bool {
    match step {
        Some(m) => r is Ok && after == m,
        None => r is Err && after == before,
    }
}

impl<'a> ValueWriter<'a> {
    /// Writes a value of a primitive type.
    pub fn write_primitive<P: WritePrimitive>(self, pri: P) -> (r: Result<(), WriteError>)
        ensures
            write_outcome(
                (*old(self.writer))@,
                (*old(self.writer))@.write_tag(pri.spec_tag()),
                r,
                (*final(self.writer))@,
            ),
    {
        let tag = pri.into_tag();
        self.writer.write_tag(tag)
    }

    /// Writes a string.
    pub fn write_string(self, str: RefArcStr) -> (r: Result<(), WriteError>)
        ensures
            write_outcome(
                (*old(self.writer))@,
                (*old(self.writer))@.write_string(str@),
                r,
                (*final(self.writer))@,
            ),
    {
        let s = str.as_str();
        let bytes = s.as_bytes();
        let len = bytes.len();
        if len == 0 {
            self.writer.write_tag(Tag::EmptyStr)
        } else if len > MAX_OPT_STR_LEN {
            match self.writer.write_tag(Tag::StrDirect { len }) {
                Ok(()) => {
                    self.writer.write_raw(bytes);
                    Ok(())
                },
                Err(e) => Err(e),
            }
        } else {
            let r = self.writer.write_tag(Tag::Str(str));
            r
        }
    }

    /// Writes a byte string.
    pub fn write_bytes(self, bytes: &[u8]) -> (r: Result<(), WriteError>)
        ensures
            write_outcome(
                (*old(self.writer))@,
                (*old(self.writer))@.write_bytes(bytes@),
                r,
                (*final(self.writer))@,
            ),
    {
        match self.writer.write_tag(Tag::Bytes { len: bytes.len() }) {
            Ok(()) => {
                self.writer.write_raw(bytes);
                Ok(())
            },
            Err(e) => Err(e),
        }
    }

    /// Writes an option that holds no value.
    pub fn write_none(self) -> (r: Result<(), WriteError>)
        ensures
            write_outcome(
                (*old(self.writer))@,
                (*old(self.writer))@.write_tag(TagModel::Option(OptionTag::Absent)),
                r,
                (*final(self.writer))@,
            ),
    {
        self.writer.write_tag(Tag::Option(OptionTag::Absent))
    }

    /// Writes that an option holds a value; the returned writer writes the value.
    pub fn write_some(self) -> (r: Result<Self, WriteError>)
        ensures
            match (*old(self.writer))@.write_tag(TagModel::Option(OptionTag::Present)) {
                Some(m) => r matches Ok(vw) && (*vw.writer)@ == m && *final(vw.writer) == *final(self.writer),
                None => r is Err && (*final(self.writer))@ == (*old(self.writer))@,
            },
    {
        match self.writer.write_tag(Tag::Option(OptionTag::Present)) {
            Ok(()) => Ok(self),
            Err(e) => Err(e),
        }
    }

    /// Writes a struct with no fields.
    pub fn write_unit_struct(self) -> (r: Result<(), WriteError>)
        ensures
            write_outcome(
                (*old(self.writer))@,
                (*old(self.writer))@.write_tag(TagModel::Struct(StructTag::Unit)),
                r,
                (*final(self.writer))@,
            ),
    {
        self.writer.write_tag(Tag::Struct(StructTag::Unit))
    }

    /// Writes the start of a struct with one unnamed field; the returned writer
    /// writes the field.
    pub fn write_newtype_struct(self) -> (r: Result<Self, WriteError>)
        ensures
            match (*old(self.writer))@.write_tag(TagModel::Struct(StructTag::Newtype)) {
                Some(m) => r matches Ok(vw) && (*vw.writer)@ == m && *final(vw.writer) == *final(self.writer),
                None => r is Err && (*final(self.writer))@ == (*old(self.writer))@,
            },
    {
        match self.writer.write_tag(Tag::Struct(StructTag::Newtype)) {
            Ok(()) => Ok(self),
            Err(e) => Err(e),
        }
    }

    /// Writes the start of a struct with `fields` unnamed fields.
    pub fn write_tuple_struct(self, fields: usize) -> (r: Result<SizedTupleWriter<'a>, WriteError>)
        ensures
            match (*old(self.writer))@.write_tag(
                TagModel::Struct(StructTag::Tuple { len: fields }),
            ) {
                Some(m) => r matches Ok(tw) && tw.remaining == fields && (*tw.writer)@ == m
                    && *final(tw.writer) == *final(self.writer),
                None => r is Err && (*final(self.writer))@ == (*old(self.writer))@,
            },
    {
        match self.writer.write_tag(Tag::Struct(StructTag::Tuple { len: fields })) {
            Ok(()) => Ok(SizedTupleWriter { writer: self.writer, remaining: fields }),
            Err(e) => Err(e),
        }
    }

    /// Writes the start of a struct with `fields` named fields.
    pub fn write_struct(self, fields: usize) -> (r: Result<SizedStructWriter<'a>, WriteError>)
        ensures
            match (*old(self.writer))@.write_tag(
                TagModel::Struct(StructTag::Struct { len: fields }),
            ) {
                Some(m) => r matches Ok(sw) && sw.remaining == fields && (*sw.writer)@ == m
                    && *final(sw.writer) == *final(self.writer),
                None => r is Err && (*final(self.writer))@ == (*old(self.writer))@,
            },
    {
        match self.writer.write_tag(Tag::Struct(StructTag::Struct { len: fields })) {
            Ok(()) => Ok(SizedStructWriter { writer: self.writer, remaining: fields }),
            Err(e) => Err(e),
        }
    }

    /// The name of a variant, shared with the string map where it is there.
    fn variant_name(&self, variant: RefArcStr) -> (name: String)
        ensures
            name@ == variant@,
    {
        match variant {
            RefArcStr::Arc(a) => a,
            RefArcStr::Str(s) => match self.writer.try_get_cached_str(s) {
                Some(cached) => cached,
                None => str::to_owned(s),
            },
        }
    }

    /// Writes an enum variant with no fields.
    pub fn write_unit_variant(self, variant: RefArcStr) -> (r: Result<(), WriteError>)
        ensures
            write_outcome(
                (*old(self.writer))@,
                (*old(self.writer))@.write_tag(TagModel::Variant(variant@, StructTag::Unit)),
                r,
                (*final(self.writer))@,
            ),
    {
        let name = self.variant_name(variant);
        self.writer.write_tag(Tag::Variant { name, ty: StructTag::Unit })
    }

    /// Writes the start of an enum variant with one unnamed field; the returned
    /// writer writes the field.
    pub fn write_newtype_variant(self, variant: RefArcStr) -> (r: Result<Self, WriteError>)
        ensures
            match (*old(self.writer))@.write_tag(
                TagModel::Variant(variant@, StructTag::Newtype),
            ) {
                Some(m) => r matches Ok(vw) && (*vw.writer)@ == m && *final(vw.writer) == *final(self.writer),
                None => r is Err && (*final(self.writer))@ == (*old(self.writer))@,
            },
    {
        let name = self.variant_name(variant);
        match self.writer.write_tag(Tag::Variant { name, ty: StructTag::Newtype }) {
            Ok(()) => Ok(self),
            Err(e) => Err(e),
        }
    }

    /// Writes the start of an enum variant with `fields` unnamed fields.
    pub fn write_tuple_variant(self, variant: RefArcStr, fields: usize) -> (r: Result<
        SizedTupleWriter<'a>,
        WriteError,
    >)
        ensures
            match (*old(self.writer))@.write_tag(
                TagModel::Variant(variant@, StructTag::Tuple { len: fields }),
            ) {
                Some(m) => r matches Ok(tw) && tw.remaining == fields && (*tw.writer)@ == m
                    && *final(tw.writer) == *final(self.writer),
                None => r is Err && (*final(self.writer))@ == (*old(self.writer))@,
            },
    {
        let name = self.variant_name(variant);
        match self.writer.write_tag(Tag::Variant { name, ty: StructTag::Tuple { len: fields } }) {
            Ok(()) => Ok(SizedTupleWriter { writer: self.writer, remaining: fields }),
            Err(e) => Err(e),
        }
    }

    /// Writes the start of an enum variant with `fields` named fields.
    pub fn write_struct_variant(self, variant: RefArcStr, fields: usize) -> (r: Result<
        SizedStructWriter<'a>,
        WriteError,
    >)
        ensures
            match (*old(self.writer))@.write_tag(
                TagModel::Variant(variant@, StructTag::Struct { len: fields }),
            ) {
                Some(m) => r matches Ok(sw) && sw.remaining == fields && (*sw.writer)@ == m
                    && *final(sw.writer) == *final(self.writer),
                None => r is Err && (*final(self.writer))@ == (*old(self.writer))@,
            },
    {
        let name = self.variant_name(variant);
        match self.writer.write_tag(Tag::Variant { name, ty: StructTag::Struct { len: fields } }) {
            Ok(()) => Ok(SizedStructWriter { writer: self.writer, remaining: fields }),
            Err(e) => Err(e),
        }
    }

    /// Writes the start of a tuple of `fields` values.
    pub fn write_tuple(self, fields: usize) -> (r: Result<SizedTupleWriter<'a>, WriteError>)
        ensures
            match (*old(self.writer))@.write_tag(TagModel::Tuple(fields)) {
                Some(m) => r matches Ok(tw) && tw.remaining == fields && (*tw.writer)@ == m
                    && *final(tw.writer) == *final(self.writer),
                None => r is Err && (*final(self.writer))@ == (*old(self.writer))@,
            },
    {
        match self.writer.write_tag(Tag::Tuple { len: fields }) {
            Ok(()) => Ok(SizedTupleWriter { writer: self.writer, remaining: fields }),
            Err(e) => Err(e),
        }
    }

    /// Writes the start of an array: of `len` values, or, with no length, of
    /// values up to an end marker.
    pub fn write_array(self, len: Option<usize>) -> (r: Result<ArrayWriter<'a>, WriteError>)
        ensures
            match (*old(self.writer))@.write_tag(TagModel::Array(len)) {
                Some(m) => r matches Ok(aw) && aw.remaining == len && (*aw.writer)@ == m
                    && *final(aw.writer) == *final(self.writer),
                None => r is Err && (*final(self.writer))@ == (*old(self.writer))@,
            },
    {
        match self.writer.write_tag(Tag::Array { len }) {
            Ok(()) => Ok(ArrayWriter { writer: self.writer, remaining: len }),
            Err(e) => Err(e),
        }
    }

    /// Writes the start of a map: of `len` pairs, or, with no length, of pairs
    /// up to an end marker.
    pub fn write_map(self, len: Option<usize>) -> (r: Result<MapWriter<'a>, WriteError>)
        ensures
            match (*old(self.writer))@.write_tag(TagModel::Mapping(len)) {
                Some(m) => r matches Ok(mw) && mw.remaining == len && (*mw.writer)@ == m
                    && *final(mw.writer) == *final(self.writer),
                None => r is Err && (*final(self.writer))@ == (*old(self.writer))@,
            },
    {
        match self.writer.write_tag(Tag::Mapping { len }) {
            Ok(()) => Ok(MapWriter { writer: self.writer, remaining: len }),
            Err(e) => Err(e),
        }
    }
}

/// A writer for the given number of values of a tuple.
pub struct SizedTupleWriter<'a> {
    pub writer: &'a mut Writer,
    pub remaining: usize,
}

impl<'a> SizedTupleWriter<'a> {
    /// A writer for the next value.
    pub fn write_value(&mut self) -> (vw: ValueWriter<'_>)
        requires
            old(self).remaining > 0,
        ensures
            *final(final(self).writer) == *final(old(self).writer),
            final(self).remaining == old(self).remaining - 1,
            *vw.writer == *old(self).writer,
            *final(vw.writer) == *final(self).writer,
    {
        self.remaining = self.remaining - 1;
        ValueWriter { writer: &mut *self.writer }
    }

    /// The number of values still to write.
    pub fn remaining(&self) -> (r: usize)
        ensures
            r == self.remaining,
    {
        self.remaining
    }
}

/// A writer for the given number of named fields of a struct.
pub struct SizedStructWriter<'a> {
    pub writer: &'a mut Writer,
    pub remaining: usize,
}

impl<'a> SizedStructWriter<'a> {
    /// Writes the name of the next field and gives a writer for its value.
    pub fn write_field(&mut self, name: RefArcStr) -> (r: Result<ValueWriter<'_>, WriteError>)
        requires
            old(self).remaining > 0,
        ensures
            *final(final(self).writer) == *final(old(self).writer),
            final(self).remaining == old(self).remaining - 1,
            match (*old(self).writer)@.write_str(name@) {
                Some(m) => r matches Ok(vw) && (*vw.writer)@ == m && *final(vw.writer)
                    == *final(self).writer,
                None => r is Err && (*final(self).writer)@ == (*old(self).writer)@.flushed(),
            },
    {
        self.remaining = self.remaining - 1;
        match self.writer.write_str(name.as_str()) {
            Ok(()) => Ok(ValueWriter { writer: &mut *self.writer }),
            Err(e) => Err(e),
        }
    }

    /// The number of fields still to write.
    pub fn remaining(&self) -> (r: usize)
        ensures
            r == self.remaining,
    {
        self.remaining
    }
}

/// A writer for the values of an array.
pub struct ArrayWriter<'a> {
    pub writer: &'a mut Writer,
    pub remaining: Option<usize>,
}

impl<'a> ArrayWriter<'a> {
    /// A writer for the next value.
    pub fn write_value(&mut self) -> (vw: ValueWriter<'_>)
        requires
            old(self).remaining != Some(0usize),
        ensures
            *final(final(self).writer) == *final(old(self).writer),
            final(self).remaining == (match old(self).remaining {
                Some(n) => Some((n - 1) as usize),
                None => None,
            }),
            *vw.writer == *old(self).writer,
            *final(vw.writer) == *final(self).writer,
    {
        match self.remaining {
            Some(n) => {
                self.remaining = Some(n - 1);
            },
            None => {},
        }
        ValueWriter { writer: &mut *self.writer }
    }

    /// Ends the array: an array with no length gets its end marker.
    pub fn finish(self) -> (r: Result<(), WriteError>)
        requires
            self.remaining is None || self.remaining == Some(0usize),
        ensures
            r is Ok,
            (*final(self.writer))@ == if self.remaining is None {
                (*old(self.writer))@.write_seq_end()
            } else {
                (*old(self.writer))@
            },
    {
        match self.remaining {
            Some(_) => Ok(()),
            None => {
                self.writer.write_seq_end();
                Ok(())
            },
        }
    }

    /// The number of values still to write, where the length was given.
    pub fn remaining(&self) -> (r: Option<usize>)
        ensures
            r == self.remaining,
    {
        self.remaining
    }
}

/// A writer for the pairs of a map.
pub struct MapWriter<'a> {
    pub writer: &'a mut Writer,
    pub remaining: Option<usize>,
}

impl<'a> MapWriter<'a> {
    /// A writer for the next pair.
    pub fn write_pair(&mut self) -> (pw: MapPairWtiter<'_>)
        requires
            old(self).remaining != Some(0usize),
        ensures
            *final(final(self).writer) == *final(old(self).writer),
            final(self).remaining == (match old(self).remaining {
                Some(n) => Some((n - 1) as usize),
                None => None,
            }),
            !pw.key_done,
            *pw.writer == *old(self).writer,
            *final(pw.writer) == *final(self).writer,
    {
        match self.remaining {
            Some(n) => {
                self.remaining = Some(n - 1);
            },
            None => {},
        }
        MapPairWtiter { writer: &mut *self.writer, key_done: false }
    }

    /// Ends the map: a map with no length gets its end marker.
    pub fn finish(self) -> (r: Result<(), WriteError>)
        requires
            self.remaining is None || self.remaining == Some(0usize),
        ensures
            r is Ok,
            (*final(self.writer))@ == if self.remaining is None {
                (*old(self.writer))@.write_seq_end()
            } else {
                (*old(self.writer))@
            },
    {
        match self.remaining {
            Some(_) => Ok(()),
            None => {
                self.writer.write_seq_end();
                Ok(())
            },
        }
    }

    /// The number of pairs still to write, where the length was given.
    pub fn remaining(&self) -> (r: Option<usize>)
        ensures
            r == self.remaining,
    {
        self.remaining
    }
}

/// A writer for the key and then the value of one map pair.
pub struct MapPairWtiter<'a> {
    pub writer: &'a mut Writer,
    pub key_done: bool,
}

impl<'a> MapPairWtiter<'a> {
    /// A writer for the key.
    pub fn write_key(&mut self) -> (vw: ValueWriter<'_>)
        requires
            !old(self).key_done,
        ensures
            *final(final(self).writer) == *final(old(self).writer),
            final(self).key_done,
            *vw.writer == *old(self).writer,
            *final(vw.writer) == *final(self).writer,
    {
        self.key_done = true;
        ValueWriter { writer: &mut *self.writer }
    }

    /// A writer for the value, once the key is written.
    pub fn write_value(self) -> (vw: ValueWriter<'a>)
        requires
            self.key_done,
        ensures
            *vw.writer == *old(self.writer),
            *final(vw.writer) == *final(self.writer),
    {
        ValueWriter { writer: self.writer }
    }
}

} // verus!
