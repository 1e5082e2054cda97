use vstd::prelude::*;
use vstd::utf8::{decode_utf8, valid_utf8};
use std::collections::BTreeMap;

use crate::str::{RefArcStr, SdString};
use crate::tag::{IntegerTag, OptionTag, StructTag, StructType, Tag, TagModel, TagType};
use crate::writer::WriteError;
use crate::varint::{
    dec_signed,
    dec_unsigned,
    read_signed_varint,
    read_unsigned_varint,
    read_varint_with_sign,
    Sign,
    SignedInt,
    UnsignedInt,
    VarIntReadError,
};

verus! {

broadcast use {
    vstd::std_specs::btree::group_btree_axioms,
    vstd::laws_cmp::group_laws_cmp,
    vstd::utf8::char_u32_cast,
};

/// A `u128` stored without its alignment.
#[derive(Debug, Clone, Copy, PartialEq, Eq, Structural)]
pub struct PackedU128(pub u128);

/// An `i128` stored without its alignment.
#[derive(Debug, Clone, Copy, PartialEq, Eq, Structural)]
pub struct PackedI128(pub i128);

/// Errors while starting to read a stream.
#[derive(Debug, Clone, Copy, PartialEq, Eq, Structural)]
pub enum ReaderInitError {
    /// The input ended inside the header.
    UnexpectedEof,
    VarIntRead(VarIntReadError),
    /// The stream does not start with the magic bytes.
    InvalidMagic,
    /// The stream has a format version newer than the one this library reads.
    UnsupportedVersion(u32),
}

/// Whether the last tag read was only peeked at and is still to be read.
#[derive(Debug, Clone, Copy, PartialEq, Eq, Structural)]
pub enum TagPeek {
    NoPeek,
    LastTag,
}

/// A tag, or the end marker of a sequence.
pub enum TagOrEnd {
    Tag(Tag<'static>),
    End,
}

/// A tag's contents, or the end marker of a sequence.
pub enum TagOrEndModel {
    Tag(TagModel),
    End,
}

impl View for TagOrEnd {
    type V = TagOrEndModel;

    open spec fn view(&self) -> TagOrEndModel {
        match self {
            TagOrEnd::Tag(t) => TagOrEndModel::Tag(t@),
            TagOrEnd::End => TagOrEndModel::End,
        }
    }
}

/// Errors while reading.
#[derive(Debug)]
pub enum ReadError {
    /// The input ended before the data that it announced.
    UnexpectedEof,
    /// A byte that is no tag where a tag was expected.
    InvalidTag(u8),
    VarIntRead(VarIntReadError),
    /// A reference to a string id that was never defined.
    InvalidStringReference(u32),
    /// String data that is not UTF-8.
    InvalidString,
    /// A value that is no `char`.
    InvalidChar(u32),
    /// The end marker of a sequence where a value was expected.
    UnexpectedEnd,
    UnexpectedValueForType(UnexpectedValueForTypeError),
    UnexpectedValueForVariant(UnexpectedValueForVariantError),
    UnexpectedValue(UnexpectedValueError),
    UnexpectedLength { expected: usize, got: usize, type_label: &'static str },
    UnexpectedStructField { name: String, type_label: &'static str },
    MissingStructField { name: &'static str, type_label: &'static str },
    DuplicateStructField { name: &'static str, type_label: &'static str },
    UnexpectedEnumVariant { name: String, type_label: &'static str },
    /// The stream does not start with the magic bytes.
    InvalidMagic,
    /// The stream has a format version newer than the one this library reads.
    UnsupportedVersion(u32),
    /// A repeat marker while tags are still being repeated.
    StackedTagRepeats,
    /// A repeat marker before any tag.
    NothingToRepeat,
    /// A repeat count past the `usize` range.
    TooManyRepeats,
    ValueOutOfBounds { value: String, type_label: &'static str },
    /// Writing what was read failed, in a copy from a reader to a writer.
    WriteFailed(WriteError),
}

/// The read error for an error at the start of a stream.
pub open spec fn init_error_as_read_error(value: ReaderInitError) -> ReadError {
    match value {
        ReaderInitError::UnexpectedEof => ReadError::UnexpectedEof,
        ReaderInitError::VarIntRead(e) => ReadError::VarIntRead(e),
        ReaderInitError::InvalidMagic => ReadError::InvalidMagic,
        ReaderInitError::UnsupportedVersion(v) => ReadError::UnsupportedVersion(v),
    }
}

impl From<ReaderInitError> for ReadError {
    fn from(value: ReaderInitError) -> (r: Self) {
        match value {
            ReaderInitError::UnexpectedEof => ReadError::UnexpectedEof,
            ReaderInitError::VarIntRead(e) => ReadError::VarIntRead(e),
            ReaderInitError::InvalidMagic => ReadError::InvalidMagic,
            ReaderInitError::UnsupportedVersion(v) => ReadError::UnsupportedVersion(v),
        }
    }
}

impl vstd::std_specs::convert::FromSpecImpl<ReaderInitError> for ReadError {
    open spec fn obeys_from_spec() -> bool {
        true
    }

    open spec fn from_spec(v: ReaderInitError) -> ReadError {
        init_error_as_read_error(v)
    }
}

/// A value of a primitive type, as read from one tag. Floats are held as
/// their bit patterns.
#[derive(Debug, Clone, Copy, PartialEq, Eq, Structural)]
pub enum Primitive {
    Unit,
    Bool(bool),
    U8(u8),
    I8(i8),
    U16(u16),
    I16(i16),
    U32(u32),
    I32(i32),
    U64(u64),
    I64(i64),
    U128(PackedU128),
    I128(PackedI128),
    Char(char),
    /// The bit pattern of an `f32`.
    F32(u32),
    /// The bit pattern of an `f64`.
    F64(u64),
}

/// The primitive types.
#[derive(Debug, Clone, Copy, PartialEq, Eq, Structural)]
pub enum PrimitiveType {
    Unit,
    Bool,
    U8,
    I8,
    U16,
    I16,
    U32,
    I32,
    I64,
    U64,
    U128,
    I128,
    Char,
    F32,
    F64,
}

impl Primitive {
    pub open spec fn spec_ty(self) -> PrimitiveType {
        match self {
            Primitive::Unit => PrimitiveType::Unit,
            Primitive::Bool(_) => PrimitiveType::Bool,
            Primitive::U8(_) => PrimitiveType::U8,
            Primitive::I8(_) => PrimitiveType::I8,
            Primitive::U16(_) => PrimitiveType::U16,
            Primitive::I16(_) => PrimitiveType::I16,
            Primitive::U32(_) => PrimitiveType::U32,
            Primitive::I32(_) => PrimitiveType::I32,
            Primitive::U64(_) => PrimitiveType::U64,
            Primitive::I64(_) => PrimitiveType::I64,
            Primitive::U128(_) => PrimitiveType::U128,
            Primitive::I128(_) => PrimitiveType::I128,
            Primitive::Char(_) => PrimitiveType::Char,
            Primitive::F32(_) => PrimitiveType::F32,
            Primitive::F64(_) => PrimitiveType::F64,
        }
    }

    /// The type of the value.
    pub fn ty(&self) -> (r: PrimitiveType)
        ensures
            r == self.spec_ty(),
    {
        match self {
            Primitive::Unit => PrimitiveType::Unit,
            Primitive::Bool(_) => PrimitiveType::Bool,
            Primitive::U8(_) => PrimitiveType::U8,
            Primitive::I8(_) => PrimitiveType::I8,
            Primitive::U16(_) => PrimitiveType::U16,
            Primitive::I16(_) => PrimitiveType::I16,
            Primitive::U32(_) => PrimitiveType::U32,
            Primitive::I32(_) => PrimitiveType::I32,
            Primitive::U64(_) => PrimitiveType::U64,
            Primitive::I64(_) => PrimitiveType::I64,
            Primitive::U128(_) => PrimitiveType::U128,
            Primitive::I128(_) => PrimitiveType::I128,
            Primitive::Char(_) => PrimitiveType::Char,
            Primitive::F32(_) => PrimitiveType::F32,
            Primitive::F64(_) => PrimitiveType::F64,
        }
    }

    /// The tag that a value of a primitive type is read from and written as.
    pub open spec fn spec_tag_of(self) -> TagModel {
        match self {
            Primitive::Unit => TagModel::Unit,
            Primitive::Bool(b) => TagModel::Bool(b),
            Primitive::U8(v) => TagModel::Integer(IntegerTag::U8(v)),
            Primitive::I8(v) => TagModel::Integer(IntegerTag::I8(v)),
            Primitive::U16(v) => TagModel::Integer(IntegerTag::U16(v)),
            Primitive::I16(v) => TagModel::Integer(IntegerTag::I16(v)),
            Primitive::U32(v) => TagModel::Integer(IntegerTag::U32(v)),
            Primitive::I32(v) => TagModel::Integer(IntegerTag::I32(v)),
            Primitive::U64(v) => TagModel::Integer(IntegerTag::U64(v)),
            Primitive::I64(v) => TagModel::Integer(IntegerTag::I64(v)),
            Primitive::U128(v) => TagModel::Integer(IntegerTag::U128(v)),
            Primitive::I128(v) => TagModel::Integer(IntegerTag::I128(v)),
            Primitive::Char(c) => TagModel::Char(c),
            Primitive::F32(f) => TagModel::F32(f),
            Primitive::F64(f) => TagModel::F64(f),
        }
    }
}

impl crate::writer::WritePrimitive for Primitive {
    open spec fn spec_tag(self) -> TagModel {
        self.spec_tag_of()
    }

    fn into_tag(self) -> (t: Tag<'static>) {
        match self {
            Primitive::Unit => Tag::Unit,
            Primitive::Bool(b) => Tag::Bool(b),
            Primitive::U8(v) => Tag::Integer(IntegerTag::U8(v)),
            Primitive::I8(v) => Tag::Integer(IntegerTag::I8(v)),
            Primitive::U16(v) => Tag::Integer(IntegerTag::U16(v)),
            Primitive::I16(v) => Tag::Integer(IntegerTag::I16(v)),
            Primitive::U32(v) => Tag::Integer(IntegerTag::U32(v)),
            Primitive::I32(v) => Tag::Integer(IntegerTag::I32(v)),
            Primitive::U64(v) => Tag::Integer(IntegerTag::U64(v)),
            Primitive::I64(v) => Tag::Integer(IntegerTag::I64(v)),
            Primitive::U128(v) => Tag::Integer(IntegerTag::U128(v)),
            Primitive::I128(v) => Tag::Integer(IntegerTag::I128(v)),
            Primitive::Char(c) => Tag::Char(c),
            Primitive::F32(f) => Tag::F32(f),
            Primitive::F64(f) => Tag::F64(f),
        }
    }
}

/// The kind of value found in the stream.
#[derive(Debug, Clone, Copy, PartialEq, Eq, Structural)]
pub enum ValueType {
    Primitive(PrimitiveType),
    String,
    Bytes,
    Option(OptionTag),
    Struct(StructType),
    Enum(StructType),
    Tuple,
    Array,
    Mapping,
}

/// The kind of value a reader expected; `None` inside stands for any of a kind.
#[derive(Debug, Clone)]
pub enum ValueTypeRequirement {
    Primitive(Option<PrimitiveType>),
    String,
    Bytes,
    Option(Option<OptionTag>),
    Struct(Option<StructType>),
    Enum(Option<StructType>),
    Tuple,
    Array,
    Mapping,
    Custom(RefArcStr<'static>),
}

/// A value of another kind than a type being read expected.
#[derive(Debug, Clone)]
pub struct UnexpectedValueForTypeError {
    pub expected: ValueTypeRequirement,
    pub found: ValueType,
    pub type_label: &'static str,
}

/// A value of another kind than a variant being read expected.
#[derive(Debug, Clone)]
pub struct UnexpectedValueForVariantError {
    pub expected: ValueTypeRequirement,
    pub found: ValueType,
    pub type_label: &'static str,
    pub variant_name: &'static str,
}

/// A value of another kind than expected.
#[derive(Debug, Clone)]
pub struct UnexpectedValueError {
    pub expected: ValueTypeRequirement,
    pub found: ValueType,
}

impl UnexpectedValueError {
    /// The error, for a value of the type named `name`.
    pub fn with_type_name(self, name: &'static str) -> (r: UnexpectedValueForTypeError)
        ensures
            r == (UnexpectedValueForTypeError {
                expected: self.expected,
                found: self.found,
                type_label: name,
            }),
    {
        UnexpectedValueForTypeError { expected: self.expected, found: self.found, type_label: name }
    }

    /// The error, for variant `variant_name` of the type named `type_label`.
    pub fn with_variant_name(self, type_label: &'static str, variant_name: &'static str) -> (r:
        UnexpectedValueForVariantError)
        ensures
            r == (UnexpectedValueForVariantError {
                expected: self.expected,
                found: self.found,
                type_label,
                variant_name,
            }),
    {
        UnexpectedValueForVariantError {
            expected: self.expected,
            found: self.found,
            type_label,
            variant_name,
        }
    }
}

/// Naming the type or variant in the error of a result.
pub trait UnexpectedValueResultExt<T>: Sized {
    fn with_type_name(self, name: &'static str) -> Result<T, UnexpectedValueForTypeError>;

    fn with_variant_name(self, name: &'static str, variant_name: &'static str) -> Result<
        T,
        UnexpectedValueForVariantError,
    >;
}

impl<T> UnexpectedValueResultExt<T> for Result<T, UnexpectedValueError> {
    fn with_type_name(self, name: &'static str) -> (r: Result<T, UnexpectedValueForTypeError>)
        ensures
            match self {
                Ok(v) => r == Ok::<T, UnexpectedValueForTypeError>(v),
                Err(e) => r == Err::<T, UnexpectedValueForTypeError>(
                    UnexpectedValueForTypeError {
                        expected: e.expected,
                        found: e.found,
                        type_label: name,
                    },
                ),
            },
    {
        match self {
            Ok(v) => Ok(v),
            Err(e) => Err(e.with_type_name(name)),
        }
    }

    fn with_variant_name(self, name: &'static str, variant_name: &'static str) -> (r: Result<
        T,
        UnexpectedValueForVariantError,
    >)
        ensures
            match self {
                Ok(v) => r == Ok::<T, UnexpectedValueForVariantError>(v),
                Err(e) => r == Err::<T, UnexpectedValueForVariantError>(
                    UnexpectedValueForVariantError {
                        expected: e.expected,
                        found: e.found,
                        type_label: name,
                        variant_name,
                    },
                ),
            },
    {
        match self {
            Ok(v) => Ok(v),
            Err(e) => Err(e.with_variant_name(name, variant_name)),
        }
    }
}

/// The result of a read.
pub type ReadResult<T> = Result<T, Box<ReadError>>;

/// The little-endian value of the bytes `s`, lowest byte first, kept to 128 bits.
pub open spec fn from_le(s: Seq<u8>) -> u128
    decreases s.len(),
{
    if s.len() == 0 {
        0
    } else {
        ((from_le(s.drop_first()) << 8u32) | (s[0] as u128)) as u128
    }
}

/// The `n` bytes of `s` at `pos` as a little-endian value; `None` past the end.
pub open spec fn dec_fixed(s: Seq<u8>, pos: nat, n: nat) -> Option<u128> {
    if pos + n <= s.len() {
        Some(from_le(s.subrange(pos as int, (pos + n) as int)))
    } else {
        None
    }
}

/// An unsigned varint of a `bits`-bit type at `pos`: its value and the position after it.
pub open spec fn dec_uvar(s: Seq<u8>, pos: nat, bits: u32) -> Result<(u128, nat), ReadError> {
    match dec_unsigned(s.skip(pos as int), bits) {
        Ok((v, n)) => Ok((v, pos + n)),
        Err(e) => Err(ReadError::VarIntRead(e)),
    }
}

/// A signed varint of a type whose magnitudes have `bits` bits and whose values
/// run from `min` to `max`: its value and the position after it.
pub open spec fn dec_svar(s: Seq<u8>, pos: nat, bits: u32, min: int, max: int) -> Result<
    (int, nat),
    ReadError,
> {
    match dec_signed(s.skip(pos as int), bits) {
        Ok((v, neg, n)) => if (!neg && v <= max) || (neg && v != 0 && v <= -min) {
            Ok(
                (
                    if neg {
                        -v
                    } else {
                        v as int
                    },
                    pos + n,
                ),
            )
        } else {
            Err(ReadError::VarIntRead(VarIntReadError::InvalidSignedValue))
        },
        Err(e) => Err(ReadError::VarIntRead(e)),
    }
}

/// `v` is the number of a `char`: not past `0x10FFFF` and no surrogate.
pub open spec fn is_char_value(v: u32) -> bool {
    v <= 0xD7FF || (0xE000 <= v && v <= 0x10FFFF)
}

/// A string reference at `pos`: the id of a known string as a positive signed
/// varint, or a new id as a negative one followed by the length and the UTF-8
/// bytes of the string, which the string map then holds under that id. Gives the
/// string, the position after it and the string map after it.
pub open spec fn dec_str(s: Seq<u8>, pos: nat, strs: Map<u32, Seq<char>>) -> Result<
    (Seq<char>, nat, Map<u32, Seq<char>>),
    ReadError,
> {
    match dec_signed(s.skip(pos as int), 32) {
        Err(e) => Err(ReadError::VarIntRead(e)),
        Ok((idx, neg, n)) => {
            let p1 = pos + n;
            if !neg {
                if strs.contains_key(idx as u32) {
                    Ok((strs[idx as u32], p1, strs))
                } else {
                    Err(ReadError::InvalidStringReference(idx as u32))
                }
            } else {
                match dec_unsigned(s.skip(p1 as int), usize::BITS) {
                    Err(e) => Err(ReadError::VarIntRead(e)),
                    Ok((len, m)) => {
                        let p2 = p1 + m;
                        if p2 + len > s.len() {
                            Err(ReadError::UnexpectedEof)
                        } else {
                            let data = s.subrange(p2 as int, p2 + len);
                            if valid_utf8(data) {
                                Ok(
                                    (
                                        decode_utf8(data),
                                        (p2 + len) as nat,
                                        strs.insert(idx as u32, decode_utf8(data)),
                                    ),
                                )
                            } else {
                                Err(ReadError::InvalidString)
                            }
                        }
                    },
                }
            }
        },
    }
}

/// A tag built from a decoded value and the position after it.
pub open spec fn with_value(
    r: Result<(u128, nat), ReadError>,
    strs: Map<u32, Seq<char>>,
    f: spec_fn(u128) -> TagModel,
) -> Result<(TagModel, nat, Map<u32, Seq<char>>), ReadError> {
    match r {
        Ok((v, p)) => Ok((f(v), p, strs)),
        Err(e) => Err(e),
    }
}

/// A tag built from a decoded signed value and the position after it.
pub open spec fn with_signed(
    r: Result<(int, nat), ReadError>,
    strs: Map<u32, Seq<char>>,
    f: spec_fn(int) -> TagModel,
) -> Result<(TagModel, nat, Map<u32, Seq<char>>), ReadError> {
    match r {
        Ok((v, p)) => Ok((f(v), p, strs)),
        Err(e) => Err(e),
    }
}

/// A fixed-width value of `n` bytes at `pos`, made into a tag.
pub open spec fn with_fixed(
    s: Seq<u8>,
    pos: nat,
    n: nat,
    strs: Map<u32, Seq<char>>,
    f: spec_fn(u128) -> TagModel,
) -> Result<(TagModel, nat, Map<u32, Seq<char>>), ReadError> {
    match dec_fixed(s, pos, n) {
        Some(v) => Ok((f(v), pos + n, strs)),
        None => Err(ReadError::UnexpectedEof),
    }
}

/// A `char` from its number, which must be one.
pub open spec fn with_char(
    r: Result<(u128, nat), ReadError>,
    strs: Map<u32, Seq<char>>,
) -> Result<(TagModel, nat, Map<u32, Seq<char>>), ReadError> {
    match r {
        Ok((v, p)) => if is_char_value(v as u32) {
            Ok((TagModel::Char((v as u32) as char), p, strs))
        } else {
            Err(ReadError::InvalidChar(v as u32))
        },
        Err(e) => Err(e),
    }
}

/// A variant tag: its name, then the length its shape needs.
pub open spec fn dec_variant(
    s: Seq<u8>,
    pos: nat,
    strs: Map<u32, Seq<char>>,
    ty: StructType,
) -> Result<(TagModel, nat, Map<u32, Seq<char>>), ReadError> {
    match dec_str(s, pos, strs) {
        Err(e) => Err(e),
        Ok((name, p, m)) => match ty {
            StructType::Unit => Ok((TagModel::Variant(name, StructTag::Unit), p, m)),
            StructType::Newtype => Ok((TagModel::Variant(name, StructTag::Newtype), p, m)),
            StructType::Tuple => match dec_uvar(s, p, usize::BITS) {
                Ok((len, p2)) => Ok(
                    (TagModel::Variant(name, StructTag::Tuple { len: len as usize }), p2, m),
                ),
                Err(e) => Err(e),
            },
            StructType::Struct => match dec_uvar(s, p, usize::BITS) {
                Ok((len, p2)) => Ok(
                    (TagModel::Variant(name, StructTag::Struct { len: len as usize }), p2, m),
                ),
                Err(e) => Err(e),
            },
        },
    }
}

/// The data of a tag of type `ty` at `pos`: the tag, the position after it and
/// the string map after it. Repeat markers and the end marker have no data of
/// their own.
pub open spec fn dec_body(s: Seq<u8>, pos: nat, strs: Map<u32, Seq<char>>, ty: TagType) -> Result<
    (TagModel, nat, Map<u32, Seq<char>>),
    ReadError,
> {
    let ub = usize::BITS;
    match ty {
        TagType::Unit => Ok((TagModel::Unit, pos, strs)),
        TagType::BoolFalse => Ok((TagModel::Bool(false), pos, strs)),
        TagType::BoolTrue => Ok((TagModel::Bool(true), pos, strs)),
        TagType::U8 => with_fixed(s, pos, 1, strs, |v: u128| TagModel::Integer(IntegerTag::U8(v as u8))),
        TagType::I8 => with_fixed(s, pos, 1, strs, |v: u128| TagModel::Integer(IntegerTag::I8(v as u8 as i8))),
        TagType::U16 => with_fixed(s, pos, 2, strs, |v: u128| TagModel::Integer(IntegerTag::U16(v as u16))),
        TagType::I16 => with_fixed(s, pos, 2, strs, |v: u128| TagModel::Integer(IntegerTag::I16(v as u16 as i16))),
        TagType::U32 => with_fixed(s, pos, 4, strs, |v: u128| TagModel::Integer(IntegerTag::U32(v as u32))),
        TagType::I32 => with_fixed(s, pos, 4, strs, |v: u128| TagModel::Integer(IntegerTag::I32(v as u32 as i32))),
        TagType::U64 => with_fixed(s, pos, 8, strs, |v: u128| TagModel::Integer(IntegerTag::U64(v as u64))),
        TagType::I64 => with_fixed(s, pos, 8, strs, |v: u128| TagModel::Integer(IntegerTag::I64(v as u64 as i64))),
        TagType::U128 => with_fixed(s, pos, 16, strs, |v: u128| TagModel::Integer(IntegerTag::U128(PackedU128(v)))),
        TagType::I128 => with_fixed(s, pos, 16, strs, |v: u128| TagModel::Integer(IntegerTag::I128(PackedI128(v as i128)))),
        TagType::U16Var => with_value(dec_uvar(s, pos, 16), strs, |v: u128| TagModel::Integer(IntegerTag::U16(v as u16))),
        TagType::I16Var => with_signed(dec_svar(s, pos, 16, i16::MIN as int, i16::MAX as int), strs, |v: int| TagModel::Integer(IntegerTag::I16(v as i16))),
        TagType::U32Var => with_value(dec_uvar(s, pos, 32), strs, |v: u128| TagModel::Integer(IntegerTag::U32(v as u32))),
        TagType::I32Var => with_signed(dec_svar(s, pos, 32, i32::MIN as int, i32::MAX as int), strs, |v: int| TagModel::Integer(IntegerTag::I32(v as i32))),
        TagType::U64Var => with_value(dec_uvar(s, pos, 64), strs, |v: u128| TagModel::Integer(IntegerTag::U64(v as u64))),
        TagType::I64Var => with_signed(dec_svar(s, pos, 64, i64::MIN as int, i64::MAX as int), strs, |v: int| TagModel::Integer(IntegerTag::I64(v as i64))),
        TagType::U128Var => with_value(dec_uvar(s, pos, 128), strs, |v: u128| TagModel::Integer(IntegerTag::U128(PackedU128(v)))),
        TagType::I128Var => with_signed(dec_svar(s, pos, 128, i128::MIN as int, i128::MAX as int), strs, |v: int| TagModel::Integer(IntegerTag::I128(PackedI128(v as i128)))),
        TagType::F32 => with_fixed(s, pos, 4, strs, |v: u128| TagModel::F32(v as u32)),
        TagType::F64 => with_fixed(s, pos, 8, strs, |v: u128| TagModel::F64(v as u64)),
        TagType::Char32 => with_char(
            match dec_fixed(s, pos, 4) {
                Some(v) => Ok((v, pos + 4)),
                None => Err(ReadError::UnexpectedEof),
            },
            strs,
        ),
        TagType::CharVar => with_char(dec_uvar(s, pos, 32), strs),
        TagType::Str => match dec_str(s, pos, strs) {
            Ok((st, p, m)) => Ok((TagModel::Str(st), p, m)),
            Err(e) => Err(e),
        },
        TagType::StrDirect => with_value(dec_uvar(s, pos, ub), strs, |v: u128| TagModel::StrDirect(v as usize)),
        TagType::EmptyStr => Ok((TagModel::EmptyStr, pos, strs)),
        TagType::Bytes => with_value(dec_uvar(s, pos, ub), strs, |v: u128| TagModel::Bytes(v as usize)),
        TagType::Absent => Ok((TagModel::Option(OptionTag::Absent), pos, strs)),
        TagType::Present => Ok((TagModel::Option(OptionTag::Present), pos, strs)),
        TagType::UnitStruct => Ok((TagModel::Struct(StructTag::Unit), pos, strs)),
        TagType::UnitVariant => dec_variant(s, pos, strs, StructType::Unit),
        TagType::NewtypeStruct => Ok((TagModel::Struct(StructTag::Newtype), pos, strs)),
        TagType::NewtypeVariant => dec_variant(s, pos, strs, StructType::Newtype),
        TagType::Array => Ok((TagModel::Array(None), pos, strs)),
        TagType::LenArray => with_value(dec_uvar(s, pos, ub), strs, |v: u128| TagModel::Array(Some(v as usize))),
        TagType::Tuple => with_value(dec_uvar(s, pos, ub), strs, |v: u128| TagModel::Tuple(v as usize)),
        TagType::TupleStruct => with_value(dec_uvar(s, pos, ub), strs, |v: u128| TagModel::Struct(StructTag::Tuple { len: v as usize })),
        TagType::TupleVariant => dec_variant(s, pos, strs, StructType::Tuple),
        TagType::Mapping => Ok((TagModel::Mapping(None), pos, strs)),
        TagType::LenMap => with_value(dec_uvar(s, pos, ub), strs, |v: u128| TagModel::Mapping(Some(v as usize))),
        TagType::Struct => with_value(dec_uvar(s, pos, ub), strs, |v: u128| TagModel::Struct(StructTag::Struct { len: v as usize })),
        TagType::StructVariant => dec_variant(s, pos, strs, StructType::Struct),
        _ => Err(ReadError::InvalidTag(ty.spec_code())),
    }
}

/// What a reader holds: the input and the position in it, the string map, the
/// format version, whether the last tag was only peeked at, the last tag read
/// and how many more times it is to be repeated.
pub struct ReaderModel {
    pub input: Seq<u8>,
    pub pos: nat,
    pub strings: Map<u32, Seq<char>>,
    pub format_version: u32,
    pub peeked: bool,
    pub last_tag: Option<TagModel>,
    pub repeat: nat,
}

impl ReaderModel {
    pub open spec fn wf(self) -> bool {
        &&& self.pos <= self.input.len()
        &&& self.input.len() <= usize::MAX
        &&& self.repeat <= usize::MAX
        &&& self.repeat > 0 ==> self.last_tag is Some
        &&& self.peeked ==> self.last_tag is Some
        &&& self.format_version <= crate::FORMAT_VERSION
    }

    /// The reader after a read that failed with `e`: any state that keeps the
    /// input and the format version.
    pub open spec fn failed_to(self, after: ReaderModel) -> bool {
        &&& after.wf()
        &&& after.input == self.input
        &&& after.format_version == self.format_version
    }

    /// Reading the next tag or end marker from the stream, not from a peek:
    /// a pending repeat of the last tag comes first; then a repeat marker
    /// repeats the last tag once, or, with a count, that count and two more
    /// times; any other tag becomes the last tag.
    pub open spec fn next_tag_or_end(self) -> Result<(TagOrEndModel, ReaderModel), ReadError> {
        if self.repeat > 0 {
            Ok(
                (
                    TagOrEndModel::Tag(self.last_tag.unwrap()),
                    ReaderModel { repeat: (self.repeat - 1) as nat, ..self },
                ),
            )
        } else if self.pos >= self.input.len() {
            Err(ReadError::UnexpectedEof)
        } else {
            let byte = self.input[self.pos as int];
            let p = self.pos + 1;
            match TagType::spec_from_code(byte) {
                None => Err(ReadError::InvalidTag(byte)),
                Some(TagType::End) => Ok((TagOrEndModel::End, ReaderModel { pos: p, ..self })),
                Some(TagType::RepeatTag) => match self.last_tag {
                    None => Err(ReadError::NothingToRepeat),
                    Some(t) => Ok((TagOrEndModel::Tag(t), ReaderModel { pos: p, ..self })),
                },
                Some(TagType::RepeatTagMany) => match dec_uvar(self.input, p, usize::BITS) {
                    Err(e) => Err(e),
                    Ok((count, p2)) => match self.last_tag {
                        None => Err(ReadError::NothingToRepeat),
                        Some(t) => if count + 1 > usize::MAX {
                            Err(ReadError::TooManyRepeats)
                        } else {
                            Ok(
                                (
                                    TagOrEndModel::Tag(t),
                                    ReaderModel { pos: p2, repeat: (count + 1) as nat, ..self },
                                ),
                            )
                        },
                    },
                },
                Some(ty) => match dec_body(self.input, p, self.strings, ty) {
                    Err(e) => Err(e),
                    Ok((t, p2, m)) => Ok(
                        (
                            TagOrEndModel::Tag(t),
                            ReaderModel { pos: p2, strings: m, last_tag: Some(t), ..self },
                        ),
                    ),
                },
            }
        }
    }

    /// Reading the next tag: a peeked tag first; the end marker is an error.
    pub open spec fn next_tag(self) -> Result<(TagModel, ReaderModel), ReadError> {
        if self.peeked {
            Ok((self.last_tag.unwrap(), ReaderModel { peeked: false, ..self }))
        } else {
            match self.next_tag_or_end() {
                Ok((TagOrEndModel::Tag(t), m)) => Ok((t, m)),
                Ok((TagOrEndModel::End, _)) => Err(ReadError::UnexpectedEnd),
                Err(e) => Err(e),
            }
        }
    }

    /// Looking at the next tag without reading it.
    pub open spec fn peek_tag(self) -> Result<(TagModel, ReaderModel), ReadError> {
        if self.peeked {
            Ok((self.last_tag.unwrap(), self))
        } else {
            match self.next_tag_or_end() {
                Ok((TagOrEndModel::Tag(t), m)) => Ok((t, ReaderModel { peeked: true, ..m })),
                Ok((TagOrEndModel::End, _)) => Err(ReadError::UnexpectedEnd),
                Err(e) => Err(e),
            }
        }
    }

    /// Reading an end marker if one comes next: `true` when it did; a tag that
    /// comes instead is kept as peeked.
    pub open spec fn next_seq_end(self) -> Result<(bool, ReaderModel), ReadError> {
        if self.peeked {
            Ok((false, self))
        } else {
            match self.next_tag_or_end() {
                Ok((TagOrEndModel::End, m)) => Ok((true, m)),
                Ok((TagOrEndModel::Tag(_), m)) => Ok((false, ReaderModel { peeked: true, ..m })),
                Err(e) => Err(e),
            }
        }
    }

    /// Reading a string reference.
    pub open spec fn next_str(self) -> Result<(Seq<char>, ReaderModel), ReadError> {
        match dec_str(self.input, self.pos, self.strings) {
            Ok((st, p, m)) => Ok((st, ReaderModel { pos: p, strings: m, ..self })),
            Err(e) => Err(e),
        }
    }

    /// Reading `n` raw bytes.
    pub open spec fn next_raw(self, n: nat) -> Result<(Seq<u8>, ReaderModel), ReadError> {
        if self.pos + n <= self.input.len() {
            Ok(
                (
                    self.input.subrange(self.pos as int, (self.pos + n) as int),
                    ReaderModel { pos: self.pos + n, ..self },
                ),
            )
        } else {
            Err(ReadError::UnexpectedEof)
        }
    }
}

/// `r` and `after` are the result and the reader after a step whose outcome
/// from `before` is `step`.
pub open spec fn read_outcome<T, V>(
    before: ReaderModel,
    step: Result<(V, ReaderModel), ReadError>,
    r: Result<T, ReadError>,
    after: ReaderModel,
    view: spec_fn(T) -> V,
) -> bool {
    match step {
        Ok((v, m)) => r matches Ok(x) && view(x) == v && after == m,
        Err(e) => r == Err::<T, ReadError>(e) && before.failed_to(after),
    }
}

/// Like [`read_outcome`], with the error boxed.
pub open spec fn boxed_read_outcome<T, V>(
    before: ReaderModel,
    step: Result<(V, ReaderModel), ReadError>,
    r: ReadResult<T>,
    after: ReaderModel,
    view: spec_fn(T) -> V,
) -> bool {
    match step {
        Ok((v, m)) => r matches Ok(x) && view(x) == v && after == m,
        Err(e) => r matches Err(b) && *b == e && before.failed_to(after),
    }
}

/// The string for the UTF-8 bytes `data`; `None` where they are not UTF-8.
#[verifier::external_body]
fn string_from_utf8(data: Vec<u8>) -> (r: Option<String>)
    ensures
        r is Some <==> valid_utf8(data@),
        r matches Some(s) ==> s@ == decode_utf8(data@),
{
    String::from_utf8(data).ok()
}

/// The `char` with number `v`; `None` for a surrogate or a number past `0x10FFFF`.
#[verifier::external_body]
fn char_from_u32(v: u32) -> (r: Option<char>)
    ensures
        r is Some <==> is_char_value(v),
        r matches Some(c) ==> c as u32 == v,
{
    char::from_u32(v)
}

/// The position of a reader in its input and what it knows of the tags read.
struct Cursor<'a> {
    input: &'a [u8],
    pos: usize,
    format_version: u32,
    tag_peek: TagPeek,
    last_tag: Option<Tag<'static>>,
    last_tag_repeat: usize,
}

impl<'a> Cursor<'a> {
    /// The position is in the input; a repeat or a peek has a last tag.
    #[verifier::type_invariant]
    closed spec fn inv(self) -> bool {
        &&& self.pos <= self.input@.len()
        &&& self.input@.len() <= usize::MAX
        &&& self.last_tag_repeat > 0 ==> self.last_tag is Some
        &&& self.tag_peek == TagPeek::LastTag ==> self.last_tag is Some
        &&& self.format_version <= crate::FORMAT_VERSION
    }
}

/// The reader of the format: reads tags from a byte slice.
pub struct Reader<'a> {
    cur: Cursor<'a>,
    string_map: BTreeMap<u32, String>,
}

impl<'a> View for Reader<'a> {
    type V = ReaderModel;

    closed spec fn view(&self) -> ReaderModel {
        ReaderModel {
            input: self.cur.input@,
            pos: self.cur.pos as nat,
            strings: self.string_map@.map_values(|s: String| s@),
            format_version: self.cur.format_version,
            peeked: self.cur.tag_peek == TagPeek::LastTag,
            last_tag: match self.cur.last_tag {
                Some(t) => Some(t@),
                None => None,
            },
            repeat: self.cur.last_tag_repeat as nat,
        }
    }
}

/// The header of a stream: the magic bytes, then the format version as a
/// varint, which this library must know. Gives the version and the position
/// after the header.
pub open spec fn dec_header(s: Seq<u8>) -> Result<(u32, nat), ReaderInitError> {
    if s.len() < 2 {
        Err(ReaderInitError::UnexpectedEof)
    } else if s[0] != crate::MAGIC_HEADER[0] || s[1] != crate::MAGIC_HEADER[1] {
        Err(ReaderInitError::InvalidMagic)
    } else {
        match dec_unsigned(s.skip(2), 32) {
            Err(e) => Err(ReaderInitError::VarIntRead(e)),
            Ok((v, n)) => if v > crate::FORMAT_VERSION {
                Err(ReaderInitError::UnsupportedVersion(v as u32))
            } else {
                Ok((v as u32, 2 + n))
            },
        }
    }
}

/// A stream's header is accepted only where it starts with the two magic
/// bytes `s`, `d`, then the varint of a format version this library knows (the
/// current one), and the header then ends after those bytes and at least one
/// byte of the version; where the input has two bytes and they are not the
/// magic bytes, it is refused for them.
pub proof fn lemma_header_accepted(s: Seq<u8>)
    ensures
        dec_header(s) matches Ok((v, p)) ==> s.len() >= 3 && s[0] == 0x73u8 && s[1] == 0x64u8
            && v == 0 && 3 <= p <= s.len(),
        s.len() >= 2 && (s[0] != 0x73u8 || s[1] != 0x64u8) ==> dec_header(s) == Err::<
            (u32, nat),
            ReaderInitError,
        >(ReaderInitError::InvalidMagic),
{
    crate::varint::lemma_dec_groups_len(s.skip(2), 0, 32);
}

/// The reader of `input` at `pos` with no string known and no tag read.
pub open spec fn fresh_reader(input: Seq<u8>, pos: nat, format_version: u32) -> ReaderModel {
    ReaderModel {
        input,
        pos,
        strings: Map::empty(),
        format_version,
        peeked: false,
        last_tag: None,
        repeat: 0,
    }
}

impl<'a> Reader<'a> {
    /// A reader of a stream that starts with the header.
    pub fn new(input: &'a [u8]) -> (r: Result<Self, ReaderInitError>)
        ensures
            match dec_header(input@) {
                Ok((v, p)) => r matches Ok(rd) && rd@ == fresh_reader(input@, p, v),
                Err(e) => r == Err::<Self, ReaderInitError>(e),
            },
    {
        if input.len() < 2 {
            return Err(ReaderInitError::UnexpectedEof);
        }
        if input[0] != crate::MAGIC_HEADER[0] || input[1] != crate::MAGIC_HEADER[1] {
            return Err(ReaderInitError::InvalidMagic);
        }
        let mut pos: usize = 2;
        let version: u32 = match read_unsigned_varint(input, &mut pos) {
            Ok(v) => v,
            Err(e) => {
                return Err(ReaderInitError::VarIntRead(e));
            },
        };
        if version > crate::FORMAT_VERSION {
            return Err(ReaderInitError::UnsupportedVersion(version));
        }
        Ok(Self::starting_at(input, pos, version))
    }

    /// A reader of a stream with no header, of the given format version.
    pub fn new_headerless(input: &'a [u8], format_version: u32) -> (r: Self)
        requires
            format_version <= crate::FORMAT_VERSION,
        ensures
            r@ == fresh_reader(input@, 0, format_version),
    {
        Self::starting_at(input, 0, format_version)
    }

    /// A reader of `input` from `pos`, with no tag read.
    fn starting_at(input: &'a [u8], pos: usize, format_version: u32) -> (r: Self)
        requires
            pos <= input.len(),
            format_version <= crate::FORMAT_VERSION,
        ensures
            r@ == fresh_reader(input@, pos as nat, format_version),
    {
        let r = Reader {
            cur: Cursor {
                input,
                pos,
                format_version,
                tag_peek: TagPeek::NoPeek,
                last_tag: None,
                last_tag_repeat: 0,
            },
            string_map: BTreeMap::new(),
        };
        assert(r@.strings =~= Map::<u32, Seq<char>>::empty());
        r
    }

    /// The format version of the stream.
    pub fn format_version(&self) -> (r: u32)
        ensures
            r == self@.format_version,
    {
        self.cur.format_version
    }

    /// Ends reading: the position after the data read.
    pub fn finish(self) -> (r: usize)
        ensures
            r == self@.pos,
    {
        self.cur.pos
    }

    /// Reads `n` bytes as a little-endian value.
    fn read_fixed(&mut self, n: usize) -> (r: Result<u128, ReadError>)
        requires
            n <= 16,
        ensures
            final(self)@.wf(),
            match dec_fixed(old(self)@.input, old(self)@.pos, n as nat) {
                Some(v) => r == Ok::<u128, ReadError>(v) && final(self)@ == (ReaderModel {
                    pos: old(self)@.pos + n as nat,
                    ..old(self)@
                }),
                None => r == Err::<u128, ReadError>(ReadError::UnexpectedEof) && final(self)@
                    == old(self)@,
            },
    {
        proof {
            use_type_invariant(&self.cur);
        }
        if n > self.cur.input.len() - self.cur.pos {
            return Err(ReadError::UnexpectedEof);
        }
        let ghost s = self.cur.input@;
        let ghost p = self.cur.pos as int;
        let mut acc: u128 = 0;
        let mut i: usize = n;
        assert(s.subrange(p + n, p + n).len() == 0);
        while i > 0
            invariant
                i <= n,
                p + n <= s.len(),
                self.cur.pos + n <= self.cur.input.len(),
                s == self.cur.input@,
                p == self.cur.pos,
                acc == from_le(s.subrange(p + i, p + n)),
            decreases i,
        {
            i = i - 1;
            let b = self.cur.input[self.cur.pos + i];
            assert(s.subrange(p + i, p + n).drop_first() =~= s.subrange(p + i + 1, p + n));
            acc = (acc << 8u32) | (b as u128);
        }
        self.cur.pos = self.cur.pos + n;
        Ok(acc)
    }

    /// Reads an unsigned varint.
    fn read_uvar<I: UnsignedInt>(&mut self) -> (r: Result<I, ReadError>)
        ensures
            final(self)@.wf(),
            match dec_uvar(old(self)@.input, old(self)@.pos, I::spec_bits()) {
                Ok((v, p)) => r matches Ok(x) && x.spec_value() == v && final(self)@ == (
                ReaderModel { pos: p, ..old(self)@ }),
                Err(e) => r == Err::<I, ReadError>(e) && final(self)@ == (ReaderModel {
                    pos: final(self)@.pos,
                    ..old(self)@
                }) && final(self)@.wf(),
            },
    {
        proof {
            use_type_invariant(&self.cur);
        }
        let mut pos = self.cur.pos;
        let res = read_unsigned_varint::<I>(self.cur.input, &mut pos);
        self.cur.pos = pos;
        match res {
            Ok(v) => Ok(v),
            Err(e) => Err(ReadError::VarIntRead(e)),
        }
    }

    /// Reads a signed varint.
    fn read_svar<I: SignedInt>(&mut self) -> (r: Result<I, ReadError>)
        ensures
            final(self)@.wf(),
            match dec_svar(
                old(self)@.input,
                old(self)@.pos,
                I::Unsigned::spec_bits(),
                I::spec_min(),
                I::spec_max(),
            ) {
                Ok((v, p)) => r matches Ok(x) && x.spec_value() == v && final(self)@ == (
                ReaderModel { pos: p, ..old(self)@ }),
                Err(e) => r == Err::<I, ReadError>(e) && final(self)@ == (ReaderModel {
                    pos: final(self)@.pos,
                    ..old(self)@
                }) && final(self)@.wf(),
            },
    {
        proof {
            use_type_invariant(&self.cur);
        }
        let mut pos = self.cur.pos;
        let res = read_signed_varint::<I>(self.cur.input, &mut pos);
        self.cur.pos = pos;
        match res {
            Ok(v) => Ok(v),
            Err(e) => Err(ReadError::VarIntRead(e)),
        }
    }

    /// Reads a string reference, defining the string where the reference does.
    fn read_str_inner(&mut self) -> (r: Result<String, ReadError>)
        ensures
            final(self)@.wf(),
            match dec_str(old(self)@.input, old(self)@.pos, old(self)@.strings) {
                Ok((st, p, m)) => r matches Ok(x) && x@ == st && final(self)@ == (ReaderModel {
                    pos: p,
                    strings: m,
                    ..old(self)@
                }),
                Err(e) => r == Err::<String, ReadError>(e) && final(self)@ == (ReaderModel {
                    pos: final(self)@.pos,
                    ..old(self)@
                }) && final(self)@.wf(),
            },
    {
        proof {
            use_type_invariant(&self.cur);
        }
        let mut pos = self.cur.pos;
        let res = read_varint_with_sign::<u32>(self.cur.input, &mut pos);
        self.cur.pos = pos;
        let (index, sign) = match res {
            Ok(v) => v,
            Err(e) => {
                return Err(ReadError::VarIntRead(e));
            },
        };
        match sign {
            Sign::Positive => match self.string_map.get(&index) {
                Some(s) => Ok(s.clone()),
                None => Err(ReadError::InvalidStringReference(index)),
            },
            Sign::Negative => {
                let mut pos = self.cur.pos;
                let res = read_unsigned_varint(self.cur.input, &mut pos);
                self.cur.pos = pos;
                let length: usize = match res {
                    Ok(v) => v,
                    Err(e) => {
                        return Err(ReadError::VarIntRead(e));
                    },
                };
                if length > self.cur.input.len() - self.cur.pos {
                    return Err(ReadError::UnexpectedEof);
                }
                let data = slice_to_vec(self.cur.input, self.cur.pos, length);
                self.cur.pos = self.cur.pos + length;
                match string_from_utf8(data) {
                    Some(st) => {
                        let ghost old_map = self.string_map@;
                        self.string_map.insert(index, st.clone());
                        proof {
                            assert(self.string_map@.map_values(|s: String| s@) =~= old_map.map_values(
                                |s: String| s@,
                            ).insert(index, st@));
                        }
                        Ok(st)
                    },
                    None => Err(ReadError::InvalidString),
                }
            },
        }
    }
}

/// `after` is `before` with at most the position and the string map changed,
/// and well formed.
pub open spec fn moved_on(before: ReaderModel, after: ReaderModel) -> bool {
    &&& after == (ReaderModel { pos: after.pos, strings: after.strings, ..before })
    &&& after.wf()
}

/// The tags of number types and of `char`.
pub open spec fn is_number_type(ty: TagType) -> bool {
    ||| ty == TagType::U8
    ||| ty == TagType::I8
    ||| ty == TagType::U16
    ||| ty == TagType::I16
    ||| ty == TagType::U32
    ||| ty == TagType::I32
    ||| ty == TagType::U64
    ||| ty == TagType::I64
    ||| ty == TagType::U128
    ||| ty == TagType::I128
    ||| ty == TagType::U16Var
    ||| ty == TagType::I16Var
    ||| ty == TagType::U32Var
    ||| ty == TagType::I32Var
    ||| ty == TagType::U64Var
    ||| ty == TagType::I64Var
    ||| ty == TagType::U128Var
    ||| ty == TagType::I128Var
    ||| ty == TagType::F32
    ||| ty == TagType::F64
    ||| ty == TagType::Char32
    ||| ty == TagType::CharVar
}

/// The outcome of reading the data of a tag.
pub open spec fn body_outcome(
    before: ReaderModel,
    ty: TagType,
    r: Result<Tag<'static>, ReadError>,
    after: ReaderModel,
) -> bool {
    match dec_body(before.input, before.pos, before.strings, ty) {
        Ok((t, p, m)) => r matches Ok(x) && x@ == t && after == (ReaderModel {
            pos: p,
            strings: m,
            ..before
        }),
        Err(e) => r == Err::<Tag<'static>, ReadError>(e) && moved_on(before, after),
    }
}

impl<'a> Reader<'a> {
    /// Reads the data of a tag of a number type or of `char`.
    fn read_number_body(&mut self, ty: TagType) -> (r: Result<Tag<'static>, ReadError>)
        ensures
            final(self)@.wf(),
            body_outcome(old(self)@, ty, r, final(self)@),
    {
        proof {
            use_type_invariant(&self.cur);
        }
        match ty {
            TagType::U8 => {
                match self.read_fixed(1) {
                    Ok(v) => {
                    Ok(Tag::Integer(IntegerTag::U8(v as u8)))
                    },
                    Err(e) => Err(e),
                }
            },
            TagType::I8 => {
                match self.read_fixed(1) {
                    Ok(v) => {
                    Ok(Tag::Integer(IntegerTag::I8(v as u8 as i8)))
                    },
                    Err(e) => Err(e),
                }
            },
            TagType::U16 => {
                match self.read_fixed(2) {
                    Ok(v) => {
                    Ok(Tag::Integer(IntegerTag::U16(v as u16)))
                    },
                    Err(e) => Err(e),
                }
            },
            TagType::I16 => {
                match self.read_fixed(2) {
                    Ok(v) => {
                    Ok(Tag::Integer(IntegerTag::I16(v as u16 as i16)))
                    },
                    Err(e) => Err(e),
                }
            },
            TagType::U32 => {
                match self.read_fixed(4) {
                    Ok(v) => {
                    Ok(Tag::Integer(IntegerTag::U32(v as u32)))
                    },
                    Err(e) => Err(e),
                }
            },
            TagType::I32 => {
                match self.read_fixed(4) {
                    Ok(v) => {
                    Ok(Tag::Integer(IntegerTag::I32(v as u32 as i32)))
                    },
                    Err(e) => Err(e),
                }
            },
            TagType::U64 => {
                match self.read_fixed(8) {
                    Ok(v) => {
                    Ok(Tag::Integer(IntegerTag::U64(v as u64)))
                    },
                    Err(e) => Err(e),
                }
            },
            TagType::I64 => {
                match self.read_fixed(8) {
                    Ok(v) => {
                    Ok(Tag::Integer(IntegerTag::I64(v as u64 as i64)))
                    },
                    Err(e) => Err(e),
                }
            },
            TagType::U128 => {
                match self.read_fixed(16) {
                    Ok(v) => {
                    Ok(Tag::Integer(IntegerTag::U128(PackedU128(v))))
                    },
                    Err(e) => Err(e),
                }
            },
            TagType::I128 => {
                match self.read_fixed(16) {
                    Ok(v) => {
                    Ok(Tag::Integer(IntegerTag::I128(PackedI128(v as i128))))
                    },
                    Err(e) => Err(e),
                }
            },
            TagType::U16Var => {
                match self.read_uvar() {
                    Ok(v) => {
                    Ok(Tag::Integer(IntegerTag::U16(v)))
                    },
                    Err(e) => Err(e),
                }
            },
            TagType::I16Var => {
                match self.read_svar() {
                    Ok(v) => {
                    Ok(Tag::Integer(IntegerTag::I16(v)))
                    },
                    Err(e) => Err(e),
                }
            },
            TagType::U32Var => {
                match self.read_uvar() {
                    Ok(v) => {
                    Ok(Tag::Integer(IntegerTag::U32(v)))
                    },
                    Err(e) => Err(e),
                }
            },
            TagType::I32Var => {
                match self.read_svar() {
                    Ok(v) => {
                    Ok(Tag::Integer(IntegerTag::I32(v)))
                    },
                    Err(e) => Err(e),
                }
            },
            TagType::U64Var => {
                match self.read_uvar() {
                    Ok(v) => {
                    Ok(Tag::Integer(IntegerTag::U64(v)))
                    },
                    Err(e) => Err(e),
                }
            },
            TagType::I64Var => {
                match self.read_svar() {
                    Ok(v) => {
                    Ok(Tag::Integer(IntegerTag::I64(v)))
                    },
                    Err(e) => Err(e),
                }
            },
            TagType::U128Var => {
                match self.read_uvar() {
                    Ok(v) => {
                    Ok(Tag::Integer(IntegerTag::U128(PackedU128(v))))
                    },
                    Err(e) => Err(e),
                }
            },
            TagType::I128Var => {
                match self.read_svar() {
                    Ok(v) => {
                    Ok(Tag::Integer(IntegerTag::I128(PackedI128(v))))
                    },
                    Err(e) => Err(e),
                }
            },
            TagType::F32 => {
                match self.read_fixed(4) {
                    Ok(v) => {
                    Ok(Tag::F32(v as u32))
                    },
                    Err(e) => Err(e),
                }
            },
            TagType::F64 => {
                match self.read_fixed(8) {
                    Ok(v) => {
                    Ok(Tag::F64(v as u64))
                    },
                    Err(e) => Err(e),
                }
            },
            TagType::Char32 => {
                match self.read_fixed(4) {
                    Ok(v) => {
                    match char_from_u32(v as u32) {
                        Some(c) => {
                            proof {
                                vstd::utf8::char_u32_cast(c, v as u32);
                            }
                            Ok(Tag::Char(c))
                        },
                        None => Err(ReadError::InvalidChar(v as u32)),
                    }
                    },
                    Err(e) => Err(e),
                }
            },
            TagType::CharVar => {
                match self.read_uvar() {
                    Ok(v) => {
                    match char_from_u32(v) {
                        Some(c) => {
                            proof {
                                vstd::utf8::char_u32_cast(c, v);
                                assert((v as u128) as u32 == v);
                            }
                            Ok(Tag::Char(c))
                        },
                        None => Err(ReadError::InvalidChar(v)),
                    }
                    },
                    Err(e) => Err(e),
                }
            },
            _ => self.read_other_body(ty),
        }
    }

    /// Reads a variant tag's name, then the length its shape needs.
    fn read_variant_body(&mut self, ty: StructType) -> (r: Result<Tag<'static>, ReadError>)
        ensures
            final(self)@.wf(),
            match dec_variant(old(self)@.input, old(self)@.pos, old(self)@.strings, ty) {
                Ok((t, p, m)) => r matches Ok(x) && x@ == t && final(self)@ == (ReaderModel {
                    pos: p,
                    strings: m,
                    ..old(self)@
                }),
                Err(e) => r == Err::<Tag<'static>, ReadError>(e) && moved_on(
                    old(self)@,
                    final(self)@,
                ),
            },
    {
        proof {
            use_type_invariant(&self.cur);
        }
        match self.read_str_inner() {
            Ok(name) => match ty {
                StructType::Unit => Ok(Tag::Variant { name, ty: StructTag::Unit }),
                StructType::Newtype => Ok(Tag::Variant { name, ty: StructTag::Newtype }),
                StructType::Tuple => match self.read_uvar() {
                    Ok(len) => Ok(Tag::Variant { name, ty: StructTag::Tuple { len } }),
                    Err(e) => Err(e),
                },
                StructType::Struct => match self.read_uvar() {
                    Ok(len) => Ok(Tag::Variant { name, ty: StructTag::Struct { len } }),
                    Err(e) => Err(e),
                },
            },
            Err(e) => Err(e),
        }
    }

    /// Reads the data of a tag of no number type.
    fn read_other_body(&mut self, ty: TagType) -> (r: Result<Tag<'static>, ReadError>)
        requires
            !is_number_type(ty),
        ensures
            final(self)@.wf(),
            body_outcome(old(self)@, ty, r, final(self)@),
    {
        proof {
            use_type_invariant(&self.cur);
        }
        match ty {
            TagType::Unit => Ok(Tag::Unit),
            TagType::BoolFalse => Ok(Tag::Bool(false)),
            TagType::BoolTrue => Ok(Tag::Bool(true)),
            TagType::Str => {
                match self.read_str_inner() {
                    Ok(s) => {
                    Ok(Tag::Str(RefArcStr::Arc(s)))
                    },
                    Err(e) => Err(e),
                }
            },
            TagType::StrDirect => {
                match self.read_uvar() {
                    Ok(len) => {
                    Ok(Tag::StrDirect { len })
                    },
                    Err(e) => Err(e),
                }
            },
            TagType::EmptyStr => Ok(Tag::EmptyStr),
            TagType::Bytes => {
                match self.read_uvar() {
                    Ok(len) => {
                    Ok(Tag::Bytes { len })
                    },
                    Err(e) => Err(e),
                }
            },
            TagType::Absent => Ok(Tag::Option(OptionTag::Absent)),
            TagType::Present => Ok(Tag::Option(OptionTag::Present)),
            TagType::UnitStruct => Ok(Tag::Struct(StructTag::Unit)),
            TagType::UnitVariant => self.read_variant_body(StructType::Unit),
            TagType::NewtypeStruct => Ok(Tag::Struct(StructTag::Newtype)),
            TagType::NewtypeVariant => self.read_variant_body(StructType::Newtype),
            TagType::Array => Ok(Tag::Array { len: None }),
            TagType::LenArray => {
                match self.read_uvar() {
                    Ok(len) => {
                    Ok(Tag::Array { len: Some(len) })
                    },
                    Err(e) => Err(e),
                }
            },
            TagType::Tuple => {
                match self.read_uvar() {
                    Ok(len) => {
                    Ok(Tag::Tuple { len })
                    },
                    Err(e) => Err(e),
                }
            },
            TagType::TupleStruct => {
                match self.read_uvar() {
                    Ok(len) => {
                    Ok(Tag::Struct(StructTag::Tuple { len }))
                    },
                    Err(e) => Err(e),
                }
            },
            TagType::TupleVariant => self.read_variant_body(StructType::Tuple),
            TagType::Mapping => Ok(Tag::Mapping { len: None }),
            TagType::LenMap => {
                match self.read_uvar() {
                    Ok(len) => {
                    Ok(Tag::Mapping { len: Some(len) })
                    },
                    Err(e) => Err(e),
                }
            },
            TagType::Struct => {
                match self.read_uvar() {
                    Ok(len) => {
                    Ok(Tag::Struct(StructTag::Struct { len }))
                    },
                    Err(e) => Err(e),
                }
            },
            TagType::StructVariant => self.read_variant_body(StructType::Struct),
            _ => Err(ReadError::InvalidTag(ty.into_u8())),
        }
    }
}

impl<'a> Reader<'a> {
    /// Reads the next tag or end marker from the stream, not from a peek.
    fn read_tag_or_end(&mut self) -> (r: Result<TagOrEnd, ReadError>)
        ensures
            final(self)@.wf(),
            read_outcome(old(self)@, old(self)@.next_tag_or_end(), r, final(self)@, |x: TagOrEnd| x@),
    {
        proof {
            use_type_invariant(&self.cur);
        }
        if self.cur.last_tag_repeat > 0 {
            let tag = match &self.cur.last_tag {
                Some(t) => t.clone(),
                None => {
                    assert(false);
                    return Err(ReadError::NothingToRepeat);
                },
            };
            self.cur.last_tag_repeat = self.cur.last_tag_repeat - 1;
            return Ok(TagOrEnd::Tag(tag));
        }
        if self.cur.pos >= self.cur.input.len() {
            return Err(ReadError::UnexpectedEof);
        }
        let byte = self.cur.input[self.cur.pos];
        self.cur.pos = self.cur.pos + 1;
        let ty = match TagType::try_from_u8(byte) {
            Ok(t) => t,
            Err(v) => {
                return Err(ReadError::InvalidTag(v));
            },
        };
        match ty {
            TagType::End => Ok(TagOrEnd::End),
            TagType::RepeatTag => {
                if self.cur.last_tag_repeat != 0 {
                    return Err(ReadError::StackedTagRepeats);
                }
                match &self.cur.last_tag {
                    None => Err(ReadError::NothingToRepeat),
                    Some(t) => Ok(TagOrEnd::Tag(t.clone())),
                }
            },
            TagType::RepeatTagMany => {
                if self.cur.last_tag_repeat != 0 {
                    return Err(ReadError::StackedTagRepeats);
                }
                let count: usize = match self.read_uvar() {
                    Ok(c) => c,
                    Err(e) => {
                        return Err(e);
                    },
                };
                let tag = match &self.cur.last_tag {
                    None => {
                        return Err(ReadError::NothingToRepeat);
                    },
                    Some(t) => t.clone(),
                };
                let count = match count.checked_add(1) {
                    Some(c) => c,
                    None => {
                        return Err(ReadError::TooManyRepeats);
                    },
                };
                self.cur.last_tag_repeat = count;
                Ok(TagOrEnd::Tag(tag))
            },
            _ => match self.read_number_body(ty) {
                Ok(tag) => {
                    self.cur.last_tag = Some(tag.clone());
                    Ok(TagOrEnd::Tag(tag))
                },
                Err(e) => Err(e),
            },
        }
    }

    /// Reads the next tag: a peeked tag first; the end marker is an error.
    pub fn read_tag(&mut self) -> (r: ReadResult<Tag<'static>>)
        ensures
            final(self)@.wf(),
            boxed_read_outcome(old(self)@, old(self)@.next_tag(), r, final(self)@, |x: Tag<'static>| x@),
    {
        proof {
            use_type_invariant(&self.cur);
        }
        if self.cur.tag_peek == TagPeek::LastTag {
            self.cur.tag_peek = TagPeek::NoPeek;
            match &self.cur.last_tag {
                Some(t) => {
                    return Ok(t.clone());
                },
                None => {
                    assert(false);
                    return Err(Box::new(ReadError::UnexpectedEnd));
                },
            }
        }
        match self.read_tag_or_end() {
            Ok(TagOrEnd::Tag(t)) => Ok(t),
            Ok(TagOrEnd::End) => Err(Box::new(ReadError::UnexpectedEnd)),
            Err(e) => Err(Box::new(e)),
        }
    }

    /// The next tag, which stays to be read.
    pub fn peek_tag(&mut self) -> (r: ReadResult<Tag<'static>>)
        ensures
            final(self)@.wf(),
            boxed_read_outcome(old(self)@, old(self)@.peek_tag(), r, final(self)@, |x: Tag<'static>| x@),
    {
        proof {
            use_type_invariant(&self.cur);
        }
        if self.cur.tag_peek == TagPeek::NoPeek {
            match self.read_tag_or_end() {
                Ok(TagOrEnd::Tag(_)) => {
                    self.cur.tag_peek = TagPeek::LastTag;
                },
                Ok(TagOrEnd::End) => {
                    return Err(Box::new(ReadError::UnexpectedEnd));
                },
                Err(e) => {
                    return Err(Box::new(e));
                },
            }
        }
        match &self.cur.last_tag {
            Some(t) => Ok(t.clone()),
            None => {
                assert(false);
                Err(Box::new(ReadError::UnexpectedEnd))
            },
        }
    }

    /// Reads an end marker if one comes next; a tag that comes instead stays
    /// to be read.
    pub fn read_seq_end(&mut self) -> (r: ReadResult<bool>)
        ensures
            final(self)@.wf(),
            boxed_read_outcome(old(self)@, old(self)@.next_seq_end(), r, final(self)@, |x: bool| x),
    {
        proof {
            use_type_invariant(&self.cur);
        }
        if self.cur.tag_peek == TagPeek::NoPeek {
            match self.read_tag_or_end() {
                Ok(TagOrEnd::End) => {
                    return Ok(true);
                },
                Ok(TagOrEnd::Tag(_)) => {
                    self.cur.tag_peek = TagPeek::LastTag;
                },
                Err(e) => {
                    return Err(Box::new(e));
                },
            }
        }
        Ok(false)
    }

    /// Reads a string reference.
    pub fn read_str(&mut self) -> (r: ReadResult<String>)
        ensures
            final(self)@.wf(),
            boxed_read_outcome(old(self)@, old(self)@.next_str(), r, final(self)@, |x: String| x@),
    {
        proof {
            use_type_invariant(&self.cur);
        }
        match self.read_str_inner() {
            Ok(s) => Ok(s),
            Err(e) => Err(Box::new(e)),
        }
    }

    /// Reads `n` raw bytes.
    pub fn read_raw(&mut self, n: usize) -> (r: ReadResult<Vec<u8>>)
        ensures
            final(self)@.wf(),
            boxed_read_outcome(old(self)@, old(self)@.next_raw(n as nat), r, final(self)@, |x: Vec<u8>| x@),
    {
        proof {
            use_type_invariant(&self.cur);
        }
        if n > self.cur.input.len() - self.cur.pos {
            return Err(Box::new(ReadError::UnexpectedEof));
        }
        let v = slice_to_vec(self.cur.input, self.cur.pos, n);
        self.cur.pos = self.cur.pos + n;
        Ok(v)
    }
}

/// The `len` bytes of `input` at `start`.
fn slice_to_vec(input: &[u8], start: usize, len: usize) -> (r: Vec<u8>)
    requires
        start + len <= input.len(),
    ensures
        r@ == input@.subrange(start as int, start + len),
{
    let mut v: Vec<u8> = Vec::with_capacity(len);
    let mut i: usize = 0;
    while i < len
        invariant
            i <= len,
            start + len <= input.len(),
            v@ == input@.subrange(start as int, start + i),
        decreases len - i,
    {
        v.push(input[start + i]);
        i = i + 1;
        assert(v@ =~= input@.subrange(start as int, start + i));
    }
    v
}

/// Where a string value's contents are: shared from the string map, in the
/// stream after the tag with the given length, or nowhere for the empty string.
#[derive(Debug)]
pub enum StringReaderType {
    Str(String),
    Direct(usize),
    Empty,
}

/// `ty` is where the contents of the string started by tag `t` are.
pub open spec fn string_tag_fits(ty: StringReaderType, t: TagModel) -> bool {
    match (ty, t) {
        (StringReaderType::Str(s), TagModel::Str(x)) => s@ == x,
        (StringReaderType::Direct(n), TagModel::StrDirect(m)) => n == m,
        (StringReaderType::Empty, TagModel::EmptyStr) => true,
        _ => false,
    }
}

/// The string the contents of a string value read from `m` are, with the reader
/// after them.
pub open spec fn string_contents(ty: StringReaderType, m: ReaderModel) -> Result<
    (Seq<char>, ReaderModel),
    ReadError,
> {
    match ty {
        StringReaderType::Str(s) => Ok((s@, m)),
        StringReaderType::Empty => Ok((Seq::empty(), m)),
        StringReaderType::Direct(n) => match m.next_raw(n as nat) {
            Ok((bytes, m2)) => if valid_utf8(bytes) {
                Ok((decode_utf8(bytes), m2))
            } else {
                Err(ReadError::InvalidString)
            },
            Err(e) => Err(e),
        },
    }
}

/// A reader for one value.
pub struct ValueReader<'rf, 'rd> {
    pub reader: &'rf mut Reader<'rd>,
}

/// A reader of the contents of a string value.
pub struct StringReader<'rf, 'rd> {
    pub reader: &'rf mut Reader<'rd>,
    pub ty: StringReaderType,
}

impl<'rf, 'rd> StringReader<'rf, 'rd> {
    /// Reads the string.
    pub fn read(self) -> (r: ReadResult<SdString>)
        ensures
            (*final(self.reader))@.wf(),
            boxed_read_outcome(
                (*old(self.reader))@,
                string_contents(self.ty, (*old(self.reader))@),
                r,
                (*final(self.reader))@,
                |x: SdString| x@,
            ),
            r matches Ok(s) ==> match self.ty {
                StringReaderType::Str(_) => s is Arc,
                StringReaderType::Direct(_) => s is Owned,
                StringReaderType::Empty => s is Empty,
            },
    {
        proof {
            use_type_invariant(&self.reader.cur);
        }
        match self.ty {
            StringReaderType::Str(a) => Ok(SdString::Arc(a)),
            StringReaderType::Direct(len) => {
                let data = match self.reader.read_raw(len) {
                    Ok(d) => d,
                    Err(e) => {
                        return Err(e);
                    },
                };
                match string_from_utf8(data) {
                    Some(s) => Ok(SdString::Owned(s)),
                    None => Err(Box::new(ReadError::InvalidString)),
                }
            },
            StringReaderType::Empty => Ok(SdString::Empty),
        }
    }

    /// The format version of the stream.
    pub fn format_version(&self) -> (r: u32)
        ensures
            r == (*old(self.reader))@.format_version,
    {
        self.reader.format_version()
    }
}

/// A reader of the contents of a byte string value.
pub struct BytesReader<'rf, 'rd> {
    pub reader: &'rf mut Reader<'rd>,
    pub len: usize,
}

impl<'rf, 'rd> BytesReader<'rf, 'rd> {
    /// Reads the bytes and appends them to `buf`; gives their number.
    pub fn read_into(self, buf: &mut Vec<u8>) -> (r: ReadResult<usize>)
        ensures
            (*final(self.reader))@.wf(),
            match (*old(self.reader))@.next_raw(self.len as nat) {
                Ok((bytes, m)) => r == Ok::<usize, Box<ReadError>>(self.len) && final(buf)@ == old(
                    buf,
                )@ + bytes && (*final(self.reader))@ == m,
                Err(e) => r matches Err(b) && *b == e && (*old(self.reader))@.failed_to(
                    (*final(self.reader))@,
                ) && final(buf)@ == old(buf)@,
            },
    {
        proof {
            use_type_invariant(&self.reader.cur);
        }
        let data = match self.reader.read_raw(self.len) {
            Ok(d) => d,
            Err(e) => {
                return Err(e);
            },
        };
        let mut i: usize = 0;
        let ghost start = buf@;
        while i < data.len()
            invariant
                i <= data.len(),
                buf@ == start + data@.take(i as int),
            decreases data.len() - i,
        {
            buf.push(data[i]);
            i = i + 1;
            assert(buf@ =~= start + data@.take(i as int));
        }
        assert(data@.take(i as int) =~= data@);
        Ok(self.len)
    }

    /// Reads the bytes.
    pub fn read(self) -> (r: ReadResult<Vec<u8>>)
        ensures
            (*final(self.reader))@.wf(),
            boxed_read_outcome(
                (*old(self.reader))@,
                (*old(self.reader))@.next_raw(self.len as nat),
                r,
                (*final(self.reader))@,
                |x: Vec<u8>| x@,
            ),
    {
        proof {
            use_type_invariant(&self.reader.cur);
        }
        self.reader.read_raw(self.len)
    }

    /// The format version of the stream.
    pub fn format_version(&self) -> (r: u32)
        ensures
            r == (*old(self.reader))@.format_version,
    {
        self.reader.format_version()
    }
}

/// A reader for the given number of values of a tuple.
pub struct TupleReader<'rf, 'rd> {
    pub reader: &'rf mut Reader<'rd>,
    pub remaining: usize,
}

impl<'rf, 'rd> TupleReader<'rf, 'rd> {
    /// A reader for the next value; `None` after the last one.
    pub fn read_value(&mut self) -> (r: Option<ValueReader<'_, 'rd>>)
        ensures
            *final(final(self).reader) == *final(old(self).reader),
            old(self).remaining == 0 ==> r is None && *final(self).reader == *old(self).reader
                && final(self).remaining == 0,
            old(self).remaining > 0 ==> (r matches Some(vr) && final(self).remaining == old(
                self,
            ).remaining - 1 && *vr.reader == *old(self).reader && *final(vr.reader)
                == *final(self).reader),
    {
        if self.remaining == 0 {
            return None;
        }
        self.remaining = self.remaining - 1;
        Some(ValueReader { reader: &mut *self.reader })
    }

    /// The number of values still to read.
    pub fn remaining(&self) -> (r: usize)
        ensures
            r == self.remaining,
    {
        self.remaining
    }

    /// The format version of the stream.
    pub fn format_version(&self) -> (r: u32)
        ensures
            r == (*old(self.reader))@.format_version,
    {
        self.reader.format_version()
    }
}

/// A reader for the given number of named fields of a struct.
pub struct StructReader<'rf, 'rd> {
    pub reader: &'rf mut Reader<'rd>,
    pub remaining: usize,
}

impl<'rf, 'rd> StructReader<'rf, 'rd> {
    /// Reads the name of the next field and gives a reader for its value;
    /// `None` after the last one.
    pub fn read_field(&mut self) -> (r: ReadResult<Option<(String, ValueReader<'_, 'rd>)>>)
        ensures
            *final(final(self).reader) == *final(old(self).reader),
            old(self).remaining == 0 ==> (r matches Ok(None) && *final(self).reader == *old(
                self,
            ).reader && final(self).remaining == 0),
            old(self).remaining > 0 ==> final(self).remaining == old(self).remaining - 1 && match (*old(
                self,
            ).reader)@.next_str() {
                Ok((name, m)) => r matches Ok(Some((n, vr))) && n@ == name && (*vr.reader)@ == m
                    && *final(vr.reader) == *final(self).reader,
                Err(e) => r matches Err(b) && *b == e && (*old(self).reader)@.failed_to(
                    (*final(self).reader)@,
                ),
            },
    {
        proof {
            use_type_invariant(&self.reader.cur);
        }
        if self.remaining == 0 {
            return Ok(None);
        }
        self.remaining = self.remaining - 1;
        match self.reader.read_str() {
            Ok(name) => Ok(Some((name, ValueReader { reader: &mut *self.reader }))),
            Err(e) => Err(e),
        }
    }

    /// The number of fields still to read.
    pub fn remaining(&self) -> (r: usize)
        ensures
            r == self.remaining,
    {
        self.remaining
    }

    /// The format version of the stream.
    pub fn format_version(&self) -> (r: u32)
        ensures
            r == (*old(self.reader))@.format_version,
    {
        self.reader.format_version()
    }
}

/// A struct or variant being read, by its shape.
pub enum StructReading<'rf, 'rd> {
    Unit,
    Newtype(ValueReader<'rf, 'rd>),
    Tuple(TupleReader<'rf, 'rd>),
    Struct(StructReader<'rf, 'rd>),
}

impl<'rf, 'rd> StructReading<'rf, 'rd> {
    pub open spec fn spec_ty(&self) -> StructType {
        match self {
            StructReading::Unit => StructType::Unit,
            StructReading::Newtype(_) => StructType::Newtype,
            StructReading::Tuple(_) => StructType::Tuple,
            StructReading::Struct(_) => StructType::Struct,
        }
    }

    /// The shape and length of `self` are those of `t`.
    pub open spec fn fits(&self, t: StructTag) -> bool {
        match self {
            StructReading::Unit => t == StructTag::Unit,
            StructReading::Newtype(_) => t == StructTag::Newtype,
            StructReading::Tuple(tr) => t == StructTag::Tuple { len: tr.remaining },
            StructReading::Struct(sr) => t == StructTag::Struct { len: sr.remaining },
        }
    }

    /// The shape.
    pub fn ty(&self) -> (r: StructType)
        ensures
            r == self.spec_ty(),
    {
        match self {
            StructReading::Unit => StructType::Unit,
            StructReading::Newtype(_) => StructType::Newtype,
            StructReading::Tuple(_) => StructType::Tuple,
            StructReading::Struct(_) => StructType::Struct,
        }
    }

    /// A struct with no fields; another shape is a struct error.
    pub fn take_unit_struct(self) -> (r: Result<(), UnexpectedValueError>)
        ensures
            self is Unit ==> r is Ok,
            !(self is Unit) ==> (r matches Err(e) && e == (UnexpectedValueError {
                expected: ValueTypeRequirement::Struct(Some(StructType::Unit)),
                found: ValueType::Struct(self.spec_ty()),
            })),
    {
        let ty = self.ty();
        if let StructReading::Unit = self {
            Ok(())
        } else {
            Err(
                UnexpectedValueError {
                    expected: ValueTypeRequirement::Struct(Some(StructType::Unit)),
                    found: ValueType::Struct(ty),
                },
            )
        }
    }

    /// The reader of the one field of a newtype struct; another shape is a
    /// struct error.
    pub fn take_newtype_struct(self) -> (r: Result<ValueReader<'rf, 'rd>, UnexpectedValueError>)
        ensures
            match self {
                StructReading::Newtype(v) => r matches Ok(x) && x == v,
                _ => r matches Err(e) && e == (UnexpectedValueError {
                    expected: ValueTypeRequirement::Struct(Some(StructType::Newtype)),
                    found: ValueType::Struct(self.spec_ty()),
                }),
            },
    {
        let ty = self.ty();
        if let StructReading::Newtype(r) = self {
            Ok(r)
        } else {
            Err(
                UnexpectedValueError {
                    expected: ValueTypeRequirement::Struct(Some(StructType::Newtype)),
                    found: ValueType::Struct(ty),
                },
            )
        }
    }

    /// The reader of the fields of a tuple struct; another shape is a struct
    /// error.
    pub fn take_tuple_struct(self) -> (r: Result<TupleReader<'rf, 'rd>, UnexpectedValueError>)
        ensures
            match self {
                StructReading::Tuple(v) => r matches Ok(x) && x == v,
                _ => r matches Err(e) && e == (UnexpectedValueError {
                    expected: ValueTypeRequirement::Struct(Some(StructType::Tuple)),
                    found: ValueType::Struct(self.spec_ty()),
                }),
            },
    {
        let ty = self.ty();
        if let StructReading::Tuple(r) = self {
            Ok(r)
        } else {
            Err(
                UnexpectedValueError {
                    expected: ValueTypeRequirement::Struct(Some(StructType::Tuple)),
                    found: ValueType::Struct(ty),
                },
            )
        }
    }

    /// The reader of the named fields of a struct; another shape is a struct
    /// error.
    pub fn take_field_struct(self) -> (r: Result<StructReader<'rf, 'rd>, UnexpectedValueError>)
        ensures
            match self {
                StructReading::Struct(v) => r matches Ok(x) && x == v,
                _ => r matches Err(e) && e == (UnexpectedValueError {
                    expected: ValueTypeRequirement::Struct(Some(StructType::Struct)),
                    found: ValueType::Struct(self.spec_ty()),
                }),
            },
    {
        let ty = self.ty();
        if let StructReading::Struct(r) = self {
            Ok(r)
        } else {
            Err(
                UnexpectedValueError {
                    expected: ValueTypeRequirement::Struct(Some(StructType::Struct)),
                    found: ValueType::Struct(ty),
                },
            )
        }
    }

    /// A variant with no fields; another shape is an enum error.
    pub fn take_unit_variant(self) -> (r: Result<(), UnexpectedValueError>)
        ensures
            self is Unit ==> r is Ok,
            !(self is Unit) ==> (r matches Err(e) && e == (UnexpectedValueError {
                expected: ValueTypeRequirement::Enum(Some(StructType::Unit)),
                found: ValueType::Enum(self.spec_ty()),
            })),
    {
        let ty = self.ty();
        if let StructReading::Unit = self {
            Ok(())
        } else {
            Err(
                UnexpectedValueError {
                    expected: ValueTypeRequirement::Enum(Some(StructType::Unit)),
                    found: ValueType::Enum(ty),
                },
            )
        }
    }

    /// The reader of the one field of a newtype variant; another shape is an
    /// enum error.
    pub fn take_newtype_variant(self) -> (r: Result<ValueReader<'rf, 'rd>, UnexpectedValueError>)
        ensures
            match self {
                StructReading::Newtype(v) => r matches Ok(x) && x == v,
                _ => r matches Err(e) && e == (UnexpectedValueError {
                    expected: ValueTypeRequirement::Enum(Some(StructType::Newtype)),
                    found: ValueType::Enum(self.spec_ty()),
                }),
            },
    {
        let ty = self.ty();
        if let StructReading::Newtype(r) = self {
            Ok(r)
        } else {
            Err(
                UnexpectedValueError {
                    expected: ValueTypeRequirement::Enum(Some(StructType::Newtype)),
                    found: ValueType::Enum(ty),
                },
            )
        }
    }

    /// The reader of the fields of a tuple variant; another shape is an enum
    /// error.
    pub fn take_tuple_variant(self) -> (r: Result<TupleReader<'rf, 'rd>, UnexpectedValueError>)
        ensures
            match self {
                StructReading::Tuple(v) => r matches Ok(x) && x == v,
                _ => r matches Err(e) && e == (UnexpectedValueError {
                    expected: ValueTypeRequirement::Enum(Some(StructType::Tuple)),
                    found: ValueType::Enum(self.spec_ty()),
                }),
            },
    {
        let ty = self.ty();
        if let StructReading::Tuple(r) = self {
            Ok(r)
        } else {
            Err(
                UnexpectedValueError {
                    expected: ValueTypeRequirement::Enum(Some(StructType::Tuple)),
                    found: ValueType::Enum(ty),
                },
            )
        }
    }

    /// The reader of the named fields of a struct variant; another shape is an
    /// enum error.
    pub fn take_field_variant(self) -> (r: Result<StructReader<'rf, 'rd>, UnexpectedValueError>)
        ensures
            match self {
                StructReading::Struct(v) => r matches Ok(x) && x == v,
                _ => r matches Err(e) && e == (UnexpectedValueError {
                    expected: ValueTypeRequirement::Enum(Some(StructType::Struct)),
                    found: ValueType::Enum(self.spec_ty()),
                }),
            },
    {
        let ty = self.ty();
        if let StructReading::Struct(r) = self {
            Ok(r)
        } else {
            Err(
                UnexpectedValueError {
                    expected: ValueTypeRequirement::Enum(Some(StructType::Struct)),
                    found: ValueType::Enum(ty),
                },
            )
        }
    }
}

/// An enum variant being read: its name and shape.
pub struct EnumReading<'rf, 'rd> {
    pub reader: &'rf mut Reader<'rd>,
    pub name: String,
    pub ty: StructTag,
}

/// The shape of a struct tag.
pub open spec fn struct_type_of(t: StructTag) -> StructType {
    match t {
        StructTag::Unit => StructType::Unit,
        StructTag::Newtype => StructType::Newtype,
        StructTag::Tuple { .. } => StructType::Tuple,
        StructTag::Struct { .. } => StructType::Struct,
    }
}

impl<'rf, 'rd> EnumReading<'rf, 'rd> {
    /// The variant's name and the reading of its fields.
    pub fn read_variant(self) -> (r: ReadResult<(String, StructReading<'rf, 'rd>)>)
        ensures
            r matches Ok((n, sr)) && n@ == self.name@ && sr.fits(self.ty) && match sr {
                StructReading::Unit => *final(self.reader) == *old(self.reader),
                StructReading::Newtype(x) => *x.reader == *old(self.reader) && *final(x.reader)
                    == *final(self.reader),
                StructReading::Tuple(x) => *x.reader == *old(self.reader) && *final(x.reader)
                    == *final(self.reader),
                StructReading::Struct(x) => *x.reader == *old(self.reader) && *final(x.reader)
                    == *final(self.reader),
            },
    {
        let reading = match self.ty {
            StructTag::Unit => StructReading::Unit,
            StructTag::Newtype => StructReading::Newtype(ValueReader { reader: self.reader }),
            StructTag::Tuple { len } => StructReading::Tuple(
                TupleReader { reader: self.reader, remaining: len },
            ),
            StructTag::Struct { len } => StructReading::Struct(
                StructReader { reader: self.reader, remaining: len },
            ),
        };
        Ok((self.name, reading))
    }

    /// The shape of the variant.
    pub fn ty(&self) -> (r: StructType)
        ensures
            r == struct_type_of(self.ty),
    {
        match &self.ty {
            StructTag::Unit => StructType::Unit,
            StructTag::Newtype => StructType::Newtype,
            StructTag::Tuple { .. } => StructType::Tuple,
            StructTag::Struct { .. } => StructType::Struct,
        }
    }

    /// The format version of the stream.
    pub fn format_version(&self) -> (r: u32)
        ensures
            r == (*old(self.reader))@.format_version,
    {
        self.reader.format_version()
    }
}

/// A value being read, by its kind.
pub enum ValueReading<'rf, 'rd> {
    Primitive(Primitive),
    String(StringReader<'rf, 'rd>),
    Bytes(BytesReader<'rf, 'rd>),
    Option(Option<ValueReader<'rf, 'rd>>),
    Struct(StructReading<'rf, 'rd>),
    Enum(EnumReading<'rf, 'rd>),
    Tuple(TupleReader<'rf, 'rd>),
    Array(ArrayReader<'rf, 'rd>),
    Mapping(MapReader<'rf, 'rd>),
}

impl<'rf, 'rd> ValueReading<'rf, 'rd> {
    pub open spec fn spec_ty(&self) -> ValueType {
        match self {
            ValueReading::Primitive(p) => ValueType::Primitive(p.spec_ty()),
            ValueReading::String(_) => ValueType::String,
            ValueReading::Bytes(_) => ValueType::Bytes,
            ValueReading::Option(o) => ValueType::Option(
                if o is Some {
                    OptionTag::Present
                } else {
                    OptionTag::Absent
                },
            ),
            ValueReading::Struct(s) => ValueType::Struct(s.spec_ty()),
            ValueReading::Enum(e) => ValueType::Enum(struct_type_of(e.ty)),
            ValueReading::Tuple(_) => ValueType::Tuple,
            ValueReading::Array(_) => ValueType::Array,
            ValueReading::Mapping(_) => ValueType::Mapping,
        }
    }

    /// `self` is the reading of a value that starts with tag `t`.
    pub open spec fn fits(&self, t: TagModel) -> bool {
        match self {
            ValueReading::Primitive(p) => p.spec_tag_of() == t,
            ValueReading::String(sr) => string_tag_fits(sr.ty, t),
            ValueReading::Bytes(br) => t == TagModel::Bytes(br.len),
            ValueReading::Option(o) => t == TagModel::Option(
                if o is Some {
                    OptionTag::Present
                } else {
                    OptionTag::Absent
                },
            ),
            ValueReading::Struct(s) => t matches TagModel::Struct(st) && s.fits(st),
            ValueReading::Enum(e) => t == TagModel::Variant(e.name@, e.ty),
            ValueReading::Tuple(tr) => t == TagModel::Tuple(tr.remaining),
            ValueReading::Array(ar) => t == TagModel::Array(ar.remaining),
            ValueReading::Mapping(mr) => t == TagModel::Mapping(mr.remaining),
        }
    }

    /// The kind of the value.
    pub fn ty(&self) -> (r: ValueType)
        ensures
            r == self.spec_ty(),
    {
        match self {
            ValueReading::Primitive(p) => ValueType::Primitive(p.ty()),
            ValueReading::String(_) => ValueType::String,
            ValueReading::Bytes(_) => ValueType::Bytes,
            ValueReading::Option(o) => ValueType::Option(OptionTag::from_option(o)),
            ValueReading::Struct(s) => ValueType::Struct(s.ty()),
            ValueReading::Enum(e) => ValueType::Enum(e.ty()),
            ValueReading::Tuple(_) => ValueType::Tuple,
            ValueReading::Array(_) => ValueType::Array,
            ValueReading::Mapping(_) => ValueType::Mapping,
        }
    }

    /// The value of a primitive type; another kind is an error.
    pub fn take_primitive(self) -> (r: Result<Primitive, UnexpectedValueError>)
        ensures
            match self {
                ValueReading::Primitive(x) => r matches Ok(y) && y == x,
                _ => r matches Err(e) && e == (UnexpectedValueError {
                    expected: ValueTypeRequirement::Primitive(None),
                    found: self.spec_ty(),
                }),
            },
    {
        let found = self.ty();
        if let ValueReading::Primitive(x) = self {
            Ok(x)
        } else {
            Err(UnexpectedValueError { expected: ValueTypeRequirement::Primitive(None), found })
        }
    }

    /// The reader of a string; another kind is an error.
    pub fn take_string(self) -> (r: Result<StringReader<'rf, 'rd>, UnexpectedValueError>)
        ensures
            match self {
                ValueReading::String(x) => r matches Ok(y) && y == x,
                _ => r matches Err(e) && e == (UnexpectedValueError {
                    expected: ValueTypeRequirement::String,
                    found: self.spec_ty(),
                }),
            },
    {
        let found = self.ty();
        if let ValueReading::String(x) = self {
            Ok(x)
        } else {
            Err(UnexpectedValueError { expected: ValueTypeRequirement::String, found })
        }
    }

    /// The reader of a byte string; another kind is an error.
    pub fn take_bytes(self) -> (r: Result<BytesReader<'rf, 'rd>, UnexpectedValueError>)
        ensures
            match self {
                ValueReading::Bytes(x) => r matches Ok(y) && y == x,
                _ => r matches Err(e) && e == (UnexpectedValueError {
                    expected: ValueTypeRequirement::Bytes,
                    found: self.spec_ty(),
                }),
            },
    {
        let found = self.ty();
        if let ValueReading::Bytes(x) = self {
            Ok(x)
        } else {
            Err(UnexpectedValueError { expected: ValueTypeRequirement::Bytes, found })
        }
    }

    /// The option: a reader of its value, if it holds one; another kind is an error.
    pub fn take_option(self) -> (r: Result<Option<ValueReader<'rf, 'rd>>, UnexpectedValueError>)
        ensures
            match self {
                ValueReading::Option(x) => r matches Ok(y) && y == x,
                _ => r matches Err(e) && e == (UnexpectedValueError {
                    expected: ValueTypeRequirement::Option(None),
                    found: self.spec_ty(),
                }),
            },
    {
        let found = self.ty();
        if let ValueReading::Option(x) = self {
            Ok(x)
        } else {
            Err(UnexpectedValueError { expected: ValueTypeRequirement::Option(None), found })
        }
    }

    /// The reading of a struct of any shape; another kind is an error.
    pub fn take_any_struct(self) -> (r: Result<StructReading<'rf, 'rd>, UnexpectedValueError>)
        ensures
            match self {
                ValueReading::Struct(x) => r matches Ok(y) && y == x,
                _ => r matches Err(e) && e == (UnexpectedValueError {
                    expected: ValueTypeRequirement::Struct(None),
                    found: self.spec_ty(),
                }),
            },
    {
        let found = self.ty();
        if let ValueReading::Struct(x) = self {
            Ok(x)
        } else {
            Err(UnexpectedValueError { expected: ValueTypeRequirement::Struct(None), found })
        }
    }

    /// The reader of the field of a newtype struct; another kind or shape is an error.
    pub fn take_newtype_struct(self) -> (r: Result<ValueReader<'rf, 'rd>, UnexpectedValueError>)
        ensures
            match self {
                ValueReading::Struct(StructReading::Newtype(x)) => r matches Ok(y) && y == x,
                _ => r matches Err(e) && e == (UnexpectedValueError {
                    expected: ValueTypeRequirement::Struct(Some(StructType::Newtype)),
                    found: self.spec_ty(),
                }),
            },
    {
        let found = self.ty();
        if let ValueReading::Struct(StructReading::Newtype(x)) = self {
            Ok(x)
        } else {
            Err(UnexpectedValueError { expected: ValueTypeRequirement::Struct(Some(StructType::Newtype)), found })
        }
    }

    /// The reader of the fields of a tuple struct; another kind or shape is an error.
    pub fn take_tuple_struct(self) -> (r: Result<TupleReader<'rf, 'rd>, UnexpectedValueError>)
        ensures
            match self {
                ValueReading::Struct(StructReading::Tuple(x)) => r matches Ok(y) && y == x,
                _ => r matches Err(e) && e == (UnexpectedValueError {
                    expected: ValueTypeRequirement::Struct(Some(StructType::Tuple)),
                    found: self.spec_ty(),
                }),
            },
    {
        let found = self.ty();
        if let ValueReading::Struct(StructReading::Tuple(x)) = self {
            Ok(x)
        } else {
            Err(UnexpectedValueError { expected: ValueTypeRequirement::Struct(Some(StructType::Tuple)), found })
        }
    }

    /// The reader of the named fields of a struct; another kind or shape is an error.
    pub fn take_field_struct(self) -> (r: Result<StructReader<'rf, 'rd>, UnexpectedValueError>)
        ensures
            match self {
                ValueReading::Struct(StructReading::Struct(x)) => r matches Ok(y) && y == x,
                _ => r matches Err(e) && e == (UnexpectedValueError {
                    expected: ValueTypeRequirement::Struct(Some(StructType::Struct)),
                    found: self.spec_ty(),
                }),
            },
    {
        let found = self.ty();
        if let ValueReading::Struct(StructReading::Struct(x)) = self {
            Ok(x)
        } else {
            Err(UnexpectedValueError { expected: ValueTypeRequirement::Struct(Some(StructType::Struct)), found })
        }
    }

    /// The reading of an enum variant; another kind is an error.
    pub fn take_enum(self) -> (r: Result<EnumReading<'rf, 'rd>, UnexpectedValueError>)
        ensures
            match self {
                ValueReading::Enum(x) => r matches Ok(y) && y == x,
                _ => r matches Err(e) && e == (UnexpectedValueError {
                    expected: ValueTypeRequirement::Enum(None),
                    found: self.spec_ty(),
                }),
            },
    {
        let found = self.ty();
        if let ValueReading::Enum(x) = self {
            Ok(x)
        } else {
            Err(UnexpectedValueError { expected: ValueTypeRequirement::Enum(None), found })
        }
    }

    /// The reader of a tuple; another kind is an error.
    pub fn take_tuple(self) -> (r: Result<TupleReader<'rf, 'rd>, UnexpectedValueError>)
        ensures
            match self {
                ValueReading::Tuple(x) => r matches Ok(y) && y == x,
                _ => r matches Err(e) && e == (UnexpectedValueError {
                    expected: ValueTypeRequirement::Tuple,
                    found: self.spec_ty(),
                }),
            },
    {
        let found = self.ty();
        if let ValueReading::Tuple(x) = self {
            Ok(x)
        } else {
            Err(UnexpectedValueError { expected: ValueTypeRequirement::Tuple, found })
        }
    }

    /// The reader of an array; another kind is an error.
    pub fn take_array(self) -> (r: Result<ArrayReader<'rf, 'rd>, UnexpectedValueError>)
        ensures
            match self {
                ValueReading::Array(x) => r matches Ok(y) && y == x,
                _ => r matches Err(e) && e == (UnexpectedValueError {
                    expected: ValueTypeRequirement::Array,
                    found: self.spec_ty(),
                }),
            },
    {
        let found = self.ty();
        if let ValueReading::Array(x) = self {
            Ok(x)
        } else {
            Err(UnexpectedValueError { expected: ValueTypeRequirement::Array, found })
        }
    }

    /// The reader of a map; another kind is an error.
    pub fn take_map(self) -> (r: Result<MapReader<'rf, 'rd>, UnexpectedValueError>)
        ensures
            match self {
                ValueReading::Mapping(x) => r matches Ok(y) && y == x,
                _ => r matches Err(e) && e == (UnexpectedValueError {
                    expected: ValueTypeRequirement::Mapping,
                    found: self.spec_ty(),
                }),
            },
    {
        let found = self.ty();
        if let ValueReading::Mapping(x) = self {
            Ok(x)
        } else {
            Err(UnexpectedValueError { expected: ValueTypeRequirement::Mapping, found })
        }
    }

    /// A struct with no fields; another kind or shape is an error.
    pub fn take_unit_struct(self) -> (r: Result<(), UnexpectedValueError>)
        ensures
            match self {
                ValueReading::Struct(StructReading::Unit) => r is Ok,
                _ => r matches Err(e) && e == (UnexpectedValueError {
                    expected: ValueTypeRequirement::Struct(Some(StructType::Unit)),
                    found: self.spec_ty(),
                }),
            },
    {
        let found = self.ty();
        if let ValueReading::Struct(StructReading::Unit) = self {
            Ok(())
        } else {
            Err(
                UnexpectedValueError {
                    expected: ValueTypeRequirement::Struct(Some(StructType::Unit)),
                    found,
                },
            )
        }
    }
}

/// A reader for the values of an array.
pub struct ArrayReader<'rf, 'rd> {
    pub reader: &'rf mut Reader<'rd>,
    pub remaining: Option<usize>,
}

impl<'rf, 'rd> ArrayReader<'rf, 'rd> {
    /// A reader for the next value; `None` after the last one, which for an
    /// array with no length is when the end marker comes.
    pub fn read_value(&mut self) -> (r: ReadResult<Option<ValueReader<'_, 'rd>>>)
        ensures
            *final(final(self).reader) == *final(old(self).reader),
            match old(self).remaining {
                Some(n) => if n == 0 {
                    r matches Ok(None) && *final(self).reader == *old(self).reader
                        && final(self).remaining == old(self).remaining
                } else {
                    r matches Ok(Some(vr)) && final(self).remaining == Some((n - 1) as usize)
                        && *vr.reader == *old(self).reader && *final(vr.reader)
                        == *final(self).reader
                },
                None => match (*old(self).reader)@.next_seq_end() {
                    Ok((true, m)) => r matches Ok(None) && (*final(self).reader)@ == m
                        && final(self).remaining == Some(0usize),
                    Ok((false, m)) => r matches Ok(Some(vr)) && final(self).remaining is None
                        && (*vr.reader)@ == m && *final(vr.reader) == *final(self).reader,
                    Err(e) => r matches Err(b) && *b == e && (*old(self).reader)@.failed_to(
                        (*final(self).reader)@,
                    ),
                },
            },
    {
        match self.remaining {
            Some(n) => {
                if n == 0 {
                    return Ok(None);
                }
                self.remaining = Some(n - 1);
            },
            None => {
                match self.reader.read_seq_end() {
                    Ok(true) => {
                        self.remaining = Some(0);
                        return Ok(None);
                    },
                    Ok(false) => {},
                    Err(e) => {
                        return Err(e);
                    },
                }
            },
        }
        Ok(Some(ValueReader { reader: &mut *self.reader }))
    }

    /// The number of values still to read, where the length was given.
    pub fn remaining(&self) -> (r: Option<usize>)
        ensures
            r == self.remaining,
    {
        self.remaining
    }

    /// The format version of the stream.
    pub fn format_version(&self) -> (r: u32)
        ensures
            r == (*old(self.reader))@.format_version,
    {
        self.reader.format_version()
    }
}

/// A reader for the pairs of a map.
pub struct MapReader<'rf, 'rd> {
    pub reader: &'rf mut Reader<'rd>,
    pub remaining: Option<usize>,
}

impl<'rf, 'rd> MapReader<'rf, 'rd> {
    /// A reader for the next pair; `None` after the last one, which for a map
    /// with no length is when the end marker comes.
    pub fn read_pair(&mut self) -> (r: ReadResult<Option<MapPairReader<'_, 'rd>>>)
        ensures
            *final(final(self).reader) == *final(old(self).reader),
            match old(self).remaining {
                Some(n) => if n == 0 {
                    r matches Ok(None) && *final(self).reader == *old(self).reader
                        && final(self).remaining == old(self).remaining
                } else {
                    r matches Ok(Some(pr)) && !pr.key_done && final(self).remaining == Some(
                        (n - 1) as usize,
                    ) && *pr.reader == *old(self).reader && *final(pr.reader)
                        == *final(self).reader
                },
                None => match (*old(self).reader)@.next_seq_end() {
                    Ok((true, m)) => r matches Ok(None) && (*final(self).reader)@ == m
                        && final(self).remaining == Some(0usize),
                    Ok((false, m)) => r matches Ok(Some(pr)) && !pr.key_done
                        && final(self).remaining is None && (*pr.reader)@ == m && *final(pr.reader)
                        == *final(self).reader,
                    Err(e) => r matches Err(b) && *b == e && (*old(self).reader)@.failed_to(
                        (*final(self).reader)@,
                    ),
                },
            },
    {
        match self.remaining {
            Some(n) => {
                if n == 0 {
                    return Ok(None);
                }
                self.remaining = Some(n - 1);
            },
            None => {
                match self.reader.read_seq_end() {
                    Ok(true) => {
                        self.remaining = Some(0);
                        return Ok(None);
                    },
                    Ok(false) => {},
                    Err(e) => {
                        return Err(e);
                    },
                }
            },
        }
        Ok(Some(MapPairReader { reader: &mut *self.reader, key_done: false }))
    }

    /// The number of pairs still to read, where the length was given.
    pub fn remaining(&self) -> (r: Option<usize>)
        ensures
            r == self.remaining,
    {
        self.remaining
    }

    /// The format version of the stream.
    pub fn format_version(&self) -> (r: u32)
        ensures
            r == (*old(self.reader))@.format_version,
    {
        self.reader.format_version()
    }
}

/// A reader for the key and then the value of one map pair.
pub struct MapPairReader<'rf, 'rd> {
    pub reader: &'rf mut Reader<'rd>,
    pub key_done: bool,
}

impl<'rf, 'rd> MapPairReader<'rf, 'rd> {
    /// A reader for the key.
    pub fn read_key(&mut self) -> (vr: ValueReader<'_, 'rd>)
        requires
            !old(self).key_done,
        ensures
            *final(final(self).reader) == *final(old(self).reader),
            final(self).key_done,
            *vr.reader == *old(self).reader,
            *final(vr.reader) == *final(self).reader,
    {
        self.key_done = true;
        ValueReader { reader: &mut *self.reader }
    }

    /// A reader for the value, once the key is read.
    pub fn read_value(self) -> (vr: ValueReader<'rf, 'rd>)
        requires
            self.key_done,
        ensures
            *vr.reader == *old(self.reader),
            *final(vr.reader) == *final(self.reader),
    {
        ValueReader { reader: self.reader }
    }

    /// The format version of the stream.
    pub fn format_version(&self) -> (r: u32)
        ensures
            r == (*old(self.reader))@.format_version,
    {
        self.reader.format_version()
    }
}

impl<'a> Reader<'a> {
    /// A reader for the root object.
    pub fn read(&mut self) -> (vr: ValueReader<'_, 'a>)
        ensures
            *vr.reader == *old(self),
            *final(vr.reader) == *final(self),
    {
        ValueReader { reader: self }
    }
}

impl<'rf, 'rd> ValueReader<'rf, 'rd> {
    /// Reads the tag of the value and gives the reading of it by its kind.
    pub fn read(self) -> (r: ReadResult<ValueReading<'rf, 'rd>>)
        ensures
            (*old(self.reader))@.next_tag() matches Ok((_, m)) ==> m.wf(),
            match (*old(self.reader))@.next_tag() {
                Err(e) => r matches Err(b) && *b == e && (*old(self.reader))@.failed_to(
                    (*final(self.reader))@,
                ),
                Ok((t, m)) => r matches Ok(vr) && vr.fits(t) && match vr {
                    ValueReading::Primitive(_) => (*final(self.reader))@ == m,
                    ValueReading::String(x) => (*x.reader)@ == m && *final(x.reader) == *final(self.reader),
                    ValueReading::Bytes(x) => (*x.reader)@ == m && *final(x.reader) == *final(self.reader),
                    ValueReading::Option(None) => (*final(self.reader))@ == m,
                    ValueReading::Option(Some(x)) => (*x.reader)@ == m && *final(x.reader) == *final(self.reader),
                    ValueReading::Struct(StructReading::Unit) => (*final(self.reader))@ == m,
                    ValueReading::Struct(StructReading::Newtype(x)) => (*x.reader)@ == m && *final(x.reader) == *final(self.reader),
                    ValueReading::Struct(StructReading::Tuple(x)) => (*x.reader)@ == m && *final(x.reader) == *final(self.reader),
                    ValueReading::Struct(StructReading::Struct(x)) => (*x.reader)@ == m && *final(x.reader) == *final(self.reader),
                    ValueReading::Enum(x) => (*x.reader)@ == m && *final(x.reader) == *final(self.reader),
                    ValueReading::Tuple(x) => (*x.reader)@ == m && *final(x.reader) == *final(self.reader),
                    ValueReading::Array(x) => (*x.reader)@ == m && *final(x.reader) == *final(self.reader),
                    ValueReading::Mapping(x) => (*x.reader)@ == m && *final(x.reader) == *final(self.reader),
                },
            },
    {
        let tag = match self.reader.read_tag() {
            Ok(t) => t,
            Err(e) => {
                return Err(e);
            },
        };
        let reading = match tag {
            Tag::Unit => ValueReading::Primitive(Primitive::Unit),
            Tag::Bool(b) => ValueReading::Primitive(Primitive::Bool(b)),
            Tag::Integer(it) => ValueReading::Primitive(
                match it {
                    IntegerTag::I8(v) => Primitive::I8(v),
                    IntegerTag::U8(v) => Primitive::U8(v),
                    IntegerTag::I16(v) => Primitive::I16(v),
                    IntegerTag::U16(v) => Primitive::U16(v),
                    IntegerTag::I32(v) => Primitive::I32(v),
                    IntegerTag::U32(v) => Primitive::U32(v),
                    IntegerTag::I64(v) => Primitive::I64(v),
                    IntegerTag::U64(v) => Primitive::U64(v),
                    IntegerTag::I128(v) => Primitive::I128(v),
                    IntegerTag::U128(v) => Primitive::U128(v),
                },
            ),
            Tag::Char(c) => ValueReading::Primitive(Primitive::Char(c)),
            Tag::F32(v) => ValueReading::Primitive(Primitive::F32(v)),
            Tag::F64(v) => ValueReading::Primitive(Primitive::F64(v)),
            Tag::Str(s) => ValueReading::String(
                StringReader { reader: self.reader, ty: StringReaderType::Str(s.to_owned_string()) },
            ),
            Tag::StrDirect { len } => ValueReading::String(
                StringReader { reader: self.reader, ty: StringReaderType::Direct(len) },
            ),
            Tag::EmptyStr => ValueReading::String(
                StringReader { reader: self.reader, ty: StringReaderType::Empty },
            ),
            Tag::Bytes { len } => ValueReading::Bytes(BytesReader { reader: self.reader, len }),
            Tag::Option(OptionTag::Absent) => ValueReading::Option(None),
            Tag::Option(OptionTag::Present) => ValueReading::Option(
                Some(ValueReader { reader: self.reader }),
            ),
            Tag::Struct(StructTag::Unit) => ValueReading::Struct(StructReading::Unit),
            Tag::Struct(StructTag::Newtype) => ValueReading::Struct(
                StructReading::Newtype(ValueReader { reader: self.reader }),
            ),
            Tag::Struct(StructTag::Tuple { len }) => ValueReading::Struct(
                StructReading::Tuple(TupleReader { reader: self.reader, remaining: len }),
            ),
            Tag::Struct(StructTag::Struct { len }) => ValueReading::Struct(
                StructReading::Struct(StructReader { reader: self.reader, remaining: len }),
            ),
            Tag::Variant { name, ty } => ValueReading::Enum(
                EnumReading { reader: self.reader, name, ty },
            ),
            Tag::Array { len } => ValueReading::Array(
                ArrayReader { reader: self.reader, remaining: len },
            ),
            Tag::Tuple { len } => ValueReading::Tuple(
                TupleReader { reader: self.reader, remaining: len },
            ),
            Tag::Mapping { len } => ValueReading::Mapping(
                MapReader { reader: self.reader, remaining: len },
            ),
        };
        Ok(reading)
    }

    /// The format version of the stream.
    pub fn format_version(&self) -> (r: u32)
        ensures
            r == (*old(self.reader))@.format_version,
    {
        self.reader.format_version()
    }
}

/// The error for a primitive of another type than `expected`.
pub open spec fn primitive_mismatch(expected: PrimitiveType, found: Primitive) -> UnexpectedValueError {
    UnexpectedValueError {
        expected: ValueTypeRequirement::Primitive(Some(expected)),
        found: ValueType::Primitive(found.spec_ty()),
    }
}

impl TryFrom<Primitive> for () {
    type Error = UnexpectedValueError;

    fn try_from(value: Primitive) -> (r: Result<Self, Self::Error>) {
        let found = value.ty();
        match value {
            Primitive::Unit => Ok(()),
            _ => Err(
                UnexpectedValueError {
                    expected: ValueTypeRequirement::Primitive(Some(PrimitiveType::Unit)),
                    found: ValueType::Primitive(found),
                },
            ),
        }
    }
}

impl vstd::std_specs::convert::TryFromSpecImpl<Primitive> for () {
    open spec fn obeys_try_from_spec() -> bool {
        true
    }

    open spec fn try_from_spec(value: Primitive) -> Result<Self, UnexpectedValueError> {
        match value {
            Primitive::Unit => Ok(()),
            _ => Err(primitive_mismatch(PrimitiveType::Unit, value)),
        }
    }
}

impl TryFrom<Primitive> for bool {
    type Error = UnexpectedValueError;

    fn try_from(value: Primitive) -> (r: Result<Self, Self::Error>) {
        let found = value.ty();
        match value {
            Primitive::Bool(v) => Ok(v),
            _ => Err(
                UnexpectedValueError {
                    expected: ValueTypeRequirement::Primitive(Some(PrimitiveType::Bool)),
                    found: ValueType::Primitive(found),
                },
            ),
        }
    }
}

impl vstd::std_specs::convert::TryFromSpecImpl<Primitive> for bool {
    open spec fn obeys_try_from_spec() -> bool {
        true
    }

    open spec fn try_from_spec(value: Primitive) -> Result<Self, UnexpectedValueError> {
        match value {
            Primitive::Bool(v) => Ok(v),
            _ => Err(primitive_mismatch(PrimitiveType::Bool, value)),
        }
    }
}

impl TryFrom<Primitive> for u8 {
    type Error = UnexpectedValueError;

    fn try_from(value: Primitive) -> (r: Result<Self, Self::Error>) {
        let found = value.ty();
        match value {
            Primitive::U8(v) => Ok(v),
            _ => Err(
                UnexpectedValueError {
                    expected: ValueTypeRequirement::Primitive(Some(PrimitiveType::U8)),
                    found: ValueType::Primitive(found),
                },
            ),
        }
    }
}

impl vstd::std_specs::convert::TryFromSpecImpl<Primitive> for u8 {
    open spec fn obeys_try_from_spec() -> bool {
        true
    }

    open spec fn try_from_spec(value: Primitive) -> Result<Self, UnexpectedValueError> {
        match value {
            Primitive::U8(v) => Ok(v),
            _ => Err(primitive_mismatch(PrimitiveType::U8, value)),
        }
    }
}

impl TryFrom<Primitive> for i8 {
    type Error = UnexpectedValueError;

    fn try_from(value: Primitive) -> (r: Result<Self, Self::Error>) {
        let found = value.ty();
        match value {
            Primitive::I8(v) => Ok(v),
            _ => Err(
                UnexpectedValueError {
                    expected: ValueTypeRequirement::Primitive(Some(PrimitiveType::I8)),
                    found: ValueType::Primitive(found),
                },
            ),
        }
    }
}

impl vstd::std_specs::convert::TryFromSpecImpl<Primitive> for i8 {
    open spec fn obeys_try_from_spec() -> bool {
        true
    }

    open spec fn try_from_spec(value: Primitive) -> Result<Self, UnexpectedValueError> {
        match value {
            Primitive::I8(v) => Ok(v),
            _ => Err(primitive_mismatch(PrimitiveType::I8, value)),
        }
    }
}

impl TryFrom<Primitive> for u16 {
    type Error = UnexpectedValueError;

    fn try_from(value: Primitive) -> (r: Result<Self, Self::Error>) {
        let found = value.ty();
        match value {
            Primitive::U16(v) => Ok(v),
            _ => Err(
                UnexpectedValueError {
                    expected: ValueTypeRequirement::Primitive(Some(PrimitiveType::U16)),
                    found: ValueType::Primitive(found),
                },
            ),
        }
    }
}

impl vstd::std_specs::convert::TryFromSpecImpl<Primitive> for u16 {
    open spec fn obeys_try_from_spec() -> bool {
        true
    }

    open spec fn try_from_spec(value: Primitive) -> Result<Self, UnexpectedValueError> {
        match value {
            Primitive::U16(v) => Ok(v),
            _ => Err(primitive_mismatch(PrimitiveType::U16, value)),
        }
    }
}

impl TryFrom<Primitive> for i16 {
    type Error = UnexpectedValueError;

    fn try_from(value: Primitive) -> (r: Result<Self, Self::Error>) {
        let found = value.ty();
        match value {
            Primitive::I16(v) => Ok(v),
            _ => Err(
                UnexpectedValueError {
                    expected: ValueTypeRequirement::Primitive(Some(PrimitiveType::I16)),
                    found: ValueType::Primitive(found),
                },
            ),
        }
    }
}

impl vstd::std_specs::convert::TryFromSpecImpl<Primitive> for i16 {
    open spec fn obeys_try_from_spec() -> bool {
        true
    }

    open spec fn try_from_spec(value: Primitive) -> Result<Self, UnexpectedValueError> {
        match value {
            Primitive::I16(v) => Ok(v),
            _ => Err(primitive_mismatch(PrimitiveType::I16, value)),
        }
    }
}

impl TryFrom<Primitive> for u32 {
    type Error = UnexpectedValueError;

    fn try_from(value: Primitive) -> (r: Result<Self, Self::Error>) {
        let found = value.ty();
        match value {
            Primitive::U32(v) => Ok(v),
            _ => Err(
                UnexpectedValueError {
                    expected: ValueTypeRequirement::Primitive(Some(PrimitiveType::U32)),
                    found: ValueType::Primitive(found),
                },
            ),
        }
    }
}

impl vstd::std_specs::convert::TryFromSpecImpl<Primitive> for u32 {
    open spec fn obeys_try_from_spec() -> bool {
        true
    }

    open spec fn try_from_spec(value: Primitive) -> Result<Self, UnexpectedValueError> {
        match value {
            Primitive::U32(v) => Ok(v),
            _ => Err(primitive_mismatch(PrimitiveType::U32, value)),
        }
    }
}

impl TryFrom<Primitive> for i32 {
    type Error = UnexpectedValueError;

    fn try_from(value: Primitive) -> (r: Result<Self, Self::Error>) {
        let found = value.ty();
        match value {
            Primitive::I32(v) => Ok(v),
            _ => Err(
                UnexpectedValueError {
                    expected: ValueTypeRequirement::Primitive(Some(PrimitiveType::I32)),
                    found: ValueType::Primitive(found),
                },
            ),
        }
    }
}

impl vstd::std_specs::convert::TryFromSpecImpl<Primitive> for i32 {
    open spec fn obeys_try_from_spec() -> bool {
        true
    }

    open spec fn try_from_spec(value: Primitive) -> Result<Self, UnexpectedValueError> {
        match value {
            Primitive::I32(v) => Ok(v),
            _ => Err(primitive_mismatch(PrimitiveType::I32, value)),
        }
    }
}

impl TryFrom<Primitive> for u64 {
    type Error = UnexpectedValueError;

    fn try_from(value: Primitive) -> (r: Result<Self, Self::Error>) {
        let found = value.ty();
        match value {
            Primitive::U64(v) => Ok(v),
            _ => Err(
                UnexpectedValueError {
                    expected: ValueTypeRequirement::Primitive(Some(PrimitiveType::U64)),
                    found: ValueType::Primitive(found),
                },
            ),
        }
    }
}

impl vstd::std_specs::convert::TryFromSpecImpl<Primitive> for u64 {
    open spec fn obeys_try_from_spec() -> bool {
        true
    }

    open spec fn try_from_spec(value: Primitive) -> Result<Self, UnexpectedValueError> {
        match value {
            Primitive::U64(v) => Ok(v),
            _ => Err(primitive_mismatch(PrimitiveType::U64, value)),
        }
    }
}

impl TryFrom<Primitive> for i64 {
    type Error = UnexpectedValueError;

    fn try_from(value: Primitive) -> (r: Result<Self, Self::Error>) {
        let found = value.ty();
        match value {
            Primitive::I64(v) => Ok(v),
            _ => Err(
                UnexpectedValueError {
                    expected: ValueTypeRequirement::Primitive(Some(PrimitiveType::I64)),
                    found: ValueType::Primitive(found),
                },
            ),
        }
    }
}

impl vstd::std_specs::convert::TryFromSpecImpl<Primitive> for i64 {
    open spec fn obeys_try_from_spec() -> bool {
        true
    }

    open spec fn try_from_spec(value: Primitive) -> Result<Self, UnexpectedValueError> {
        match value {
            Primitive::I64(v) => Ok(v),
            _ => Err(primitive_mismatch(PrimitiveType::I64, value)),
        }
    }
}

impl TryFrom<Primitive> for u128 {
    type Error = UnexpectedValueError;

    fn try_from(value: Primitive) -> (r: Result<Self, Self::Error>) {
        let found = value.ty();
        match value {
            Primitive::U128(v) => Ok(v.0),
            _ => Err(
                UnexpectedValueError {
                    expected: ValueTypeRequirement::Primitive(Some(PrimitiveType::U128)),
                    found: ValueType::Primitive(found),
                },
            ),
        }
    }
}

impl vstd::std_specs::convert::TryFromSpecImpl<Primitive> for u128 {
    open spec fn obeys_try_from_spec() -> bool {
        true
    }

    open spec fn try_from_spec(value: Primitive) -> Result<Self, UnexpectedValueError> {
        match value {
            Primitive::U128(v) => Ok(v.0),
            _ => Err(primitive_mismatch(PrimitiveType::U128, value)),
        }
    }
}

impl TryFrom<Primitive> for i128 {
    type Error = UnexpectedValueError;

    fn try_from(value: Primitive) -> (r: Result<Self, Self::Error>) {
        let found = value.ty();
        match value {
            Primitive::I128(v) => Ok(v.0),
            _ => Err(
                UnexpectedValueError {
                    expected: ValueTypeRequirement::Primitive(Some(PrimitiveType::I128)),
                    found: ValueType::Primitive(found),
                },
            ),
        }
    }
}

impl vstd::std_specs::convert::TryFromSpecImpl<Primitive> for i128 {
    open spec fn obeys_try_from_spec() -> bool {
        true
    }

    open spec fn try_from_spec(value: Primitive) -> Result<Self, UnexpectedValueError> {
        match value {
            Primitive::I128(v) => Ok(v.0),
            _ => Err(primitive_mismatch(PrimitiveType::I128, value)),
        }
    }
}

impl TryFrom<Primitive> for char {
    type Error = UnexpectedValueError;

    fn try_from(value: Primitive) -> (r: Result<Self, Self::Error>) {
        let found = value.ty();
        match value {
            Primitive::Char(v) => Ok(v),
            _ => Err(
                UnexpectedValueError {
                    expected: ValueTypeRequirement::Primitive(Some(PrimitiveType::Char)),
                    found: ValueType::Primitive(found),
                },
            ),
        }
    }
}

impl vstd::std_specs::convert::TryFromSpecImpl<Primitive> for char {
    open spec fn obeys_try_from_spec() -> bool {
        true
    }

    open spec fn try_from_spec(value: Primitive) -> Result<Self, UnexpectedValueError> {
        match value {
            Primitive::Char(v) => Ok(v),
            _ => Err(primitive_mismatch(PrimitiveType::Char, value)),
        }
    }
}

/// The kind of value that tag `t` starts.
pub open spec fn tag_value_type(t: TagModel) -> ValueType {
    match t {
        TagModel::Unit => ValueType::Primitive(PrimitiveType::Unit),
        TagModel::Bool(_) => ValueType::Primitive(PrimitiveType::Bool),
        TagModel::Integer(i) => ValueType::Primitive(
            match i {
                IntegerTag::I8(_) => PrimitiveType::I8,
                IntegerTag::U8(_) => PrimitiveType::U8,
                IntegerTag::I16(_) => PrimitiveType::I16,
                IntegerTag::U16(_) => PrimitiveType::U16,
                IntegerTag::I32(_) => PrimitiveType::I32,
                IntegerTag::U32(_) => PrimitiveType::U32,
                IntegerTag::I64(_) => PrimitiveType::I64,
                IntegerTag::U64(_) => PrimitiveType::U64,
                IntegerTag::I128(_) => PrimitiveType::I128,
                IntegerTag::U128(_) => PrimitiveType::U128,
            },
        ),
        TagModel::F32(_) => ValueType::Primitive(PrimitiveType::F32),
        TagModel::F64(_) => ValueType::Primitive(PrimitiveType::F64),
        TagModel::Char(_) => ValueType::Primitive(PrimitiveType::Char),
        TagModel::Str(_) => ValueType::String,
        TagModel::StrDirect(_) => ValueType::String,
        TagModel::EmptyStr => ValueType::String,
        TagModel::Bytes(_) => ValueType::Bytes,
        TagModel::Option(o) => ValueType::Option(o),
        TagModel::Struct(st) => ValueType::Struct(struct_type_of(st)),
        TagModel::Variant(_, st) => ValueType::Enum(struct_type_of(st)),
        TagModel::Array(_) => ValueType::Array,
        TagModel::Mapping(_) => ValueType::Mapping,
        TagModel::Tuple(_) => ValueType::Tuple,
    }
}

/// The value of a primitive type that tag `t` holds, if it holds one.
pub open spec fn tag_primitive(t: TagModel) -> Option<Primitive> {
    match t {
        TagModel::Unit => Some(Primitive::Unit),
        TagModel::Bool(b) => Some(Primitive::Bool(b)),
        TagModel::Integer(i) => Some(
            match i {
                IntegerTag::I8(v) => Primitive::I8(v),
                IntegerTag::U8(v) => Primitive::U8(v),
                IntegerTag::I16(v) => Primitive::I16(v),
                IntegerTag::U16(v) => Primitive::U16(v),
                IntegerTag::I32(v) => Primitive::I32(v),
                IntegerTag::U32(v) => Primitive::U32(v),
                IntegerTag::I64(v) => Primitive::I64(v),
                IntegerTag::U64(v) => Primitive::U64(v),
                IntegerTag::I128(v) => Primitive::I128(v),
                IntegerTag::U128(v) => Primitive::U128(v),
            },
        ),
        TagModel::F32(v) => Some(Primitive::F32(v)),
        TagModel::F64(v) => Some(Primitive::F64(v)),
        TagModel::Char(c) => Some(Primitive::Char(c)),
        _ => None,
    }
}

/// A reading that fits tag `t` has the kind of value `t` starts, and holds the
/// primitive `t` holds.
pub proof fn lemma_fits_kind(vr: &ValueReading, t: TagModel)
    requires
        vr.fits(t),
    ensures
        vr.spec_ty() == tag_value_type(t),
        match vr {
            ValueReading::Primitive(p) => tag_primitive(t) == Some(*p),
            _ => tag_primitive(t) is None,
        },
{
}

/// `b` comes after `a` in reading: further in the input, or as far with fewer
/// repeats pending, or as far with a peeked tag taken.
pub open spec fn progressed(a: ReaderModel, b: ReaderModel) -> bool {
    ||| b.pos > a.pos
    ||| b.pos == a.pos && b.repeat < a.repeat
    ||| b.pos == a.pos && b.repeat == a.repeat && a.peeked && !b.peeked
}

/// Reading a tag is progress.
pub proof fn lemma_next_tag_progress(r: ReaderModel)
    requires
        r.next_tag() is Ok,
    ensures
        progressed(r, r.next_tag().unwrap().1),
{
}

/// Looking for an end marker and finding a tag instead reads the tag, unless it
/// was read already.
pub proof fn lemma_seq_end_progress(r: ReaderModel)
    ensures
        r.next_seq_end() matches Ok((false, m)) ==> (progressed(r, m) || m == r),
{
}

impl<'a> Reader<'a> {
    /// The state of the reader is well formed.
    pub(crate) fn well_formed(&self)
        ensures
            self@.wf(),
    {
        proof {
            use_type_invariant(&self.cur);
        }
    }
}

} // verus!
