use vstd::prelude::*;

use crate::reader::{PackedI128, PackedU128};
use crate::str::{str_eq, RefArcStr};

verus! {

/// The byte that starts each item of the stream.
#[derive(Debug, Clone, Copy, PartialEq, Eq, Structural)]
pub enum TagType {
    /// (), no data
    Unit,
    /// bool false
    BoolFalse,
    /// bool true
    BoolTrue,
    /// `u8`, one byte of `u8` follows
    U8,
    /// `i8`, one byte of `i8` follows
    I8,
    /// `u16`, 2 bytes of Little Endian encoded `u16` follows
    U16,
    /// `i16`, 2 bytes of Little Endian encoded `i16` follows
    I16,
    /// `u32`, 4 bytes of Little Endian encoded `u32` follows
    U32,
    /// `i32`, 4 bytes of Little Endian encoded `i32` follows
    I32,
    /// `u64`, 8 bytes of Little Endian encoded `u64` follows
    U64,
    /// `i64`, 8 bytes of Little Endian encoded `i64` follows
    I64,
    /// `u128`, 16 bytes of Little Endian encoded `u128` follows
    U128,
    /// `i128`, 16 bytes of Little Endian encoded `i128` follows
    I128,
    /// `u16`, varint encoded `u16` follows
    U16Var,
    /// `i16`, varint encoded `i16` follows
    I16Var,
    /// `u32`, varint encoded `u32` follows
    U32Var,
    /// `i32`, varint encoded `i32` follows
    I32Var,
    /// `u64`, varint encoded `u64` follows
    U64Var,
    /// `i64`, varint encoded `i64` follows
    I64Var,
    /// `u128`, varint encoded `u128` follows
    U128Var,
    /// `i128`, varint encoded `i128` follows
    I128Var,
    /// `f32`, 4 bytes of Little Endian encoded IEEE 754 binary32
    F32,
    /// `f64`, 8 bytes of Little Endian encoded IEEE 754 binary64
    F64,
    /// `char as u32`, 4 bytes of Little Endian encoded `u32` follows
    Char32,
    /// `char as u32`, varint encoded `u32` follows
    CharVar,
    /// Signed varint encoded `u32` id follows. Positive: id of a string in the string map. Negative: new id for a string, followed by its length as varint encoded `usize` and its utf8 data
    Str,
    /// New string without caching, strlen as varint encoded `usize` and string data encoded as utf8 follow
    StrDirect,
    /// "", no data
    EmptyStr,
    /// `[u8]`, length as varint encoded `usize` and byte data follow
    Bytes,
    /// `Option::None`, no data
    Absent,
    /// `Option::Some`, object follows
    Present,
    /// unit struct, no data
    UnitStruct,
    /// unit variant, name as `Self::Str` data follows
    UnitVariant,
    /// newtype struct, object follows
    NewtypeStruct,
    /// newtype variant, name as `Self::Str` data and object follow
    NewtypeVariant,
    /// `[T]`, objects follow until End tag
    Array,
    /// `[T]`, length as varint encoded usize and objects follow
    LenArray,
    /// `(T, ...)`, length as varint encoded usize and objects follow
    Tuple,
    /// tuple struct, `Self::Tuple` data follows
    TupleStruct,
    /// tuple variant, name as `Self::Str` data and `Self::Tuple` data follow
    TupleVariant,
    /// `[(T, T)]`, pairs of key-value objects follow until End tag
    Mapping,
    /// `[(T, T)]`, length as varint encoded usize and pairs of key-value objects follow
    LenMap,
    /// `[(String, T)]`, length as varint encoded `usize` and pairs of key-value strings and objects follow; strings are encoded without tags, only `Self::Str` data
    Struct,
    /// struct variant, name as `Self::Str` data and `Self::Struct` data follow
    StructVariant,
    /// Meta tag, repeat previously read tag
    RepeatTag,
    /// Meta tag, repeat previously read tag N+2 more times, N as varint encoded `usize` follows
    RepeatTagMany,
    /// End marker for Seq and Map
    End,
}

impl TagType {
    /// The byte of the tag.
    pub open spec fn spec_code(self) -> u8 {
        match self {
            TagType::Unit => 0,
            TagType::BoolFalse => 1,
            TagType::BoolTrue => 2,
            TagType::U8 => 3,
            TagType::I8 => 4,
            TagType::U16 => 5,
            TagType::I16 => 6,
            TagType::U32 => 7,
            TagType::I32 => 8,
            TagType::U64 => 9,
            TagType::I64 => 10,
            TagType::U128 => 11,
            TagType::I128 => 12,
            TagType::U16Var => 13,
            TagType::I16Var => 14,
            TagType::U32Var => 15,
            TagType::I32Var => 16,
            TagType::U64Var => 17,
            TagType::I64Var => 18,
            TagType::U128Var => 19,
            TagType::I128Var => 20,
            TagType::F32 => 21,
            TagType::F64 => 22,
            TagType::Char32 => 23,
            TagType::CharVar => 24,
            TagType::Str => 25,
            TagType::StrDirect => 26,
            TagType::EmptyStr => 27,
            TagType::Bytes => 28,
            TagType::Absent => 29,
            TagType::Present => 30,
            TagType::UnitStruct => 31,
            TagType::UnitVariant => 32,
            TagType::NewtypeStruct => 33,
            TagType::NewtypeVariant => 34,
            TagType::Array => 35,
            TagType::LenArray => 36,
            TagType::Tuple => 37,
            TagType::TupleStruct => 38,
            TagType::TupleVariant => 39,
            TagType::Mapping => 40,
            TagType::LenMap => 41,
            TagType::Struct => 42,
            TagType::StructVariant => 43,
            TagType::RepeatTag => 44,
            TagType::RepeatTagMany => 45,
            TagType::End => 255,
        }
    }

    /// The tag with byte `v`, if any.
    pub open spec fn spec_from_code(v: u8) -> Option<TagType> {
        match v {
            0 => Some(TagType::Unit),
            1 => Some(TagType::BoolFalse),
            2 => Some(TagType::BoolTrue),
            3 => Some(TagType::U8),
            4 => Some(TagType::I8),
            5 => Some(TagType::U16),
            6 => Some(TagType::I16),
            7 => Some(TagType::U32),
            8 => Some(TagType::I32),
            9 => Some(TagType::U64),
            10 => Some(TagType::I64),
            11 => Some(TagType::U128),
            12 => Some(TagType::I128),
            13 => Some(TagType::U16Var),
            14 => Some(TagType::I16Var),
            15 => Some(TagType::U32Var),
            16 => Some(TagType::I32Var),
            17 => Some(TagType::U64Var),
            18 => Some(TagType::I64Var),
            19 => Some(TagType::U128Var),
            20 => Some(TagType::I128Var),
            21 => Some(TagType::F32),
            22 => Some(TagType::F64),
            23 => Some(TagType::Char32),
            24 => Some(TagType::CharVar),
            25 => Some(TagType::Str),
            26 => Some(TagType::StrDirect),
            27 => Some(TagType::EmptyStr),
            28 => Some(TagType::Bytes),
            29 => Some(TagType::Absent),
            30 => Some(TagType::Present),
            31 => Some(TagType::UnitStruct),
            32 => Some(TagType::UnitVariant),
            33 => Some(TagType::NewtypeStruct),
            34 => Some(TagType::NewtypeVariant),
            35 => Some(TagType::Array),
            36 => Some(TagType::LenArray),
            37 => Some(TagType::Tuple),
            38 => Some(TagType::TupleStruct),
            39 => Some(TagType::TupleVariant),
            40 => Some(TagType::Mapping),
            41 => Some(TagType::LenMap),
            42 => Some(TagType::Struct),
            43 => Some(TagType::StructVariant),
            44 => Some(TagType::RepeatTag),
            45 => Some(TagType::RepeatTagMany),
            255 => Some(TagType::End),
            _ => None,
        }
    }

    pub fn into_u8(self) -> (r: u8)
        ensures
            r == self.spec_code(),
    {
        match self {
            TagType::Unit => 0,
            TagType::BoolFalse => 1,
            TagType::BoolTrue => 2,
            TagType::U8 => 3,
            TagType::I8 => 4,
            TagType::U16 => 5,
            TagType::I16 => 6,
            TagType::U32 => 7,
            TagType::I32 => 8,
            TagType::U64 => 9,
            TagType::I64 => 10,
            TagType::U128 => 11,
            TagType::I128 => 12,
            TagType::U16Var => 13,
            TagType::I16Var => 14,
            TagType::U32Var => 15,
            TagType::I32Var => 16,
            TagType::U64Var => 17,
            TagType::I64Var => 18,
            TagType::U128Var => 19,
            TagType::I128Var => 20,
            TagType::F32 => 21,
            TagType::F64 => 22,
            TagType::Char32 => 23,
            TagType::CharVar => 24,
            TagType::Str => 25,
            TagType::StrDirect => 26,
            TagType::EmptyStr => 27,
            TagType::Bytes => 28,
            TagType::Absent => 29,
            TagType::Present => 30,
            TagType::UnitStruct => 31,
            TagType::UnitVariant => 32,
            TagType::NewtypeStruct => 33,
            TagType::NewtypeVariant => 34,
            TagType::Array => 35,
            TagType::LenArray => 36,
            TagType::Tuple => 37,
            TagType::TupleStruct => 38,
            TagType::TupleVariant => 39,
            TagType::Mapping => 40,
            TagType::LenMap => 41,
            TagType::Struct => 42,
            TagType::StructVariant => 43,
            TagType::RepeatTag => 44,
            TagType::RepeatTagMany => 45,
            TagType::End => 255,
        }
    }

    /// The tag with byte `value`; the byte itself where there is none.
    pub fn try_from_u8(value: u8) -> (r: Result<TagType, u8>)
        ensures
            match Self::spec_from_code(value) {
                Some(t) => r == Ok::<TagType, u8>(t),
                None => r == Err::<TagType, u8>(value),
            },
    {
        match value {
            0 => Ok(TagType::Unit),
            1 => Ok(TagType::BoolFalse),
            2 => Ok(TagType::BoolTrue),
            3 => Ok(TagType::U8),
            4 => Ok(TagType::I8),
            5 => Ok(TagType::U16),
            6 => Ok(TagType::I16),
            7 => Ok(TagType::U32),
            8 => Ok(TagType::I32),
            9 => Ok(TagType::U64),
            10 => Ok(TagType::I64),
            11 => Ok(TagType::U128),
            12 => Ok(TagType::I128),
            13 => Ok(TagType::U16Var),
            14 => Ok(TagType::I16Var),
            15 => Ok(TagType::U32Var),
            16 => Ok(TagType::I32Var),
            17 => Ok(TagType::U64Var),
            18 => Ok(TagType::I64Var),
            19 => Ok(TagType::U128Var),
            20 => Ok(TagType::I128Var),
            21 => Ok(TagType::F32),
            22 => Ok(TagType::F64),
            23 => Ok(TagType::Char32),
            24 => Ok(TagType::CharVar),
            25 => Ok(TagType::Str),
            26 => Ok(TagType::StrDirect),
            27 => Ok(TagType::EmptyStr),
            28 => Ok(TagType::Bytes),
            29 => Ok(TagType::Absent),
            30 => Ok(TagType::Present),
            31 => Ok(TagType::UnitStruct),
            32 => Ok(TagType::UnitVariant),
            33 => Ok(TagType::NewtypeStruct),
            34 => Ok(TagType::NewtypeVariant),
            35 => Ok(TagType::Array),
            36 => Ok(TagType::LenArray),
            37 => Ok(TagType::Tuple),
            38 => Ok(TagType::TupleStruct),
            39 => Ok(TagType::TupleVariant),
            40 => Ok(TagType::Mapping),
            41 => Ok(TagType::LenMap),
            42 => Ok(TagType::Struct),
            43 => Ok(TagType::StructVariant),
            44 => Ok(TagType::RepeatTag),
            45 => Ok(TagType::RepeatTagMany),
            255 => Ok(TagType::End),
            invalid => Err(invalid),
        }
    }
}

/// Each tag has its own byte: reading the byte of a tag gives the tag back.
pub proof fn lemma_tag_code_roundtrip(t: TagType)
    ensures
        TagType::spec_from_code(t.spec_code()) == Some(t),
{
}

/// A byte that stands for a tag is the byte of that tag.
pub proof fn lemma_tag_code_unique(v: u8)
    ensures
        TagType::spec_from_code(v) matches Some(t) ==> t.spec_code() == v,
{
}

/// Whether an option holds a value.
#[derive(Debug, Clone, Copy, PartialEq, Eq, Structural)]
pub enum OptionTag {
    /// `Option::None`
    Absent,
    /// `Option::Some`
    Present,
}

impl OptionTag {
    pub fn from_option<T>(op: &Option<T>) -> (r: Self)
        ensures
            r == (if op is Some {
                OptionTag::Present
            } else {
                OptionTag::Absent
            }),
    {
        match op {
            Some(_) => Self::Present,
            None => Self::Absent,
        }
    }
}

/// The shape of a struct or of an enum variant.
#[derive(Debug, Clone, Copy, PartialEq, Eq, Structural)]
pub enum StructType {
    Unit,
    Newtype,
    Tuple,
    Struct,
}

/// An integer value of one of the integer types.
#[derive(Debug, Clone, Copy, PartialEq, Eq, Structural)]
pub enum IntegerTag {
    I8(i8),
    U8(u8),
    I16(i16),
    U16(u16),
    I32(i32),
    U32(u32),
    I64(i64),
    U64(u64),
    I128(PackedI128),
    U128(PackedU128),
}

/// The shape of a struct or variant, with the number of its fields.
#[derive(Debug, Clone, Copy, PartialEq, Eq, Structural)]
pub enum StructTag {
    Unit,
    /// object follows
    Newtype,
    /// `len` objects follow
    Tuple { len: usize },
    /// `len` pairs of key-value strings and objects follow;
    /// strings are encoded without tags
    Struct { len: usize },
}

impl StructTag {
    pub open spec fn spec_has_more_data(self) -> bool {
        match self {
            StructTag::Unit => false,
            StructTag::Newtype => true,
            StructTag::Tuple { len } => len > 0,
            StructTag::Struct { len } => len > 0,
        }
    }

    /// Whether data follows the tag in the stream.
    pub fn has_more_data(&self) -> (r: bool)
        ensures
            r == self.spec_has_more_data(),
    {
        match self {
            StructTag::Unit => false,
            StructTag::Newtype => true,
            StructTag::Tuple { len } => *len > 0,
            StructTag::Struct { len } => *len > 0,
        }
    }
}

/// `bits` is the bit pattern of an `f32` NaN.
pub open spec fn f32_bits_is_nan(bits: u32) -> bool {
    bits & 0x7f80_0000 == 0x7f80_0000 && bits & 0x007f_ffff != 0
}

/// `bits` is the bit pattern of an `f64` NaN.
pub open spec fn f64_bits_is_nan(bits: u64) -> bool {
    bits & 0x7ff0_0000_0000_0000 == 0x7ff0_0000_0000_0000 && bits & 0x000f_ffff_ffff_ffff != 0
}

/// Equality of two `f32` given by their bit patterns, where all NaNs are equal
/// and the two zeros are equal.
pub open spec fn f32_bits_eq_with_nan(a: u32, b: u32) -> bool {
    (f32_bits_is_nan(a) && f32_bits_is_nan(b)) || (!f32_bits_is_nan(a) && !f32_bits_is_nan(b) && (
    a == b || (a | b) & 0x7fff_ffff == 0))
}

/// Equality of two `f64` given by their bit patterns, where all NaNs are equal
/// and the two zeros are equal.
pub open spec fn f64_bits_eq_with_nan(a: u64, b: u64) -> bool {
    (f64_bits_is_nan(a) && f64_bits_is_nan(b)) || (!f64_bits_is_nan(a) && !f64_bits_is_nan(b) && (
    a == b || (a | b) & 0x7fff_ffff_ffff_ffff == 0))
}

/// The contents of a tag, with strings as their characters.
pub enum TagModel {
    Unit,
    Bool(bool),
    Integer(IntegerTag),
    F32(u32),
    F64(u64),
    Char(char),
    Str(Seq<char>),
    StrDirect(usize),
    EmptyStr,
    Bytes(usize),
    Option(OptionTag),
    Struct(StructTag),
    Variant(Seq<char>, StructTag),
    Array(Option<usize>),
    Mapping(Option<usize>),
    Tuple(usize),
}

impl TagModel {
    /// Whether data follows the tag in the stream.
    pub open spec fn has_more_data(self) -> bool {
        match self {
            TagModel::StrDirect(len) => len > 0,
            TagModel::Bytes(len) => len > 0,
            TagModel::Option(o) => o == OptionTag::Present,
            TagModel::Struct(t) => t.spec_has_more_data(),
            TagModel::Variant(_, t) => t.spec_has_more_data(),
            TagModel::Array(len) => len matches Some(l) ==> l > 0,
            TagModel::Mapping(len) => len matches Some(l) ==> l > 0,
            TagModel::Tuple(len) => len > 0,
            _ => false,
        }
    }

    /// Equality of tags where float values compare as floats, except that all
    /// NaNs are equal.
    pub open spec fn eq_with_nan(self, other: TagModel) -> bool {
        match (self, other) {
            (TagModel::F32(a), TagModel::F32(b)) => f32_bits_eq_with_nan(a, b),
            (TagModel::F64(a), TagModel::F64(b)) => f64_bits_eq_with_nan(a, b),
            _ => self == other,
        }
    }
}

/// One item of the stream: a value of a primitive type, or the start of a
/// string, of bytes, or of a container.
#[derive(Debug)]
pub enum Tag<'a> {
    Unit,
    Bool(bool),
    Integer(IntegerTag),
    /// The bit pattern of an `f32`.
    F32(u32),
    /// The bit pattern of an `f64`.
    F64(u64),
    Char(char),
    Str(RefArcStr<'a>),
    /// `len` bytes of utf-8 encoded string data follow
    StrDirect { len: usize },
    EmptyStr,
    /// `len` bytes of data follow
    Bytes { len: usize },
    /// on Some, an object follows
    Option(OptionTag),
    /// See [`StructTag`] for following data
    Struct(StructTag),
    /// See [`StructTag`] for following data
    Variant { name: String, ty: StructTag },
    /// when `len: Some(len)`, `len` objects follow,
    /// otherwise, objects follow until End tag
    Array { len: Option<usize> },
    /// when `len: Some(len)`, `len` pairs of objects follow,
    /// otherwise, pairs of objects follow until End tag
    Mapping { len: Option<usize> },
    /// `len` objects follow
    Tuple { len: usize },
}

impl<'a> View for Tag<'a> {
    type V = TagModel;

    open spec fn view(&self) -> TagModel {
        match self {
            Tag::Unit => TagModel::Unit,
            Tag::Bool(b) => TagModel::Bool(*b),
            Tag::Integer(i) => TagModel::Integer(*i),
            Tag::F32(v) => TagModel::F32(*v),
            Tag::F64(v) => TagModel::F64(*v),
            Tag::Char(c) => TagModel::Char(*c),
            Tag::Str(s) => TagModel::Str(s@),
            Tag::StrDirect { len } => TagModel::StrDirect(*len),
            Tag::EmptyStr => TagModel::EmptyStr,
            Tag::Bytes { len } => TagModel::Bytes(*len),
            Tag::Option(o) => TagModel::Option(*o),
            Tag::Struct(t) => TagModel::Struct(*t),
            Tag::Variant { name, ty } => TagModel::Variant(name@, *ty),
            Tag::Array { len } => TagModel::Array(*len),
            Tag::Mapping { len } => TagModel::Mapping(*len),
            Tag::Tuple { len } => TagModel::Tuple(*len),
        }
    }
}

impl<'a> Clone for Tag<'a> {
    fn clone(&self) -> (r: Self)
        ensures
            r@ == self@,
    {
        match self {
            Tag::Unit => Tag::Unit,
            Tag::Bool(b) => Tag::Bool(*b),
            Tag::Integer(i) => Tag::Integer(*i),
            Tag::F32(v) => Tag::F32(*v),
            Tag::F64(v) => Tag::F64(*v),
            Tag::Char(c) => Tag::Char(*c),
            Tag::Str(s) => Tag::Str(s.duplicate()),
            Tag::StrDirect { len } => Tag::StrDirect { len: *len },
            Tag::EmptyStr => Tag::EmptyStr,
            Tag::Bytes { len } => Tag::Bytes { len: *len },
            Tag::Option(o) => Tag::Option(*o),
            Tag::Struct(t) => Tag::Struct(*t),
            Tag::Variant { name, ty } => Tag::Variant { name: name.clone(), ty: *ty },
            Tag::Array { len } => Tag::Array { len: *len },
            Tag::Mapping { len } => Tag::Mapping { len: *len },
            Tag::Tuple { len } => Tag::Tuple { len: *len },
        }
    }
}

impl<'a> Tag<'a> {
    /// Whether data follows the tag in the stream.
    pub fn has_more_data(&self) -> (r: bool)
        ensures
            r == self@.has_more_data(),
    {
        match self {
            Tag::Unit => false,
            Tag::Bool(_) => false,
            Tag::Integer(_) => false,
            Tag::F32(_) => false,
            Tag::F64(_) => false,
            Tag::Char(_) => false,
            Tag::Str(_) => false,
            Tag::StrDirect { len } => *len > 0,
            Tag::EmptyStr => false,
            Tag::Bytes { len } => *len > 0,
            Tag::Option(OptionTag::Absent) => false,
            Tag::Option(OptionTag::Present) => true,
            Tag::Struct(tag) => tag.has_more_data(),
            Tag::Variant { name: _, ty } => ty.has_more_data(),
            Tag::Array { len: None } => true,
            Tag::Array { len: Some(len) } => *len > 0,
            Tag::Mapping { len: None } => true,
            Tag::Mapping { len: Some(len) } => *len > 0,
            Tag::Tuple { len } => *len > 0,
        }
    }

    /// The same tag with no borrow.
    pub fn into_static(self) -> (r: Tag<'static>)
        ensures
            r@ == self@,
    {
        match self {
            Tag::Unit => Tag::Unit,
            Tag::Bool(v) => Tag::Bool(v),
            Tag::Integer(v) => Tag::Integer(v),
            Tag::F32(v) => Tag::F32(v),
            Tag::F64(v) => Tag::F64(v),
            Tag::Char(v) => Tag::Char(v),
            Tag::Str(v) => Tag::Str(v.into_static()),
            Tag::StrDirect { len } => Tag::StrDirect { len },
            Tag::EmptyStr => Tag::EmptyStr,
            Tag::Bytes { len } => Tag::Bytes { len },
            Tag::Option(v) => Tag::Option(v),
            Tag::Struct(v) => Tag::Struct(v),
            Tag::Variant { name, ty } => Tag::Variant { name, ty },
            Tag::Array { len } => Tag::Array { len },
            Tag::Mapping { len } => Tag::Mapping { len },
            Tag::Tuple { len } => Tag::Tuple { len },
        }
    }

    /// Equality where float values compare as floats, except that all NaNs are
    /// equal.
    pub fn eq_with_nan(&self, other: &Tag) -> (r: bool)
        ensures
            r == self@.eq_with_nan(other@),
    {
        match (self, other) {
            (Tag::F32(a), Tag::F32(b)) => {
                let a_nan = (*a & 0x7f80_0000) == 0x7f80_0000 && (*a & 0x007f_ffff) != 0;
                let b_nan = (*b & 0x7f80_0000) == 0x7f80_0000 && (*b & 0x007f_ffff) != 0;
                (a_nan && b_nan) || (!a_nan && !b_nan && (*a == *b || ((*a | *b) & 0x7fff_ffff)
                    == 0))
            },
            (Tag::F64(a), Tag::F64(b)) => {
                let a_nan = (*a & 0x7ff0_0000_0000_0000) == 0x7ff0_0000_0000_0000 && (*a
                    & 0x000f_ffff_ffff_ffff) != 0;
                let b_nan = (*b & 0x7ff0_0000_0000_0000) == 0x7ff0_0000_0000_0000 && (*b
                    & 0x000f_ffff_ffff_ffff) != 0;
                (a_nan && b_nan) || (!a_nan && !b_nan && (*a == *b || ((*a | *b)
                    & 0x7fff_ffff_ffff_ffff) == 0))
            },
            (Tag::Unit, Tag::Unit) => true,
            (Tag::Bool(a), Tag::Bool(b)) => *a == *b,
            (Tag::Integer(a), Tag::Integer(b)) => *a == *b,
            (Tag::Char(a), Tag::Char(b)) => *a == *b,
            (Tag::Str(a), Tag::Str(b)) => str_eq(a.as_str(), b.as_str()),
            (Tag::StrDirect { len: a }, Tag::StrDirect { len: b }) => *a == *b,
            (Tag::EmptyStr, Tag::EmptyStr) => true,
            (Tag::Bytes { len: a }, Tag::Bytes { len: b }) => *a == *b,
            (Tag::Option(a), Tag::Option(b)) => *a == *b,
            (Tag::Struct(a), Tag::Struct(b)) => *a == *b,
            (Tag::Variant { name: a, ty: x }, Tag::Variant { name: b, ty: y }) => *x == *y
                && str_eq(a.as_str(), b.as_str()),
            (Tag::Array { len: a }, Tag::Array { len: b }) => *a == *b,
            (Tag::Mapping { len: a }, Tag::Mapping { len: b }) => *a == *b,
            (Tag::Tuple { len: a }, Tag::Tuple { len: b }) => *a == *b,
            _ => false,
        }
    }
}

/// Errors while reading a tag.
#[derive(Debug, Clone, Copy, PartialEq, Eq, Structural)]
pub enum TagReadError {
    /// The input ended before the tag.
    UnexpectedEof,
    InvalidTagError(InvalidTagError),
}

/// A byte that is no tag.
#[derive(Debug, Clone, Copy, PartialEq, Eq, Structural)]
pub struct InvalidTagError(pub u8);

} // verus!
