use vstd::prelude::*;
use vstd::arithmetic::power2::{lemma2_to64, lemma_pow2_adds, lemma_pow2_strictly_increases, pow2};
use vstd::bits::{lemma_u16_shl_is_mul, lemma_u16_shr_is_div};

verus! {

/// Sign of a value that is stored apart from its magnitude.
#[derive(Debug, Clone, Copy, PartialEq, Eq, Structural)]
pub enum Sign {
    Positive,
    Negative,
}

impl Sign {
    pub fn is_positive(self) -> (r: bool)
        ensures
            r == (self == Sign::Positive),
    {
        matches!(self, Self::Positive)
    }

    pub fn is_negative(self) -> (r: bool)
        ensures
            r == (self == Sign::Negative),
    {
        matches!(self, Self::Negative)
    }

    pub fn into_neg_bit(self) -> (r: bool)
        ensures
            r == (self == Sign::Negative),
    {
        match self {
            Sign::Positive => false,
            Sign::Negative => true,
        }
    }

    pub fn from_neg_bit(bit: bool) -> (r: Self)
        ensures
            r == (if bit { Sign::Negative } else { Sign::Positive }),
    {
        match bit {
            false => Sign::Positive,
            true => Sign::Negative,
        }
    }
}

/// Errors while decoding a varint from a byte slice.
#[derive(Debug, Clone, Copy, PartialEq, Eq, Structural)]
pub enum VarIntReadError {
    /// The input ended before the last byte of the varint.
    UnexpectedEof,
    /// The varint has more 7-bit groups than the integer type can hold.
    ValueTooBig,
    /// The sign and magnitude do not form a value of the signed type.
    InvalidSignedValue,
}

/// Mask of the low `bits` bits of a `u128` (all bits for `bits >= 128`).
pub open spec fn low_mask(bits: u32) -> u128 {
    if bits >= 128 {
        0xffff_ffff_ffff_ffff_ffff_ffff_ffff_ffffu128
    } else {
        ((1u128 << bits) - 1) as u128
    }
}

/// `x` reduced to its low `bits` bits.
pub open spec fn trunc(x: u128, bits: u32) -> u128 {
    x & low_mask(bits)
}

/// `x` is a value of a `bits`-bit unsigned integer.
pub open spec fn fits(x: u128, bits: u32) -> bool {
    trunc(x, bits) == x
}

/// The widths of the unsigned integer types that varints are read into.
pub open spec fn valid_bits(bits: u32) -> bool {
    bits == 8 || bits == 16 || bits == 32 || bits == 64 || bits == 128
}

/// An unsigned integer type that varints are written from and read into.
/// Its value is seen as a `u128`.
pub trait UnsignedInt: Copy + Sized {
    spec fn spec_value(self) -> u128;

    spec fn spec_bits() -> u32;

    proof fn lemma_bits()
        ensures
            valid_bits(Self::spec_bits()),
    ;

    proof fn lemma_value_fits(self)
        ensures
            fits(self.spec_value(), Self::spec_bits()),
    ;

    fn zero() -> (r: Self)
        ensures
            r.spec_value() == 0,
    ;

    fn bits() -> (r: u32)
        ensures
            r == Self::spec_bits(),
    ;

    fn is_zero(self) -> (r: bool)
        ensures
            r == (self.spec_value() == 0),
    ;

    fn from_u8_bits(val: u8) -> (r: Self)
        ensures
            r.spec_value() == val as u128,
    ;

    fn into_u8_bits_trimmed(self) -> (r: u8)
        ensures
            r == (self.spec_value() & 0xff) as u8,
    ;

    /// Shift left; `None` when the shift is not below the width of the type.
    /// Bits shifted past the width are dropped.
    fn checked_shl(self, shift: u32) -> (r: Option<Self>)
        ensures
            r is Some <==> shift < Self::spec_bits(),
            r matches Some(v) ==> v.spec_value() == trunc(
                (self.spec_value() << shift) as u128,
                Self::spec_bits(),
            ),
    ;

    fn into_u128(self) -> (r: u128)
        ensures
            r == self.spec_value(),
    ;

    fn from_u128(v: u128) -> (r: Self)
        requires
            fits(v, Self::spec_bits()),
        ensures
            r.spec_value() == v,
    ;
}

/// A signed integer type, split into a magnitude of its unsigned twin and a sign.
pub trait SignedInt: Copy + Sized {
    type Unsigned: UnsignedInt;

    spec fn spec_value(self) -> int;

    spec fn spec_min() -> int;

    spec fn spec_max() -> int;

    proof fn lemma_range(self)
        ensures
            Self::spec_min() <= self.spec_value() <= Self::spec_max(),
            Self::spec_max() == -Self::spec_min() - 1,
            Self::spec_min() < 0,
            -Self::spec_min() <= low_mask(Self::Unsigned::spec_bits()),
    ;

    fn into_split_sign(self) -> (r: (Self::Unsigned, Sign))
        ensures
            self.spec_value() >= 0 ==> r.1 == Sign::Positive && r.0.spec_value()
                == self.spec_value(),
            self.spec_value() < 0 ==> r.1 == Sign::Negative && r.0.spec_value()
                == -self.spec_value(),
    ;

    /// The value with magnitude `val` and sign `sign`; `None` where the type has no
    /// such value, a negative zero among them.
    fn from_split_sign(val: Self::Unsigned, sign: Sign) -> (r: Option<Self>)
        ensures
            r is Some <==> (sign == Sign::Positive && val.spec_value() <= Self::spec_max()) || (
            sign == Sign::Negative && val.spec_value() != 0 && val.spec_value()
                <= -Self::spec_min()),
            r matches Some(x) ==> x.spec_value() == (if sign == Sign::Positive {
                val.spec_value() as int
            } else {
                -val.spec_value()
            }),
    ;
}

/// The bytes of the varint encoding of `v`: 7-bit groups, lowest first,
/// with the high bit set on every byte but the last.
pub open spec fn uvarint_bytes(v: u128) -> Seq<u8>
    decreases v,
{
    if v >> 7u32 == 0 {
        seq![(v & 0x7f) as u8]
    } else {
        proof {
            lemma_shr7_decreases(v);
        }
        seq![((v & 0x7f) as u8) | 0x80u8] + uvarint_bytes(v >> 7u32)
    }
}

/// The first byte of a signed varint: 6 bits of magnitude, the sign bit (0x40)
/// and the continuation bit (0x80).
pub open spec fn signed_first_byte(v: u128, neg: bool) -> u8 {
    let data = (v & 0x3f) as u8;
    let data = if v >> 6u32 != 0 {
        data | 0x80
    } else {
        data
    };
    if neg {
        data | 0x40
    } else {
        data
    }
}

/// The bytes of the signed varint encoding of magnitude `v` with sign bit `neg`.
pub open spec fn svarint_bytes(v: u128, neg: bool) -> Seq<u8> {
    if v >> 6u32 == 0 {
        seq![signed_first_byte(v, neg)]
    } else {
        seq![signed_first_byte(v, neg)] + uvarint_bytes(v >> 6u32)
    }
}

/// Decoding of 7-bit continuation groups whose first group is shifted by `shift`,
/// for a `bits`-bit integer: the value and the number of bytes read. A group
/// shifted to or past the width, or with bits that would pass it, makes the
/// value too big for the type.
pub open spec fn dec_groups(s: Seq<u8>, shift: nat, bits: u32) -> Result<
    (u128, nat),
    VarIntReadError,
>
    decreases s.len(),
{
    if s.len() == 0 {
        Err(VarIntReadError::UnexpectedEof)
    } else if shift >= bits {
        Err(VarIntReadError::ValueTooBig)
    } else if bits - shift < 7 && (s[0] & 0x7f) >> ((bits - shift) as u8) != 0 {
        Err(VarIntReadError::ValueTooBig)
    } else {
        let part = trunc((((s[0] & 0x7f) as u128) << (shift as u32)) as u128, bits);
        if s[0] & 0x80 == 0 {
            Ok((part, 1))
        } else {
            match dec_groups(s.drop_first(), shift + 7, bits) {
                Ok((rest, n)) => Ok(((part | rest) as u128, n + 1)),
                Err(e) => Err(e),
            }
        }
    }
}

/// Groups decoded take at least one byte and no more than there are.
pub(crate) proof fn lemma_dec_groups_len(s: Seq<u8>, shift: nat, bits: u32)
    ensures
        dec_groups(s, shift, bits) matches Ok((_, n)) ==> 1 <= n <= s.len(),
    decreases s.len(),
{
    if s.len() > 0 {
        lemma_dec_groups_len(s.drop_first(), shift + 7, bits);
    }
}

/// Decoding of an unsigned varint for a `bits`-bit integer.
pub open spec fn dec_unsigned(s: Seq<u8>, bits: u32) -> Result<(u128, nat), VarIntReadError> {
    dec_groups(s, 0, bits)
}

/// Decoding of a signed varint for a `bits`-bit magnitude: magnitude, sign bit,
/// number of bytes read.
pub open spec fn dec_signed(s: Seq<u8>, bits: u32) -> Result<(u128, bool, nat), VarIntReadError> {
    if s.len() == 0 {
        Err(VarIntReadError::UnexpectedEof)
    } else {
        let part = (s[0] & 0x3f) as u128;
        let neg = s[0] & 0x40 != 0;
        if s[0] & 0x80 == 0 {
            Ok((part, neg, 1))
        } else {
            match dec_groups(s.drop_first(), 6, bits) {
                Ok((rest, n)) => Ok(((part | rest) as u128, neg, n + 1)),
                Err(e) => Err(e),
            }
        }
    }
}

/// What the buffered writers report as written for an encoding of `n` bytes:
/// the count of bytes left in the 16-byte buffer at the end.
pub open spec fn reported_written(n: nat) -> nat {
    if n == 0 {
        0
    } else {
        (n - 16 * ((n - 1) / 16)) as nat
    }
}

pub proof fn lemma_shr7_decreases(v: u128)
    ensures
        v >> 7u32 != 0 ==> v >> 7u32 < v,
{
    assert(v >> 7u32 != 0 ==> v >> 7u32 < v) by (bit_vector);
}


pub proof fn lemma_reported_written(n: nat, flushes: nat, b: nat)
    requires
        n == 16 * flushes + b,
        1 <= b <= 16,
    ensures
        reported_written(n) == b,
{
    assert((n - 1) / 16 == flushes as int) by (nonlinear_arith)
        requires
            n == 16 * flushes + b,
            1 <= b <= 16,
    ;
}

proof fn lemma_or_fits(a: u128, b: u128, m: u128)
    requires
        a & m == a,
        b & m == b,
    ensures
        (a | b) & m == a | b,
{
    assert((a | b) & m == a | b) by (bit_vector)
        requires
            a & m == a,
            b & m == b,
    ;
}

proof fn lemma_trunc_fits(x: u128, bits: u32)
    ensures
        fits(trunc(x, bits), bits),
{
    let m = low_mask(bits);
    assert((x & m) & m == x & m) by (bit_vector);
}

proof fn lemma_or_assoc(a: u128, b: u128, c: u128)
    ensures
        a | (b | c) == (a | b) | c,
        0u128 | a == a,
{
    assert(a | (b | c) == (a | b) | c) by (bit_vector);
    assert(0u128 | a == a) by (bit_vector);
}

/// Writes `value` as a varint: 7-bit groups, lowest first, the high bit set on
/// every byte but the last. The bytes are gathered in a 16-byte buffer that is
/// appended whenever it is full and at the end; the count returned is that of
/// the last append.
pub fn write_unsigned_varint<I: UnsignedInt>(writer: &mut Vec<u8>, value: I) -> (written: usize)
    ensures
        final(writer)@ == old(writer)@ + uvarint_bytes(value.spec_value()),
        written == reported_written(uvarint_bytes(value.spec_value()).len()),
{
    let mut value: u128 = value.into_u128();
    let ghost orig = value;
    let mut more = true;
    let mut buf: Vec<u8> = Vec::with_capacity(16);
    let mut written: usize = 0;
    let ghost mut flushes: nat = 0;
    let ghost mut done: Seq<u8> = Seq::empty();
    while more
        invariant
            uvarint_bytes(orig) == done + (if more {
                uvarint_bytes(value)
            } else {
                Seq::<u8>::empty()
            }),
            writer@ + buf@ == old(writer)@ + done,
            buf.len() <= 16,
            done.len() == 16 * flushes + buf.len(),
            done.len() > 0 ==> buf.len() >= 1,
            !more ==> done.len() > 0,
            written == 0,
        decreases value, (if more { 1int } else { 0int }),
    {
        let ghost prev = value;
        let data = (value & 0x7f) as u8;
        value = value >> 7u32;
        more = value != 0;
        let data = if more {
            data | 0x80
        } else {
            data
        };
        proof {
            lemma_shr7_decreases(prev);
            assert(uvarint_bytes(prev) == seq![data] + (if more {
                uvarint_bytes(value)
            } else {
                Seq::<u8>::empty()
            }));
        }
        if buf.len() >= 16 {
            let ghost w0 = writer@;
            let ghost b0 = buf@;
            writer.append(&mut buf);
            proof {
                flushes = flushes + 1;
                assert(writer@ + buf@ =~= w0 + b0);
            }
        }
        let ghost w1 = writer@;
        let ghost b1 = buf@;
        buf.push(data);
        proof {
            assert(writer@ + buf@ =~= (w1 + b1) + seq![data]);
            done = done + seq![data];
        }
    }
    let buf_len = buf.len();
    if buf_len > 0 {
        writer.append(&mut buf);
        written = written + buf_len;
    }
    proof {
        lemma_reported_written(done.len(), flushes, buf_len as nat);
    }
    written
}

/// Writes `value` as a signed varint: its magnitude, with 6 bits in the first
/// byte beside the sign bit 0x40, then 7-bit groups.
pub fn write_signed_varint<I: SignedInt>(writer: &mut Vec<u8>, value: I) -> (written: usize)
    ensures
        ({
            let (mag, neg) = if value.spec_value() >= 0 {
                (value.spec_value(), false)
            } else {
                (-value.spec_value(), true)
            };
            &&& final(writer)@ == old(writer)@ + svarint_bytes(mag as u128, neg)
            &&& written == reported_written(svarint_bytes(mag as u128, neg).len())
        }),
{
    let (value, sign) = value.into_split_sign();
    write_varint_with_sign(writer, value, sign)
}

/// Writes the magnitude `value` with sign bit `sign` as a signed varint.
pub fn write_varint_with_sign<I: UnsignedInt>(writer: &mut Vec<u8>, value: I, sign: Sign) -> (written: usize)
    ensures
        final(writer)@ == old(writer)@ + svarint_bytes(value.spec_value(), sign == Sign::Negative),
        written == reported_written(
            svarint_bytes(value.spec_value(), sign == Sign::Negative).len(),
        ),
{
    let ghost neg = sign == Sign::Negative;
    let mut value: u128 = value.into_u128();
    let ghost orig = value;
    let mut more = true;
    let mut first = true;
    let mut buf: Vec<u8> = Vec::with_capacity(16);
    let mut written: usize = 0;
    let ghost mut flushes: nat = 0;
    let ghost mut done: Seq<u8> = Seq::empty();
    while more
        invariant
            neg == (sign == Sign::Negative),
            first ==> more && value == orig && done.len() == 0,
            !first ==> svarint_bytes(orig, neg) == done + (if more {
                uvarint_bytes(value)
            } else {
                Seq::<u8>::empty()
            }),
            writer@ + buf@ == old(writer)@ + done,
            buf.len() <= 16,
            done.len() == 16 * flushes + buf.len(),
            done.len() > 0 ==> buf.len() >= 1,
            !more ==> done.len() > 0,
            written == 0,
        decreases (if first { 1int } else { 0int }), value, (if more { 1int } else { 0int }),
    {
        let ghost prev = value;
        let ghost was_first = first;
        let (bits, mask): (u32, u128) = if first {
            (6, 0x3f)
        } else {
            (7, 0x7f)
        };
        let data = (value & mask) as u8;
        value = value >> bits;
        more = value != 0;
        let data = if more {
            data | 0x80
        } else {
            data
        };
        let data = if sign.into_neg_bit() && first {
            data | 0x40
        } else {
            data
        };
        proof {
            if was_first {
                assert(svarint_bytes(orig, neg) == seq![data] + (if more {
                    uvarint_bytes(value)
                } else {
                    Seq::<u8>::empty()
                }));
            } else {
                lemma_shr7_decreases(prev);
                assert(uvarint_bytes(prev) == seq![data] + (if more {
                    uvarint_bytes(value)
                } else {
                    Seq::<u8>::empty()
                }));
            }
        }
        if buf.len() >= 16 {
            let ghost w0 = writer@;
            let ghost b0 = buf@;
            writer.append(&mut buf);
            proof {
                flushes = flushes + 1;
                assert(writer@ + buf@ =~= w0 + b0);
            }
        }
        let ghost w1 = writer@;
        let ghost b1 = buf@;
        buf.push(data);
        proof {
            assert(writer@ + buf@ =~= (w1 + b1) + seq![data]);
            done = done + seq![data];
        }
        first = false;
    }
    let buf_len = buf.len();
    if buf_len > 0 {
        writer.append(&mut buf);
        written = written + buf_len;
    }
    proof {
        lemma_reported_written(done.len(), flushes, buf_len as nat);
    }
    written
}

/// Reads 7-bit groups from `input` at `pos`, the first shifted by `shift`, and
/// combines them with `acc`.
fn read_groups<I: UnsignedInt>(input: &[u8], pos: &mut usize, shift: u32, acc: u128) -> (r: Result<
    I,
    VarIntReadError,
>)
    requires
        *old(pos) <= input.len(),
        shift <= 7,
        fits(acc, I::spec_bits()),
    ensures
        *old(pos) <= *final(pos) <= input.len(),
        match dec_groups(input@.skip(*old(pos) as int), shift as nat, I::spec_bits()) {
            Ok((v, n)) => r matches Ok(x) && x.spec_value() == (acc | v) && *final(pos) == *old(
                pos,
            ) + n,
            Err(e) => r == Err::<I, VarIntReadError>(e) && *old(pos) <= *final(pos) <= input.len(),
        },
{
    let ghost start: int = *pos as int;
    let ghost acc0 = acc;
    let ghost s0: nat = shift as nat;
    let ghost bits = I::spec_bits();
    let mut acc = acc;
    let mut shift = shift;
    let mut res: Option<Result<I, VarIntReadError>> = None;
    proof {
        I::lemma_bits();
    }
    while res.is_none()
        invariant
            start <= *pos <= input.len(),
            *old(pos) == start,
            bits == I::spec_bits(),
            valid_bits(bits),
            shift < bits + 7,
            fits(acc, bits),
            res is None ==> match dec_groups(input@.skip(*pos as int), shift as nat, bits) {
                Ok((v, n)) => dec_groups(input@.skip(start), s0, bits) matches Ok((x, m)) && (acc0
                    | x) == (acc | v) && m == (*pos - start) + n,
                Err(e) => dec_groups(input@.skip(start), s0, bits) == Err::<
                    (u128, nat),
                    VarIntReadError,
                >(e),
            },
            res matches Some(r) ==> match dec_groups(input@.skip(start), s0, bits) {
                Ok((v, n)) => r matches Ok(x) && x.spec_value() == (acc0 | v) && *pos == start + n,
                Err(e) => r == Err::<I, VarIntReadError>(e),
            },
        decreases input.len() - *pos + (if res is None {
            1int
        } else {
            0int
        }),
    {
        let ghost p: int = *pos as int;
        let ghost s = input@.skip(p);
        if *pos >= input.len() {
            assert(s.len() == 0);
            assert(dec_groups(s, shift as nat, bits) == Err::<(u128, nat), VarIntReadError>(
                VarIntReadError::UnexpectedEof,
            ));
            res = Some(Err(VarIntReadError::UnexpectedEof));
        } else {
            let byte = input[*pos];
            *pos = *pos + 1;
            assert(s[0] == byte);
            assert(s.drop_first() =~= input@.skip(p + 1));
            let more = (byte & 0x80) != 0;
            let data = byte & 0x7f;
            let width = I::bits();
            let lost = shift < width && width - shift < 7 && (data >> ((width - shift) as u8)) != 0;
            if lost {
                assert(dec_groups(s, shift as nat, bits) == Err::<(u128, nat), VarIntReadError>(
                    VarIntReadError::ValueTooBig,
                ));
                res = Some(Err(VarIntReadError::ValueTooBig));
            } else {
            match I::from_u8_bits(data).checked_shl(shift) {
                Some(shifted) => {
                    let part = shifted.into_u128();
                    let ghost prev_acc = acc;
                    proof {
                        lemma_trunc_fits((((data as u128) << shift) as u128), bits);
                        lemma_or_fits(acc, part, low_mask(bits));
                    }
                    acc = acc | part;
                    if !more {
                        res = Some(Ok(I::from_u128(acc)));
                    } else {
                        proof {
                            assert forall|rest: u128, n: nat|
                                dec_groups(input@.skip(p + 1), (shift + 7) as nat, bits)
                                    == Ok::<(u128, nat), VarIntReadError>((rest, n)) implies (
                            prev_acc | (part | rest)) == (acc | rest) by {
                                lemma_or_assoc(prev_acc, part, rest);
                            }
                        }
                        shift = shift + 7;
                    }
                },
                None => {
                    assert(dec_groups(s, shift as nat, bits) == Err::<(u128, nat), VarIntReadError>(
                        VarIntReadError::ValueTooBig,
                    ));
                    res = Some(Err(VarIntReadError::ValueTooBig));
                },
            }
            }
        }
    }
    match res {
        Some(r) => r,
        None => Err(VarIntReadError::UnexpectedEof),
    }
}

/// Reads an unsigned varint from `input` at `pos` and advances `pos` past it.
/// A value too big for the type is `ValueTooBig`, as is a group shifted to or
/// past the width of the type.
pub fn read_unsigned_varint<I: UnsignedInt>(input: &[u8], pos: &mut usize) -> (r: Result<
    I,
    VarIntReadError,
>)
    requires
        *old(pos) <= input.len(),
    ensures
        *old(pos) <= *final(pos) <= input.len(),
        match dec_unsigned(input@.skip(*old(pos) as int), I::spec_bits()) {
            Ok((v, n)) => r matches Ok(x) && x.spec_value() == v && *final(pos) == *old(pos) + n,
            Err(e) => r == Err::<I, VarIntReadError>(e) && *old(pos) <= *final(pos) <= input.len(),
        },
{
    proof {
        lemma_or_assoc(0, 0, 0);
        assert forall|v: u128| 0u128 | v == v by {
            lemma_or_assoc(v, 0, 0);
        }
        assert(fits(0, I::spec_bits())) by {
            assert(0u128 & low_mask(I::spec_bits()) == 0) by (bit_vector);
        }
    }
    read_groups(input, pos, 0, 0)
}

/// Reads a signed varint and forms the value of the signed type; a magnitude and
/// sign that the type has no value for is `InvalidSignedValue`.
pub fn read_signed_varint<I: SignedInt>(input: &[u8], pos: &mut usize) -> (r: Result<
    I,
    VarIntReadError,
>)
    requires
        *old(pos) <= input.len(),
    ensures
        *old(pos) <= *final(pos) <= input.len(),
        match dec_signed(input@.skip(*old(pos) as int), I::Unsigned::spec_bits()) {
            Ok((v, neg, n)) => {
                &&& *final(pos) == *old(pos) + n
                &&& if (!neg && v <= I::spec_max()) || (neg && v != 0 && v <= -I::spec_min()) {
                    r matches Ok(x) && x.spec_value() == (if neg {
                        -v
                    } else {
                        v as int
                    })
                } else {
                    r == Err::<I, VarIntReadError>(VarIntReadError::InvalidSignedValue)
                }
            },
            Err(e) => r == Err::<I, VarIntReadError>(e) && *old(pos) <= *final(pos) <= input.len(),
        },
{
    let (value, sign) = read_varint_with_sign::<I::Unsigned>(input, pos)?;
    match I::from_split_sign(value, sign) {
        Some(v) => Ok(v),
        None => Err(VarIntReadError::InvalidSignedValue),
    }
}

/// Reads a signed varint as its magnitude and sign.
pub fn read_varint_with_sign<I: UnsignedInt>(input: &[u8], pos: &mut usize) -> (r: Result<
    (I, Sign),
    VarIntReadError,
>)
    requires
        *old(pos) <= input.len(),
    ensures
        *old(pos) <= *final(pos) <= input.len(),
        match dec_signed(input@.skip(*old(pos) as int), I::spec_bits()) {
            Ok((v, neg, n)) => r matches Ok((x, sign)) && x.spec_value() == v && sign == (if neg {
                Sign::Negative
            } else {
                Sign::Positive
            }) && *final(pos) == *old(pos) + n,
            Err(e) => r == Err::<(I, Sign), VarIntReadError>(e) && *old(pos) <= *final(pos)
                <= input.len(),
        },
{
    let ghost p: int = *pos as int;
    let ghost s = input@.skip(p);
    if *pos >= input.len() {
        assert(s.len() == 0);
        return Err(VarIntReadError::UnexpectedEof);
    }
    let byte = input[*pos];
    *pos = *pos + 1;
    assert(s[0] == byte);
    assert(s.drop_first() =~= input@.skip(p + 1));
    let sign = (byte & 0x40) != 0;
    let more = (byte & 0x80) != 0;
    let data = byte & 0x3f;
    let acc = I::from_u8_bits(data).into_u128();
    proof {
        I::lemma_bits();
        let bits = I::spec_bits();
        assert(fits(acc, bits)) by {
            assert(data < 64) by (bit_vector)
                requires
                    data == byte & 0x3f,
            ;
            assert(valid_bits(bits) && acc < 64 ==> acc & low_mask(bits) == acc) by (bit_vector);
        }
    }
    if !more {
        return Ok((I::from_u128(acc), Sign::from_neg_bit(sign)));
    }
    let v = read_groups::<I>(input, pos, 6, acc)?;
    Ok((v, Sign::from_neg_bit(sign)))
}


/// The masks of the integer widths.
pub proof fn lemma_width_masks()
    by (bit_vector)
    ensures
        low_mask(0) == 0,
        low_mask(8) == 0xff,
        low_mask(16) == 0xffff,
        low_mask(32) == 0xffff_ffff,
        low_mask(64) == 0xffff_ffff_ffff_ffff,
        low_mask(128) == 0xffff_ffff_ffff_ffff_ffff_ffff_ffff_ffff,
{
}

/// A value is its own low `b` bits exactly when it is at most the largest
/// value of the `b`-bit type.
pub proof fn lemma_fits_iff_small(v: u128, b: u32)
    by (bit_vector)
    requires
        b == 8 || b == 16 || b == 32 || b == 64 || b == 128,
    ensures
        (v & low_mask(b) == v) <==> ((b == 8 && v <= 0xff) || (b == 16 && v <= 0xffff) || (b
            == 32 && v <= 0xffff_ffff) || (b == 64 && v <= 0xffff_ffff_ffff_ffff) || b == 128),
{
}

/// Shifting a value of a `b`-bit type is shifting its value and keeping the low
/// `b` bits.
pub proof fn lemma_shl_width(x8: u8, x16: u16, x32: u32, x64: u64, x128: u128, shift: u32)
    by (bit_vector)
    ensures
        shift < 8 ==> ((x8 << shift) as u128) == ((x8 as u128) << shift) & low_mask(8),
        shift < 16 ==> ((x16 << shift) as u128) == ((x16 as u128) << shift) & low_mask(16),
        shift < 32 ==> ((x32 << shift) as u128) == ((x32 as u128) << shift) & low_mask(32),
        shift < 64 ==> ((x64 << shift) as u128) == ((x64 as u128) << shift) & low_mask(64),
        shift < 128 ==> ((x128 << shift) as u128) == ((x128 as u128) << shift) & low_mask(128),
{
}

/// The low byte of a value does not depend on the width it is held in.
pub proof fn lemma_low_byte(x8: u8, x16: u16, x32: u32, x64: u64, x128: u128)
    by (bit_vector)
    ensures
        ((x8 & 0xff) as u8) == ((x8 as u128) & 0xff) as u8,
        ((x16 & 0xff) as u8) == ((x16 as u128) & 0xff) as u8,
        ((x32 & 0xff) as u8) == ((x32 as u128) & 0xff) as u8,
        ((x64 & 0xff) as u8) == ((x64 as u128) & 0xff) as u8,
        ((x128 & 0xff) as u8) == ((x128 as u128) & 0xff) as u8,
{
}

impl UnsignedInt for u8 {
    open spec fn spec_value(self) -> u128 {
        self as u128
    }

    open spec fn spec_bits() -> u32 {
        8
    }

    proof fn lemma_bits() {
    }

    proof fn lemma_value_fits(self) {
        let x = self;
        lemma_fits_iff_small(x as u128, 8);
    }

    fn zero() -> (r: Self) {
        0
    }

    fn bits() -> (r: u32) {
        8
    }

    fn is_zero(self) -> (r: bool) {
        self == 0
    }

    fn from_u8_bits(val: u8) -> (r: Self) {
        val as u8
    }

    fn into_u8_bits_trimmed(self) -> (r: u8) {
        let x = self;
        proof {
            lemma_low_byte(x, 0, 0, 0, 0);
        }
        (self & 0xff) as u8
    }

    fn checked_shl(self, shift: u32) -> (r: Option<Self>) {
        if shift < 8 {
            let x = self;
            proof {
                lemma_shl_width(x, 0, 0, 0, 0, shift);
            }
            Some(self << shift)
        } else {
            None
        }
    }

    fn into_u128(self) -> (r: u128) {
        self as u128
    }

    fn from_u128(v: u128) -> (r: Self) {
        proof {
            lemma_fits_iff_small(v, 8);
        }
        v as u8
    }
}

impl UnsignedInt for u16 {
    open spec fn spec_value(self) -> u128 {
        self as u128
    }

    open spec fn spec_bits() -> u32 {
        16
    }

    proof fn lemma_bits() {
    }

    proof fn lemma_value_fits(self) {
        let x = self;
        lemma_fits_iff_small(x as u128, 16);
    }

    fn zero() -> (r: Self) {
        0
    }

    fn bits() -> (r: u32) {
        16
    }

    fn is_zero(self) -> (r: bool) {
        self == 0
    }

    fn from_u8_bits(val: u8) -> (r: Self) {
        val as u16
    }

    fn into_u8_bits_trimmed(self) -> (r: u8) {
        let x = self;
        proof {
            lemma_low_byte(0, x, 0, 0, 0);
        }
        (self & 0xff) as u8
    }

    fn checked_shl(self, shift: u32) -> (r: Option<Self>) {
        if shift < 16 {
            let x = self;
            proof {
                lemma_shl_width(0, x, 0, 0, 0, shift);
            }
            Some(self << shift)
        } else {
            None
        }
    }

    fn into_u128(self) -> (r: u128) {
        self as u128
    }

    fn from_u128(v: u128) -> (r: Self) {
        proof {
            lemma_fits_iff_small(v, 16);
        }
        v as u16
    }
}

impl UnsignedInt for u32 {
    open spec fn spec_value(self) -> u128 {
        self as u128
    }

    open spec fn spec_bits() -> u32 {
        32
    }

    proof fn lemma_bits() {
    }

    proof fn lemma_value_fits(self) {
        let x = self;
        lemma_fits_iff_small(x as u128, 32);
    }

    fn zero() -> (r: Self) {
        0
    }

    fn bits() -> (r: u32) {
        32
    }

    fn is_zero(self) -> (r: bool) {
        self == 0
    }

    fn from_u8_bits(val: u8) -> (r: Self) {
        val as u32
    }

    fn into_u8_bits_trimmed(self) -> (r: u8) {
        let x = self;
        proof {
            lemma_low_byte(0, 0, x, 0, 0);
        }
        (self & 0xff) as u8
    }

    fn checked_shl(self, shift: u32) -> (r: Option<Self>) {
        if shift < 32 {
            let x = self;
            proof {
                lemma_shl_width(0, 0, x, 0, 0, shift);
            }
            Some(self << shift)
        } else {
            None
        }
    }

    fn into_u128(self) -> (r: u128) {
        self as u128
    }

    fn from_u128(v: u128) -> (r: Self) {
        proof {
            lemma_fits_iff_small(v, 32);
        }
        v as u32
    }
}

impl UnsignedInt for u64 {
    open spec fn spec_value(self) -> u128 {
        self as u128
    }

    open spec fn spec_bits() -> u32 {
        64
    }

    proof fn lemma_bits() {
    }

    proof fn lemma_value_fits(self) {
        let x = self;
        lemma_fits_iff_small(x as u128, 64);
    }

    fn zero() -> (r: Self) {
        0
    }

    fn bits() -> (r: u32) {
        64
    }

    fn is_zero(self) -> (r: bool) {
        self == 0
    }

    fn from_u8_bits(val: u8) -> (r: Self) {
        val as u64
    }

    fn into_u8_bits_trimmed(self) -> (r: u8) {
        let x = self;
        proof {
            lemma_low_byte(0, 0, 0, x, 0);
        }
        (self & 0xff) as u8
    }

    fn checked_shl(self, shift: u32) -> (r: Option<Self>) {
        if shift < 64 {
            let x = self;
            proof {
                lemma_shl_width(0, 0, 0, x, 0, shift);
            }
            Some(self << shift)
        } else {
            None
        }
    }

    fn into_u128(self) -> (r: u128) {
        self as u128
    }

    fn from_u128(v: u128) -> (r: Self) {
        proof {
            lemma_fits_iff_small(v, 64);
        }
        v as u64
    }
}

impl UnsignedInt for u128 {
    open spec fn spec_value(self) -> u128 {
        self as u128
    }

    open spec fn spec_bits() -> u32 {
        128
    }

    proof fn lemma_bits() {
    }

    proof fn lemma_value_fits(self) {
        let x = self;
        lemma_fits_iff_small(x as u128, 128);
    }

    fn zero() -> (r: Self) {
        0
    }

    fn bits() -> (r: u32) {
        128
    }

    fn is_zero(self) -> (r: bool) {
        self == 0
    }

    fn from_u8_bits(val: u8) -> (r: Self) {
        val as u128
    }

    fn into_u8_bits_trimmed(self) -> (r: u8) {
        let x = self;
        proof {
            lemma_low_byte(0, 0, 0, 0, x);
        }
        (self & 0xff) as u8
    }

    fn checked_shl(self, shift: u32) -> (r: Option<Self>) {
        if shift < 128 {
            let x = self;
            proof {
                lemma_shl_width(0, 0, 0, 0, x, shift);
            }
            Some(self << shift)
        } else {
            None
        }
    }

    fn into_u128(self) -> (r: u128) {
        self as u128
    }

    fn from_u128(v: u128) -> (r: Self) {
        proof {
            lemma_fits_iff_small(v, 128);
        }
        v as u128
    }
}

impl UnsignedInt for usize {
    open spec fn spec_value(self) -> u128 {
        self as u128
    }

    open spec fn spec_bits() -> u32 {
        usize::BITS
    }

    proof fn lemma_bits() {
    }

    proof fn lemma_value_fits(self) {
        let x = self;
        if usize::BITS == 32 {
            assert((x as u128) < 0x1_0000_0000);
            lemma_fits_iff_small(x as u128, 32);
        } else {
            lemma_fits_iff_small(x as u128, 64);
        }
    }

    fn zero() -> (r: Self) {
        0
    }

    fn bits() -> (r: u32) {
        usize::BITS
    }

    fn is_zero(self) -> (r: bool) {
        self == 0
    }

    fn from_u8_bits(val: u8) -> (r: Self) {
        val as usize
    }

    fn into_u8_bits_trimmed(self) -> (r: u8) {
        let x = self as u64;
        proof {
            lemma_low_byte(0, 0, 0, x, 0);
        }
        (x & 0xff) as u8
    }

    fn checked_shl(self, shift: u32) -> (r: Option<Self>) {
        if shift < usize::BITS {
            let x = self;
            let y = self << shift;
            if usize::BITS == 32 {
                let x32 = x as u32;
                let y32 = x32 << shift;
                proof {
                    lemma_shl_width(0, 0, x32, 0, 0, shift);
                }
                assert(y == y32) by (bit_vector)
                    requires
                        x32 == x as u32,
                        y32 == x32 << shift,
                        y == x << shift,
                        x < 0x1_0000_0000,
                        shift < 32,
                        usize::BITS == 32,
                ;
            } else {
                let x64 = x as u64;
                let y64 = x64 << shift;
                proof {
                    lemma_shl_width(0, 0, 0, x64, 0, shift);
                }
                assert(y == y64) by (bit_vector)
                    requires
                        x64 == x as u64,
                        y64 == x64 << shift,
                        y == x << shift,
                        usize::BITS == 64,
                ;
            }
            Some(y)
        } else {
            None
        }
    }

    fn into_u128(self) -> (r: u128) {
        self as u128
    }

    fn from_u128(v: u128) -> (r: Self) {
        proof {
            if usize::BITS == 32 {
                lemma_fits_iff_small(v, 32);
            } else {
                lemma_fits_iff_small(v, 64);
            }
        }
        v as usize
    }
}

impl SignedInt for i8 {
    type Unsigned = u8;

    open spec fn spec_value(self) -> int {
        self as int
    }

    open spec fn spec_min() -> int {
        i8::MIN as int
    }

    open spec fn spec_max() -> int {
        i8::MAX as int
    }

    proof fn lemma_range(self) {
        lemma_width_masks();
    }

    fn into_split_sign(self) -> (r: (u8, Sign)) {
        if self >= 0 {
            (self as u8, Sign::Positive)
        } else {
            ((-(self + 1)) as u8 + 1, Sign::Negative)
        }
    }

    fn from_split_sign(val: u8, sign: Sign) -> (r: Option<Self>) {
        if sign.is_positive() {
            if val <= i8::MAX as u8 {
                Some(val as i8)
            } else {
                None
            }
        } else if val == 0 || val > (i8::MAX as u8) + 1 {
            None
        } else {
            let mid = (val - 1) as i8;
            Some((-mid) - 1)
        }
    }
}

impl SignedInt for i16 {
    type Unsigned = u16;

    open spec fn spec_value(self) -> int {
        self as int
    }

    open spec fn spec_min() -> int {
        i16::MIN as int
    }

    open spec fn spec_max() -> int {
        i16::MAX as int
    }

    proof fn lemma_range(self) {
        lemma_width_masks();
    }

    fn into_split_sign(self) -> (r: (u16, Sign)) {
        if self >= 0 {
            (self as u16, Sign::Positive)
        } else {
            ((-(self + 1)) as u16 + 1, Sign::Negative)
        }
    }

    fn from_split_sign(val: u16, sign: Sign) -> (r: Option<Self>) {
        if sign.is_positive() {
            if val <= i16::MAX as u16 {
                Some(val as i16)
            } else {
                None
            }
        } else if val == 0 || val > (i16::MAX as u16) + 1 {
            None
        } else {
            let mid = (val - 1) as i16;
            Some((-mid) - 1)
        }
    }
}

impl SignedInt for i32 {
    type Unsigned = u32;

    open spec fn spec_value(self) -> int {
        self as int
    }

    open spec fn spec_min() -> int {
        i32::MIN as int
    }

    open spec fn spec_max() -> int {
        i32::MAX as int
    }

    proof fn lemma_range(self) {
        lemma_width_masks();
    }

    fn into_split_sign(self) -> (r: (u32, Sign)) {
        if self >= 0 {
            (self as u32, Sign::Positive)
        } else {
            ((-(self + 1)) as u32 + 1, Sign::Negative)
        }
    }

    fn from_split_sign(val: u32, sign: Sign) -> (r: Option<Self>) {
        if sign.is_positive() {
            if val <= i32::MAX as u32 {
                Some(val as i32)
            } else {
                None
            }
        } else if val == 0 || val > (i32::MAX as u32) + 1 {
            None
        } else {
            let mid = (val - 1) as i32;
            Some((-mid) - 1)
        }
    }
}

impl SignedInt for i64 {
    type Unsigned = u64;

    open spec fn spec_value(self) -> int {
        self as int
    }

    open spec fn spec_min() -> int {
        i64::MIN as int
    }

    open spec fn spec_max() -> int {
        i64::MAX as int
    }

    proof fn lemma_range(self) {
        lemma_width_masks();
    }

    fn into_split_sign(self) -> (r: (u64, Sign)) {
        if self >= 0 {
            (self as u64, Sign::Positive)
        } else {
            ((-(self + 1)) as u64 + 1, Sign::Negative)
        }
    }

    fn from_split_sign(val: u64, sign: Sign) -> (r: Option<Self>) {
        if sign.is_positive() {
            if val <= i64::MAX as u64 {
                Some(val as i64)
            } else {
                None
            }
        } else if val == 0 || val > (i64::MAX as u64) + 1 {
            None
        } else {
            let mid = (val - 1) as i64;
            Some((-mid) - 1)
        }
    }
}

impl SignedInt for i128 {
    type Unsigned = u128;

    open spec fn spec_value(self) -> int {
        self as int
    }

    open spec fn spec_min() -> int {
        i128::MIN as int
    }

    open spec fn spec_max() -> int {
        i128::MAX as int
    }

    proof fn lemma_range(self) {
        lemma_width_masks();
    }

    fn into_split_sign(self) -> (r: (u128, Sign)) {
        if self >= 0 {
            (self as u128, Sign::Positive)
        } else {
            ((-(self + 1)) as u128 + 1, Sign::Negative)
        }
    }

    fn from_split_sign(val: u128, sign: Sign) -> (r: Option<Self>) {
        if sign.is_positive() {
            if val <= i128::MAX as u128 {
                Some(val as i128)
            } else {
                None
            }
        } else if val == 0 || val > (i128::MAX as u128) + 1 {
            None
        } else {
            let mid = (val - 1) as i128;
            Some((-mid) - 1)
        }
    }
}

impl SignedInt for isize {
    type Unsigned = usize;

    open spec fn spec_value(self) -> int {
        self as int
    }

    open spec fn spec_min() -> int {
        isize::MIN as int
    }

    open spec fn spec_max() -> int {
        isize::MAX as int
    }

    proof fn lemma_range(self) {
        lemma_width_masks();
    }

    fn into_split_sign(self) -> (r: (usize, Sign)) {
        if self >= 0 {
            (self as usize, Sign::Positive)
        } else {
            ((-(self + 1)) as usize + 1, Sign::Negative)
        }
    }

    fn from_split_sign(val: usize, sign: Sign) -> (r: Option<Self>) {
        if sign.is_positive() {
            if val <= isize::MAX as usize {
                Some(val as isize)
            } else {
                None
            }
        } else if val == 0 || val > (isize::MAX as usize) + 1 {
            None
        } else {
            let mid = (val - 1) as isize;
            Some((-mid) - 1)
        }
    }
}


proof fn lemma_mask_facts(w: u128, s: u32, b: u32)
    requires
        valid_bits(b),
        s < b,
        (w << s) >> s == w,
        ((w << s) as u128) & low_mask(b) == (w << s) as u128,
        w >> 7u32 != 0,
    ensures
        s + 7 < b,
        ((w >> 7u32) << ((s + 7) as u32)) >> ((s + 7) as u32) == w >> 7u32,
        (((w >> 7u32) << ((s + 7) as u32)) as u128) & low_mask(b) == ((w >> 7u32) << ((s + 7) as u32)) as u128,
        ((((w & 0x7f) << s) as u128) & low_mask(b)) | (((w >> 7u32) << ((s + 7) as u32)) as u128) == (w << s) as u128,
{
    assert(s + 7 < b) by (bit_vector)
        requires
            b == 8 || b == 16 || b == 32 || b == 64 || b == 128,
            s < b,
            (w << s) >> s == w,
            ((w << s) as u128) & low_mask(b) == (w << s) as u128,
            w >> 7u32 != 0,
    ;
    assert(((w >> 7u32) << ((s + 7) as u32)) >> ((s + 7) as u32) == w >> 7u32) by (bit_vector)
        requires
            s + 7 < 128,
            (w << s) >> s == w,
    ;
    assert((((w >> 7u32) << ((s + 7) as u32)) as u128) & low_mask(b) == ((w >> 7u32) << ((s + 7) as u32)) as u128) by (bit_vector)
        requires
            b == 8 || b == 16 || b == 32 || b == 64 || b == 128,
            s + 7 < b,
            (w << s) >> s == w,
            ((w << s) as u128) & low_mask(b) == (w << s) as u128,
    ;
    assert(((((w & 0x7f) << s) as u128) & low_mask(b)) | (((w >> 7u32) << ((s + 7) as u32)) as u128) == (w << s) as u128) by (bit_vector)
        requires
            b == 8 || b == 16 || b == 32 || b == 64 || b == 128,
            s + 7 < b,
            (w << s) >> s == w,
            ((w << s) as u128) & low_mask(b) == (w << s) as u128,
    ;
}

/// The byte of the low seven bits of `w`, and that byte with the
/// continuation bit set.
proof fn lemma_group_byte(w: u128)
    by (bit_vector)
    ensures
        ((w & 0x7f) as u8) & 0x7f == (w & 0x7f) as u8,
        ((w & 0x7f) as u8) & 0x80 == 0,
        (((w & 0x7f) as u8) | 0x80u8) & 0x80 != 0,
        (((w & 0x7f) as u8) | 0x80u8) & 0x7f == (w & 0x7f) as u8,
        ((w & 0x7f) as u8) as u128 == w & 0x7f,
        w >> 7u32 == 0 ==> ((w & 0x7f) as u8) as u128 == w,
{
}

/// Reading continuation groups back from the bytes of a varint of `w`, shifted by `s`.
proof fn lemma_dec_groups_uvarint(w: u128, s: u32, b: u32, rest: Seq<u8>)
    requires
        valid_bits(b),
        s < b,
        (w << s) >> s == w,
        ((w << s) as u128) & low_mask(b) == (w << s) as u128,
    ensures
        dec_groups(uvarint_bytes(w) + rest, s as nat, b) == Ok::<(u128, nat), VarIntReadError>(
            ((w << s) as u128, uvarint_bytes(w).len()),
        ),
    decreases w,
{
    let bytes = uvarint_bytes(w) + rest;
    let low = (w & 0x7f) as u8;
    assert(!(b - s < 7 && low >> ((b - s) as u8) != 0)) by (bit_vector)
        requires
            b == 8 || b == 16 || b == 32 || b == 64 || b == 128,
            s < b,
            low == (w & 0x7f) as u8,
            (w << s) >> s == w,
            ((w << s) as u128) & low_mask(b) == (w << s) as u128,
    ;
    lemma_group_byte(w);
    if w >> 7u32 == 0 {
        let first = (w & 0x7f) as u8;
        assert(bytes[0] == first);
    } else {
        let first = ((w & 0x7f) as u8) | 0x80u8;
        assert(bytes[0] == first);
        assert(bytes.drop_first() =~= uvarint_bytes(w >> 7u32) + rest);
        lemma_mask_facts(w, s, b);
        lemma_shr7_decreases(w);
        lemma_dec_groups_uvarint(w >> 7u32, (s + 7) as u32, b, rest);
    }
}

/// Continuation groups of a varint of `w` that are read shifted by `s` into a
/// `bits`-bit integer fit it when `w` has no bit at or past `bits - s`.
pub open spec fn fits_after(w: u128, s: u32, bits: u32) -> bool {
    s < bits && (bits - s >= 128 || w >> ((bits - s) as u32) == 0)
}

/// Reading continuation groups of a varint of `w` shifted by `s`, when they do not
/// fit, is refused as too big.
proof fn lemma_dec_groups_too_big(w: u128, s: u32, b: u32, rest: Seq<u8>)
    requires
        valid_bits(b),
        s < b + 7,
        !fits_after(w, s, b),
    ensures
        dec_groups(uvarint_bytes(w) + rest, s as nat, b) == Err::<(u128, nat), VarIntReadError>(
            VarIntReadError::ValueTooBig,
        ),
    decreases w,
{
    let bytes = uvarint_bytes(w) + rest;
    let low = (w & 0x7f) as u8;
    lemma_group_byte(w);
    if w >> 7u32 == 0 {
        assert(bytes[0] == low);
        if s < b {
            assert(b - s < 7 && low >> ((b - s) as u8) != 0) by (bit_vector)
                requires
                    b == 8 || b == 16 || b == 32 || b == 64 || b == 128,
                    s < b,
                    low == (w & 0x7f) as u8,
                    w >> 7u32 == 0,
                    !(b - s >= 128 || w >> ((b - s) as u32) == 0),
            ;
        }
    } else {
        let first = low | 0x80u8;
        assert(bytes[0] == first);
        assert(bytes.drop_first() =~= uvarint_bytes(w >> 7u32) + rest);
        if s < b && !(b - s < 7 && low >> ((b - s) as u8) != 0) {
            assert(!(((s + 7) as u32) < b && (b - ((s + 7) as u32) >= 128 || (w >> 7u32) >> ((b
                - ((s + 7) as u32)) as u32) == 0))) by (bit_vector)
                requires
                    b == 8 || b == 16 || b == 32 || b == 64 || b == 128,
                    s < b,
                    low == (w & 0x7f) as u8,
                    !(b - s >= 128 || w >> ((b - s) as u32) == 0),
                    !(b - s < 7 && low >> ((b - s) as u8) != 0),
            ;
            lemma_shr7_decreases(w);
            lemma_dec_groups_too_big(w >> 7u32, (s + 7) as u32, b, rest);
        }
    }
}

/// A varint of a value too big for a `bits`-bit unsigned integer is refused as
/// too big, whatever bytes follow it.
pub proof fn lemma_unsigned_varint_too_big(x: u128, bits: u32, rest: Seq<u8>)
    requires
        valid_bits(bits),
        bits < 128,
        x >> bits != 0,
    ensures
        dec_unsigned(uvarint_bytes(x) + rest, bits) == Err::<(u128, nat), VarIntReadError>(
            VarIntReadError::ValueTooBig,
        ),
{
    assert(!fits_after(x, 0, bits));
    lemma_dec_groups_too_big(x, 0, bits, rest);
}

/// Reading an unsigned varint gives back the value that was written, whatever
/// bytes follow it.
pub proof fn lemma_unsigned_varint_roundtrip<I: UnsignedInt>(v: I, rest: Seq<u8>)
    ensures
        dec_unsigned(uvarint_bytes(v.spec_value()) + rest, I::spec_bits()) == Ok::<
            (u128, nat),
            VarIntReadError,
        >((v.spec_value(), uvarint_bytes(v.spec_value()).len())),
{
    I::lemma_bits();
    v.lemma_value_fits();
    let w = v.spec_value();
    assert((w << 0u32) >> 0u32 == w && (w << 0u32) as u128 == w) by (bit_vector);
    lemma_dec_groups_uvarint(w, 0, I::spec_bits(), rest);
}

/// Reading a signed varint gives back the magnitude and sign bit that were
/// written, whatever bytes follow it.
pub proof fn lemma_varint_with_sign_roundtrip<I: UnsignedInt>(v: I, neg: bool, rest: Seq<u8>)
    ensures
        dec_signed(svarint_bytes(v.spec_value(), neg) + rest, I::spec_bits()) == Ok::<
            (u128, bool, nat),
            VarIntReadError,
        >((v.spec_value(), neg, svarint_bytes(v.spec_value(), neg).len())),
{
    I::lemma_bits();
    v.lemma_value_fits();
    lemma_svarint_dec(v.spec_value(), I::spec_bits(), neg, rest);
}

proof fn lemma_svarint_dec(w: u128, b: u32, neg: bool, rest: Seq<u8>)
    requires
        valid_bits(b),
        fits(w, b),
    ensures
        dec_signed(svarint_bytes(w, neg) + rest, b) == Ok::<(u128, bool, nat), VarIntReadError>(
            (w, neg, svarint_bytes(w, neg).len()),
        ),
{
    let bytes = svarint_bytes(w, neg) + rest;
    let first = signed_first_byte(w, neg);
    assert(bytes[0] == first);
    assert((first & 0x3f) as u128 == w & 0x3f && ((first & 0x40 != 0) == neg) && ((first & 0x80
        != 0) == (w >> 6u32 != 0))) by (bit_vector)
        requires
            first == (if neg {
                (if w >> 6u32 != 0 {
                    (w & 0x3f) as u8 | 0x80u8
                } else {
                    (w & 0x3f) as u8
                }) | 0x40u8
            } else {
                if w >> 6u32 != 0 {
                    (w & 0x3f) as u8 | 0x80u8
                } else {
                    (w & 0x3f) as u8
                }
            }),
    ;
    if w >> 6u32 == 0 {
        assert(w & 0x3f == w) by (bit_vector)
            requires
                w >> 6u32 == 0,
        ;
    } else {
        assert(bytes.drop_first() =~= uvarint_bytes(w >> 6u32) + rest);
        let h = w >> 6u32;
        assert((h << 6u32) >> 6u32 == h && ((h << 6u32) as u128) & low_mask(b) == (h << 6u32) as u128
            && (w & 0x3f) | ((h << 6u32) as u128) == w) by (bit_vector)
            requires
                h == w >> 6u32,
                w & low_mask(b) == w,
                b == 8 || b == 16 || b == 32 || b == 64 || b == 128,
        ;
        lemma_dec_groups_uvarint(h, 6, b, rest);
    }
}

/// A signed value written as a signed varint reads back as the same value: its
/// magnitude and sign are those that the split gives, and they form a value of
/// the type.
pub proof fn lemma_signed_varint_roundtrip<S: SignedInt>(x: S, rest: Seq<u8>)
    ensures
        ({
            let neg = x.spec_value() < 0;
            let mag = if neg {
                -x.spec_value()
            } else {
                x.spec_value()
            };
            &&& 0 <= mag <= u128::MAX
            &&& dec_signed(svarint_bytes(mag as u128, neg) + rest, S::Unsigned::spec_bits()) == Ok::<
                (u128, bool, nat),
                VarIntReadError,
            >((mag as u128, neg, svarint_bytes(mag as u128, neg).len()))
            &&& (!neg && mag <= S::spec_max()) || (neg && mag != 0 && mag <= -S::spec_min())
            &&& (if neg {
                -mag
            } else {
                mag
            }) == x.spec_value()
        }),
{
    x.lemma_range();
    let neg = x.spec_value() < 0;
    let mag = if neg {
        -x.spec_value()
    } else {
        x.spec_value()
    };
    S::Unsigned::lemma_bits();
    let b = S::Unsigned::spec_bits();
    let m = mag as u128;
    assert(m & low_mask(b) == m) by (bit_vector)
        requires
            m <= low_mask(b),
            b == 8 || b == 16 || b == 32 || b == 64 || b == 128,
    ;
    lemma_svarint_dec(m, b, neg, rest);
}


/// The number of significant bits of `v`.
pub open spec fn spec_bit_len(v: u128) -> nat
    decreases v,
{
    if v == 0 {
        0
    } else {
        proof {
            lemma_shr1_decreases(v);
        }
        1 + spec_bit_len(v >> 1u32)
    }
}

pub proof fn lemma_shr1_decreases(v: u128)
    ensures
        v != 0 ==> v >> 1u32 < v,
{
    assert(v != 0 ==> v >> 1u32 < v) by (bit_vector);
}

/// A value below `2^k` has at most `k` significant bits.
pub proof fn lemma_bit_len_bound(v: u128, k: u32)
    requires
        k <= 128,
        k == 128 || v >> k == 0,
    ensures
        spec_bit_len(v) <= k,
    decreases v,
{
    if v != 0 {
        lemma_shr1_decreases(v);
        if k < 128 {
            assert(k >= 1 && ((v >> 1u32) >> ((k - 1) as u32)) == 0) by (bit_vector)
                requires
                    v != 0,
                    k < 128,
                    v >> k == 0,
            ;
            lemma_bit_len_bound(v >> 1u32, (k - 1) as u32);
        } else {
            assert(v >> 1u32 >> 127u32 == 0) by (bit_vector);
            lemma_bit_len_bound(v >> 1u32, 127);
        }
    }
}

/// The number of significant bits of `v`.
pub fn bit_len(v: u128) -> (r: u32)
    ensures
        r == spec_bit_len(v),
        r <= 128,
{
    proof {
        lemma_bit_len_bound(v, 128);
    }
    let mut x = v;
    let mut n: u32 = 0;
    while x != 0
        invariant
            n + spec_bit_len(x) == spec_bit_len(v),
            spec_bit_len(v) <= 128,
        decreases x,
    {
        proof {
            lemma_shr1_decreases(x);
        }
        x = x >> 1u32;
        n = n + 1;
    }
    n
}

/// Whether the varint of a value is shorter than its `bytewidth` bytes: the value
/// has `bytewidth * 8 - abs_leading_zeros` significant bits, of which the first
/// varint byte holds 7 (6 for a signed value) and each further byte 7.
pub open spec fn spec_is_varint_better(abs_leading_zeros: nat, bytewidth: nat, signed: bool) -> bool {
    let value_width = bytewidth * 8 - abs_leading_zeros;
    let first_bits: int = if signed {
        6
    } else {
        7
    };
    let rem_value_width: int = if value_width > first_bits {
        value_width - first_bits
    } else {
        0
    };
    let extra_varint_bytes = (rem_value_width + 6) / 7;
    bytewidth > extra_varint_bytes + 1
}

/// Whether a value of `bytewidth` bytes whose magnitude has `abs_leading_zeros`
/// leading zero bits is better written as a varint.
pub fn is_varint_better(abs_leading_zeros: u32, bytewidth: u32, signed: bool) -> (r: bool)
    requires
        bytewidth * 8 <= u32::MAX,
        abs_leading_zeros <= bytewidth * 8,
    ensures
        r == spec_is_varint_better(abs_leading_zeros as nat, bytewidth as nat, signed),
{
    let value_width = bytewidth * 8 - abs_leading_zeros;
    let rem_value_width = if signed {
        value_width.saturating_sub(6)
    } else {
        value_width.saturating_sub(7)
    };
    let extra_varint_bytes = rem_value_width / 7 + if rem_value_width % 7 != 0 {
        1
    } else {
        0
    };
    assert(extra_varint_bytes == (rem_value_width + 6) / 7);
    bytewidth > extra_varint_bytes + 1
}

/// The `n` lowest bytes of `v`, lowest first.
pub open spec fn le_bytes(v: u128, n: nat) -> Seq<u8>
    decreases n,
{
    if n == 0 {
        Seq::empty()
    } else {
        seq![(v & 0xff) as u8] + le_bytes(v >> 8u32, (n - 1) as nat)
    }
}

/// Appends the `n` lowest bytes of `v`, lowest first.
pub fn push_le_bytes(out: &mut Vec<u8>, v: u128, n: usize)
    ensures
        final(out)@ == old(out)@ + le_bytes(v, n as nat),
{
    let mut x = v;
    let mut i: usize = 0;
    while i < n
        invariant
            i <= n,
            old(out)@ + le_bytes(v, n as nat) == out@ + le_bytes(x, (n - i) as nat),
        decreases n - i,
    {
        let ghost w = out@;
        out.push((x & 0xff) as u8);
        proof {
            assert(le_bytes(x, (n - i) as nat) == seq![(x & 0xff) as u8] + le_bytes(
                x >> 8u32,
                (n - i - 1) as nat,
            ));
            assert(w + le_bytes(x, (n - i) as nat) =~= out@ + le_bytes(x >> 8u32, (n - i - 1) as nat));
        }
        x = x >> 8u32;
        i = i + 1;
    }
    assert(le_bytes(x, 0) =~= Seq::<u8>::empty());
    assert(out@ + Seq::<u8>::empty() =~= out@);
}

/// The number of bytes of the varint at the start of `s`; `None` where `s`
/// ends before the varint's last byte.
pub open spec fn varint_len(s: Seq<u8>) -> Option<nat>
    decreases s.len(),
{
    if s.len() == 0 {
        None
    } else if s[0] & 0x80 == 0 {
        Some(1)
    } else {
        match varint_len(s.drop_first()) {
            Some(n) => Some(n + 1),
            None => None,
        }
    }
}

/// The value of the 7-bit groups of the first `j` bytes of `s`, lowest first,
/// of any size.
pub open spec fn groups_value(s: Seq<u8>, j: nat) -> nat
    decreases j,
{
    if j == 0 {
        0
    } else {
        groups_value(s, (j - 1) as nat) + ((s[j - 1] & 0x7f) as nat) * pow2((7 * (j - 1)) as nat)
    }
}

/// The little-endian value of the bytes `b`.
pub open spec fn le_value(b: Seq<u8>) -> nat
    decreases b.len(),
{
    if b.len() == 0 {
        0
    } else {
        b[0] as nat + 256 * le_value(b.drop_first())
    }
}

/// The little-endian bytes of `v` with no zero byte at the end: none for 0.
pub open spec fn min_le_bytes(v: nat) -> Seq<u8>
    decreases v,
{
    if v == 0 {
        Seq::empty()
    } else {
        seq![(v % 256) as u8] + min_le_bytes(v / 256)
    }
}

proof fn lemma_pow2_8_step(n: nat)
    ensures
        pow2(8 * (n + 1)) == 256 * pow2(8 * n),
{
    lemma_pow2_adds(8 * n, 8);
    lemma2_to64();
    assert(8 * (n + 1) == 8 * n + 8) by (nonlinear_arith);
}

/// The value of bytes followed by more bytes.
proof fn lemma_le_value_concat(a: Seq<u8>, c: Seq<u8>)
    ensures
        le_value(a + c) == le_value(a) + le_value(c) * pow2(8 * a.len()),
    decreases a.len(),
{
    if a.len() == 0 {
        assert(a + c =~= c);
        lemma2_to64();
    } else {
        lemma_le_value_concat(a.drop_first(), c);
        assert((a + c).drop_first() =~= a.drop_first() + c);
        lemma_pow2_8_step((a.len() - 1) as nat);
        let p = pow2(8 * (a.len() - 1) as nat);
        assert(256 * (le_value(a.drop_first()) + le_value(c) * p) == 256 * le_value(a.drop_first())
            + le_value(c) * (256 * p)) by (nonlinear_arith);
    }
}

/// Zero bytes and then byte `b` have the value of `b` shifted past them.
proof fn lemma_le_value_zeros_then(z: nat, b: u8)
    ensures
        le_value(Seq::new(z, |i: int| 0u8).push(b)) == (b as nat) * pow2(8 * z),
    decreases z,
{
    let s = Seq::new(z, |i: int| 0u8).push(b);
    if z == 0 {
        lemma2_to64();
        assert(s.drop_first() =~= Seq::<u8>::empty());
        assert(s[0] == b);
        assert(le_value(s) == b as nat + 256 * le_value(s.drop_first()));
    } else {
        assert(s[0] == 0);
        assert(s.drop_first() =~= Seq::new((z - 1) as nat, |i: int| 0u8).push(b));
        lemma_le_value_zeros_then((z - 1) as nat, b);
        lemma_pow2_8_step((z - 1) as nat);
        let p = pow2(8 * (z - 1) as nat);
        assert(256 * ((b as nat) * p) == (b as nat) * (256 * p)) by (nonlinear_arith);
    }
}

/// Bytes with no zero byte at the end are the least little-endian bytes of
/// their value.
proof fn lemma_min_le_bytes_unique(b: Seq<u8>)
    requires
        b.len() == 0 || b.last() != 0,
    ensures
        min_le_bytes(le_value(b)) == b,
    decreases b.len(),
{
    if b.len() > 0 {
        let rest = b.drop_first();
        if rest.len() > 0 {
            assert(rest.last() == b.last());
        }
        lemma_min_le_bytes_unique(rest);
        let v = le_value(b);
        if rest.len() == 0 {
            assert(le_value(rest) == 0);
            assert(b =~= seq![b[0]]);
        } else {
            lemma_le_value_pos(rest);
        }
        assert(v % 256 == b[0] as nat && v / 256 == le_value(rest)) by (nonlinear_arith)
            requires
                v == b[0] as nat + 256 * le_value(rest),
                b[0] < 256,
        ;
        assert(b =~= seq![(v % 256) as u8] + rest);
    }
}

/// Bytes with a nonzero byte at the end have a positive value.
proof fn lemma_le_value_pos(b: Seq<u8>)
    requires
        b.len() > 0,
        b.last() != 0,
    ensures
        le_value(b) > 0,
    decreases b.len(),
{
    if b.len() > 1 {
        assert(b.drop_first().last() == b.last());
        lemma_le_value_pos(b.drop_first());
    }
}

/// Continuation bytes before the end of a varint leave its length to the rest.
proof fn lemma_varint_len_skip(s: Seq<u8>, j: nat)
    requires
        j <= s.len(),
        forall|i: int| 0 <= i < j ==> s[i] & 0x80 != 0,
    ensures
        varint_len(s) == match varint_len(s.skip(j as int)) {
            Some(n) => Some(n + j),
            None => None::<nat>,
        },
    decreases j,
{
    if j > 0 {
        assert(s.drop_first().skip((j - 1) as int) =~= s.skip(j as int));
        lemma_varint_len_skip(s.drop_first(), (j - 1) as nat);
    } else {
        assert(s.skip(0) =~= s);
    }
}

/// A group of 7 bits put above `k` low bits that hold less than `2^k`.
proof fn lemma_add_group(sr: u16, k: u32, d: u8)
    requires
        k <= 7,
        d < 128,
        (sr as nat) < pow2(k as nat),
    ensures
        (sr | ((d as u16) << k)) as nat == sr as nat + (d as nat) * pow2(k as nat),
        ((sr | ((d as u16) << k)) as nat) < pow2((k + 7) as nat),
{
    lemma2_to64();
    lemma_pow2_adds(k as nat, 7);
    assert(pow2(k as nat) <= 128) by {
        if k < 7 {
            lemma_pow2_strictly_increases(k as nat, 7);
        }
    }
    lemma_u16_shl_is_mul(1, k as u16);
    assert((d as nat) * pow2(k as nat) <= 127 * 128) by (nonlinear_arith)
        requires
            d < 128,
            pow2(k as nat) <= 128,
    ;
    lemma_u16_shl_is_mul(d as u16, k as u16);
    assert(((d as u16) << (k as u16)) == ((d as u16) << k)) by (bit_vector)
        requires
            k <= 7,
    ;
    assert((sr | ((d as u16) << k)) == sr + ((d as u16) << k)) by (bit_vector)
        requires
            sr < (1u16 << k),
            k <= 7,
            d < 128,
    ;
    assert(((1u16 << (k as u16)) as nat) == pow2(k as nat));
    assert((1u16 << (k as u16)) == (1u16 << k)) by (bit_vector)
        requires
            k <= 7,
    ;
    assert((sr as nat) + (d as nat) * pow2(k as nat) < pow2(k as nat) * 128) by (nonlinear_arith)
        requires
            (sr as nat) < pow2(k as nat),
            d < 128,
    ;
}

/// Taking the low byte off the bits held.
proof fn lemma_take_byte(sr: u16, k: u32)
    requires
        k <= 14,
        (sr as nat) < pow2(k as nat),
    ensures
        (sr & 0xff) < 256,
        sr as nat == ((sr & 0xff) as nat) + 256 * ((sr >> 8u16) as nat),
        k >= 8 ==> ((sr >> 8u16) as nat) < pow2((k - 8) as nat),
        k < 8 ==> (sr >> 8u16) == 0,
{
    assert(sr == (sr & 0xff) + 256 * (sr >> 8u16) && (sr & 0xff) < 256) by (bit_vector);
    lemma2_to64();
    if k >= 8 {
        lemma_pow2_adds((k - 8) as nat, 8);
        lemma_u16_shr_is_div(sr, 8);
        assert(((sr as nat) / 256) < pow2((k - 8) as nat)) by (nonlinear_arith)
            requires
                (sr as nat) < pow2((k - 8) as nat) * 256,
        ;
    } else {
        assert(pow2(k as nat) <= 128) by {
            if k < 7 {
                lemma_pow2_strictly_increases(k as nat, 7);
            }
        }
        assert(sr < 256 ==> (sr >> 8u16) == 0) by (bit_vector);
    }
}

/// Reads a varint of any length and appends the little-endian bytes of its
/// value to `buf`, without zero bytes at the end; gives their number.
pub fn read_unsigned_varint_bits_le(input: &[u8], pos: &mut usize, buf: &mut Vec<u8>) -> (r: Result<
    usize,
    VarIntReadError,
>)
    requires
        *old(pos) <= input.len(),
    ensures
        *old(pos) <= *final(pos) <= input.len(),
        match varint_len(input@.skip(*old(pos) as int)) {
            Some(n) => {
                let bytes = min_le_bytes(groups_value(input@.skip(*old(pos) as int), n));
                &&& r == Ok::<usize, VarIntReadError>(bytes.len() as usize)
                &&& final(buf)@ == old(buf)@ + bytes
                &&& *final(pos) == *old(pos) + n
            },
            None => r == Err::<usize, VarIntReadError>(VarIntReadError::UnexpectedEof),
        },
{
    let ghost start: int = *pos as int;
    let ghost s = input@.skip(start);
    let ghost b0 = buf@;
    let ghost mut out: Seq<u8> = Seq::empty();
    let mut sr: u16 = 0;
    let mut sr_bits: u32 = 0;
    let mut wrote: usize = 0;
    let mut pending_zeros: usize = 0;
    proof {
        lemma2_to64();
    }
    loop
        invariant_except_break
            forall|i: int| 0 <= i < *pos - start ==> s[i] & 0x80 != 0,
            groups_value(s, (*pos - start) as nat) == le_value(out) + (sr as nat) * pow2(
                (8 * (out.len() + pending_zeros)) as nat,
            ),
            7 * (*pos - start) == 8 * (out.len() + pending_zeros) + sr_bits,
            out.len() + pending_zeros <= *pos - start,
            sr_bits < 8,
            (sr as nat) < pow2(sr_bits as nat),
        invariant
            start <= *pos <= input.len(),
            s == input@.skip(start),
            *old(pos) == start,
            buf@ == b0 + out,
            old(buf)@ == b0,
            wrote == out.len(),
            out.len() == 0 || out.last() != 0,
        ensures
            varint_len(s) == Some((*pos - start) as nat),
            out == min_le_bytes(groups_value(s, (*pos - start) as nat)),
        decreases input.len() - *pos,
    {
        if *pos >= input.len() {
            proof {
                lemma_varint_len_skip(s, (*pos - start) as nat);
                assert(s.skip(*pos - start).len() == 0);
            }
            return Err(VarIntReadError::UnexpectedEof);
        }
        let byte = input[*pos];
        let ghost j: nat = (*pos - start) as nat;
        assert(s[j as int] == byte);
        *pos = *pos + 1;
        let more = (byte & 0x80) != 0;
        let data = byte & 0x7f;
        let ghost sr0 = sr;
        let ghost k0 = sr_bits;
        let ghost p0 = pow2((8 * (out.len() + pending_zeros)) as nat);
        proof {
            assert(data < 128) by (bit_vector)
                requires
                    data == byte & 0x7f,
            ;
            lemma_add_group(sr, sr_bits, data);
            lemma_pow2_adds((8 * (out.len() + pending_zeros)) as nat, sr_bits as nat);
            assert(groups_value(s, j + 1) == groups_value(s, j) + (data as nat) * pow2(
                (7 * j) as nat,
            ));
        }
        sr = sr | ((data as u16) << sr_bits);
        sr_bits = sr_bits + 7;
        proof {
            assert(groups_value(s, j + 1) == le_value(out) + (sr as nat) * p0) by (nonlinear_arith)
                requires
                    groups_value(s, j + 1) == groups_value(s, j) + (data as nat) * pow2(
                        (7 * j) as nat,
                    ),
                    groups_value(s, j) == le_value(out) + (sr0 as nat) * p0,
                    pow2((7 * j) as nat) == p0 * pow2(k0 as nat),
                    sr as nat == sr0 as nat + (data as nat) * pow2(k0 as nat),
            ;
        }
        while sr_bits >= 8 || (!more && sr_bits > 0)
            invariant
                buf@ == b0 + out,
                wrote == out.len(),
                out.len() == 0 || out.last() != 0,
                out.len() + pending_zeros <= *pos - start,
                *pos - start == j + 1,
                0 <= start,
                *pos <= input.len(),
                groups_value(s, j + 1) == le_value(out) + (sr as nat) * pow2(
                    (8 * (out.len() + pending_zeros)) as nat,
                ),
                more ==> 7 * (j + 1) == 8 * (out.len() + pending_zeros) + sr_bits,
                !more ==> (7 * (j + 1) == 8 * (out.len() + pending_zeros) + sr_bits
                    || sr_bits == 0),
                sr_bits <= 14,
                (sr as nat) < pow2(sr_bits as nat),
            decreases sr_bits,
        {
            let b = (sr & 0xff) as u8;
            let ghost p = pow2((8 * (out.len() + pending_zeros)) as nat);
            proof {
                lemma_take_byte(sr, sr_bits);
                lemma_pow2_8_step((out.len() + pending_zeros) as nat);
                let a = out.len() + pending_zeros;
                assert(a + 1 <= j + 1) by (nonlinear_arith)
                    requires
                        7 * (j + 1) == 8 * a + sr_bits,
                        sr_bits >= 1,
                ;
            }
            if b == 0 {
                pending_zeros = pending_zeros + 1;
                proof {
                    assert((sr as nat) * p == ((sr >> 8u16) as nat) * (256 * p)) by (nonlinear_arith)
                        requires
                            sr as nat == 256 * ((sr >> 8u16) as nat),
                    ;
                }
            } else {
                let ghost zb = Seq::new(pending_zeros as nat, |i: int| 0u8).push(b);
                let mut k: usize = 0;
                while k < pending_zeros
                    invariant
                        k <= pending_zeros,
                        buf@ == b0 + out + Seq::new(k as nat, |i: int| 0u8),
                    decreases pending_zeros - k,
                {
                    buf.push(0);
                    k = k + 1;
                    assert(buf@ =~= b0 + out + Seq::new(k as nat, |i: int| 0u8));
                }
                buf.push(b);
                proof {
                    assert(buf@ =~= b0 + (out + zb));
                    lemma_le_value_concat(out, zb);
                    lemma_le_value_zeros_then(pending_zeros as nat, b);
                    lemma_pow2_adds(8 * out.len(), (8 * pending_zeros) as nat);
                    let q = pow2(8 * out.len());
                    let z8 = pow2((8 * pending_zeros) as nat);
                    assert(8 * out.len() + 8 * pending_zeros == 8 * (out.len() + pending_zeros));
                    assert(le_value(out + zb) + ((sr >> 8u16) as nat) * (256 * p) == le_value(out)
                        + (sr as nat) * p) by (nonlinear_arith)
                        requires
                            le_value(out + zb) == le_value(out) + le_value(zb) * q,
                            le_value(zb) == (b as nat) * z8,
                            p == z8 * q,
                            sr as nat == (b as nat) + 256 * ((sr >> 8u16) as nat),
                    ;
                    assert((out + zb).last() == b);
                    out = out + zb;
                }
                wrote = wrote + pending_zeros + 1;
                pending_zeros = 0;
            }
            sr_bits = if sr_bits >= 8 {
                sr_bits - 8
            } else {
                0
            };
            sr = sr >> 8u16;
            proof {
                lemma2_to64();
            }
        }
        if !more {
            proof {
                lemma2_to64();
                assert(sr == 0);
                lemma_min_le_bytes_unique(out);
                lemma_varint_len_skip(s, j);
                assert(s.skip(j as int)[0] == byte);
                assert(varint_len(s.skip(j as int)) == Some(1nat));
            }
            break;
        }
    }
    proof {
        assert(out.len() <= usize::MAX) by {
            assert(buf@.len() == b0.len() + out.len());
        }
    }
    Ok(wrote)
}

} // verus!
