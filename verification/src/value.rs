//! The typed value model.
//!
//! A scan works over one of ten numeric representations: unsigned and
//! signed integers of 8, 16, 32 and 64 bits, and floating-point numbers
//! of 32 and 64 bits.  Floating-point values are carried as their raw
//! little-endian bit patterns; the library never performs floating-point
//! arithmetic, and the embedder converts bits to numbers only to print
//! them.

use vstd::prelude::*;
use vstd::bytes::*;
use crate::Error;

verus! {

/// One candidate value, tagged with its representation.
///
/// The two floating-point variants hold the raw bits of the encoding.
#[derive(Debug, Clone, Copy, PartialEq, Eq, Structural)]
pub enum Value {
    F32(u32),
    F64(u64),
    U8(u8),
    U16(u16),
    U32(u32),
    U64(u64),
    I8(i8),
    I16(i16),
    I32(i32),
    I64(i64),
}

impl Value {
    /// Width in bytes of the value's memory representation.
    pub open spec fn spec_bytes(self) -> nat {
        match self {
            Value::F32(_) => 4,
            Value::F64(_) => 8,
            Value::U8(_) => 1,
            Value::U16(_) => 2,
            Value::U32(_) => 4,
            Value::U64(_) => 8,
            Value::I8(_) => 1,
            Value::I16(_) => 2,
            Value::I32(_) => 4,
            Value::I64(_) => 8,
        }
    }

    /// True when the two values carry the same representation.
    pub open spec fn same_kind(self, other: Value) -> bool {
        match (self, other) {
            (Value::F32(_), Value::F32(_)) => true,
            (Value::F64(_), Value::F64(_)) => true,
            (Value::U8(_), Value::U8(_)) => true,
            (Value::U16(_), Value::U16(_)) => true,
            (Value::U32(_), Value::U32(_)) => true,
            (Value::U64(_), Value::U64(_)) => true,
            (Value::I8(_), Value::I8(_)) => true,
            (Value::I16(_), Value::I16(_)) => true,
            (Value::I32(_), Value::I32(_)) => true,
            (Value::I64(_), Value::I64(_)) => true,
            _ => false,
        }
    }

    /// The value's little-endian encoding.
    pub open spec fn spec_encode(self) -> Seq<u8> {
        match self {
            Value::F32(x) => spec_u32_to_le_bytes(x),
            Value::F64(x) => spec_u64_to_le_bytes(x),
            Value::U8(x) => seq![x],
            Value::U16(x) => spec_u16_to_le_bytes(x),
            Value::U32(x) => spec_u32_to_le_bytes(x),
            Value::U64(x) => spec_u64_to_le_bytes(x),
            Value::I8(x) => seq![x as u8],
            Value::I16(x) => spec_u16_to_le_bytes(x as u16),
            Value::I32(x) => spec_u32_to_le_bytes(x as u32),
            Value::I64(x) => spec_u64_to_le_bytes(x as u64),
        }
    }

    /// The value decoded from a little-endian chunk, in the
    /// representation that `kind` carries.
    pub open spec fn spec_decode(kind: Value, s: Seq<u8>) -> Value {
        match kind {
            Value::F32(_) => Value::F32(spec_u32_from_le_bytes(s)),
            Value::F64(_) => Value::F64(spec_u64_from_le_bytes(s)),
            Value::U8(_) => Value::U8(s[0]),
            Value::U16(_) => Value::U16(spec_u16_from_le_bytes(s)),
            Value::U32(_) => Value::U32(spec_u32_from_le_bytes(s)),
            Value::U64(_) => Value::U64(spec_u64_from_le_bytes(s)),
            Value::I8(_) => Value::I8(s[0] as i8),
            Value::I16(_) => Value::I16(spec_u16_from_le_bytes(s) as i16),
            Value::I32(_) => Value::I32(spec_u32_from_le_bytes(s) as i32),
            Value::I64(_) => Value::I64(spec_u64_from_le_bytes(s) as i64),
        }
    }

    /// The value's bits widened into a `u64`, as used for
    /// pointer-candidacy probes.
    pub open spec fn spec_as_u64(self) -> u64 {
        match self {
            Value::F32(x) => x as u64,
            Value::F64(x) => x,
            Value::U8(x) => x as u64,
            Value::U16(x) => x as u64,
            Value::U32(x) => x as u64,
            Value::U64(x) => x,
            Value::I8(x) => x as u64,
            Value::I16(x) => x as u64,
            Value::I32(x) => x as u64,
            Value::I64(x) => x as u64,
        }
    }

    /// Creates the zero value of the representation named by a single
    /// case-sensitive type code, or reports an unknown code.
    pub fn default_from_letter(chr: char) -> (r: crate::Result<Value>)
        ensures
            match r {
                Ok(v) => {
                    &&& chr == 'f' ==> v == Value::F32(0u32)
                    &&& chr == 'F' ==> v == Value::F64(0u64)
                    &&& chr == 'b' ==> v == Value::U8(0u8)
                    &&& chr == 'w' ==> v == Value::U16(0u16)
                    &&& chr == 'd' ==> v == Value::U32(0u32)
                    &&& chr == 'q' ==> v == Value::U64(0u64)
                    &&& chr == 'B' ==> v == Value::I8(0i8)
                    &&& chr == 'W' ==> v == Value::I16(0i16)
                    &&& chr == 'D' ==> v == Value::I32(0i32)
                    &&& chr == 'Q' ==> v == Value::I64(0i64)
                    &&& (chr == 'f' || chr == 'F' || chr == 'b' || chr == 'w' || chr == 'd'
                        || chr == 'q' || chr == 'B' || chr == 'W' || chr == 'D' || chr == 'Q')
                },
                Err(e) => {
                    &&& e == Error::UnknownTypeCode
                    &&& !(chr == 'f' || chr == 'F' || chr == 'b' || chr == 'w' || chr == 'd'
                        || chr == 'q' || chr == 'B' || chr == 'W' || chr == 'D' || chr == 'Q')
                },
            },
    {
        match chr {
            'f' => Ok(Value::F32(0)),
            'F' => Ok(Value::F64(0)),
            'b' => Ok(Value::U8(0)),
            'w' => Ok(Value::U16(0)),
            'd' => Ok(Value::U32(0)),
            'q' => Ok(Value::U64(0)),
            'B' => Ok(Value::I8(0)),
            'W' => Ok(Value::I16(0)),
            'D' => Ok(Value::I32(0)),
            'Q' => Ok(Value::I64(0)),
            _ => Err(Error::UnknownTypeCode),
        }
    }

    /// Width in bytes of the value's memory representation.
    pub fn bytes(&self) -> (r: usize)
        ensures
            r as nat == self.spec_bytes(),
            1 <= r <= 8,
    {
        match self {
            Value::F32(_) => 4,
            Value::F64(_) => 8,
            Value::U8(_) => 1,
            Value::U16(_) => 2,
            Value::U32(_) => 4,
            Value::U64(_) => 8,
            Value::I8(_) => 1,
            Value::I16(_) => 2,
            Value::I32(_) => 4,
            Value::I64(_) => 8,
        }
    }

    /// Fixed display width in characters: zero-padded hexadecimal for
    /// unsigned values, sign-and-digits decimal for signed values, and a
    /// fixed six-decimal field for floating-point values.
    pub fn display(&self) -> (r: usize)
        ensures
            match *self {
                Value::F32(_) => r == 25,
                Value::F64(_) => r == 25,
                Value::U8(_) => r == 2,
                Value::U16(_) => r == 4,
                Value::U32(_) => r == 8,
                Value::U64(_) => r == 16,
                Value::I8(_) => r == 4,
                Value::I16(_) => r == 6,
                Value::I32(_) => r == 11,
                Value::I64(_) => r == 21,
            },
    {
        match self {
            Value::F32(_) => 25,
            Value::F64(_) => 25,
            Value::U8(_) => 2,
            Value::U16(_) => 4,
            Value::U32(_) => 8,
            Value::U64(_) => 16,
            Value::I8(_) => 4,
            Value::I16(_) => 6,
            Value::I32(_) => 11,
            Value::I64(_) => 21,
        }
    }

    /// The value's bits widened into a `u64` for pointer-candidacy
    /// probes; signed values sign-extend, floating-point values give
    /// their raw bits.
    pub fn as_u64(&self) -> (r: u64)
        ensures
            r == self.spec_as_u64(),
    {
        match self {
            Value::F32(x) => *x as u64,
            Value::F64(x) => *x,
            Value::U8(x) => *x as u64,
            Value::U16(x) => *x as u64,
            Value::U32(x) => *x as u64,
            Value::U64(x) => *x,
            Value::I8(x) => *x as u64,
            Value::I16(x) => *x as u64,
            Value::I32(x) => *x as u64,
            Value::I64(x) => *x as u64,
        }
    }

    /// Encodes the value into its little-endian bytes.
    pub fn encode_le(&self) -> (r: Vec<u8>)
        ensures
            r@ == self.spec_encode(),
            r@.len() == self.spec_bytes(),
    {
        proof {
            lemma_auto_spec_u16_to_from_le_bytes();
            lemma_auto_spec_u32_to_from_le_bytes();
            lemma_auto_spec_u64_to_from_le_bytes();
        }
        match self {
            Value::F32(x) => u32_to_le_bytes(*x),
            Value::F64(x) => u64_to_le_bytes(*x),
            Value::U8(x) => {
                let mut v: Vec<u8> = Vec::new();
                v.push(*x);
                proof {
                    assert(v@ =~= seq![*x]);
                }
                v
            },
            Value::U16(x) => u16_to_le_bytes(*x),
            Value::U32(x) => u32_to_le_bytes(*x),
            Value::U64(x) => u64_to_le_bytes(*x),
            Value::I8(x) => {
                let mut v: Vec<u8> = Vec::new();
                v.push(*x as u8);
                proof {
                    assert(v@ =~= seq![*x as u8]);
                }
                v
            },
            Value::I16(x) => u16_to_le_bytes(*x as u16),
            Value::I32(x) => u32_to_le_bytes(*x as u32),
            Value::I64(x) => u64_to_le_bytes(*x as u64),
        }
    }

    /// Replaces the value in place with the one decoded from a
    /// little-endian chunk, keeping the representation.
    ///
    /// The scan engine reuses one `Value` per chunk to avoid allocating
    /// for every candidate.
    pub fn from_le_bytes(&mut self, bytes: &[u8])
        requires
            bytes@.len() == old(self).spec_bytes(),
        ensures
            *final(self) == Value::spec_decode(*old(self), bytes@),
    {
        match self {
            Value::F32(val) => {
                *val = u32_from_le_bytes(bytes);
            },
            Value::F64(val) => {
                *val = u64_from_le_bytes(bytes);
            },
            Value::U8(val) => {
                *val = bytes[0];
            },
            Value::U16(val) => {
                *val = u16_from_le_bytes(bytes);
            },
            Value::U32(val) => {
                *val = u32_from_le_bytes(bytes);
            },
            Value::U64(val) => {
                *val = u64_from_le_bytes(bytes);
            },
            Value::I8(val) => {
                *val = bytes[0] as i8;
            },
            Value::I16(val) => {
                *val = u16_from_le_bytes(bytes) as i16;
            },
            Value::I32(val) => {
                *val = u32_from_le_bytes(bytes) as i32;
            },
            Value::I64(val) => {
                *val = u64_from_le_bytes(bytes) as i64;
            },
        }
    }

    /// Decodes a little-endian chunk in the representation of `kind`.
    pub fn decode_le(kind: Value, bytes: &[u8]) -> (r: Value)
        requires
            bytes@.len() == kind.spec_bytes(),
        ensures
            r == Value::spec_decode(kind, bytes@),
    {
        let mut v = kind;
        v.from_le_bytes(bytes);
        v
    }

    /// The value parsed from a token in the representation of `kind`:
    /// signed representations read a signed literal, unsigned ones an
    /// unsigned literal, both within the width.  The floating-point
    /// representations are declined: their literals are parsed by the
    /// embedder, which hands the bits over.
    pub open spec fn spec_update(kind: Value, s: Seq<u8>) -> crate::Result<Value> {
        match kind {
            Value::F32(_) => Err(Error::ParseFloat),
            Value::F64(_) => Err(Error::ParseFloat),
            Value::U8(_) => match crate::num::unsigned_val(s) {
                Some(v) => if 0 <= v <= u8::MAX {
                    Ok(Value::U8(v as u8))
                } else {
                    Err(Error::ParseUnsigned)
                },
                None => Err(Error::ParseUnsigned),
            },
            Value::U16(_) => match crate::num::unsigned_val(s) {
                Some(v) => if 0 <= v <= u16::MAX {
                    Ok(Value::U16(v as u16))
                } else {
                    Err(Error::ParseUnsigned)
                },
                None => Err(Error::ParseUnsigned),
            },
            Value::U32(_) => match crate::num::unsigned_val(s) {
                Some(v) => if 0 <= v <= u32::MAX {
                    Ok(Value::U32(v as u32))
                } else {
                    Err(Error::ParseUnsigned)
                },
                None => Err(Error::ParseUnsigned),
            },
            Value::U64(_) => match crate::num::unsigned_val(s) {
                Some(v) => if 0 <= v <= u64::MAX {
                    Ok(Value::U64(v as u64))
                } else {
                    Err(Error::ParseUnsigned)
                },
                None => Err(Error::ParseUnsigned),
            },
            Value::I8(_) => match crate::num::signed_val(s) {
                Some(v) => if i8::MIN <= v <= i8::MAX {
                    Ok(Value::I8(v as i8))
                } else {
                    Err(Error::ParseSigned)
                },
                None => Err(Error::ParseSigned),
            },
            Value::I16(_) => match crate::num::signed_val(s) {
                Some(v) => if i16::MIN <= v <= i16::MAX {
                    Ok(Value::I16(v as i16))
                } else {
                    Err(Error::ParseSigned)
                },
                None => Err(Error::ParseSigned),
            },
            Value::I32(_) => match crate::num::signed_val(s) {
                Some(v) => if i32::MIN <= v <= i32::MAX {
                    Ok(Value::I32(v as i32))
                } else {
                    Err(Error::ParseSigned)
                },
                None => Err(Error::ParseSigned),
            },
            Value::I64(_) => match crate::num::signed_val(s) {
                Some(v) => if i64::MIN <= v <= i64::MAX {
                    Ok(Value::I64(v as i64))
                } else {
                    Err(Error::ParseSigned)
                },
                None => Err(Error::ParseSigned),
            },
        }
    }

    /// Replaces the value in place with one parsed from a token, keeping
    /// the representation; see [`Value::spec_update`].
    pub fn update_str(&mut self, s: &[u8]) -> (r: crate::Result<()>)
        ensures
            match Value::spec_update(*old(self), s@) {
                Ok(v) => r == Ok::<(), Error>(()) && *final(self) == v,
                Err(e) => r == crate::Result::<()>::Err(e) && *final(self) == *old(self),
            },
    {
        match self {
            Value::F32(_) => Err(Error::ParseFloat),
            Value::F64(_) => Err(Error::ParseFloat),
            Value::U8(val) => {
                let v = crate::num::parse_u64(s)?;
                if v > u8::MAX as u64 {
                    Err(Error::ParseUnsigned)
                } else {
                    *val = v as u8;
                    Ok(())
                }
            },
            Value::U16(val) => {
                let v = crate::num::parse_u64(s)?;
                if v > u16::MAX as u64 {
                    Err(Error::ParseUnsigned)
                } else {
                    *val = v as u16;
                    Ok(())
                }
            },
            Value::U32(val) => {
                let v = crate::num::parse_u64(s)?;
                if v > u32::MAX as u64 {
                    Err(Error::ParseUnsigned)
                } else {
                    *val = v as u32;
                    Ok(())
                }
            },
            Value::U64(val) => {
                let v = crate::num::parse_u64(s)?;
                *val = v;
                Ok(())
            },
            Value::I8(val) => {
                let v = crate::num::parse_i64(s)?;
                if v < i8::MIN as i64 || v > i8::MAX as i64 {
                    Err(Error::ParseSigned)
                } else {
                    *val = v as i8;
                    Ok(())
                }
            },
            Value::I16(val) => {
                let v = crate::num::parse_i64(s)?;
                if v < i16::MIN as i64 || v > i16::MAX as i64 {
                    Err(Error::ParseSigned)
                } else {
                    *val = v as i16;
                    Ok(())
                }
            },
            Value::I32(val) => {
                let v = crate::num::parse_i64(s)?;
                if v < i32::MIN as i64 || v > i32::MAX as i64 {
                    Err(Error::ParseSigned)
                } else {
                    *val = v as i32;
                    Ok(())
                }
            },
            Value::I64(val) => {
                let v = crate::num::parse_i64(s)?;
                *val = v;
                Ok(())
            },
        }
    }
}

/// Decoding an encoded value gives the value back: the codec loses
/// nothing for any of the ten representations.
pub proof fn lemma_value_round_trip(v: Value)
    ensures
        Value::spec_decode(v, v.spec_encode()) == v,
{
    lemma_auto_spec_u16_to_from_le_bytes();
    lemma_auto_spec_u32_to_from_le_bytes();
    lemma_auto_spec_u64_to_from_le_bytes();
    match v {
        Value::F32(x) => {
            assert(spec_u32_to_le_bytes(x).len() == 2 + 2);
        },
        Value::F64(x) => {
            assert(spec_u64_to_le_bytes(x).len() == 4 + 4);
        },
        Value::U8(x) => {
            assert(seq![x][0] == x);
        },
        Value::U16(x) => {
            assert(spec_u16_to_le_bytes(x).len() == 2);
        },
        Value::U32(x) => {
            assert(spec_u32_to_le_bytes(x).len() == 2 + 2);
        },
        Value::U64(x) => {
            assert(spec_u64_to_le_bytes(x).len() == 4 + 4);
        },
        Value::I8(x) => {
            assert((x as u8) as i8 == x) by (bit_vector);
            assert(seq![x as u8][0] == x as u8);
        },
        Value::I16(x) => {
            assert(spec_u16_to_le_bytes(x as u16).len() == 2);
            assert(((x as u16) as i16) == x) by (bit_vector);
        },
        Value::I32(x) => {
            assert(spec_u32_to_le_bytes(x as u32).len() == 2 + 2);
            assert(((x as u32) as i32) == x) by (bit_vector);
        },
        Value::I64(x) => {
            assert(spec_u64_to_le_bytes(x as u64).len() == 4 + 4);
            assert(((x as u64) as i64) == x) by (bit_vector);
        },
    }
}

} // verus!
