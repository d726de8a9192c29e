//! The instruction set, the scalar values and the byte encoding of operands.
use vstd::bytes::{
    lemma_auto_spec_u32_to_from_le_bytes, lemma_auto_spec_u64_to_from_le_bytes,
    spec_u32_from_le_bytes, spec_u32_to_le_bytes, spec_u64_from_le_bytes, spec_u64_to_le_bytes,
    u32_from_le_bytes, u32_to_le_bytes, u64_from_le_bytes, u64_to_le_bytes,
};
use vstd::prelude::*;
use vstd::slice::slice_subrange;

verus! {

/// Offset into the working memory of the machine.
pub type TPointer = u32;

/// One instruction of the stack machine. Each is one byte on the wire.
#[derive(Clone, Copy, Debug, PartialEq, Eq, Structural, Hash)]
pub enum Instruction {
    /// Add two integers.
    AddInt,
    /// Subtract two integers.
    SubInt,
    /// Add two floats.
    AddFloat,
    /// Subtract two floats.
    SubFloat,
    /// Multiply two integers.
    Mul,
    /// Multiply two floats.
    MulFloat,
    /// Divide two integers.
    Div,
    /// Divide two floats.
    DivFloat,
    /// Call a function by name.
    Call,
    /// Push an integer.
    LiteralInt,
    /// Push a float.
    LiteralFloat,
    /// Push a pointer.
    LiteralPtr,
    /// Push the length of an array.
    LiteralArray,
    /// Do nothing.
    Pass,
    /// Push a copy of the top of the stack.
    CopyLast,
}

impl Instruction {
    /// The byte that stands for the instruction.
    pub open spec fn byte(self) -> u8 {
        match self {
            Instruction::AddInt => 1,
            Instruction::SubInt => 2,
            Instruction::AddFloat => 3,
            Instruction::SubFloat => 4,
            Instruction::Mul => 5,
            Instruction::MulFloat => 6,
            Instruction::Div => 7,
            Instruction::DivFloat => 8,
            Instruction::Call => 9,
            Instruction::LiteralInt => 10,
            Instruction::LiteralFloat => 11,
            Instruction::LiteralPtr => 12,
            Instruction::LiteralArray => 13,
            Instruction::Pass => 14,
            Instruction::CopyLast => 15,
        }
    }

    /// The instruction that a byte stands for, if any.
    pub open spec fn of_byte(b: u8) -> Option<Instruction> {
        if b == 1 {
            Some(Instruction::AddInt)
        } else if b == 2 {
            Some(Instruction::SubInt)
        } else if b == 3 {
            Some(Instruction::AddFloat)
        } else if b == 4 {
            Some(Instruction::SubFloat)
        } else if b == 5 {
            Some(Instruction::Mul)
        } else if b == 6 {
            Some(Instruction::MulFloat)
        } else if b == 7 {
            Some(Instruction::Div)
        } else if b == 8 {
            Some(Instruction::DivFloat)
        } else if b == 9 {
            Some(Instruction::Call)
        } else if b == 10 {
            Some(Instruction::LiteralInt)
        } else if b == 11 {
            Some(Instruction::LiteralFloat)
        } else if b == 12 {
            Some(Instruction::LiteralPtr)
        } else if b == 13 {
            Some(Instruction::LiteralArray)
        } else if b == 14 {
            Some(Instruction::Pass)
        } else if b == 15 {
            Some(Instruction::CopyLast)
        } else {
            None
        }
    }

    pub fn opcode(self) -> (b: u8)
        ensures
            b == self.byte(),
    {
        match self {
            Instruction::AddInt => 1,
            Instruction::SubInt => 2,
            Instruction::AddFloat => 3,
            Instruction::SubFloat => 4,
            Instruction::Mul => 5,
            Instruction::MulFloat => 6,
            Instruction::Div => 7,
            Instruction::DivFloat => 8,
            Instruction::Call => 9,
            Instruction::LiteralInt => 10,
            Instruction::LiteralFloat => 11,
            Instruction::LiteralPtr => 12,
            Instruction::LiteralArray => 13,
            Instruction::Pass => 14,
            Instruction::CopyLast => 15,
        }
    }

    pub fn from_byte(b: u8) -> (r: Option<Instruction>)
        ensures
            r == Self::of_byte(b),
    {
        match b {
            1 => Some(Instruction::AddInt),
            2 => Some(Instruction::SubInt),
            3 => Some(Instruction::AddFloat),
            4 => Some(Instruction::SubFloat),
            5 => Some(Instruction::Mul),
            6 => Some(Instruction::MulFloat),
            7 => Some(Instruction::Div),
            8 => Some(Instruction::DivFloat),
            9 => Some(Instruction::Call),
            10 => Some(Instruction::LiteralInt),
            11 => Some(Instruction::LiteralFloat),
            12 => Some(Instruction::LiteralPtr),
            13 => Some(Instruction::LiteralArray),
            14 => Some(Instruction::Pass),
            15 => Some(Instruction::CopyLast),
            _ => None,
        }
    }
}

/// Every instruction is read back from its byte, and a byte that stands for
/// an instruction is the byte of that instruction.
pub proof fn lemma_opcode_round_trip(i: Instruction, b: u8)
    ensures
        Instruction::of_byte(i.byte()) == Some(i),
        Instruction::of_byte(b) is Some ==> Instruction::of_byte(b)->0.byte() == b,
{
}

/// Kind of a scalar value.
#[derive(Clone, Copy, Debug, PartialEq, Eq, Structural, Hash)]
pub enum ValueTag {
    Int,
    Float,
    Ptr,
}

/// A scalar value of the machine. A float is held by its IEEE-754 bits.
#[derive(Clone, Copy, Debug, PartialEq, Eq, Structural, Hash)]
pub enum Value {
    IValue(i64),
    FValue(u64),
    Pointer(TPointer),
}

impl Value {
    pub open spec fn tag_spec(self) -> ValueTag {
        match self {
            Value::IValue(_) => ValueTag::Int,
            Value::FValue(_) => ValueTag::Float,
            Value::Pointer(_) => ValueTag::Ptr,
        }
    }

    pub fn tag(&self) -> (t: ValueTag)
        ensures
            t == self.tag_spec(),
    {
        match self {
            Value::IValue(_) => ValueTag::Int,
            Value::FValue(_) => ValueTag::Float,
            Value::Pointer(_) => ValueTag::Ptr,
        }
    }
}

/// The two's complement of a 64-bit integer.
pub open spec fn i64_bits(v: i64) -> u64 {
    if v >= 0 {
        v as u64
    } else {
        (v + 0x1_0000_0000_0000_0000) as u64
    }
}

/// The 64-bit integer with the given two's complement.
pub open spec fn i64_of_bits(b: u64) -> i64 {
    if b < 0x8000_0000_0000_0000 {
        b as i64
    } else {
        (b - 0x1_0000_0000_0000_0000) as i64
    }
}

/// The two's complement of a 32-bit integer.
pub open spec fn i32_bits(v: i32) -> u32 {
    if v >= 0 {
        v as u32
    } else {
        (v + 0x1_0000_0000) as u32
    }
}

/// The 32-bit integer with the given two's complement.
pub open spec fn i32_of_bits(b: u32) -> i32 {
    if b < 0x8000_0000 {
        b as i32
    } else {
        (b - 0x1_0000_0000) as i32
    }
}

pub fn i64_to_bits(v: i64) -> (b: u64)
    ensures
        b == i64_bits(v),
{
    if v >= 0 {
        v as u64
    } else {
        let low: u64 = (v + i64::MAX + 1) as u64;
        low + 0x8000_0000_0000_0000
    }
}

pub fn i64_from_bits(b: u64) -> (v: i64)
    ensures
        v == i64_of_bits(b),
{
    if b < 0x8000_0000_0000_0000 {
        b as i64
    } else {
        let low: i64 = (b - 0x8000_0000_0000_0000) as i64;
        low - i64::MAX - 1
    }
}

pub fn i32_to_bits(v: i32) -> (b: u32)
    ensures
        b == i32_bits(v),
{
    if v >= 0 {
        v as u32
    } else {
        let low: u32 = (v + i32::MAX + 1) as u32;
        low + 0x8000_0000
    }
}

pub fn i32_from_bits(b: u32) -> (v: i32)
    ensures
        v == i32_of_bits(b),
{
    if b < 0x8000_0000 {
        b as i32
    } else {
        let low: i32 = (b - 0x8000_0000) as i32;
        low - i32::MAX - 1
    }
}

/// A type whose values have a byte encoding of bounded length.
///
/// `Model` is what a value is in contracts. Every model that is `encodable`
/// is read back from its encoding, whatever follows it in the buffer.
pub trait ByteEncodeProperties: Sized {
    type Model;

    spec fn model(&self) -> Self::Model;

    /// The models that values of the type can have.
    spec fn encodable(m: Self::Model) -> bool;

    spec fn encoding(m: Self::Model) -> Seq<u8>;

    spec fn decoding(bytes: Seq<u8>) -> Option<Self::Model>;

    /// The greatest length of an encoding.
    spec fn max_len() -> nat;

    fn bytelen() -> (n: usize)
        ensures
            n == Self::max_len(),
    ;

    fn encode(self) -> (bytes: Vec<u8>)
        ensures
            bytes@ == Self::encoding(self.model()),
            bytes@.len() <= Self::max_len(),
    ;

    fn decode(bytes: &[u8]) -> (r: Option<Self>)
        ensures
            r is Some <==> Self::decoding(bytes@) is Some,
            r is Some ==> Self::decoding(bytes@) == Some(r->0.model()) && Self::encodable(
                r->0.model(),
            ),
    ;

    proof fn lemma_round_trip(m: Self::Model, rest: Seq<u8>)
        requires
            Self::encodable(m),
        ensures
            Self::decoding(Self::encoding(m) + rest) == Some(m),
            Self::encoding(m).len() <= Self::max_len(),
    ;
}

impl ByteEncodeProperties for u32 {
    type Model = u32;

    open spec fn model(&self) -> u32 {
        *self
    }

    open spec fn encodable(m: u32) -> bool {
        true
    }

    open spec fn encoding(m: u32) -> Seq<u8> {
        spec_u32_to_le_bytes(m)
    }

    open spec fn decoding(bytes: Seq<u8>) -> Option<u32> {
        if bytes.len() < 4 {
            None
        } else {
            Some(spec_u32_from_le_bytes(bytes.subrange(0, 4)))
        }
    }

    open spec fn max_len() -> nat {
        4
    }

    fn bytelen() -> (n: usize) {
        4
    }

    fn encode(self) -> (bytes: Vec<u8>) {
        u32_to_le_bytes(self)
    }

    fn decode(bytes: &[u8]) -> (r: Option<Self>) {
        if bytes.len() < 4 {
            None
        } else {
            Some(u32_from_le_bytes(slice_subrange(bytes, 0, 4)))
        }
    }

    proof fn lemma_round_trip(m: u32, rest: Seq<u8>) {
        lemma_auto_spec_u32_to_from_le_bytes();
        assert((spec_u32_to_le_bytes(m) + rest).subrange(0, 4) =~= spec_u32_to_le_bytes(m));
    }
}

impl ByteEncodeProperties for u64 {
    type Model = u64;

    open spec fn model(&self) -> u64 {
        *self
    }

    open spec fn encodable(m: u64) -> bool {
        true
    }

    open spec fn encoding(m: u64) -> Seq<u8> {
        spec_u64_to_le_bytes(m)
    }

    open spec fn decoding(bytes: Seq<u8>) -> Option<u64> {
        if bytes.len() < 8 {
            None
        } else {
            Some(spec_u64_from_le_bytes(bytes.subrange(0, 8)))
        }
    }

    open spec fn max_len() -> nat {
        8
    }

    fn bytelen() -> (n: usize) {
        8
    }

    fn encode(self) -> (bytes: Vec<u8>) {
        u64_to_le_bytes(self)
    }

    fn decode(bytes: &[u8]) -> (r: Option<Self>) {
        if bytes.len() < 8 {
            None
        } else {
            Some(u64_from_le_bytes(slice_subrange(bytes, 0, 8)))
        }
    }

    proof fn lemma_round_trip(m: u64, rest: Seq<u8>) {
        lemma_auto_spec_u64_to_from_le_bytes();
        assert((spec_u64_to_le_bytes(m) + rest).subrange(0, 8) =~= spec_u64_to_le_bytes(m));
    }
}

impl ByteEncodeProperties for i32 {
    type Model = i32;

    open spec fn model(&self) -> i32 {
        *self
    }

    open spec fn encodable(m: i32) -> bool {
        true
    }

    open spec fn encoding(m: i32) -> Seq<u8> {
        spec_u32_to_le_bytes(i32_bits(m))
    }

    open spec fn decoding(bytes: Seq<u8>) -> Option<i32> {
        if bytes.len() < 4 {
            None
        } else {
            Some(i32_of_bits(spec_u32_from_le_bytes(bytes.subrange(0, 4))))
        }
    }

    open spec fn max_len() -> nat {
        4
    }

    fn bytelen() -> (n: usize) {
        4
    }

    fn encode(self) -> (bytes: Vec<u8>) {
        u32_to_le_bytes(i32_to_bits(self))
    }

    fn decode(bytes: &[u8]) -> (r: Option<Self>) {
        if bytes.len() < 4 {
            None
        } else {
            Some(i32_from_bits(u32_from_le_bytes(slice_subrange(bytes, 0, 4))))
        }
    }

    proof fn lemma_round_trip(m: i32, rest: Seq<u8>) {
        lemma_auto_spec_u32_to_from_le_bytes();
        assert((spec_u32_to_le_bytes(i32_bits(m)) + rest).subrange(0, 4) =~= spec_u32_to_le_bytes(
            i32_bits(m),
        ));
    }
}

impl ByteEncodeProperties for i64 {
    type Model = i64;

    open spec fn model(&self) -> i64 {
        *self
    }

    open spec fn encodable(m: i64) -> bool {
        true
    }

    open spec fn encoding(m: i64) -> Seq<u8> {
        spec_u64_to_le_bytes(i64_bits(m))
    }

    open spec fn decoding(bytes: Seq<u8>) -> Option<i64> {
        if bytes.len() < 8 {
            None
        } else {
            Some(i64_of_bits(spec_u64_from_le_bytes(bytes.subrange(0, 8))))
        }
    }

    open spec fn max_len() -> nat {
        8
    }

    fn bytelen() -> (n: usize) {
        8
    }

    fn encode(self) -> (bytes: Vec<u8>) {
        u64_to_le_bytes(i64_to_bits(self))
    }

    fn decode(bytes: &[u8]) -> (r: Option<Self>) {
        if bytes.len() < 8 {
            None
        } else {
            Some(i64_from_bits(u64_from_le_bytes(slice_subrange(bytes, 0, 8))))
        }
    }

    proof fn lemma_round_trip(m: i64, rest: Seq<u8>) {
        lemma_auto_spec_u64_to_from_le_bytes();
        assert((spec_u64_to_le_bytes(i64_bits(m)) + rest).subrange(0, 8) =~= spec_u64_to_le_bytes(
            i64_bits(m),
        ));
    }
}

/// The payload of a scalar value: the bits that follow its tag byte.
pub open spec fn value_bits(v: Value) -> u64 {
    match v {
        Value::IValue(i) => i64_bits(i),
        Value::FValue(b) => b,
        Value::Pointer(p) => p as u64,
    }
}

/// The tag byte of a scalar value.
pub open spec fn value_tag_byte(v: Value) -> u8 {
    match v {
        Value::IValue(_) => 0u8,
        Value::FValue(_) => 1u8,
        Value::Pointer(_) => 2u8,
    }
}

/// The scalar value with the given tag byte and payload, if there is one.
pub open spec fn value_of(tag: u8, bits: u64) -> Option<Value> {
    if tag == 0 {
        Some(Value::IValue(i64_of_bits(bits)))
    } else if tag == 1 {
        Some(Value::FValue(bits))
    } else if tag == 2 && bits <= u32::MAX {
        Some(Value::Pointer(bits as u32))
    } else {
        None
    }
}

/// A scalar value is a tag byte and eight bytes of payload.
impl ByteEncodeProperties for Value {
    type Model = Value;

    open spec fn model(&self) -> Value {
        *self
    }

    open spec fn encodable(m: Value) -> bool {
        true
    }

    open spec fn encoding(m: Value) -> Seq<u8> {
        seq![value_tag_byte(m)] + spec_u64_to_le_bytes(value_bits(m))
    }

    open spec fn decoding(bytes: Seq<u8>) -> Option<Value> {
        if bytes.len() < 9 {
            None
        } else {
            value_of(bytes[0], spec_u64_from_le_bytes(bytes.subrange(1, 9)))
        }
    }

    open spec fn max_len() -> nat {
        9
    }

    fn bytelen() -> (n: usize) {
        9
    }

    fn encode(self) -> (bytes: Vec<u8>) {
        let (tag, bits): (u8, u64) = match self {
            Value::IValue(i) => (0, i64_to_bits(i)),
            Value::FValue(b) => (1, b),
            Value::Pointer(p) => (2, p as u64),
        };
        let mut bytes: Vec<u8> = Vec::new();
        bytes.push(tag);
        let mut payload = u64_to_le_bytes(bits);
        proof {
            lemma_auto_spec_u64_to_from_le_bytes();
        }
        bytes.append(&mut payload);
        bytes
    }

    fn decode(bytes: &[u8]) -> (r: Option<Self>) {
        if bytes.len() < 9 {
            return None;
        }
        let tag: u8 = bytes[0];
        let bits: u64 = u64_from_le_bytes(slice_subrange(bytes, 1, 9));
        if tag == 0 {
            Some(Value::IValue(i64_from_bits(bits)))
        } else if tag == 1 {
            Some(Value::FValue(bits))
        } else if tag == 2 && bits <= 0xffff_ffff {
            Some(Value::Pointer(bits as u32))
        } else {
            None
        }
    }

    proof fn lemma_round_trip(m: Value, rest: Seq<u8>) {
        lemma_auto_spec_u64_to_from_le_bytes();
        let bytes = Self::encoding(m) + rest;
        assert(bytes.subrange(1, 9) =~= spec_u64_to_le_bytes(value_bits(m)));
        assert(bytes[0] == value_tag_byte(m));
    }
}

} // verus!
