use caolo_sim::api::ApiFunction;
use caolo_sim::bytecode::{
    i32_from_bits, i32_to_bits, i64_from_bits, i64_to_bits, ByteEncodeProperties, Instruction,
    Value, ValueTag,
};
use caolo_sim::geometry::Point;
use caolo_sim::input_string::{encode_text, InputString};
use caolo_sim::model::OperationResult;

const ALL: [Instruction; 15] = [
    Instruction::AddInt,
    Instruction::SubInt,
    Instruction::AddFloat,
    Instruction::SubFloat,
    Instruction::Mul,
    Instruction::MulFloat,
    Instruction::Div,
    Instruction::DivFloat,
    Instruction::Call,
    Instruction::LiteralInt,
    Instruction::LiteralFloat,
    Instruction::LiteralPtr,
    Instruction::LiteralArray,
    Instruction::Pass,
    Instruction::CopyLast,
];

#[test]
fn every_instruction_is_read_back_from_its_byte() {
    for (i, inst) in ALL.iter().enumerate() {
        assert_eq!(inst.opcode(), i as u8 + 1);
        assert_eq!(Instruction::from_byte(inst.opcode()), Some(*inst));
    }
    assert_eq!(Instruction::from_byte(0), None);
    assert_eq!(Instruction::from_byte(16), None);
    assert_eq!(Instruction::from_byte(255), None);
}

#[test]
fn integers_are_encoded_little_endian_in_twos_complement() {
    assert_eq!(1i64.encode(), vec![1, 0, 0, 0, 0, 0, 0, 0]);
    assert_eq!((-1i64).encode(), vec![255; 8]);
    assert_eq!(0x0102_0304_0506_0708i64.encode(), vec![8, 7, 6, 5, 4, 3, 2, 1]);
    assert_eq!(i64::MIN.encode(), vec![0, 0, 0, 0, 0, 0, 0, 0x80]);
    assert_eq!((-2i32).encode(), vec![254, 255, 255, 255]);
    assert_eq!(0xdead_beefu32.encode(), vec![0xef, 0xbe, 0xad, 0xde]);
    assert_eq!(1u64.encode(), vec![1, 0, 0, 0, 0, 0, 0, 0]);
    assert_eq!(i64::bytelen(), 8);
    assert_eq!(u64::bytelen(), 8);
    assert_eq!(i32::bytelen(), 4);
    assert_eq!(u32::bytelen(), 4);
}

#[test]
fn integers_are_read_back_from_their_encoding() {
    for v in [0i64, 1, -1, 42, i64::MIN, i64::MAX, -123_456_789_012] {
        assert_eq!(i64::decode(&v.encode()), Some(v));
        assert_eq!(i64_from_bits(i64_to_bits(v)), v);
        assert_eq!(i64_to_bits(v), v as u64);
    }
    for v in [0i32, 1, -1, i32::MIN, i32::MAX, 77] {
        assert_eq!(i32::decode(&v.encode()), Some(v));
        assert_eq!(i32_from_bits(i32_to_bits(v)), v);
        assert_eq!(i32_to_bits(v), v as u32);
    }
    for v in [0u32, 1, u32::MAX, 2048] {
        assert_eq!(u32::decode(&v.encode()), Some(v));
    }
    for v in [0u64, 1, u64::MAX, 42.5f64.to_bits()] {
        assert_eq!(u64::decode(&v.encode()), Some(v));
    }
}

#[test]
fn decoding_reads_the_front_of_the_buffer_and_fails_on_a_short_one() {
    let mut bytes = 7i64.encode();
    bytes.extend_from_slice(&[9, 9, 9]);
    assert_eq!(i64::decode(&bytes), Some(7));
    assert_eq!(i64::decode(&bytes[..7]), None);
    assert_eq!(u64::decode(&[]), None);
    assert_eq!(i32::decode(&[1, 2, 3]), None);
    assert_eq!(u32::decode(&[1, 0, 0, 0, 5]), Some(1));
}

#[test]
fn a_bounded_string_is_its_length_and_its_bytes() {
    let s = InputString::from("abc").unwrap();
    assert_eq!(s.encode(), vec![3, 0, 0, 0, b'a', b'b', b'c']);
    assert_eq!(encode_text(&s), vec![3, 0, 0, 0, b'a', b'b', b'c']);
    assert_eq!(InputString::new().encode(), vec![0, 0, 0, 0]);
    assert_eq!(InputString::bytelen(), 132);
    let back = InputString::decode(&s.encode()).unwrap();
    assert_eq!(back.as_str(), "abc");
}

#[test]
fn decoding_a_bounded_string_truncates() {
    let short = InputString::decode(&[5, 0, 0, 0, b'a', b'b', b'c']).unwrap();
    assert_eq!(short.as_str(), "abc");
    let mut long = 200i32.encode();
    long.extend(std::iter::repeat(b'x').take(200));
    let cut = InputString::decode(&long).unwrap();
    assert_eq!(cut.len(), 128);
    assert!(cut.as_str().bytes().all(|b| b == b'x'));
    let mut negative = (-1i32).encode();
    negative.extend_from_slice(b"hello");
    assert_eq!(InputString::decode(&negative).unwrap().as_str(), "hello");
    assert_eq!(InputString::decode(&[1, 0, 0]), None);
    assert_eq!(InputString::decode(&[2, 0, 0, 0, b'a', 0x80]), None);
    let with_rest = InputString::decode(&[2, 0, 0, 0, b'h', b'i', 0xff, 0xff]).unwrap();
    assert_eq!(with_rest.as_str(), "hi");
}

#[test]
fn a_full_bounded_string_is_read_back() {
    let text: String = std::iter::repeat('q').take(128).collect();
    let s = InputString::from(&text).unwrap();
    let bytes = s.encode();
    assert_eq!(bytes.len(), 132);
    assert_eq!(InputString::decode(&bytes).unwrap().as_str(), text);
}

#[test]
fn a_scalar_value_is_a_tag_and_eight_bytes() {
    assert_eq!(Value::IValue(-1).encode(), vec![0, 255, 255, 255, 255, 255, 255, 255, 255]);
    assert_eq!(Value::FValue(1).encode(), vec![1, 1, 0, 0, 0, 0, 0, 0, 0]);
    assert_eq!(Value::Pointer(258).encode(), vec![2, 2, 1, 0, 0, 0, 0, 0, 0]);
    for v in [
        Value::IValue(i64::MIN),
        Value::IValue(5),
        Value::FValue(554.0f64.to_bits()),
        Value::Pointer(u32::MAX),
        Value::Pointer(0),
    ] {
        assert_eq!(Value::decode(&v.encode()), Some(v));
    }
    assert_eq!(Value::decode(&[3, 0, 0, 0, 0, 0, 0, 0, 0]), None);
    assert_eq!(Value::decode(&[2, 0, 0, 0, 0, 1, 0, 0, 0]), None);
    assert_eq!(Value::decode(&[0, 0, 0, 0, 0, 0, 0, 0]), None);
    assert_eq!(Value::bytelen(), 9);
    assert_eq!(Value::IValue(1).tag(), ValueTag::Int);
    assert_eq!(Value::FValue(1).tag(), ValueTag::Float);
    assert_eq!(Value::Pointer(1).tag(), ValueTag::Ptr);
}

#[test]
fn a_point_is_its_two_coordinates() {
    assert_eq!(Point::new(1, -1).encode(), vec![1, 0, 0, 0, 255, 255, 255, 255]);
    for p in [Point::new(0, 0), Point::new(i32::MIN, i32::MAX), Point::new(-7, 9)] {
        assert_eq!(Point::decode(&p.encode()), Some(p));
    }
    assert_eq!(Point::decode(&[0; 7]), None);
    assert_eq!(Point::bytelen(), 8);
}

#[test]
fn an_answer_is_its_number() {
    let all = [
        OperationResult::Success,
        OperationResult::NotOwner,
        OperationResult::InvalidInput,
        OperationResult::OperationFailed,
        OperationResult::NotInRange,
        OperationResult::InvalidTarget,
        OperationResult::Empty,
        OperationResult::Full,
    ];
    for (i, r) in all.iter().enumerate() {
        assert_eq!(r.to_code(), i as i32);
        assert_eq!(r.encode(), vec![i as u8, 0, 0, 0]);
        assert_eq!(OperationResult::decode(&r.encode()), Some(*r));
    }
    assert_eq!(OperationResult::decode(&[8, 0, 0, 0]), None);
    assert_eq!(OperationResult::decode(&[0, 0, 0]), None);
    assert_eq!(OperationResult::bytelen(), 4);
    assert_ne!(ApiFunction::ConsoleLog, ApiFunction::LogScalar);
}
