//! Bounded strings and bounded id lists, held in `arrayvec`'s containers, and
//! the wire form of a bounded string: a 4-byte little-endian length and that
//! many ASCII bytes.
use crate::bytecode::{i32_bits, i32_of_bits, i32_from_bits, i32_to_bits, ByteEncodeProperties};
use arrayvec::{ArrayString, ArrayVec};
use vstd::bytes::{
    lemma_auto_spec_u32_to_from_le_bytes, spec_u32_from_le_bytes, spec_u32_to_le_bytes,
    u32_from_le_bytes, u32_to_le_bytes,
};
use vstd::prelude::*;
use vstd::slice::slice_subrange;

verus! {

/// `arrayvec::ArrayString`, a string of bounded length. Nothing is known
/// of a value but what the functions below say of it.
#[verifier::external_type_specification]
#[verifier::external_body]
pub struct ExArrayString<const CAP: usize>(ArrayString<CAP>);

/// `arrayvec::ArrayVec`, a vector of bounded length. Nothing is known of a
/// value but what the functions below say of it.
#[verifier::external_type_specification]
#[verifier::external_body]
#[verifier::reject_recursive_types(T)]
pub struct ExArrayVec<T, const CAP: usize>(ArrayVec<T, CAP>);

/// The most bytes an [`InputString`] holds.
pub const INPUT_STR_LEN: usize = 128;

/// The most inputs a node of a compilation unit has.
pub const MAX_INPUT_PER_NODE: usize = 16;

/// A string of at most 128 bytes.
pub type InputString = ArrayString<INPUT_STR_LEN>;

/// Ids of the inputs of a node, at most 16.
pub type InputList = ArrayVec<i32, MAX_INPUT_PER_NODE>;

/// The UTF-8 bytes that an `ArrayString` holds.
pub uninterp spec fn string_bytes(s: ArrayString<128>) -> Seq<u8>;

/// The items that an `ArrayVec` of ids holds, first to last.
pub uninterp spec fn list_items(v: ArrayVec<i32, 16>) -> Seq<i32>;

/// `ArrayString::new`: an empty string.
#[verifier::external_body]
pub(crate) fn input_string_new() -> (s: InputString)
    ensures
        string_bytes(s) == Seq::<u8>::empty(),
{
    ArrayString::new()
}

/// `ArrayString::try_push` with an ASCII character: it is stored as its one
/// byte at the end when a byte of room is left, and else the string stays as
/// it is.
#[verifier::external_body]
pub(crate) fn input_string_push(s: &mut InputString, b: u8) -> (ok: bool)
    requires
        b < 0x80,
    ensures
        ok == (string_bytes(*old(s)).len() < 128),
        ok ==> string_bytes(*final(s)) == string_bytes(*old(s)).push(b),
        !ok ==> string_bytes(*final(s)) == string_bytes(*old(s)),
{
    s.try_push(char::from(b)).is_ok()
}

/// `ArrayString::as_str`: the bytes held, which are never more than the capacity.
#[verifier::external_body]
pub(crate) fn input_string_bytes(s: &InputString) -> (v: Vec<u8>)
    ensures
        v@ == string_bytes(*s),
        v@.len() <= 128,
{
    s.as_str().as_bytes().to_vec()
}

/// `ArrayVec::as_slice`: the items held, which are never more than the capacity.
#[verifier::external_body]
pub(crate) fn input_list_items(v: &InputList) -> (items: Vec<i32>)
    ensures
        items@ == list_items(*v),
        items@.len() <= 16,
{
    v.as_slice().to_vec()
}

/// Every byte is an ASCII character.
pub open spec fn all_ascii(bytes: Seq<u8>) -> bool {
    forall|i: int| 0 <= i < bytes.len() ==> #[trigger] bytes[i] < 0x80
}

/// How many bytes of text a decoder takes, given the length that was read
/// and the bytes that follow it: the length read, cut down to what is
/// there and to the capacity. A negative length counts as larger than any buffer.
pub open spec fn text_len(n: i32, available: int) -> int {
    let wanted = if n < 0 || n > 128 {
        128
    } else {
        n as int
    };
    if wanted <= available {
        wanted
    } else {
        available
    }
}

/// The wire form of a bounded string.
pub fn encode_text(s: &InputString) -> (bytes: Vec<u8>)
    ensures
        bytes@ == <InputString as ByteEncodeProperties>::encoding(string_bytes(*s)),
        bytes@.len() <= 132,
{
    let mut text = input_string_bytes(s);
    let mut bytes = u32_to_le_bytes(i32_to_bits(text.len() as i32));
    proof {
        lemma_auto_spec_u32_to_from_le_bytes();
    }
    bytes.append(&mut text);
    bytes
}

impl ByteEncodeProperties for InputString {
    type Model = Seq<u8>;

    open spec fn model(&self) -> Seq<u8> {
        string_bytes(*self)
    }

    open spec fn encodable(m: Seq<u8>) -> bool {
        m.len() <= 128 && all_ascii(m)
    }

    open spec fn encoding(m: Seq<u8>) -> Seq<u8> {
        spec_u32_to_le_bytes(i32_bits(m.len() as i32)) + m
    }

    open spec fn decoding(bytes: Seq<u8>) -> Option<Seq<u8>> {
        if bytes.len() < 4 {
            None
        } else {
            let n = i32_of_bits(spec_u32_from_le_bytes(bytes.subrange(0, 4)));
            let text = bytes.subrange(4, 4 + text_len(n, bytes.len() - 4));
            if all_ascii(text) {
                Some(text)
            } else {
                None
            }
        }
    }

    open spec fn max_len() -> nat {
        132
    }

    fn bytelen() -> (n: usize) {
        132
    }

    fn encode(self) -> (bytes: Vec<u8>) {
        encode_text(&self)
    }

    fn decode(bytes: &[u8]) -> (r: Option<Self>) {
        if bytes.len() < 4 {
            return None;
        }
        let n: i32 = i32_from_bits(u32_from_le_bytes(slice_subrange(bytes, 0, 4)));
        let available: usize = bytes.len() - 4;
        let wanted: usize = if n < 0 || n > 128 {
            128
        } else {
            n as usize
        };
        let count: usize = if wanted <= available {
            wanted
        } else {
            available
        };
        let ghost text = bytes@.subrange(4, 4 + count as int);
        let mut res = input_string_new();
        let mut i: usize = 0;
        while i < count
            invariant
                i <= count <= 128,
                bytes@.len() >= 4,
                n == i32_of_bits(spec_u32_from_le_bytes(bytes@.subrange(0, 4))),
                count == text_len(n, bytes@.len() - 4),
                4 + count <= bytes@.len(),
                text == bytes@.subrange(4, 4 + count as int),
                string_bytes(res) == text.subrange(0, i as int),
                all_ascii(text.subrange(0, i as int)),
            decreases count - i,
        {
            let b: u8 = bytes[4 + i];
            if b >= 0x80 {
                proof {
                    assert(text[i as int] == b);
                    assert(!all_ascii(text));
                }
                return None;
            }
            let _ = input_string_push(&mut res, b);
            proof {
                assert(text.subrange(0, i as int).push(b) =~= text.subrange(0, i as int + 1));
            }
            i += 1;
        }
        proof {
            assert(text.subrange(0, count as int) =~= text);
        }
        Some(res)
    }

    proof fn lemma_round_trip(m: Seq<u8>, rest: Seq<u8>) {
        lemma_auto_spec_u32_to_from_le_bytes();
        let head = spec_u32_to_le_bytes(i32_bits(m.len() as i32));
        let bytes = head + m + rest;
        assert(bytes.subrange(0, 4) =~= head);
        assert(bytes.subrange(4, 4 + m.len() as int) =~= m);
    }
}

} // verus!
