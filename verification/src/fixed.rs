use vstd::prelude::*;
use crate::Rows;
use crate::lex::{lex_lt, lemma_lex_irrefl};
use crate::bytes::{
    pow256, be_nat, be_bytes, be_encode, be_decode, lemma_be_bytes_len, lemma_be_nat_bound,
    lemma_be_nat_of_bytes, lemma_be_bytes_monotone, lemma_lex_is_be_nat,
    lemma_pow256_val, lemma_be_nat_front,
};

verus! {

/// A scalar the row format can hold in a fixed number of payload bytes, such
/// that unsigned lexicographic order of payloads equals `lt_spec` on values.
pub trait FixedLengthEncoding: Sized {
    /// Payload width in bytes.
    spec fn width_spec() -> nat;

    /// Structural validity of a value (all fixed-size scalars are valid; a
    /// raw decimal must hold exactly its declared number of bytes).
    spec fn wf_spec(&self) -> bool;

    /// The total order the payload bytes realize.
    spec fn lt_spec(&self, other: &Self) -> bool;

    /// The value substituted for nulls in a decoded column.
    spec fn zero_spec() -> Self;

    /// The payload bytes of a value.
    spec fn encode_spec(&self) -> Seq<u8>;

    /// The value a payload of `width_spec` bytes denotes.
    spec fn decode_spec(s: Seq<u8>) -> Self;

    proof fn lemma_width_small()
        ensures
            0 < Self::width_spec() <= 32,
    ;

    proof fn lemma_encode_len(&self)
        requires
            self.wf_spec(),
        ensures
            self.encode_spec().len() == Self::width_spec(),
    ;

    proof fn lemma_round_trip(&self)
        requires
            self.wf_spec(),
        ensures
            Self::decode_spec(self.encode_spec()) == *self,
    ;

    proof fn lemma_order(&self, other: &Self)
        requires
            self.wf_spec(),
            other.wf_spec(),
        ensures
            lex_lt(self.encode_spec(), other.encode_spec()) == self.lt_spec(other),
    ;

    fn width() -> (w: usize)
        ensures
            w as nat == Self::width_spec(),
    ;

    fn zero_value() -> (r: Self)
        ensures
            r == Self::zero_spec(),
            r.wf_spec(),
    ;

    fn encode(&self) -> (r: Vec<u8>)
        requires
            self.wf_spec(),
        ensures
            r@ == self.encode_spec(),
    ;

    fn decode(encoded: &[u8]) -> (r: Self)
        requires
            encoded@.len() == Self::width_spec(),
        ensures
            r == Self::decode_spec(encoded@),
            r.wf_spec(),
    ;
}

impl FixedLengthEncoding for bool {
    open spec fn width_spec() -> nat {
        1
    }

    open spec fn wf_spec(&self) -> bool {
        true
    }

    open spec fn lt_spec(&self, other: &Self) -> bool {
        !*self && *other
    }

    open spec fn zero_spec() -> Self {
        false
    }

    open spec fn encode_spec(&self) -> Seq<u8> {
        seq![if *self { 1u8 } else { 0u8 }]
    }

    open spec fn decode_spec(s: Seq<u8>) -> Self {
        s[0] != 0
    }

    proof fn lemma_width_small() {
    }

    proof fn lemma_encode_len(&self) {
    }

    proof fn lemma_round_trip(&self) {
    }

    proof fn lemma_order(&self, other: &Self) {
        crate::lex::lemma_lex_singleton(
            if *self { 1u8 } else { 0u8 },
            if *other { 1u8 } else { 0u8 },
        );
    }

    fn width() -> (w: usize) {
        1
    }

    fn zero_value() -> (r: Self) {
        false
    }

    fn encode(&self) -> (r: Vec<u8>) {
        let mut v: Vec<u8> = Vec::new();
        v.push(if *self { 1 } else { 0 });
        proof {
            assert(v@ =~= self.encode_spec());
        }
        v
    }

    fn decode(encoded: &[u8]) -> (r: Self) {
        encoded[0] != 0
    }
}

impl FixedLengthEncoding for u8 {
    open spec fn width_spec() -> nat {
        1
    }

    open spec fn wf_spec(&self) -> bool {
        true
    }

    open spec fn lt_spec(&self, other: &Self) -> bool {
        *self < *other
    }

    open spec fn zero_spec() -> Self {
        0
    }

    open spec fn encode_spec(&self) -> Seq<u8> {
        be_bytes(*self as nat, 1)
    }

    open spec fn decode_spec(s: Seq<u8>) -> Self {
        be_nat(s) as u8
    }

    proof fn lemma_width_small() {
    }

    proof fn lemma_encode_len(&self) {
        lemma_be_bytes_len(*self as nat, 1);
    }

    proof fn lemma_round_trip(&self) {
        lemma_pow256_val();
        lemma_be_nat_of_bytes(*self as nat, 1);
    }

    proof fn lemma_order(&self, other: &Self) {
        lemma_pow256_val();
        lemma_be_bytes_monotone(*self as nat, *other as nat, 1);
    }

    fn width() -> (w: usize) {
        1
    }

    fn zero_value() -> (r: Self) {
        0
    }

    fn encode(&self) -> (r: Vec<u8>) {
        be_encode(*self as u128, 1)
    }

    fn decode(encoded: &[u8]) -> (r: Self) {
        proof {
            lemma_be_nat_bound(encoded@);
            lemma_pow256_val();
        }
        let u = be_decode(encoded);
        u as u8
    }
}

impl FixedLengthEncoding for u16 {
    open spec fn width_spec() -> nat {
        2
    }

    open spec fn wf_spec(&self) -> bool {
        true
    }

    open spec fn lt_spec(&self, other: &Self) -> bool {
        *self < *other
    }

    open spec fn zero_spec() -> Self {
        0
    }

    open spec fn encode_spec(&self) -> Seq<u8> {
        be_bytes(*self as nat, 2)
    }

    open spec fn decode_spec(s: Seq<u8>) -> Self {
        be_nat(s) as u16
    }

    proof fn lemma_width_small() {
    }

    proof fn lemma_encode_len(&self) {
        lemma_be_bytes_len(*self as nat, 2);
    }

    proof fn lemma_round_trip(&self) {
        lemma_pow256_val();
        lemma_be_nat_of_bytes(*self as nat, 2);
    }

    proof fn lemma_order(&self, other: &Self) {
        lemma_pow256_val();
        lemma_be_bytes_monotone(*self as nat, *other as nat, 2);
    }

    fn width() -> (w: usize) {
        2
    }

    fn zero_value() -> (r: Self) {
        0
    }

    fn encode(&self) -> (r: Vec<u8>) {
        be_encode(*self as u128, 2)
    }

    fn decode(encoded: &[u8]) -> (r: Self) {
        proof {
            lemma_be_nat_bound(encoded@);
            lemma_pow256_val();
        }
        let u = be_decode(encoded);
        u as u16
    }
}

impl FixedLengthEncoding for u32 {
    open spec fn width_spec() -> nat {
        4
    }

    open spec fn wf_spec(&self) -> bool {
        true
    }

    open spec fn lt_spec(&self, other: &Self) -> bool {
        *self < *other
    }

    open spec fn zero_spec() -> Self {
        0
    }

    open spec fn encode_spec(&self) -> Seq<u8> {
        be_bytes(*self as nat, 4)
    }

    open spec fn decode_spec(s: Seq<u8>) -> Self {
        be_nat(s) as u32
    }

    proof fn lemma_width_small() {
    }

    proof fn lemma_encode_len(&self) {
        lemma_be_bytes_len(*self as nat, 4);
    }

    proof fn lemma_round_trip(&self) {
        lemma_pow256_val();
        lemma_be_nat_of_bytes(*self as nat, 4);
    }

    proof fn lemma_order(&self, other: &Self) {
        lemma_pow256_val();
        lemma_be_bytes_monotone(*self as nat, *other as nat, 4);
    }

    fn width() -> (w: usize) {
        4
    }

    fn zero_value() -> (r: Self) {
        0
    }

    fn encode(&self) -> (r: Vec<u8>) {
        be_encode(*self as u128, 4)
    }

    fn decode(encoded: &[u8]) -> (r: Self) {
        proof {
            lemma_be_nat_bound(encoded@);
            lemma_pow256_val();
        }
        let u = be_decode(encoded);
        u as u32
    }
}

impl FixedLengthEncoding for u64 {
    open spec fn width_spec() -> nat {
        8
    }

    open spec fn wf_spec(&self) -> bool {
        true
    }

    open spec fn lt_spec(&self, other: &Self) -> bool {
        *self < *other
    }

    open spec fn zero_spec() -> Self {
        0
    }

    open spec fn encode_spec(&self) -> Seq<u8> {
        be_bytes(*self as nat, 8)
    }

    open spec fn decode_spec(s: Seq<u8>) -> Self {
        be_nat(s) as u64
    }

    proof fn lemma_width_small() {
    }

    proof fn lemma_encode_len(&self) {
        lemma_be_bytes_len(*self as nat, 8);
    }

    proof fn lemma_round_trip(&self) {
        lemma_pow256_val();
        lemma_be_nat_of_bytes(*self as nat, 8);
    }

    proof fn lemma_order(&self, other: &Self) {
        lemma_pow256_val();
        lemma_be_bytes_monotone(*self as nat, *other as nat, 8);
    }

    fn width() -> (w: usize) {
        8
    }

    fn zero_value() -> (r: Self) {
        0
    }

    fn encode(&self) -> (r: Vec<u8>) {
        be_encode(*self as u128, 8)
    }

    fn decode(encoded: &[u8]) -> (r: Self) {
        proof {
            lemma_be_nat_bound(encoded@);
            lemma_pow256_val();
        }
        let u = be_decode(encoded);
        u as u64
    }
}

impl FixedLengthEncoding for i8 {
    open spec fn width_spec() -> nat {
        1
    }

    open spec fn wf_spec(&self) -> bool {
        true
    }

    open spec fn lt_spec(&self, other: &Self) -> bool {
        *self < *other
    }

    open spec fn zero_spec() -> Self {
        0
    }

    open spec fn encode_spec(&self) -> Seq<u8> {
        be_bytes((*self + 0x80) as nat, 1)
    }

    open spec fn decode_spec(s: Seq<u8>) -> Self {
        (be_nat(s) - 0x80) as i8
    }

    proof fn lemma_width_small() {
    }

    proof fn lemma_encode_len(&self) {
        lemma_be_bytes_len((*self + 0x80) as nat, 1);
    }

    proof fn lemma_round_trip(&self) {
        lemma_pow256_val();
        lemma_be_nat_of_bytes((*self + 0x80) as nat, 1);
    }

    proof fn lemma_order(&self, other: &Self) {
        lemma_pow256_val();
        lemma_be_bytes_monotone((*self + 0x80) as nat, (*other + 0x80) as nat, 1);
    }

    fn width() -> (w: usize) {
        1
    }

    fn zero_value() -> (r: Self) {
        0
    }

    fn encode(&self) -> (r: Vec<u8>) {
        be_encode(((*self as i16) + 0x80) as u128, 1)
    }

    fn decode(encoded: &[u8]) -> (r: Self) {
        proof {
            lemma_be_nat_bound(encoded@);
            lemma_pow256_val();
        }
        let u = be_decode(encoded);
        ((u as i16) - 0x80) as i8
    }
}

impl FixedLengthEncoding for i16 {
    open spec fn width_spec() -> nat {
        2
    }

    open spec fn wf_spec(&self) -> bool {
        true
    }

    open spec fn lt_spec(&self, other: &Self) -> bool {
        *self < *other
    }

    open spec fn zero_spec() -> Self {
        0
    }

    open spec fn encode_spec(&self) -> Seq<u8> {
        be_bytes((*self + 0x8000) as nat, 2)
    }

    open spec fn decode_spec(s: Seq<u8>) -> Self {
        (be_nat(s) - 0x8000) as i16
    }

    proof fn lemma_width_small() {
    }

    proof fn lemma_encode_len(&self) {
        lemma_be_bytes_len((*self + 0x8000) as nat, 2);
    }

    proof fn lemma_round_trip(&self) {
        lemma_pow256_val();
        lemma_be_nat_of_bytes((*self + 0x8000) as nat, 2);
    }

    proof fn lemma_order(&self, other: &Self) {
        lemma_pow256_val();
        lemma_be_bytes_monotone((*self + 0x8000) as nat, (*other + 0x8000) as nat, 2);
    }

    fn width() -> (w: usize) {
        2
    }

    fn zero_value() -> (r: Self) {
        0
    }

    fn encode(&self) -> (r: Vec<u8>) {
        be_encode(((*self as i32) + 0x8000) as u128, 2)
    }

    fn decode(encoded: &[u8]) -> (r: Self) {
        proof {
            lemma_be_nat_bound(encoded@);
            lemma_pow256_val();
        }
        let u = be_decode(encoded);
        ((u as i32) - 0x8000) as i16
    }
}

impl FixedLengthEncoding for i32 {
    open spec fn width_spec() -> nat {
        4
    }

    open spec fn wf_spec(&self) -> bool {
        true
    }

    open spec fn lt_spec(&self, other: &Self) -> bool {
        *self < *other
    }

    open spec fn zero_spec() -> Self {
        0
    }

    open spec fn encode_spec(&self) -> Seq<u8> {
        be_bytes((*self + 0x80000000) as nat, 4)
    }

    open spec fn decode_spec(s: Seq<u8>) -> Self {
        (be_nat(s) - 0x80000000) as i32
    }

    proof fn lemma_width_small() {
    }

    proof fn lemma_encode_len(&self) {
        lemma_be_bytes_len((*self + 0x80000000) as nat, 4);
    }

    proof fn lemma_round_trip(&self) {
        lemma_pow256_val();
        lemma_be_nat_of_bytes((*self + 0x80000000) as nat, 4);
    }

    proof fn lemma_order(&self, other: &Self) {
        lemma_pow256_val();
        lemma_be_bytes_monotone((*self + 0x80000000) as nat, (*other + 0x80000000) as nat, 4);
    }

    fn width() -> (w: usize) {
        4
    }

    fn zero_value() -> (r: Self) {
        0
    }

    fn encode(&self) -> (r: Vec<u8>) {
        be_encode(((*self as i64) + 0x80000000i64) as u128, 4)
    }

    fn decode(encoded: &[u8]) -> (r: Self) {
        proof {
            lemma_be_nat_bound(encoded@);
            lemma_pow256_val();
        }
        let u = be_decode(encoded);
        ((u as i64) - 0x80000000i64) as i32
    }
}

impl FixedLengthEncoding for i64 {
    open spec fn width_spec() -> nat {
        8
    }

    open spec fn wf_spec(&self) -> bool {
        true
    }

    open spec fn lt_spec(&self, other: &Self) -> bool {
        *self < *other
    }

    open spec fn zero_spec() -> Self {
        0
    }

    open spec fn encode_spec(&self) -> Seq<u8> {
        be_bytes((*self + 0x8000000000000000) as nat, 8)
    }

    open spec fn decode_spec(s: Seq<u8>) -> Self {
        (be_nat(s) - 0x8000000000000000) as i64
    }

    proof fn lemma_width_small() {
    }

    proof fn lemma_encode_len(&self) {
        lemma_be_bytes_len((*self + 0x8000000000000000) as nat, 8);
    }

    proof fn lemma_round_trip(&self) {
        lemma_pow256_val();
        lemma_be_nat_of_bytes((*self + 0x8000000000000000) as nat, 8);
    }

    proof fn lemma_order(&self, other: &Self) {
        lemma_pow256_val();
        lemma_be_bytes_monotone(
            (*self + 0x8000000000000000) as nat,
            (*other + 0x8000000000000000) as nat,
            8,
        );
    }

    fn width() -> (w: usize) {
        8
    }

    fn zero_value() -> (r: Self) {
        0
    }

    fn encode(&self) -> (r: Vec<u8>) {
        be_encode(((*self as i128) + 0x8000000000000000i128) as u128, 8)
    }

    fn decode(encoded: &[u8]) -> (r: Self) {
        proof {
            lemma_be_nat_bound(encoded@);
            lemma_pow256_val();
        }
        let u = be_decode(encoded);
        ((u as i128) - 0x8000000000000000i128) as i64
    }
}

impl FixedLengthEncoding for i128 {
    open spec fn width_spec() -> nat {
        16
    }

    open spec fn wf_spec(&self) -> bool {
        true
    }

    open spec fn lt_spec(&self, other: &Self) -> bool {
        *self < *other
    }

    open spec fn zero_spec() -> Self {
        0
    }

    open spec fn encode_spec(&self) -> Seq<u8> {
        be_bytes((*self + 0x80000000000000000000000000000000) as nat, 16)
    }

    open spec fn decode_spec(s: Seq<u8>) -> Self {
        (be_nat(s) - 0x80000000000000000000000000000000) as i128
    }

    proof fn lemma_width_small() {
    }

    proof fn lemma_encode_len(&self) {
        lemma_be_bytes_len((*self + 0x80000000000000000000000000000000) as nat, 16);
    }

    proof fn lemma_round_trip(&self) {
        lemma_pow256_val();
        lemma_be_nat_of_bytes((*self + 0x80000000000000000000000000000000) as nat, 16);
    }

    proof fn lemma_order(&self, other: &Self) {
        lemma_pow256_val();
        lemma_be_bytes_monotone(
            (*self + 0x80000000000000000000000000000000) as nat,
            (*other + 0x80000000000000000000000000000000) as nat,
            16,
        );
    }

    fn width() -> (w: usize) {
        16
    }

    fn zero_value() -> (r: Self) {
        0
    }

    fn encode(&self) -> (r: Vec<u8>) {
        let u: u128 = if *self >= 0 {
            (*self as u128) + 0x80000000000000000000000000000000u128
        } else {
            ((*self + 0x40000000000000000000000000000000i128)
                + 0x40000000000000000000000000000000i128) as u128
        };
        be_encode(u, 16)
    }

    fn decode(encoded: &[u8]) -> (r: Self) {
        proof {
            lemma_be_nat_bound(encoded@);
            lemma_pow256_val();
        }
        let u = be_decode(encoded);
        if u >= 0x80000000000000000000000000000000u128 {
            (u - 0x80000000000000000000000000000000u128) as i128
        } else {
            ((u as i128) - 0x40000000000000000000000000000000i128)
                - 0x40000000000000000000000000000000i128
        }
    }
}

/// The bit pattern of an IEEE half-precision value; the codec orders patterns
/// by the sign-aware transform below, which on non-NaN payloads coincides with
/// the numeric order of the floats they denote.
#[derive(Clone, Copy, PartialEq, Eq, Structural, Debug)]
pub struct Float16Bits(pub u16);

/// The bit pattern of an IEEE single-precision value.
#[derive(Clone, Copy, PartialEq, Eq, Structural, Debug)]
pub struct Float32Bits(pub u32);

/// The bit pattern of an IEEE double-precision value.
#[derive(Clone, Copy, PartialEq, Eq, Structural, Debug)]
pub struct Float64Bits(pub u64);

/// The sort key of a half-precision bit pattern: negative patterns (sign bit
/// set) map, order-reversed, below every non-negative pattern.
pub open spec fn f16_order_key(b: u16) -> u16 {
    if b >= 0x8000 {
        (0xffff - b) as u16
    } else {
        (b + 0x8000) as u16
    }
}

pub open spec fn f16_order_unkey(k: u16) -> u16 {
    if k >= 0x8000 {
        (k - 0x8000) as u16
    } else {
        (0xffff - k) as u16
    }
}

pub open spec fn f32_order_key(b: u32) -> u32 {
    if b >= 0x80000000 {
        (0xffffffff - b) as u32
    } else {
        (b + 0x80000000) as u32
    }
}

pub open spec fn f32_order_unkey(k: u32) -> u32 {
    if k >= 0x80000000 {
        (k - 0x80000000) as u32
    } else {
        (0xffffffff - k) as u32
    }
}

pub open spec fn f64_order_key(b: u64) -> u64 {
    if b >= 0x8000000000000000 {
        (0xffffffffffffffff - b) as u64
    } else {
        (b + 0x8000000000000000) as u64
    }
}

pub open spec fn f64_order_unkey(k: u64) -> u64 {
    if k >= 0x8000000000000000 {
        (k - 0x8000000000000000) as u64
    } else {
        (0xffffffffffffffff - k) as u64
    }
}

impl FixedLengthEncoding for Float16Bits {
    open spec fn width_spec() -> nat {
        2
    }

    open spec fn wf_spec(&self) -> bool {
        true
    }

    open spec fn lt_spec(&self, other: &Self) -> bool {
        f16_order_key(self.0) < f16_order_key(other.0)
    }

    open spec fn zero_spec() -> Self {
        Float16Bits(0)
    }

    open spec fn encode_spec(&self) -> Seq<u8> {
        be_bytes(f16_order_key(self.0) as nat, 2)
    }

    open spec fn decode_spec(s: Seq<u8>) -> Self {
        Float16Bits(f16_order_unkey(be_nat(s) as u16))
    }

    proof fn lemma_width_small() {
    }

    proof fn lemma_encode_len(&self) {
        lemma_be_bytes_len(f16_order_key(self.0) as nat, 2);
    }

    proof fn lemma_round_trip(&self) {
        lemma_pow256_val();
        lemma_be_nat_of_bytes(f16_order_key(self.0) as nat, 2);
    }

    proof fn lemma_order(&self, other: &Self) {
        lemma_pow256_val();
        lemma_be_bytes_monotone(f16_order_key(self.0) as nat, f16_order_key(other.0) as nat, 2);
    }

    fn width() -> (w: usize) {
        2
    }

    fn zero_value() -> (r: Self) {
        Float16Bits(0)
    }

    fn encode(&self) -> (r: Vec<u8>) {
        let k: u16 = if self.0 >= 0x8000 {
            0xffff - self.0
        } else {
            self.0 + 0x8000
        };
        be_encode(k as u128, 2)
    }

    fn decode(encoded: &[u8]) -> (r: Self) {
        proof {
            lemma_be_nat_bound(encoded@);
            lemma_pow256_val();
        }
        let k = be_decode(encoded) as u16;
        Float16Bits(
            if k >= 0x8000 {
                k - 0x8000
            } else {
                0xffff - k
            },
        )
    }
}

impl FixedLengthEncoding for Float32Bits {
    open spec fn width_spec() -> nat {
        4
    }

    open spec fn wf_spec(&self) -> bool {
        true
    }

    open spec fn lt_spec(&self, other: &Self) -> bool {
        f32_order_key(self.0) < f32_order_key(other.0)
    }

    open spec fn zero_spec() -> Self {
        Float32Bits(0)
    }

    open spec fn encode_spec(&self) -> Seq<u8> {
        be_bytes(f32_order_key(self.0) as nat, 4)
    }

    open spec fn decode_spec(s: Seq<u8>) -> Self {
        Float32Bits(f32_order_unkey(be_nat(s) as u32))
    }

    proof fn lemma_width_small() {
    }

    proof fn lemma_encode_len(&self) {
        lemma_be_bytes_len(f32_order_key(self.0) as nat, 4);
    }

    proof fn lemma_round_trip(&self) {
        lemma_pow256_val();
        lemma_be_nat_of_bytes(f32_order_key(self.0) as nat, 4);
    }

    proof fn lemma_order(&self, other: &Self) {
        lemma_pow256_val();
        lemma_be_bytes_monotone(f32_order_key(self.0) as nat, f32_order_key(other.0) as nat, 4);
    }

    fn width() -> (w: usize) {
        4
    }

    fn zero_value() -> (r: Self) {
        Float32Bits(0)
    }

    fn encode(&self) -> (r: Vec<u8>) {
        let k: u32 = if self.0 >= 0x80000000 {
            0xffffffff - self.0
        } else {
            self.0 + 0x80000000
        };
        be_encode(k as u128, 4)
    }

    fn decode(encoded: &[u8]) -> (r: Self) {
        proof {
            lemma_be_nat_bound(encoded@);
            lemma_pow256_val();
        }
        let k = be_decode(encoded) as u32;
        Float32Bits(
            if k >= 0x80000000 {
                k - 0x80000000
            } else {
                0xffffffff - k
            },
        )
    }
}

impl FixedLengthEncoding for Float64Bits {
    open spec fn width_spec() -> nat {
        8
    }

    open spec fn wf_spec(&self) -> bool {
        true
    }

    open spec fn lt_spec(&self, other: &Self) -> bool {
        f64_order_key(self.0) < f64_order_key(other.0)
    }

    open spec fn zero_spec() -> Self {
        Float64Bits(0)
    }

    open spec fn encode_spec(&self) -> Seq<u8> {
        be_bytes(f64_order_key(self.0) as nat, 8)
    }

    open spec fn decode_spec(s: Seq<u8>) -> Self {
        Float64Bits(f64_order_unkey(be_nat(s) as u64))
    }

    proof fn lemma_width_small() {
    }

    proof fn lemma_encode_len(&self) {
        lemma_be_bytes_len(f64_order_key(self.0) as nat, 8);
    }

    proof fn lemma_round_trip(&self) {
        lemma_pow256_val();
        lemma_be_nat_of_bytes(f64_order_key(self.0) as nat, 8);
    }

    proof fn lemma_order(&self, other: &Self) {
        lemma_pow256_val();
        lemma_be_bytes_monotone(f64_order_key(self.0) as nat, f64_order_key(other.0) as nat, 8);
    }

    fn width() -> (w: usize) {
        8
    }

    fn zero_value() -> (r: Self) {
        Float64Bits(0)
    }

    fn encode(&self) -> (r: Vec<u8>) {
        let k: u64 = if self.0 >= 0x8000000000000000 {
            0xffffffffffffffff - self.0
        } else {
            self.0 + 0x8000000000000000
        };
        be_encode(k as u128, 8)
    }

    fn decode(encoded: &[u8]) -> (r: Self) {
        proof {
            lemma_be_nat_bound(encoded@);
            lemma_pow256_val();
        }
        let k = be_decode(encoded) as u64;
        Float64Bits(
            if k >= 0x8000000000000000 {
                k - 0x8000000000000000
            } else {
                0xffffffffffffffff - k
            },
        )
    }
}

/// The raw bytes of a decimal: two's-complement, little-endian, exactly `N`
/// bytes (16 for 128-bit decimals, 32 for 256-bit decimals).
pub struct RawDecimal<const N: usize>(pub Vec<u8>);

pub type RawDecimal128 = RawDecimal<16>;

pub type RawDecimal256 = RawDecimal<32>;

/// Flips the top bit of a byte, mapping a two's-complement sign byte to a
/// biased one so that unsigned order matches signed order.
pub open spec fn toggle_sign(b: u8) -> u8 {
    if b >= 0x80 {
        (b - 0x80) as u8
    } else {
        (b + 0x80) as u8
    }
}

/// Payload of a decimal: the little-endian bytes reversed to big-endian, with
/// the top bit of the now-leading sign byte toggled.
pub open spec fn decimal_encode_spec(bytes: Seq<u8>) -> Seq<u8> {
    if bytes.len() == 0 {
        bytes
    } else {
        let r = bytes.reverse();
        r.update(0, toggle_sign(r[0]))
    }
}

/// Inverse of `decimal_encode_spec`: toggle the sign byte back, then reverse
/// to little-endian.
pub open spec fn decimal_decode_spec(s: Seq<u8>) -> Seq<u8> {
    if s.len() == 0 {
        s
    } else {
        s.update(0, toggle_sign(s[0])).reverse()
    }
}

/// The signed value of big-endian two's-complement bytes.
pub open spec fn be_signed_val(s: Seq<u8>) -> int {
    if s.len() == 0 {
        0
    } else if s[0] >= 0x80 {
        be_nat(s) - pow256(s.len())
    } else {
        be_nat(s) as int
    }
}

/// The signed value of little-endian two's-complement bytes, the natural
/// order of a raw decimal.
pub open spec fn le_signed_val(s: Seq<u8>) -> int {
    be_signed_val(s.reverse())
}

pub proof fn lemma_decimal_round_trip(bytes: Seq<u8>)
    ensures
        decimal_decode_spec(decimal_encode_spec(bytes)) == bytes,
{
    if bytes.len() == 0 {
    } else {
        let r = bytes.reverse();
        let enc = r.update(0, toggle_sign(r[0]));
        assert(enc[0] == toggle_sign(r[0]));
        assert(toggle_sign(toggle_sign(r[0])) == r[0]);
        assert(enc.update(0, toggle_sign(enc[0])) =~= r);
        assert(r.reverse() =~= bytes);
    }
}

/// The biased big-endian value of an encoded decimal: toggling the sign byte
/// shifts the signed value up by half the range.
proof fn lemma_decimal_biased(bytes: Seq<u8>)
    requires
        bytes.len() > 0,
    ensures
        be_nat(decimal_encode_spec(bytes)) == le_signed_val(bytes) + 128 * pow256(
            (bytes.len() - 1) as nat,
        ),
{
    let r = bytes.reverse();
    let enc = r.update(0, toggle_sign(r[0]));
    let p = pow256((r.len() - 1) as nat);
    lemma_be_nat_front(r);
    lemma_be_nat_front(enc);
    assert(enc.skip(1) =~= r.skip(1));
    assert(be_nat(enc) == toggle_sign(r[0]) * p + be_nat(r.skip(1)));
    if r[0] >= 0x80 {
        assert(toggle_sign(r[0]) * p == r[0] * p - 128 * p) by (nonlinear_arith)
            requires
                toggle_sign(r[0]) == r[0] - 128,
        ;
        assert(pow256(r.len()) == 256 * p);
    } else {
        assert(toggle_sign(r[0]) * p == r[0] * p + 128 * p) by (nonlinear_arith)
            requires
                toggle_sign(r[0]) == r[0] + 128,
        ;
    }
}

/// Decimal payloads of one width compare lexicographically exactly as the
/// signed values of the raw decimals compare.
pub proof fn lemma_decimal_order(x: Seq<u8>, y: Seq<u8>)
    requires
        x.len() == y.len(),
        x.len() > 0,
    ensures
        lex_lt(decimal_encode_spec(x), decimal_encode_spec(y)) == (le_signed_val(x)
            < le_signed_val(y)),
{
    lemma_decimal_biased(x);
    lemma_decimal_biased(y);
    assert(decimal_encode_spec(x).len() == x.len());
    assert(decimal_encode_spec(y).len() == y.len());
    lemma_lex_is_be_nat(decimal_encode_spec(x), decimal_encode_spec(y));
}

/// One byte as written under descending order.
pub open spec fn invert_byte(b: u8) -> u8 {
    (0xff - b) as u8
}

pub open spec fn invert_bytes(s: Seq<u8>) -> Seq<u8> {
    s.map_values(|b: u8| invert_byte(b))
}

/// Inverting twice restores the bytes.
pub proof fn lemma_invert_involution(s: Seq<u8>)
    ensures
        invert_bytes(invert_bytes(s)) == s,
{
    assert(invert_bytes(invert_bytes(s)) =~= s);
}

/// Inverting both strings of a pair of equal length reverses their order.
pub proof fn lemma_lex_invert(u: Seq<u8>, v: Seq<u8>)
    requires
        u.len() == v.len(),
    ensures
        lex_lt(invert_bytes(u), invert_bytes(v)) == lex_lt(v, u),
    decreases u.len(),
{
    if u.len() == 0 {
    } else {
        lemma_lex_invert(u.skip(1), v.skip(1));
        assert(invert_bytes(u).skip(1) =~= invert_bytes(u.skip(1)));
        assert(invert_bytes(v).skip(1) =~= invert_bytes(v.skip(1)));
        assert(invert_bytes(u)[0] == invert_byte(u[0]));
        assert(invert_bytes(v)[0] == invert_byte(v[0]));
    }
}

/// Whether the payload of a cell's value is structurally valid.
pub open spec fn cell_wf<T: FixedLengthEncoding>(v: Option<T>) -> bool {
    match v {
        Option::Some(x) => x.wf_spec(),
        Option::None => true,
    }
}

/// The bytes one fixed-width cell contributes to its row: a validity byte
/// `0x01` and the payload, the whole segment inverted under descending order;
/// or the bare null sentinel, never inverted.
pub open spec fn fixed_cell_spec<T: FixedLengthEncoding>(v: Option<T>, opts: crate::SortOptions) -> Seq<
    u8,
> {
    match v {
        Option::Some(x) => {
            let body = seq![1u8] + x.encode_spec();
            if opts.descending {
                invert_bytes(body)
            } else {
                body
            }
        },
        Option::None => seq![crate::null_sentinel_spec(opts)],
    }
}

/// How many row bytes a cell occupies.
pub open spec fn fixed_cell_len<T: FixedLengthEncoding>(v: Option<T>) -> nat {
    match v {
        Option::Some(_) => 1 + T::width_spec(),
        Option::None => 1,
    }
}

/// Reads one fixed-width cell off the front of a row suffix: `None` when the
/// suffix is malformed, otherwise the cell's value and the bytes consumed.
pub open spec fn fixed_cell_parse<T: FixedLengthEncoding>(
    s: Seq<u8>,
    opts: crate::SortOptions,
) -> Option<(Option<T>, nat)> {
    if s.len() < 1 {
        Option::None
    } else if s[0] == crate::null_sentinel_spec(opts) {
        Option::Some((Option::None, 1nat))
    } else if s.len() < 1 + T::width_spec() {
        Option::None
    } else {
        let seg = s.take(1 + T::width_spec() as int);
        let plain = if opts.descending {
            invert_bytes(seg)
        } else {
            seg
        };
        if plain[0] != 1 {
            Option::None
        } else {
            Option::Some((Option::Some(T::decode_spec(plain.skip(1))), 1 + T::width_spec()))
        }
    }
}

/// The first byte a present cell puts on the wire is `0x01` ascending and
/// `0xfe` descending, never a null sentinel.
proof fn lemma_present_cell_head<T: FixedLengthEncoding>(x: T, opts: crate::SortOptions)
    requires
        x.wf_spec(),
    ensures
        fixed_cell_spec(Option::Some(x), opts).len() == 1 + T::width_spec(),
        fixed_cell_spec(Option::Some(x), opts)[0] == if opts.descending {
            254u8
        } else {
            1u8
        },
{
    x.lemma_encode_len();
    T::lemma_width_small();
    let body = seq![1u8] + x.encode_spec();
    assert(body[0] == 1u8);
    if opts.descending {
        assert(invert_bytes(body)[0] == invert_byte(1u8));
    }
}

/// Parsing what the encoder wrote, with any continuation behind it, returns
/// exactly the encoded value and consumes exactly the cell.
pub proof fn lemma_fixed_cell_round_trip<T: FixedLengthEncoding>(
    v: Option<T>,
    tail: Seq<u8>,
    opts: crate::SortOptions,
)
    requires
        cell_wf(v),
    ensures
        fixed_cell_parse::<T>(fixed_cell_spec(v, opts) + tail, opts) == Option::Some(
            (v, fixed_cell_len::<T>(v)),
        ),
{
    let s = fixed_cell_spec(v, opts) + tail;
    match v {
        Option::None => {
            assert(s[0] == crate::null_sentinel_spec(opts));
        },
        Option::Some(x) => {
            lemma_present_cell_head(x, opts);
            T::lemma_width_small();
            x.lemma_encode_len();
            let w = T::width_spec();
            assert(s[0] != crate::null_sentinel_spec(opts));
            assert(s.len() >= 1 + w);
            let body = seq![1u8] + x.encode_spec();
            assert(s.take(1 + w as int) =~= fixed_cell_spec(v, opts));
            let plain = if opts.descending {
                invert_bytes(s.take(1 + w as int))
            } else {
                s.take(1 + w as int)
            };
            if opts.descending {
                lemma_invert_involution(body);
                assert(plain == body);
            }
            assert(plain[0] == 1u8);
            assert(plain.skip(1) =~= x.encode_spec());
            x.lemma_round_trip();
        },
    }
}

/// The typed comparison one cell position realizes under the column's sort
/// option: nulls to the requested end, present values by the type's order,
/// reversed when descending.
pub open spec fn cell_lt<T: FixedLengthEncoding>(
    a: Option<T>,
    b: Option<T>,
    opts: crate::SortOptions,
) -> bool {
    match (a, b) {
        (Option::None, Option::None) => false,
        (Option::None, Option::Some(_)) => opts.nulls_first,
        (Option::Some(_), Option::None) => !opts.nulls_first,
        (Option::Some(x), Option::Some(y)) => if opts.descending {
            y.lt_spec(&x)
        } else {
            x.lt_spec(&y)
        },
    }
}

/// Unsigned lexicographic order of two encoded cells equals the typed
/// comparison of the cell values under the sort option.
pub proof fn lemma_fixed_cell_order<T: FixedLengthEncoding>(
    a: Option<T>,
    b: Option<T>,
    opts: crate::SortOptions,
)
    requires
        cell_wf(a),
        cell_wf(b),
    ensures
        lex_lt(fixed_cell_spec(a, opts), fixed_cell_spec(b, opts)) == cell_lt(a, b, opts),
{
    let ca = fixed_cell_spec(a, opts);
    let cb = fixed_cell_spec(b, opts);
    let sent = crate::null_sentinel_spec(opts);
    match (a, b) {
        (Option::None, Option::None) => {
            lemma_lex_irrefl(ca);
        },
        (Option::None, Option::Some(y)) => {
            lemma_present_cell_head(y, opts);
            T::lemma_width_small();
            if sent < cb[0] {
                crate::lex::lemma_lex_diverge(ca, cb, 0);
            } else {
                crate::lex::lemma_lex_diverge(cb, ca, 0);
                crate::lex::lemma_lex_asym(cb, ca);
            }
        },
        (Option::Some(x), Option::None) => {
            lemma_present_cell_head(x, opts);
            T::lemma_width_small();
            if ca[0] < sent {
                crate::lex::lemma_lex_diverge(ca, cb, 0);
            } else {
                crate::lex::lemma_lex_diverge(cb, ca, 0);
                crate::lex::lemma_lex_asym(cb, ca);
            }
        },
        (Option::Some(x), Option::Some(y)) => {
            x.lemma_encode_len();
            y.lemma_encode_len();
            let bx = seq![1u8] + x.encode_spec();
            let bt = seq![1u8] + y.encode_spec();
            crate::lex::lemma_lex_common_prefix(seq![1u8], x.encode_spec(), y.encode_spec());
            crate::lex::lemma_lex_common_prefix(seq![1u8], y.encode_spec(), x.encode_spec());
            x.lemma_order(&y);
            y.lemma_order(&x);
            if opts.descending {
                lemma_lex_invert(bx, bt);
                assert(ca == invert_bytes(bx));
                assert(cb == invert_bytes(bt));
            } else {
                assert(ca == bx);
                assert(cb == bt);
            }
        },
    }
}

/// Copies a slice, inverting every byte when `invert` is set; descending
/// column segments are read back through this.
pub fn from_slice(slice: &[u8], invert: bool) -> (r: Vec<u8>)
    ensures
        r@ == if invert {
            invert_bytes(slice@)
        } else {
            slice@
        },
{
    let mut r: Vec<u8> = Vec::new();
    let mut i: usize = 0;
    while i < slice.len()
        invariant
            0 <= i <= slice@.len(),
            r@.len() == i,
            forall|j: int|
                0 <= j < i ==> r@[j] == (if invert {
                    invert_byte(slice@[j])
                } else {
                    slice@[j]
                }),
        decreases slice@.len() - i,
    {
        let b = slice[i];
        r.push(if invert {
            255 - b
        } else {
            b
        });
        i = i + 1;
    }
    proof {
        if invert {
            assert(r@ =~= invert_bytes(slice@));
        } else {
            assert(r@ =~= slice@);
        }
    }
    r
}

/// Copies a slice reversed.
fn reversed(slice: &[u8]) -> (r: Vec<u8>)
    ensures
        r@ == slice@.reverse(),
{
    let n = slice.len();
    let mut r: Vec<u8> = Vec::new();
    let mut i: usize = 0;
    while i < n
        invariant
            0 <= i <= n,
            n == slice@.len(),
            r@.len() == i,
            forall|j: int| 0 <= j < i ==> r@[j] == slice@[n - 1 - j],
        decreases n - i,
    {
        r.push(slice[n - 1 - i]);
        i = i + 1;
    }
    proof {
        assert(r@ =~= slice@.reverse());
    }
    r
}

impl<const N: usize> RawDecimal<N> {
    /// Structural validity: exactly the declared number of bytes.
    pub open spec fn wf(&self) -> bool {
        self.0@.len() == N
    }

    /// The signed value the little-endian bytes denote.
    pub open spec fn value_spec(&self) -> int {
        le_signed_val(self.0@)
    }

    /// The payload bytes of this decimal.
    pub fn encode(&self) -> (r: Vec<u8>)
        ensures
            r@ == decimal_encode_spec(self.0@),
    {
        let mut r = reversed(self.0.as_slice());
        if r.len() > 0 {
            let b0 = r[0];
            let t: u8 = if b0 >= 0x80 {
                b0 - 0x80
            } else {
                b0 + 0x80
            };
            r.set(0, t);
            proof {
                assert(r@ =~= decimal_encode_spec(self.0@));
            }
        }
        r
    }

    /// The decimal a payload denotes.
    pub fn decode(encoded: &[u8]) -> (r: Self)
        ensures
            r.0@ == decimal_decode_spec(encoded@),
            encoded@.len() == N ==> r.wf(),
    {
        let mut v = from_slice(encoded, false);
        if v.len() > 0 {
            let b0 = v[0];
            let t: u8 = if b0 >= 0x80 {
                b0 - 0x80
            } else {
                b0 + 0x80
            };
            v.set(0, t);
        }
        let out = reversed(v.as_slice());
        proof {
            if encoded@.len() > 0 {
                assert(v@ =~= encoded@.update(0, toggle_sign(encoded@[0])));
            } else {
                assert(out@ =~= decimal_decode_spec(encoded@));
            }
        }
        RawDecimal(out)
    }

    /// A zero decimal of this width.
    pub fn zero_value() -> (r: Self)
        ensures
            r.wf(),
            r.value_spec() == 0,
            forall|j: int| 0 <= j < N ==> r.0@[j] == 0u8,
    {
        let mut v: Vec<u8> = Vec::new();
        let mut i: usize = 0;
        while i < N
            invariant
                0 <= i <= N,
                v@.len() == i,
                forall|j: int| 0 <= j < i ==> v@[j] == 0u8,
            decreases N - i,
        {
            v.push(0);
            i = i + 1;
        }
        proof {
            lemma_zero_bytes_val(v@.reverse());
        }
        RawDecimal(v)
    }
}

/// All-zero big-endian bytes denote zero.
proof fn lemma_zero_bytes_val(s: Seq<u8>)
    requires
        forall|j: int| 0 <= j < s.len() ==> s[j] == 0u8,
    ensures
        be_nat(s) == 0,
        be_signed_val(s) == 0,
    decreases s.len(),
{
    if s.len() > 0 {
        lemma_zero_bytes_val(s.drop_last());
    }
}

/// The total encoded length of one present cell of `T`: a validity byte plus
/// the payload.
pub fn encoded_len<T: FixedLengthEncoding>() -> (r: usize)
    ensures
        r as nat == 1 + T::width_spec(),
{
    proof {
        T::lemma_width_small();
    }
    1 + T::width()
}

/// Overwrites `buf[off .. off + bytes.len()]` with `bytes`, leaving every
/// other byte as it was.
fn write_bytes(buf: &mut Vec<u8>, off: usize, bytes: &Vec<u8>)
    requires
        off + bytes@.len() <= old(buf)@.len(),
    ensures
        final(buf)@.len() == old(buf)@.len(),
        final(buf)@.subrange(off as int, off + bytes@.len()) == bytes@,
        forall|k: int|
            0 <= k < old(buf)@.len() && !(off <= k < off + bytes@.len()) ==> final(buf)@[k] == old(
                buf,
            )@[k],
{
    proof {
        assert(buf.len() == buf@.len());
    }
    let end: usize = off + bytes.len();
    let mut j: usize = 0;
    while j < bytes.len()
        invariant
            0 <= j <= bytes@.len(),
            end == off + bytes@.len(),
            end <= buf@.len(),
            buf@.len() == old(buf)@.len(),
            forall|k: int| 0 <= k < j ==> buf@[off + k] == bytes@[k],
            forall|k: int|
                0 <= k < buf@.len() && !(off <= k < off + j) ==> buf@[k] == old(buf)@[k],
        decreases bytes@.len() - j,
    {
        buf.set(off + j, bytes[j]);
        j = j + 1;
    }
    proof {
        assert(buf@.subrange(off as int, off + bytes@.len()) =~= bytes@);
    }
}

/// Builds the row bytes of one fixed-width cell.
fn fixed_cell<T: FixedLengthEncoding>(v: &Option<T>, opts: crate::SortOptions) -> (r: Vec<u8>)
    requires
        cell_wf(*v),
    ensures
        r@ == fixed_cell_spec(*v, opts),
        r@.len() == fixed_cell_len::<T>(*v),
{
    match v {
        Option::None => {
            let mut c: Vec<u8> = Vec::new();
            c.push(crate::null_sentinel(opts));
            proof {
                assert(c@ =~= fixed_cell_spec(*v, opts));
            }
            c
        },
        Option::Some(x) => {
            proof {
                x.lemma_encode_len();
                T::lemma_width_small();
            }
            let payload = x.encode();
            let mut c: Vec<u8> = Vec::new();
            c.push(1u8);
            let mut j: usize = 0;
            while j < payload.len()
                invariant
                    0 <= j <= payload@.len(),
                    c@.len() == 1 + j,
                    c@[0] == 1u8,
                    forall|k: int| 0 <= k < j ==> c@[k + 1] == payload@[k],
                decreases payload@.len() - j,
            {
                c.push(payload[j]);
                j = j + 1;
            }
            proof {
                assert(c@ =~= seq![1u8] + payload@);
            }
            if opts.descending {
                let ghost body = c@;
                let mut k: usize = 0;
                while k < c.len()
                    invariant
                        0 <= k <= c@.len(),
                        c@.len() == body.len(),
                        forall|m: int| 0 <= m < k ==> c@[m] == invert_byte(body[m]),
                        forall|m: int| k <= m < c@.len() ==> c@[m] == body[m],
                    decreases c@.len() - k,
                {
                    let b = c[k];
                    c.set(k, 255 - b);
                    k = k + 1;
                }
                proof {
                    assert(c@ =~= invert_bytes(body));
                }
            }
            c
        },
    }
}

/// Where row `i`'s cell must end: before the next row's cursor, or before the
/// end of the buffer for the last row.
pub open spec fn region_end(r: Rows, i: int, n: int) -> int {
    if i < n - 1 {
        r.offsets@[i + 2] as int
    } else {
        r.buffer@.len() as int
    }
}

/// Every cell region that fits before the next cursor also fits in the buffer.
proof fn lemma_region_in_buffer(r: Rows, cells: Seq<Seq<u8>>, i: int)
    requires
        r.offsets@.len() == cells.len() + 1,
        forall|j: int|
            0 <= j < cells.len() ==> r.offsets@[j + 1] + cells[j].len() <= region_end(
                r,
                j,
                cells.len() as int,
            ),
        0 <= i < cells.len(),
    ensures
        r.offsets@[i + 1] + cells[i].len() <= r.buffer@.len(),
        forall|j: int|
            i < j < cells.len() ==> r.offsets@[i + 1] + cells[i].len() <= #[trigger] r.offsets@[j
                + 1],
    decreases cells.len() - i,
{
    let n = cells.len() as int;
    assert(r.offsets@[i + 1] + cells[i].len() <= region_end(r, i, n));
    if i == n - 1 {
    } else {
        lemma_region_in_buffer(r, cells, i + 1);
        assert(region_end(r, i, n) == r.offsets@[i + 2]);
        assert forall|j: int|
            i < j < n implies r.offsets@[i + 1] + cells[i].len() <= #[trigger] r.offsets@[j
            + 1] by {
            if j > i + 1 {
                assert(r.offsets@[i + 2] + cells[i + 1].len() <= r.offsets@[j + 1]);
            }
        }
        assert(r.offsets@[i + 2] + cells[i + 1].len() <= r.buffer@.len());
    }
}

/// The views of a vector of row cells.
pub open spec fn cell_views(cells: Seq<Vec<u8>>) -> Seq<Seq<u8>> {
    cells.map_values(|c: Vec<u8>| c@)
}

/// Writes one pre-built cell per row at the row's cursor and advances the
/// cursor past it; bytes outside the written regions keep their value.
pub fn write_cells(out: &mut Rows, cells: &Vec<Vec<u8>>)
    requires
        old(out).offsets@.len() == cells@.len() + 1,
        forall|i: int|
            0 <= i < cells@.len() ==> old(out).offsets@[i + 1] + cells@[i]@.len() <= region_end(
                *old(out),
                i,
                cells@.len() as int,
            ),
    ensures
        final(out).buffer@.len() == old(out).buffer@.len(),
        final(out).offsets@.len() == old(out).offsets@.len(),
        final(out).offsets@[0] == old(out).offsets@[0],
        forall|i: int|
            0 <= i < cells@.len() ==> final(out).offsets@[i + 1] == old(out).offsets@[i + 1]
                + cells@[i]@.len(),
        forall|i: int|
            0 <= i < cells@.len() ==> final(out).buffer@.subrange(
                old(out).offsets@[i + 1] as int,
                old(out).offsets@[i + 1] + cells@[i]@.len(),
            ) == cells@[i]@,
        forall|k: int|
            0 <= k < old(out).buffer@.len() && (forall|i: int|
                0 <= i < cells@.len() ==> !(#[trigger] old(out).offsets@[i + 1] <= k < old(
                    out,
                ).offsets@[i + 1] + cells@[i]@.len())) ==> final(out).buffer@[k] == old(
                out,
            ).buffer@[k],
{
    let n = cells.len();
    let mut i: usize = 0;
    while i < n
        invariant
            0 <= i <= n,
            n == cells@.len(),
            out.offsets@.len() == n + 1,
            old(out).offsets@.len() == n + 1,
            out.buffer@.len() == old(out).buffer@.len(),
            forall|j: int|
                0 <= j < cells@.len() ==> old(out).offsets@[j + 1] + cells@[j]@.len()
                    <= region_end(*old(out), j, cells@.len() as int),
            out.offsets@[0] == old(out).offsets@[0],
            forall|j: int| i <= j < n ==> #[trigger] out.offsets@[j + 1] == old(out).offsets@[j
                + 1],
            forall|j: int|
                0 <= j < i ==> out.offsets@[j + 1] == old(out).offsets@[j + 1] + cells@[j]@.len(),
            forall|j: int|
                0 <= j < i ==> out.buffer@.subrange(
                    old(out).offsets@[j + 1] as int,
                    old(out).offsets@[j + 1] + cells@[j]@.len(),
                ) == cells@[j]@,
            forall|k: int|
                0 <= k < old(out).buffer@.len() && (forall|j: int|
                    0 <= j < i ==> !(#[trigger] old(out).offsets@[j + 1] <= k < old(
                        out,
                    ).offsets@[j + 1] + cells@[j]@.len())) ==> out.buffer@[k] == old(
                    out,
                ).buffer@[k],
        decreases n - i,
    {
        let off = out.offsets[i + 1];
        proof {
            lemma_region_in_buffer(*old(out), cell_views(cells@), i as int);
            assert(out.buffer.len() == out.buffer@.len());
        }
        let ghost pre = out.buffer@;
        write_bytes(&mut out.buffer, off, &cells[i]);
        proof {
            assert forall|j: int|
                0 <= j < i implies out.buffer@.subrange(
                old(out).offsets@[j + 1] as int,
                old(out).offsets@[j + 1] + cells@[j]@.len(),
            ) == cells@[j]@ by {
                lemma_region_in_buffer(*old(out), cell_views(cells@), j);
                assert(out.buffer@.subrange(
                    old(out).offsets@[j + 1] as int,
                    old(out).offsets@[j + 1] + cells@[j]@.len(),
                ) =~= pre.subrange(
                    old(out).offsets@[j + 1] as int,
                    old(out).offsets@[j + 1] + cells@[j]@.len(),
                ));
            }
        }
        let new_off = off + cells[i].len();
        out.offsets.set(i + 1, new_off);
        i = i + 1;
    }
}

/// Fixed width columns are encoded one cell per row: `0x01` and the payload
/// when present (the segment inverted when descending), the null sentinel
/// alone when null. Each row's cursor advances past its cell.
pub fn encode<T: FixedLengthEncoding>(
    out: &mut Rows,
    column: &Vec<Option<T>>,
    opts: crate::SortOptions,
)
    requires
        old(out).offsets@.len() == column@.len() + 1,
        forall|i: int| 0 <= i < column@.len() ==> cell_wf(column@[i]),
        forall|i: int|
            0 <= i < column@.len() ==> old(out).offsets@[i + 1] + fixed_cell_len::<T>(column@[i])
                <= region_end(*old(out), i, column@.len() as int),
    ensures
        final(out).buffer@.len() == old(out).buffer@.len(),
        final(out).offsets@.len() == old(out).offsets@.len(),
        final(out).offsets@[0] == old(out).offsets@[0],
        forall|i: int|
            0 <= i < column@.len() ==> final(out).offsets@[i + 1] == old(out).offsets@[i + 1]
                + fixed_cell_len::<T>(column@[i]),
        forall|i: int|
            0 <= i < column@.len() ==> final(out).buffer@.subrange(
                old(out).offsets@[i + 1] as int,
                old(out).offsets@[i + 1] + fixed_cell_len::<T>(column@[i]),
            ) == fixed_cell_spec(column@[i], opts),
        forall|k: int|
            0 <= k < old(out).buffer@.len() && (forall|i: int|
                0 <= i < column@.len() ==> !(#[trigger] old(out).offsets@[i + 1] <= k < old(
                    out,
                ).offsets@[i + 1] + fixed_cell_len::<T>(column@[i]))) ==> final(out).buffer@[k]
                == old(out).buffer@[k],
{
    let n = column.len();
    let mut cells: Vec<Vec<u8>> = Vec::new();
    let mut i: usize = 0;
    while i < n
        invariant
            0 <= i <= n,
            n == column@.len(),
            forall|j: int| 0 <= j < column@.len() ==> cell_wf(column@[j]),
            cells@.len() == i,
            forall|j: int|
                0 <= j < i ==> (#[trigger] cells@[j])@ == fixed_cell_spec(column@[j], opts)
                    && cells@[j]@.len() == fixed_cell_len::<T>(column@[j]),
        decreases n - i,
    {
        let c = fixed_cell(&column[i], opts);
        cells.push(c);
        i = i + 1;
    }
    write_cells(out, &cells);
    proof {
        assert forall|i: int|
            0 <= i < column@.len() implies out.offsets@[i + 1] == old(out).offsets@[i + 1]
            + fixed_cell_len::<T>(column@[i]) by {
            assert(cells@[i]@.len() == fixed_cell_len::<T>(column@[i]));
        }
        assert forall|i: int|
            0 <= i < column@.len() implies out.buffer@.subrange(
            old(out).offsets@[i + 1] as int,
            old(out).offsets@[i + 1] + fixed_cell_len::<T>(column@[i]),
        ) == fixed_cell_spec(column@[i], opts) by {
            assert(cells@[i]@.len() == fixed_cell_len::<T>(column@[i]));
            assert(cells@[i]@ == fixed_cell_spec(column@[i], opts));
        }
        assert forall|k: int|
            0 <= k < old(out).buffer@.len() && (forall|i: int|
                0 <= i < column@.len() ==> !(#[trigger] old(out).offsets@[i + 1] <= k < old(
                    out,
                ).offsets@[i + 1] + fixed_cell_len::<T>(column@[i]))) implies out.buffer@[k]
            == old(out).buffer@[k] by {
            assert forall|i: int|
                0 <= i < cells@.len() implies !(#[trigger] old(out).offsets@[i + 1] <= k < old(
                    out,
                ).offsets@[i + 1] + cells@[i]@.len()) by {
                assert(cells@[i]@.len() == fixed_cell_len::<T>(column@[i]));
            }
        }
    }
}

/// Splits `len` bytes off a row at the cursor, advancing the cursor.
pub fn split_off(src: &Vec<u8>, pos: &mut usize, len: usize) -> (r: Vec<u8>)
    requires
        *old(pos) + len <= src@.len(),
    ensures
        r@ == src@.subrange(*old(pos) as int, *old(pos) + len),
        *final(pos) == *old(pos) + len,
{
    proof {
        assert(src.len() == src@.len());
    }
    let start: usize = *pos;
    let end: usize = start + len;
    let mut r: Vec<u8> = Vec::new();
    let mut j: usize = 0;
    while j < len
        invariant
            0 <= j <= len,
            start + len == end,
            end <= src@.len(),
            r@.len() == j,
            forall|k: int| 0 <= k < j ==> r@[k] == src@[start + k],
        decreases len - j,
    {
        r.push(src[start + j]);
        j = j + 1;
    }
    proof {
        assert(r@ =~= src@.subrange(*old(pos) as int, *old(pos) + len));
    }
    *pos = end;
    r
}

/// Two encoded cells of one column are either equal or diverge before
/// either ends: a null cell and a present cell differ in their first byte,
/// and two present cells have one length.
pub proof fn lemma_fixed_cells_diverge<T: FixedLengthEncoding>(
    a: Option<T>,
    b: Option<T>,
    opts: crate::SortOptions,
)
    requires
        cell_wf(a),
        cell_wf(b),
    ensures
        segments_comparable(fixed_cell_spec(a, opts), fixed_cell_spec(b, opts)),
{
    let ca = fixed_cell_spec(a, opts);
    let cb = fixed_cell_spec(b, opts);
    match (a, b) {
        (Option::None, Option::None) => {
            assert(ca =~= cb);
        },
        (Option::None, Option::Some(y)) => {
            lemma_present_cell_head(y, opts);
            assert(ca[0] != cb[0]);
            assert(cb.take(ca.len() as int)[0] == cb[0]);
        },
        (Option::Some(x), Option::None) => {
            lemma_present_cell_head(x, opts);
            assert(ca[0] != cb[0]);
            assert(ca.take(cb.len() as int)[0] == ca[0]);
        },
        (Option::Some(x), Option::Some(y)) => {
            lemma_present_cell_head(x, opts);
            lemma_present_cell_head(y, opts);
            if ca != cb {
                assert(ca.len() == cb.len());
                if ca == cb.take(ca.len() as int) {
                    assert(cb.take(ca.len() as int) =~= cb);
                }
                if cb == ca.take(cb.len() as int) {
                    assert(ca.take(cb.len() as int) =~= ca);
                }
            }
        },
    }
}

/// Two values whose cells encode alike are alike: the cell encoding is
/// injective on well-formed values.
pub proof fn lemma_fixed_cell_injective<T: FixedLengthEncoding>(
    a: Option<T>,
    b: Option<T>,
    opts: crate::SortOptions,
)
    requires
        cell_wf(a),
        cell_wf(b),
        fixed_cell_spec(a, opts) == fixed_cell_spec(b, opts),
    ensures
        a == b,
{
    lemma_fixed_cell_round_trip(a, Seq::empty(), opts);
    lemma_fixed_cell_round_trip(b, Seq::empty(), opts);
    assert(fixed_cell_spec(a, opts) + Seq::<u8>::empty() =~= fixed_cell_spec(a, opts));
    assert(fixed_cell_spec(b, opts) + Seq::<u8>::empty() =~= fixed_cell_spec(b, opts));
}

/// Order preservation lifted to a row of two cells: the concatenated
/// encodings compare under unsigned lexicographic order exactly as the
/// tuples compare column by column under their sort options. Rows of more
/// columns compare the same way, cell by cell from the left.
pub proof fn lemma_row_pair_order<T1: FixedLengthEncoding, T2: FixedLengthEncoding>(
    a1: Option<T1>,
    a2: Option<T2>,
    b1: Option<T1>,
    b2: Option<T2>,
    o1: crate::SortOptions,
    o2: crate::SortOptions,
)
    requires
        cell_wf(a1),
        cell_wf(a2),
        cell_wf(b1),
        cell_wf(b2),
    ensures
        lex_lt(
            fixed_cell_spec(a1, o1) + fixed_cell_spec(a2, o2),
            fixed_cell_spec(b1, o1) + fixed_cell_spec(b2, o2),
        ) == (cell_lt(a1, b1, o1) || (a1 == b1 && cell_lt(a2, b2, o2))),
{
    lemma_fixed_cells_diverge(a1, b1, o1);
    crate::lex::lemma_lex_concat(
        fixed_cell_spec(a1, o1),
        fixed_cell_spec(b1, o1),
        fixed_cell_spec(a2, o2),
        fixed_cell_spec(b2, o2),
    );
    lemma_fixed_cell_order(a1, b1, o1);
    lemma_fixed_cell_order(a2, b2, o2);
    if fixed_cell_spec(a1, o1) == fixed_cell_spec(b1, o1) {
        lemma_fixed_cell_injective(a1, b1, o1);
        lemma_lex_irrefl(fixed_cell_spec(a1, o1));
        assert(!cell_lt(a1, b1, o1));
    } else {
        if a1 == b1 {
        }
        if cell_lt(a1, b1, o1) {
        } else {
            crate::lex::lemma_lex_total(fixed_cell_spec(a1, o1), fixed_cell_spec(b1, o1));
            crate::lex::lemma_lex_asym(fixed_cell_spec(b1, o1), fixed_cell_spec(a1, o1));
        }
    }
}


/// Two encoded segments of one column are either equal or diverge before
/// either ends.
pub open spec fn segments_comparable(a: Seq<u8>, b: Seq<u8>) -> bool {
    a == b || (!crate::interner::is_prefix(a, b) && !crate::interner::is_prefix(b, a))
}

/// A row as the concatenation of its per-column cell segments.
pub open spec fn concat_segments(cells: Seq<Seq<u8>>) -> Seq<u8>
    decreases cells.len(),
{
    if cells.len() == 0 {
        Seq::empty()
    } else {
        cells[0] + concat_segments(cells.skip(1))
    }
}

/// Column-wise comparison of two rows of cell segments: the first column
/// whose segments differ decides, by their lexicographic order.
pub open spec fn segments_lt(a: Seq<Seq<u8>>, b: Seq<Seq<u8>>) -> bool
    decreases a.len(),
{
    if a.len() == 0 {
        false
    } else if a[0] == b[0] {
        segments_lt(a.skip(1), b.skip(1))
    } else {
        lex_lt(a[0], b[0])
    }
}

/// Order preservation for whole rows of any width: when every column's two
/// cell segments are equal or diverge (which `lemma_fixed_cells_diverge`,
/// `lemma_decimal_cells_diverge` and the dictionary cell law provide), the
/// unsigned lexicographic order of the concatenated rows is the column-wise
/// comparison of the segments; each column's segments in turn compare as
/// the typed values compare, by the per-type cell order laws.
pub proof fn lemma_row_order(a: Seq<Seq<u8>>, b: Seq<Seq<u8>>)
    requires
        a.len() == b.len(),
        forall|i: int| 0 <= i < a.len() ==> segments_comparable(#[trigger] a[i], #[trigger] b[i]),
    ensures
        lex_lt(concat_segments(a), concat_segments(b)) == segments_lt(a, b),
    decreases a.len(),
{
    if a.len() == 0 {
        assert(concat_segments(a) =~= Seq::<u8>::empty());
        lemma_lex_irrefl(concat_segments(a));
    } else {
        assert(segments_comparable(a[0], b[0]));
        crate::lex::lemma_lex_concat(
            a[0],
            b[0],
            concat_segments(a.skip(1)),
            concat_segments(b.skip(1)),
        );
        assert forall|i: int|
            0 <= i < a.skip(1).len() implies segments_comparable(
            #[trigger] a.skip(1)[i],
            #[trigger] b.skip(1)[i],
        ) by {
            assert(a.skip(1)[i] == a[i + 1]);
            assert(b.skip(1)[i] == b[i + 1]);
        }
        lemma_row_order(a.skip(1), b.skip(1));
    }
}

/// Two decimal cells of one width are either equal or diverge before
/// either ends.
pub proof fn lemma_decimal_cells_diverge(
    a: Option<Seq<u8>>,
    b: Option<Seq<u8>>,
    n: nat,
    opts: crate::SortOptions,
)
    requires
        a matches Option::Some(x) ==> x.len() == n,
        b matches Option::Some(x) ==> x.len() == n,
        n > 0,
    ensures
        segments_comparable(decimal_cell_spec(a, opts), decimal_cell_spec(b, opts)),
{
    let ca = decimal_cell_spec(a, opts);
    let cb = decimal_cell_spec(b, opts);
    match (a, b) {
        (Option::None, Option::None) => {
            assert(ca =~= cb);
        },
        (Option::None, Option::Some(y)) => {
            let body = seq![1u8] + decimal_encode_spec(y);
            assert(cb[0] == if opts.descending {
                invert_byte(body[0])
            } else {
                body[0]
            });
            assert(ca[0] != cb[0]);
            assert(cb.take(ca.len() as int)[0] == cb[0]);
        },
        (Option::Some(x), Option::None) => {
            let body = seq![1u8] + decimal_encode_spec(x);
            assert(ca[0] == if opts.descending {
                invert_byte(body[0])
            } else {
                body[0]
            });
            assert(ca[0] != cb[0]);
            assert(ca.take(cb.len() as int)[0] == ca[0]);
        },
        (Option::Some(x), Option::Some(y)) => {
            assert(decimal_encode_spec(x).len() == n);
            assert(decimal_encode_spec(y).len() == n);
            assert(ca.len() == cb.len());
            if ca != cb {
                if crate::interner::is_prefix(ca, cb) {
                    assert(cb.take(ca.len() as int) =~= cb);
                }
                if crate::interner::is_prefix(cb, ca) {
                    assert(ca.take(cb.len() as int) =~= ca);
                }
            }
        },
    }
}

/// A decoded column of fixed-width values: one value and one validity flag
/// per row; null rows hold the type's zero value and a cleared flag.
pub struct PrimitiveColumn<T> {
    pub values: Vec<T>,
    pub valid: Vec<bool>,
}

/// What a decoded cell leaves in the output column.
pub open spec fn value_or_zero<T: FixedLengthEncoding>(v: Option<T>) -> T {
    match v {
        Option::Some(x) => x,
        Option::None => T::zero_spec(),
    }
}

/// Reads one fixed-width cell at the cursor of one row.
fn decode_fixed_cell<T: FixedLengthEncoding>(
    row: &Vec<u8>,
    pos: &mut usize,
    opts: crate::SortOptions,
) -> (r: Result<Option<T>, crate::CodecError>)
    requires
        *old(pos) <= row@.len(),
    ensures
        match fixed_cell_parse::<T>(row@.skip(*old(pos) as int), opts) {
            Option::Some(vc) => r == Ok::<Option<T>, crate::CodecError>(vc.0) && *final(pos)
                == *old(pos) + vc.1 && vc.1 <= row@.len() - *old(pos) && cell_wf(vc.0),
            Option::None => r == Err::<Option<T>, crate::CodecError>(
                crate::CodecError::MalformedRow,
            ) && *final(pos) == *old(pos),
        },
{
    proof {
        T::lemma_width_small();
        assert(row.len() == row@.len());
    }
    let w = T::width();
    let sent = crate::null_sentinel(opts);
    let ghost s = row@.skip(*old(pos) as int);
    if *pos >= row.len() {
        return Err(crate::CodecError::MalformedRow);
    }
    let b0 = row[*pos];
    proof {
        assert(s[0] == row@[*old(pos) as int]);
    }
    if b0 == sent {
        *pos = *pos + 1;
        return Ok(Option::None);
    }
    if row.len() - *pos < 1 + w {
        return Err(crate::CodecError::MalformedRow);
    }
    let v0: u8 = if opts.descending {
        255 - b0
    } else {
        b0
    };
    let ghost seg = s.take(1 + T::width_spec() as int);
    let ghost plain = if opts.descending {
        invert_bytes(seg)
    } else {
        seg
    };
    proof {
        assert(seg[0] == s[0]);
        assert(plain[0] == v0);
    }
    if v0 != 1 {
        return Err(crate::CodecError::MalformedRow);
    }
    let start = *pos;
    let mut payload: Vec<u8> = Vec::new();
    let mut j: usize = 0;
    while j < w
        invariant
            0 <= j <= w,
            w as nat == T::width_spec(),
            start + 1 + w <= row@.len(),
            row@.len() <= usize::MAX,
            payload@.len() == j,
            forall|k: int|
                0 <= k < j ==> payload@[k] == (if opts.descending {
                    invert_byte(row@[start + 1 + k])
                } else {
                    row@[start + 1 + k]
                }),
        decreases w - j,
    {
        let mut b = row[start + 1 + j];
        if opts.descending {
            b = 255 - b;
        }
        payload.push(b);
        j = j + 1;
    }
    proof {
        assert forall|k: int| 0 <= k < T::width_spec() implies payload@[k] == plain.skip(1)[k] by {
            assert(plain.skip(1)[k] == plain[k + 1]);
            assert(seg[k + 1] == s[k + 1]);
            assert(s[k + 1] == row@[start + 1 + k]);
        }
        assert(payload@ =~= plain.skip(1));
    }
    let val = T::decode(payload.as_slice());
    *pos = start + 1 + w;
    Ok(Option::Some(val))
}

/// Decodes a whole fixed-width column off the rows' cursors. Succeeds exactly
/// when every row holds a well-formed cell at its cursor; otherwise reports
/// `MalformedRow`.
pub fn decode_fixed<T: FixedLengthEncoding>(
    rows: &Vec<Vec<u8>>,
    pos: &mut Vec<usize>,
    opts: crate::SortOptions,
) -> (r: Result<PrimitiveColumn<T>, crate::CodecError>)
    requires
        old(pos)@.len() == rows@.len(),
        forall|i: int| 0 <= i < rows@.len() ==> old(pos)@[i] <= rows@[i]@.len(),
    ensures
        r is Ok <==> (forall|i: int|
            0 <= i < rows@.len() ==> fixed_cell_parse::<T>(
                rows@[i]@.skip(old(pos)@[i] as int),
                opts,
            ) is Some),
        r is Err ==> r == Err::<PrimitiveColumn<T>, crate::CodecError>(
            crate::CodecError::MalformedRow,
        ),
        r matches Ok(col) ==> {
            &&& col.values@.len() == rows@.len()
            &&& col.valid@.len() == rows@.len()
            &&& final(pos)@.len() == rows@.len()
            &&& forall|i: int|
                #![trigger rows@[i]]
                0 <= i < rows@.len() ==> {
                    let vc = fixed_cell_parse::<T>(
                        rows@[i]@.skip(old(pos)@[i] as int),
                        opts,
                    )->0;
                    &&& col.values@[i] == value_or_zero(vc.0)
                    &&& col.valid@[i] == (vc.0 is Some)
                    &&& final(pos)@[i] == old(pos)@[i] + vc.1
                }
        },
{
    let n = rows.len();
    let mut values: Vec<T> = Vec::new();
    let mut valid: Vec<bool> = Vec::new();
    let mut i: usize = 0;
    while i < n
        invariant
            0 <= i <= n,
            n == rows@.len(),
            pos@.len() == n,
            old(pos)@.len() == n,
            forall|j: int| 0 <= j < rows@.len() ==> old(pos)@[j] <= rows@[j]@.len(),
            values@.len() == i,
            valid@.len() == i,
            forall|j: int| i <= j < n ==> pos@[j] == old(pos)@[j],
            forall|j: int|
                0 <= j < i ==> fixed_cell_parse::<T>(
                    rows@[j]@.skip(old(pos)@[j] as int),
                    opts,
                ) is Some,
            forall|j: int|
                #![trigger rows@[j]]
                0 <= j < i ==> {
                    let vc = fixed_cell_parse::<T>(
                        rows@[j]@.skip(old(pos)@[j] as int),
                        opts,
                    )->0;
                    &&& values@[j] == value_or_zero(vc.0)
                    &&& valid@[j] == (vc.0 is Some)
                    &&& pos@[j] == old(pos)@[j] + vc.1
                },
        decreases n - i,
    {
        let mut p: usize = pos[i];
        let cell = decode_fixed_cell::<T>(&rows[i], &mut p, opts);
        match cell {
            Ok(v) => {
                match v {
                    Option::Some(x) => {
                        values.push(x);
                        valid.push(true);
                    },
                    Option::None => {
                        values.push(T::zero_value());
                        valid.push(false);
                    },
                }
                pos.set(i, p);
            },
            Err(e) => {
                return Err(e);
            },
        }
        i = i + 1;
    }
    Ok(PrimitiveColumn { values, valid })
}

/// Decodes a primitive column; fixed-width scalars all decode this way.
pub fn decode_primitive<T: FixedLengthEncoding>(
    rows: &Vec<Vec<u8>>,
    pos: &mut Vec<usize>,
    opts: crate::SortOptions,
) -> (r: Result<PrimitiveColumn<T>, crate::CodecError>)
    requires
        old(pos)@.len() == rows@.len(),
        forall|i: int| 0 <= i < rows@.len() ==> old(pos)@[i] <= rows@[i]@.len(),
    ensures
        r is Ok <==> (forall|i: int|
            0 <= i < rows@.len() ==> fixed_cell_parse::<T>(
                rows@[i]@.skip(old(pos)@[i] as int),
                opts,
            ) is Some),
        r is Err ==> r == Err::<PrimitiveColumn<T>, crate::CodecError>(
            crate::CodecError::MalformedRow,
        ),
        r matches Ok(col) ==> {
            &&& col.values@.len() == rows@.len()
            &&& col.valid@.len() == rows@.len()
            &&& final(pos)@.len() == rows@.len()
            &&& forall|i: int|
                #![trigger rows@[i]]
                0 <= i < rows@.len() ==> {
                    let vc = fixed_cell_parse::<T>(
                        rows@[i]@.skip(old(pos)@[i] as int),
                        opts,
                    )->0;
                    &&& col.values@[i] == value_or_zero(vc.0)
                    &&& col.valid@[i] == (vc.0 is Some)
                    &&& final(pos)@[i] == old(pos)@[i] + vc.1
                }
        },
{
    decode_fixed::<T>(rows, pos, opts)
}

/// Decodes a boolean column from rows.
pub fn decode_bool(rows: &Vec<Vec<u8>>, pos: &mut Vec<usize>, opts: crate::SortOptions) -> (r:
    Result<PrimitiveColumn<bool>, crate::CodecError>)
    requires
        old(pos)@.len() == rows@.len(),
        forall|i: int| 0 <= i < rows@.len() ==> old(pos)@[i] <= rows@[i]@.len(),
    ensures
        r is Ok <==> (forall|i: int|
            0 <= i < rows@.len() ==> fixed_cell_parse::<bool>(
                rows@[i]@.skip(old(pos)@[i] as int),
                opts,
            ) is Some),
        r is Err ==> r == Err::<PrimitiveColumn<bool>, crate::CodecError>(
            crate::CodecError::MalformedRow,
        ),
        r matches Ok(col) ==> {
            &&& col.values@.len() == rows@.len()
            &&& col.valid@.len() == rows@.len()
            &&& final(pos)@.len() == rows@.len()
            &&& forall|i: int|
                #![trigger rows@[i]]
                0 <= i < rows@.len() ==> {
                    let vc = fixed_cell_parse::<bool>(
                        rows@[i]@.skip(old(pos)@[i] as int),
                        opts,
                    )->0;
                    &&& col.values@[i] == value_or_zero(vc.0)
                    &&& col.valid@[i] == (vc.0 is Some)
                    &&& final(pos)@[i] == old(pos)@[i] + vc.1
                }
        },
{
    decode_fixed::<bool>(rows, pos, opts)
}

/// The row bytes of one decimal cell of little-endian value bytes `v`.
pub open spec fn decimal_cell_spec(v: Option<Seq<u8>>, opts: crate::SortOptions) -> Seq<u8> {
    match v {
        Option::Some(le) => {
            let body = seq![1u8] + decimal_encode_spec(le);
            if opts.descending {
                invert_bytes(body)
            } else {
                body
            }
        },
        Option::None => seq![crate::null_sentinel_spec(opts)],
    }
}

pub open spec fn decimal_cell_len(v: Option<Seq<u8>>, n: nat) -> nat {
    match v {
        Option::Some(_) => 1 + n,
        Option::None => 1,
    }
}

/// Reads one decimal cell of `n` payload bytes off the front of a row suffix.
pub open spec fn decimal_cell_parse(s: Seq<u8>, opts: crate::SortOptions, n: nat) -> Option<
    (Option<Seq<u8>>, nat),
> {
    if s.len() < 1 {
        Option::None
    } else if s[0] == crate::null_sentinel_spec(opts) {
        Option::Some((Option::None, 1nat))
    } else if s.len() < 1 + n {
        Option::None
    } else {
        let seg = s.take(1 + n as int);
        let plain = if opts.descending {
            invert_bytes(seg)
        } else {
            seg
        };
        if plain[0] != 1 {
            Option::None
        } else {
            Option::Some((Option::Some(decimal_decode_spec(plain.skip(1))), 1 + n))
        }
    }
}

/// Parsing an encoded decimal cell, with any continuation behind it, returns
/// exactly the encoded bytes and consumes exactly the cell.
pub proof fn lemma_decimal_cell_round_trip(
    v: Option<Seq<u8>>,
    n: nat,
    tail: Seq<u8>,
    opts: crate::SortOptions,
)
    requires
        v is Some ==> v->0.len() == n,
        n > 0,
    ensures
        decimal_cell_parse(decimal_cell_spec(v, opts) + tail, opts, n) == Option::Some(
            (v, decimal_cell_len(v, n)),
        ),
{
    let s = decimal_cell_spec(v, opts) + tail;
    match v {
        Option::None => {
            assert(s[0] == crate::null_sentinel_spec(opts));
        },
        Option::Some(le) => {
            let body = seq![1u8] + decimal_encode_spec(le);
            assert(decimal_encode_spec(le).len() == n);
            assert(body[0] == 1u8);
            if opts.descending {
                assert(s[0] == invert_bytes(body)[0]);
                assert(s[0] == invert_byte(1u8));
            }
            assert(s[0] != crate::null_sentinel_spec(opts));
            assert(s.take(1 + n as int) =~= decimal_cell_spec(v, opts));
            let plain = if opts.descending {
                invert_bytes(s.take(1 + n as int))
            } else {
                s.take(1 + n as int)
            };
            if opts.descending {
                lemma_invert_involution(body);
                assert(plain == body);
            }
            assert(plain[0] == 1u8);
            assert(plain.skip(1) =~= decimal_encode_spec(le));
            lemma_decimal_round_trip(le);
        },
    }
}

/// The typed comparison a decimal cell realizes: nulls to the requested end,
/// present decimals by signed value, reversed when descending.
pub open spec fn decimal_cell_lt(a: Option<Seq<u8>>, b: Option<Seq<u8>>, opts: crate::SortOptions) -> bool {
    match (a, b) {
        (Option::None, Option::None) => false,
        (Option::None, Option::Some(_)) => opts.nulls_first,
        (Option::Some(_), Option::None) => !opts.nulls_first,
        (Option::Some(x), Option::Some(y)) => if opts.descending {
            le_signed_val(y) < le_signed_val(x)
        } else {
            le_signed_val(x) < le_signed_val(y)
        },
    }
}

/// Unsigned lexicographic order of two encoded decimal cells of one width
/// equals the signed comparison of their values under the sort option.
pub proof fn lemma_decimal_cell_order(
    a: Option<Seq<u8>>,
    b: Option<Seq<u8>>,
    n: nat,
    opts: crate::SortOptions,
)
    requires
        a is Some ==> a->0.len() == n,
        b is Some ==> b->0.len() == n,
        n > 0,
    ensures
        lex_lt(decimal_cell_spec(a, opts), decimal_cell_spec(b, opts)) == decimal_cell_lt(
            a,
            b,
            opts,
        ),
{
    let ca = decimal_cell_spec(a, opts);
    let cb = decimal_cell_spec(b, opts);
    let sent = crate::null_sentinel_spec(opts);
    match (a, b) {
        (Option::None, Option::None) => {
            lemma_lex_irrefl(ca);
        },
        (Option::None, Option::Some(y)) => {
            let body = seq![1u8] + decimal_encode_spec(y);
            assert(cb[0] == if opts.descending {
                invert_byte(body[0])
            } else {
                body[0]
            });
            if sent < cb[0] {
                crate::lex::lemma_lex_diverge(ca, cb, 0);
            } else {
                crate::lex::lemma_lex_diverge(cb, ca, 0);
                crate::lex::lemma_lex_asym(cb, ca);
            }
        },
        (Option::Some(x), Option::None) => {
            let body = seq![1u8] + decimal_encode_spec(x);
            assert(ca[0] == if opts.descending {
                invert_byte(body[0])
            } else {
                body[0]
            });
            if ca[0] < sent {
                crate::lex::lemma_lex_diverge(ca, cb, 0);
            } else {
                crate::lex::lemma_lex_diverge(cb, ca, 0);
                crate::lex::lemma_lex_asym(cb, ca);
            }
        },
        (Option::Some(x), Option::Some(y)) => {
            let bx = seq![1u8] + decimal_encode_spec(x);
            let bt = seq![1u8] + decimal_encode_spec(y);
            crate::lex::lemma_lex_common_prefix(
                seq![1u8],
                decimal_encode_spec(x),
                decimal_encode_spec(y),
            );
            crate::lex::lemma_lex_common_prefix(
                seq![1u8],
                decimal_encode_spec(y),
                decimal_encode_spec(x),
            );
            lemma_decimal_order(x, y);
            lemma_decimal_order(y, x);
            if opts.descending {
                lemma_lex_invert(bx, bt);
                assert(ca == invert_bytes(bx));
                assert(cb == invert_bytes(bt));
            } else {
                assert(ca == bx);
                assert(cb == bt);
            }
        },
    }
}

/// A decoded decimal column, with the precision and scale the caller supplied
/// carried alongside the raw values.
pub struct DecimalColumn<const N: usize> {
    pub precision: u8,
    pub scale: u8,
    pub values: Vec<RawDecimal<N>>,
    pub valid: Vec<bool>,
}

/// Builds the row bytes of one decimal cell.
fn decimal_cell<const N: usize>(v: &Option<RawDecimal<N>>, opts: crate::SortOptions) -> (r: Vec<
    u8,
>)
    requires
        v matches Option::Some(d) ==> d.wf(),
    ensures
        r@ == decimal_cell_spec(
            match *v {
                Option::Some(d) => Option::Some(d.0@),
                Option::None => Option::None,
            },
            opts,
        ),
        r@.len() == decimal_cell_len(
            match *v {
                Option::Some(d) => Option::Some(d.0@),
                Option::None => Option::None,
            },
            N as nat,
        ),
{
    match v {
        Option::None => {
            let mut c: Vec<u8> = Vec::new();
            c.push(crate::null_sentinel(opts));
            proof {
                assert(c@ =~= seq![crate::null_sentinel_spec(opts)]);
            }
            c
        },
        Option::Some(d) => {
            let payload = d.encode();
            let mut c: Vec<u8> = Vec::new();
            c.push(1u8);
            let mut j: usize = 0;
            while j < payload.len()
                invariant
                    0 <= j <= payload@.len(),
                    c@.len() == 1 + j,
                    c@[0] == 1u8,
                    forall|k: int| 0 <= k < j ==> c@[k + 1] == payload@[k],
                decreases payload@.len() - j,
            {
                c.push(payload[j]);
                j = j + 1;
            }
            proof {
                assert(c@ =~= seq![1u8] + payload@);
            }
            if opts.descending {
                let ghost body = c@;
                let mut k: usize = 0;
                while k < c.len()
                    invariant
                        0 <= k <= c@.len(),
                        c@.len() == body.len(),
                        forall|m: int| 0 <= m < k ==> c@[m] == invert_byte(body[m]),
                        forall|m: int| k <= m < c@.len() ==> c@[m] == body[m],
                    decreases c@.len() - k,
                {
                    let b = c[k];
                    c.set(k, 255 - b);
                    k = k + 1;
                }
                proof {
                    assert(c@ =~= invert_bytes(body));
                }
            }
            c
        },
    }
}

/// The little-endian value bytes of one decimal column entry.
pub open spec fn decimal_view<const N: usize>(v: Option<RawDecimal<N>>) -> Option<Seq<u8>> {
    match v {
        Option::Some(d) => Option::Some(d.0@),
        Option::None => Option::None,
    }
}

/// Encodes a decimal column, one cell per row, as `encode` does for the other
/// fixed-width types.
pub fn encode_decimal<const N: usize>(
    out: &mut Rows,
    column: &Vec<Option<RawDecimal<N>>>,
    opts: crate::SortOptions,
)
    requires
        old(out).offsets@.len() == column@.len() + 1,
        forall|i: int|
            0 <= i < column@.len() ==> ((#[trigger] column@[i]) matches Option::Some(d) ==> d.wf()),
        forall|i: int|
            0 <= i < column@.len() ==> old(out).offsets@[i + 1] + decimal_cell_len(
                decimal_view(#[trigger] column@[i]),
                N as nat,
            ) <= region_end(*old(out), i, column@.len() as int),
    ensures
        final(out).buffer@.len() == old(out).buffer@.len(),
        final(out).offsets@.len() == old(out).offsets@.len(),
        final(out).offsets@[0] == old(out).offsets@[0],
        forall|i: int|
            0 <= i < column@.len() ==> final(out).offsets@[i + 1] == old(out).offsets@[i + 1]
                + decimal_cell_len(decimal_view(#[trigger] column@[i]), N as nat),
        forall|i: int|
            0 <= i < column@.len() ==> final(out).buffer@.subrange(
                old(out).offsets@[i + 1] as int,
                old(out).offsets@[i + 1] + decimal_cell_len(
                    decimal_view(#[trigger] column@[i]),
                    N as nat,
                ),
            ) == decimal_cell_spec(decimal_view(column@[i]), opts),
{
    let n = column.len();
    let mut cells: Vec<Vec<u8>> = Vec::new();
    let mut i: usize = 0;
    while i < n
        invariant
            0 <= i <= n,
            n == column@.len(),
            forall|j: int|
                0 <= j < column@.len() ==> ((#[trigger] column@[j]) matches Option::Some(d)
                    ==> d.wf()),
            cells@.len() == i,
            forall|j: int|
                0 <= j < i ==> (#[trigger] cells@[j])@ == decimal_cell_spec(
                    decimal_view(column@[j]),
                    opts,
                ) && cells@[j]@.len() == decimal_cell_len(decimal_view(column@[j]), N as nat),
        decreases n - i,
    {
        let c = decimal_cell(&column[i], opts);
        cells.push(c);
        i = i + 1;
    }
    write_cells(out, &cells);
    proof {
        assert forall|i: int|
            0 <= i < column@.len() implies out.offsets@[i + 1] == old(out).offsets@[i + 1]
            + decimal_cell_len(decimal_view(#[trigger] column@[i]), N as nat) by {
            assert(cells@[i]@.len() == decimal_cell_len(decimal_view(column@[i]), N as nat));
        }
        assert forall|i: int|
            0 <= i < column@.len() implies out.buffer@.subrange(
            old(out).offsets@[i + 1] as int,
            old(out).offsets@[i + 1] + decimal_cell_len(
                decimal_view(#[trigger] column@[i]),
                N as nat,
            ),
        ) == decimal_cell_spec(decimal_view(column@[i]), opts) by {
            assert(cells@[i]@.len() == decimal_cell_len(decimal_view(column@[i]), N as nat));
            assert(cells@[i]@ == decimal_cell_spec(decimal_view(column@[i]), opts));
        }
    }
}

/// Reads one decimal cell at the cursor of one row.
fn decode_decimal_cell<const N: usize>(
    row: &Vec<u8>,
    pos: &mut usize,
    opts: crate::SortOptions,
) -> (r: Result<Option<RawDecimal<N>>, crate::CodecError>)
    requires
        *old(pos) <= row@.len(),
    ensures
        match decimal_cell_parse(row@.skip(*old(pos) as int), opts, N as nat) {
            Option::Some(vc) => {
                &&& r is Ok
                &&& decimal_view(r->Ok_0) == vc.0
                &&& (r->Ok_0 matches Option::Some(d) ==> d.wf())
                &&& *final(pos) == *old(pos) + vc.1
            },
            Option::None => r == Err::<Option<RawDecimal<N>>, crate::CodecError>(
                crate::CodecError::MalformedRow,
            ) && *final(pos) == *old(pos),
        },
{
    proof {
        assert(row.len() == row@.len());
    }
    let sent = crate::null_sentinel(opts);
    let ghost s = row@.skip(*old(pos) as int);
    if *pos >= row.len() {
        return Err(crate::CodecError::MalformedRow);
    }
    let b0 = row[*pos];
    proof {
        assert(s[0] == row@[*old(pos) as int]);
    }
    if b0 == sent {
        *pos = *pos + 1;
        return Ok(Option::None);
    }
    if N > usize::MAX - 1 || row.len() - *pos < 1 + N {
        proof {
            assert(s.len() < 1 + N as nat);
        }
        return Err(crate::CodecError::MalformedRow);
    }
    let v0: u8 = if opts.descending {
        255 - b0
    } else {
        b0
    };
    let ghost seg = s.take(1 + N as int);
    let ghost plain = if opts.descending {
        invert_bytes(seg)
    } else {
        seg
    };
    proof {
        assert(seg[0] == s[0]);
        assert(plain[0] == v0);
    }
    if v0 != 1 {
        return Err(crate::CodecError::MalformedRow);
    }
    let start = *pos;
    let mut payload: Vec<u8> = Vec::new();
    let mut j: usize = 0;
    while j < N
        invariant
            0 <= j <= N,
            start + 1 + N <= row@.len(),
            row@.len() <= usize::MAX,
            payload@.len() == j,
            forall|k: int|
                0 <= k < j ==> payload@[k] == (if opts.descending {
                    invert_byte(row@[start + 1 + k])
                } else {
                    row@[start + 1 + k]
                }),
        decreases N - j,
    {
        let mut b = row[start + 1 + j];
        if opts.descending {
            b = 255 - b;
        }
        payload.push(b);
        j = j + 1;
    }
    proof {
        assert forall|k: int| 0 <= k < N implies payload@[k] == plain.skip(1)[k] by {
            assert(plain.skip(1)[k] == plain[k + 1]);
            assert(seg[k + 1] == s[k + 1]);
            assert(s[k + 1] == row@[start + 1 + k]);
        }
        assert(payload@ =~= plain.skip(1));
    }
    let val = RawDecimal::<N>::decode(payload.as_slice());
    *pos = start + 1 + N;
    Ok(Option::Some(val))
}

/// Decodes a decimal column off the rows' cursors; succeeds exactly when
/// every row holds a well-formed decimal cell at its cursor.
pub fn decode_decimal<const N: usize>(
    rows: &Vec<Vec<u8>>,
    pos: &mut Vec<usize>,
    opts: crate::SortOptions,
    precision: u8,
    scale: u8,
) -> (r: Result<DecimalColumn<N>, crate::CodecError>)
    requires
        old(pos)@.len() == rows@.len(),
        forall|i: int| 0 <= i < rows@.len() ==> old(pos)@[i] <= rows@[i]@.len(),
    ensures
        r is Ok <==> (forall|i: int|
            0 <= i < rows@.len() ==> decimal_cell_parse(
                rows@[i]@.skip(old(pos)@[i] as int),
                opts,
                N as nat,
            ) is Some),
        r is Err ==> r == Err::<DecimalColumn<N>, crate::CodecError>(
            crate::CodecError::MalformedRow,
        ),
        r matches Ok(col) ==> {
            &&& col.precision == precision
            &&& col.scale == scale
            &&& col.values@.len() == rows@.len()
            &&& col.valid@.len() == rows@.len()
            &&& final(pos)@.len() == rows@.len()
            &&& forall|i: int|
                #![trigger rows@[i]]
                0 <= i < rows@.len() ==> {
                    let vc = decimal_cell_parse(
                        rows@[i]@.skip(old(pos)@[i] as int),
                        opts,
                        N as nat,
                    )->0;
                    &&& (vc.0 is Some ==> col.values@[i].0@ == vc.0->0)
                    &&& col.values@[i].wf()
                    &&& (vc.0 is None ==> col.values@[i].value_spec() == 0)
                    &&& col.valid@[i] == (vc.0 is Some)
                    &&& final(pos)@[i] == old(pos)@[i] + vc.1
                }
        },
{
    let n = rows.len();
    let mut values: Vec<RawDecimal<N>> = Vec::new();
    let mut valid: Vec<bool> = Vec::new();
    let mut i: usize = 0;
    while i < n
        invariant
            0 <= i <= n,
            n == rows@.len(),
            pos@.len() == n,
            old(pos)@.len() == n,
            forall|j: int| 0 <= j < rows@.len() ==> old(pos)@[j] <= rows@[j]@.len(),
            values@.len() == i,
            valid@.len() == i,
            forall|j: int| i <= j < n ==> pos@[j] == old(pos)@[j],
            forall|j: int|
                0 <= j < i ==> decimal_cell_parse(
                    rows@[j]@.skip(old(pos)@[j] as int),
                    opts,
                    N as nat,
                ) is Some,
            forall|j: int|
                #![trigger rows@[j]]
                0 <= j < i ==> {
                    let vc = decimal_cell_parse(
                        rows@[j]@.skip(old(pos)@[j] as int),
                        opts,
                        N as nat,
                    )->0;
                    &&& (vc.0 is Some ==> values@[j].0@ == vc.0->0)
                    &&& values@[j].wf()
                    &&& (vc.0 is None ==> values@[j].value_spec() == 0)
                    &&& valid@[j] == (vc.0 is Some)
                    &&& pos@[j] == old(pos)@[j] + vc.1
                },
        decreases n - i,
    {
        let mut p: usize = pos[i];
        let cell = decode_decimal_cell::<N>(&rows[i], &mut p, opts);
        match cell {
            Ok(v) => {
                match v {
                    Option::Some(x) => {
                        values.push(x);
                        valid.push(true);
                    },
                    Option::None => {
                        values.push(RawDecimal::<N>::zero_value());
                        valid.push(false);
                    },
                }
                pos.set(i, p);
            },
            Err(e) => {
                return Err(e);
            },
        }
        i = i + 1;
    }
    Ok(DecimalColumn { precision, scale, values, valid })
}

} // verus!
