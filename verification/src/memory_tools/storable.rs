use vstd::prelude::*;
use vstd::bytes::{
    spec_u32_from_le_bytes, spec_u32_to_le_bytes, spec_u64_from_le_bytes, spec_u64_to_le_bytes,
    u32_from_le_bytes, u32_to_le_bytes, u64_from_le_bytes, u64_to_le_bytes,
    lemma_auto_spec_u32_to_from_le_bytes, lemma_auto_spec_u64_to_from_le_bytes,
};

verus! {

/// A value that the byte arena can hold: it has a fixed byte size, a tag that
/// names its type, and an encoding to bytes that decoding undoes. Reading a
/// stored value back checks only the tag, so two types with one tag are taken
/// for one another.
pub trait Storable: Sized {
    /// The tag that names this type in the arena.
    spec fn spec_type_tag() -> u64;

    /// The number of bytes of every encoded value.
    spec fn spec_size() -> nat;

    /// The bytes that encode `self`.
    spec fn spec_to_bytes(&self) -> Seq<u8>;

    /// The value that `bytes` encode.
    spec fn spec_from_bytes(bytes: Seq<u8>) -> Self;

    /// Every value encodes to `spec_size` bytes, and decoding them gives it back.
    proof fn lemma_encoding(v: Self)
        ensures
            v.spec_to_bytes().len() == Self::spec_size(),
            Self::spec_from_bytes(v.spec_to_bytes()) == v,
    ;

    fn type_tag() -> (t: u64)
        ensures
            t == Self::spec_type_tag(),
    ;

    fn byte_size() -> (n: usize)
        ensures
            n == Self::spec_size(),
    ;

    fn to_bytes(&self) -> (b: Vec<u8>)
        ensures
            b@ == self.spec_to_bytes(),
            b@.len() == Self::spec_size(),
    ;

    fn from_bytes(bytes: &[u8]) -> (v: Self)
        requires
            bytes@.len() == Self::spec_size(),
        ensures
            v == Self::spec_from_bytes(bytes@),
    ;
}

impl Storable for u8 {
    open spec fn spec_type_tag() -> u64 {
        1
    }

    open spec fn spec_size() -> nat {
        1
    }

    open spec fn spec_to_bytes(&self) -> Seq<u8> {
        seq![*self]
    }

    open spec fn spec_from_bytes(bytes: Seq<u8>) -> u8 {
        bytes[0]
    }

    proof fn lemma_encoding(v: u8) {
    }

    fn type_tag() -> (t: u64) {
        1
    }

    fn byte_size() -> (n: usize) {
        1
    }

    fn to_bytes(&self) -> (b: Vec<u8>) {
        let mut b: Vec<u8> = Vec::new();
        b.push(*self);
        assert(b@ =~= seq![*self]);
        b
    }

    fn from_bytes(bytes: &[u8]) -> (v: u8) {
        bytes[0]
    }
}

impl Storable for u32 {
    open spec fn spec_type_tag() -> u64 {
        2
    }

    open spec fn spec_size() -> nat {
        4
    }

    open spec fn spec_to_bytes(&self) -> Seq<u8> {
        spec_u32_to_le_bytes(*self)
    }

    open spec fn spec_from_bytes(bytes: Seq<u8>) -> u32 {
        spec_u32_from_le_bytes(bytes)
    }

    proof fn lemma_encoding(v: u32) {
        lemma_auto_spec_u32_to_from_le_bytes();
        assert(spec_u32_to_le_bytes(v).len() == 4);
    }

    fn type_tag() -> (t: u64) {
        2
    }

    fn byte_size() -> (n: usize) {
        4
    }

    fn to_bytes(&self) -> (b: Vec<u8>) {
        u32_to_le_bytes(*self)
    }

    fn from_bytes(bytes: &[u8]) -> (v: u32) {
        u32_from_le_bytes(bytes)
    }
}

impl Storable for i32 {
    open spec fn spec_type_tag() -> u64 {
        3
    }

    open spec fn spec_size() -> nat {
        4
    }

    open spec fn spec_to_bytes(&self) -> Seq<u8> {
        spec_u32_to_le_bytes(*self as u32)
    }

    open spec fn spec_from_bytes(bytes: Seq<u8>) -> i32 {
        spec_u32_from_le_bytes(bytes) as i32
    }

    proof fn lemma_encoding(v: i32) {
        lemma_auto_spec_u32_to_from_le_bytes();
        assert(spec_u32_to_le_bytes(v as u32).len() == 4);
        assert((v as u32) as i32 == v) by (bit_vector);
    }

    fn type_tag() -> (t: u64) {
        3
    }

    fn byte_size() -> (n: usize) {
        4
    }

    fn to_bytes(&self) -> (b: Vec<u8>) {
        u32_to_le_bytes(*self as u32)
    }

    fn from_bytes(bytes: &[u8]) -> (v: i32) {
        u32_from_le_bytes(bytes) as i32
    }
}

impl Storable for u64 {
    open spec fn spec_type_tag() -> u64 {
        4
    }

    open spec fn spec_size() -> nat {
        8
    }

    open spec fn spec_to_bytes(&self) -> Seq<u8> {
        spec_u64_to_le_bytes(*self)
    }

    open spec fn spec_from_bytes(bytes: Seq<u8>) -> u64 {
        spec_u64_from_le_bytes(bytes)
    }

    proof fn lemma_encoding(v: u64) {
        lemma_auto_spec_u64_to_from_le_bytes();
    }

    fn type_tag() -> (t: u64) {
        4
    }

    fn byte_size() -> (n: usize) {
        8
    }

    fn to_bytes(&self) -> (b: Vec<u8>) {
        u64_to_le_bytes(*self)
    }

    fn from_bytes(bytes: &[u8]) -> (v: u64) {
        u64_from_le_bytes(bytes)
    }
}

impl Storable for usize {
    open spec fn spec_type_tag() -> u64 {
        5
    }

    /// As many bytes as a `usize` has on the target: 8 or 4.
    open spec fn spec_size() -> nat {
        if usize::BITS == 64 {
            8
        } else {
            4
        }
    }

    open spec fn spec_to_bytes(&self) -> Seq<u8> {
        if usize::BITS == 64 {
            spec_u64_to_le_bytes(*self as u64)
        } else {
            spec_u32_to_le_bytes(*self as u32)
        }
    }

    open spec fn spec_from_bytes(bytes: Seq<u8>) -> usize {
        if usize::BITS == 64 {
            spec_u64_from_le_bytes(bytes) as usize
        } else {
            spec_u32_from_le_bytes(bytes) as usize
        }
    }

    proof fn lemma_encoding(v: usize) {
        lemma_auto_spec_u64_to_from_le_bytes();
        lemma_auto_spec_u32_to_from_le_bytes();
        if usize::BITS == 64 {
            assert(spec_u64_to_le_bytes(v as u64).len() == 8);
        } else {
            assert(spec_u32_to_le_bytes(v as u32).len() == 4);
        }
    }

    fn type_tag() -> (t: u64) {
        5
    }

    fn byte_size() -> (n: usize) {
        if usize::BITS == 64 {
            8
        } else {
            4
        }
    }

    fn to_bytes(&self) -> (b: Vec<u8>) {
        proof {
            lemma_auto_spec_u64_to_from_le_bytes();
            lemma_auto_spec_u32_to_from_le_bytes();
        }
        if usize::BITS == 64 {
            u64_to_le_bytes(*self as u64)
        } else {
            u32_to_le_bytes(*self as u32)
        }
    }

    fn from_bytes(bytes: &[u8]) -> (v: usize) {
        if usize::BITS == 64 {
            u64_from_le_bytes(bytes) as usize
        } else {
            u32_from_le_bytes(bytes) as usize
        }
    }
}

impl Storable for [u8; 4] {
    open spec fn spec_type_tag() -> u64 {
        6
    }

    open spec fn spec_size() -> nat {
        4
    }

    open spec fn spec_to_bytes(&self) -> Seq<u8> {
        self@
    }

    open spec fn spec_from_bytes(bytes: Seq<u8>) -> [u8; 4] {
        [bytes[0], bytes[1], bytes[2], bytes[3]]
    }

    proof fn lemma_encoding(v: [u8; 4]) {
        let w = Self::spec_from_bytes(v@);
        assert(w@ =~= v@);
    }

    fn type_tag() -> (t: u64) {
        6
    }

    fn byte_size() -> (n: usize) {
        4
    }

    fn to_bytes(&self) -> (b: Vec<u8>) {
        let mut b: Vec<u8> = Vec::new();
        b.push(self[0]);
        b.push(self[1]);
        b.push(self[2]);
        b.push(self[3]);
        assert(b@ =~= self@);
        b
    }

    fn from_bytes(bytes: &[u8]) -> (v: [u8; 4]) {
        [bytes[0], bytes[1], bytes[2], bytes[3]]
    }
}

} // verus!
