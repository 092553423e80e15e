//! Fixed byte layouts for typed memory access.
//!
//! A structure usable with the typed accessor and the structure matcher
//! declares its exact byte size and paired encode/decode functions, instead
//! of relying on in-memory bit-pattern reinterpretation. Decoding an encoded
//! value must give the value back; implementations prove that law.

use vstd::prelude::*;

verus! {

/// A type with a fixed, address-independent byte layout whose size is known
/// at compile time. `spec_encode`/`spec_decode` are the mathematical layout;
/// `encode`/`decode` compute it.
pub trait FixedLayout: Sized {
    /// The exact number of bytes of the layout.
    spec fn spec_size() -> nat;

    /// The byte image of a value.
    spec fn spec_encode(self) -> Seq<u8>;

    /// The value a byte image of the layout's size stands for.
    spec fn spec_decode(bytes: Seq<u8>) -> Self;

    /// The layout's size, as executable code.
    fn byte_size() -> (n: usize)
        ensures
            n == Self::spec_size(),
    ;

    /// Serializes the value's byte layout.
    fn encode(&self) -> (b: Vec<u8>)
        ensures
            b@ == self.spec_encode(),
    ;

    /// Reinterprets a byte image of exactly the layout's size as a value.
    fn decode(bytes: &[u8]) -> (v: Self)
        requires
            bytes@.len() == Self::spec_size(),
        ensures
            v == Self::spec_decode(bytes@),
    ;

    /// Law: a value's byte image has exactly the layout's size.
    proof fn lemma_encode_len(v: Self)
        ensures
            v.spec_encode().len() == Self::spec_size(),
    ;

    /// Law: decoding a value's byte image gives the value back.
    proof fn lemma_decode_encode(v: Self)
        ensures
            Self::spec_decode(v.spec_encode()) == v,
    ;
}

/// A fixed-layout type with a canonical default value. The default-init
/// predicate tests whether a value equals that canonical value; the structure
/// matcher scans memory for it.
pub trait DefaultInit: FixedLayout {
    /// The type's canonical default value.
    spec fn spec_default() -> Self;

    /// Returns true if the value equals the default initialisation.
    fn is_default_init(&self) -> (r: bool)
        ensures
            r == (*self == Self::spec_default()),
    ;
}

/// A 32-bit unsigned value laid out as four little-endian bytes, with zero as
/// its canonical default value.
#[derive(Clone, Copy, Debug, PartialEq, Eq, Structural)]
pub struct U32Le {
    pub value: u32,
}

impl FixedLayout for U32Le {
    open spec fn spec_size() -> nat {
        4
    }

    open spec fn spec_encode(self) -> Seq<u8> {
        seq![
            (self.value & 0xff) as u8,
            ((self.value >> 8) & 0xff) as u8,
            ((self.value >> 16) & 0xff) as u8,
            ((self.value >> 24) & 0xff) as u8,
        ]
    }

    open spec fn spec_decode(bytes: Seq<u8>) -> Self {
        U32Le {
            value: (bytes[0] as u32) | ((bytes[1] as u32) << 8) | ((bytes[2] as u32) << 16) | ((
            bytes[3] as u32) << 24),
        }
    }

    fn byte_size() -> (n: usize) {
        4
    }

    fn encode(&self) -> (b: Vec<u8>) {
        let mut b: Vec<u8> = Vec::new();
        b.push((self.value & 0xff) as u8);
        b.push(((self.value >> 8) & 0xff) as u8);
        b.push(((self.value >> 16) & 0xff) as u8);
        b.push(((self.value >> 24) & 0xff) as u8);
        proof {
            assert(b@ =~= self.spec_encode());
        }
        b
    }

    fn decode(bytes: &[u8]) -> (v: Self) {
        let v = U32Le {
            value: (bytes[0] as u32) | ((bytes[1] as u32) << 8) | ((bytes[2] as u32) << 16) | ((
            bytes[3] as u32) << 24),
        };
        proof {
            assert(v == Self::spec_decode(bytes@));
        }
        v
    }

    proof fn lemma_encode_len(v: Self) {
    }

    proof fn lemma_decode_encode(v: Self) {
        let x = v.value;
        assert(((x & 0xff) as u8) as u32 | ((((x >> 8) & 0xff) as u8) as u32) << 8 | ((((x >> 16)
            & 0xff) as u8) as u32) << 16 | ((((x >> 24) & 0xff) as u8) as u32) << 24 == x)
            by (bit_vector);
    }
}

impl DefaultInit for U32Le {
    open spec fn spec_default() -> Self {
        U32Le { value: 0 }
    }

    fn is_default_init(&self) -> (r: bool) {
        self.value == 0
    }
}

} // verus!
