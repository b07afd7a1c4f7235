//! The four-byte type tag of a chunk.
//!
//! Every byte of a tag must be an ASCII letter.  The case of each letter
//! carries a property bit: byte 0 critical/ancillary, byte 1
//! public/private, byte 2 the reserved bit, byte 3 copy-safety.
//! Parsing is permissive: it admits any all-letter tag, and the stricter
//! reserved-bit validity is left to the query methods.

use crate::text::{ascii_chars_of, lemma_ascii_bytes_decode, string_from_utf8};
use vstd::prelude::*;
use vstd::slice::slice_index_get;
use vstd::string::StringSliceAdditionalSpecFns;

verus! {

/// True when `b` is an ASCII letter.
pub open spec fn is_alpha(b: u8) -> bool {
    (65 <= b && b <= 90) || (97 <= b && b <= 122)
}

/// True when every byte of `s` is an ASCII letter.
pub open spec fn all_alpha(s: Seq<u8>) -> bool {
    forall|i: int| 0 <= i < s.len() ==> is_alpha(#[trigger] s[i])
}

/// Index of the first byte of `s` that is not an ASCII letter.
pub open spec fn first_non_alpha(s: Seq<u8>) -> int
    decreases s.len(),
{
    if s.len() == 0 {
        0
    } else if !is_alpha(s[0]) {
        0
    } else {
        1 + first_non_alpha(s.drop_first())
    }
}

/// A byte that is not a letter, preceded by letters only, is the first
/// such byte.
pub proof fn lemma_first_non_alpha_at(s: Seq<u8>, i: int)
    requires
        0 <= i < s.len(),
        !is_alpha(s[i]),
        forall|j: int| 0 <= j < i ==> is_alpha(#[trigger] s[j]),
    ensures
        first_non_alpha(s) == i,
        !all_alpha(s),
    decreases i,
{
    if i == 0 {
    } else {
        let t = s.drop_first();
        assert(forall|j: int| 0 <= j < i - 1 ==> is_alpha(#[trigger] t[j]));
        lemma_first_non_alpha_at(t, i - 1);
    }
}

#[derive(Debug, PartialEq, Eq)]
pub enum ChunkTypeError {
    /// The tag text does not have exactly four bytes; holds the length seen.
    InvalidLength(usize),
    /// A tag byte is not an ASCII letter; holds the first such byte.
    InvalidByte(u8),
}

/// A four-byte chunk type tag, immutable once constructed; every byte is
/// an ASCII letter.
#[derive(Debug, Clone, Copy, PartialEq)]
pub struct ChunkType([u8; 4]);

impl View for ChunkType {
    type V = Seq<u8>;

    closed spec fn view(&self) -> Seq<u8> {
        self.0@
    }
}

impl ChunkType {
    #[verifier::type_invariant]
    pub(crate) open spec fn inv(self) -> bool {
        self@.len() == 4 && all_alpha(self@)
    }

    /// Critical chunk: the case bit of byte 0 is clear (uppercase).
    pub open spec fn spec_is_critical(self) -> bool {
        (self@[0] >> 5) & 1 == 0
    }

    /// Public chunk: the case bit of byte 1 is clear (uppercase).
    pub open spec fn spec_is_public(self) -> bool {
        (self@[1] >> 5) & 1 == 0
    }

    /// Reserved bit: the case bit of byte 2 is clear (uppercase).
    pub open spec fn spec_is_reserved_bit_valid(self) -> bool {
        (self@[2] >> 5) & 1 == 0
    }

    /// Safe to copy: the case bit of byte 3 is set (lowercase).
    pub open spec fn spec_is_safe_to_copy(self) -> bool {
        (self@[3] >> 5) & 1 != 0
    }

    /// Valid tag: all four bytes are letters and the reserved bit holds.
    pub open spec fn spec_is_valid(self) -> bool {
        all_alpha(self@) && self.spec_is_reserved_bit_valid()
    }

    /// Parses a tag from four raw bytes; succeeds exactly when every
    /// byte is an ASCII letter, and otherwise reports the first byte
    /// that is not.
    pub fn try_from(arr: [u8; 4]) -> (r: Result<ChunkType, ChunkTypeError>)
        ensures
            match r {
                Ok(t) => all_alpha(arr@) && t@ == arr@,
                Err(e) => !all_alpha(arr@) && e == ChunkTypeError::InvalidByte(
                    arr@[first_non_alpha(arr@)],
                ),
            },
    {
        let mut i: usize = 0;
        while i < 4
            invariant
                0 <= i <= 4,
                forall|j: int| 0 <= j < i ==> is_alpha(#[trigger] arr@[j]),
            decreases 4 - i,
        {
            if !ChunkType::is_valid_byte(arr[i]) {
                proof {
                    lemma_first_non_alpha_at(arr@, i as int);
                }
                return Err(ChunkTypeError::InvalidByte(arr[i]));
            }
            i = i + 1;
        }
        Ok(ChunkType(arr))
    }

    /// Parses a tag from text; the text must hold exactly four bytes,
    /// each an ASCII letter.
    pub fn from_str(s: &str) -> (r: Result<ChunkType, ChunkTypeError>)
        ensures
            match r {
                Ok(t) => s.spec_bytes().len() == 4 && all_alpha(s.spec_bytes()) && t@
                    == s.spec_bytes(),
                Err(ChunkTypeError::InvalidLength(n)) => s.spec_bytes().len() != 4 && n
                    == s.spec_bytes().len(),
                Err(ChunkTypeError::InvalidByte(b)) => s.spec_bytes().len() == 4 && !all_alpha(
                    s.spec_bytes(),
                ) && b == s.spec_bytes()[first_non_alpha(s.spec_bytes())],
            },
    {
        let bytes = s.as_bytes();
        if bytes.len() != 4 {
            return Err(ChunkTypeError::InvalidLength(bytes.len()));
        }
        let arr = [
            *slice_index_get(bytes, 0),
            *slice_index_get(bytes, 1),
            *slice_index_get(bytes, 2),
            *slice_index_get(bytes, 3),
        ];
        proof {
            assert(arr@ =~= s.spec_bytes());
        }
        ChunkType::try_from(arr)
    }

    /// The four raw tag bytes, as a copy.
    pub fn bytes(&self) -> (r: [u8; 4])
        ensures
            r@ == self@,
    {
        self.0
    }

    /// True when the chunk is critical to decoding the image.
    pub fn is_critical(&self) -> (r: bool)
        ensures
            r == self.spec_is_critical(),
    {
        (self.0[0] >> 5) & 1 == 0
    }

    /// True when the chunk type is part of the public registry.
    pub fn is_public(&self) -> (r: bool)
        ensures
            r == self.spec_is_public(),
    {
        (self.0[1] >> 5) & 1 == 0
    }

    /// True when the reserved bit of the tag holds.
    pub fn is_reserved_bit_valid(&self) -> (r: bool)
        ensures
            r == self.spec_is_reserved_bit_valid(),
    {
        (self.0[2] >> 5) & 1 == 0
    }

    /// True when an unaware editor may copy the chunk unmodified.
    pub fn is_safe_to_copy(&self) -> (r: bool)
        ensures
            r == self.spec_is_safe_to_copy(),
    {
        (self.0[3] >> 5) & 1 != 0
    }

    /// True exactly when all four bytes are ASCII letters and the
    /// reserved bit of the tag holds.
    pub fn is_valid(&self) -> (r: bool)
        ensures
            r == self.spec_is_valid(),
    {
        let b = ChunkType::is_valid_byte(self.0[0]) && ChunkType::is_valid_byte(self.0[1])
            && ChunkType::is_valid_byte(self.0[2]) && ChunkType::is_valid_byte(self.0[3]);
        proof {
            assert(all_alpha(self@) <==> (is_alpha(self@[0]) && is_alpha(self@[1]) && is_alpha(
                self@[2],
            ) && is_alpha(self@[3])));
        }
        b && self.is_reserved_bit_valid()
    }

    /// True when `byte` is an ASCII letter.
    pub fn is_valid_byte(byte: u8) -> (r: bool)
        ensures
            r == is_alpha(byte),
    {
        (65 <= byte && byte <= 90) || (97 <= byte && byte <= 122)
    }

    /// The tag rendered as text: its four bytes decoded as characters.
    pub fn to_text(&self) -> (r: String)
        ensures
            r@ == ascii_chars_of(self@),
    {
        proof {
            use_type_invariant(&*self);
            lemma_ascii_bytes_decode(self@);
        }
        let mut v: Vec<u8> = Vec::new();
        v.push(self.0[0]);
        v.push(self.0[1]);
        v.push(self.0[2]);
        v.push(self.0[3]);
        proof {
            assert(v@ =~= self@);
        }
        match string_from_utf8(v) {
            Ok(t) => t,
            Err(_) => String::new(),
        }
    }
}

} // verus!
