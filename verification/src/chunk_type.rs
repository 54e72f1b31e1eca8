//! The 4-byte chunk-type code and its bit-encoded properties.

use vstd::prelude::*;
use vstd::seq_lib::*;
use vstd::string::StringSliceAdditionalSpecFns;
use crate::wire::{lemma_ascii_bytes_utf8, string_from_utf8};

verus! {

/// A byte is an ASCII letter (A-Z or a-z).
pub open spec fn spec_is_alpha(b: u8) -> bool {
    (65 <= b <= 90) || (97 <= b <= 122)
}

/// A character is an ASCII letter (A-Z or a-z).
pub open spec fn spec_is_alpha_char(c: char) -> bool {
    ('A' <= c <= 'Z') || ('a' <= c <= 'z')
}

/// Four ASCII letters encode, under UTF-8, to exactly their four bytes.
proof fn lemma_alpha_chars_encode(s: Seq<char>)
    requires
        s.len() == 4,
        forall|i: int| 0 <= i < 4 ==> spec_is_alpha_char(#[trigger] s[i]),
    ensures
        vstd::utf8::encode_utf8(s).len() == 4,
        forall|i: int| 0 <= i < 4 ==> spec_is_alpha(#[trigger] vstd::utf8::encode_utf8(s)[i]),
{
    assert(vstd::utf8::is_ascii_chars(s));
    vstd::utf8::is_ascii_chars_encode_utf8(s);
    assert forall|i: int| 0 <= i < 4 implies spec_is_alpha(
        #[trigger] vstd::utf8::encode_utf8(s)[i],
    ) by {
        assert(vstd::utf8::encode_utf8(s)[i] == s[i] as u8);
    }
}

/// Bit 5 of `b`, counting from the most significant bit as bit 0, is clear.
/// For ASCII letters this is exactly the uppercase range.
pub open spec fn spec_case_bit_clear(b: u8) -> bool {
    b & 0x20 == 0
}

/// For an ASCII letter, the case bit distinguishes upper from lower case.
pub proof fn lemma_case_bit(b: u8)
    requires
        spec_is_alpha(b),
    ensures
        spec_case_bit_clear(b) <==> (65 <= b <= 90),
        !spec_case_bit_clear(b) <==> (97 <= b <= 122),
{
    assert(((65 <= b <= 90) || (97 <= b <= 122)) ==> ((b & 0x20 == 0) <==> (65 <= b <= 90)))
        by (bit_vector);
}

/// Why construction of a `ChunkType` failed.
#[derive(Debug, Clone, Copy, PartialEq, Eq, Structural)]
pub enum ChunkTypeError {
    /// A byte that is not an ASCII letter was offered; holds that byte.
    NonAlpha(u8),
    /// A type text whose byte length is not 4; holds the length found.
    BadLength(usize),
}

/// The result of validating four candidate type bytes: the bytes themselves,
/// or the first byte that is not an ASCII letter.
pub open spec fn spec_type_parse(b: Seq<u8>) -> Result<Seq<u8>, ChunkTypeError>
    recommends
        b.len() == 4,
{
    if !spec_is_alpha(b[0]) {
        Err(ChunkTypeError::NonAlpha(b[0]))
    } else if !spec_is_alpha(b[1]) {
        Err(ChunkTypeError::NonAlpha(b[1]))
    } else if !spec_is_alpha(b[2]) {
        Err(ChunkTypeError::NonAlpha(b[2]))
    } else if !spec_is_alpha(b[3]) {
        Err(ChunkTypeError::NonAlpha(b[3]))
    } else {
        Ok(b)
    }
}

/// Decides whether `b` is an ASCII letter.
fn is_alpha(b: u8) -> (r: bool)
    ensures
        r == spec_is_alpha(b),
{
    (65 <= b && b <= 90) || (97 <= b && b <= 122)
}

/// The 4-byte chunk-type tag. A constructed value always holds exactly four
/// ASCII letters; construction is the only validation point.
#[derive(Debug, Clone, Copy, PartialEq, Eq)]
pub struct ChunkType {
    bytes: [u8; 4],
}

impl View for ChunkType {
    type V = Seq<u8>;

    closed spec fn view(&self) -> Seq<u8> {
        self.bytes@
    }
}

impl ChunkType {
    /// Four ASCII letters.
    pub open spec fn wf(self) -> bool {
        self@.len() == 4 && forall|i: int| 0 <= i < 4 ==> spec_is_alpha(#[trigger] self@[i])
    }

    /// Validates four candidate bytes; succeeds exactly when all four are
    /// ASCII letters, and otherwise names the first byte that is not.
    pub fn try_from(bytes: [u8; 4]) -> (r: Result<ChunkType, ChunkTypeError>)
        ensures
            match r {
                Ok(t) => spec_type_parse(bytes@) == Ok::<Seq<u8>, ChunkTypeError>(bytes@)
                    && t@ == bytes@ && t.wf(),
                Err(e) => spec_type_parse(bytes@) == Err::<Seq<u8>, ChunkTypeError>(e),
            },
    {
        if !is_alpha(bytes[0]) {
            Err(ChunkTypeError::NonAlpha(bytes[0]))
        } else if !is_alpha(bytes[1]) {
            Err(ChunkTypeError::NonAlpha(bytes[1]))
        } else if !is_alpha(bytes[2]) {
            Err(ChunkTypeError::NonAlpha(bytes[2]))
        } else if !is_alpha(bytes[3]) {
            Err(ChunkTypeError::NonAlpha(bytes[3]))
        } else {
            Ok(ChunkType { bytes })
        }
    }

    /// Validates a type text. It fails on a text whose UTF-8 encoding is not
    /// exactly 4 bytes, and otherwise applies the same letter check as
    /// `try_from`, naming the first offending byte.
    pub fn from_str(s: &str) -> (r: Result<ChunkType, ChunkTypeError>)
        ensures
            ({
                let b = s.spec_bytes();
                match r {
                    Ok(t) => b.len() == 4 && spec_type_parse(b) == Ok::<Seq<u8>, ChunkTypeError>(b)
                        && t@ == b && t.wf(),
                    Err(e) => if b.len() != 4 {
                        e == ChunkTypeError::BadLength(b.len() as usize)
                    } else {
                        spec_type_parse(b) == Err::<Seq<u8>, ChunkTypeError>(e)
                    },
                }
            }),
            (s@.len() == 4 && (forall|i: int|
                0 <= i < 4 ==> spec_is_alpha_char(#[trigger] s@[i]))) ==> r is Ok,
    {
        proof {
            if s@.len() == 4 && (forall|i: int| 0 <= i < 4 ==> spec_is_alpha_char(
                #[trigger] s@[i],
            )) {
                lemma_alpha_chars_encode(s@);
            }
        }
        let b = s.as_bytes();
        if b.len() != 4 {
            return Err(ChunkTypeError::BadLength(b.len()));
        }
        let arr = [b[0], b[1], b[2], b[3]];
        proof {
            assert(arr@ =~= s.spec_bytes());
        }
        ChunkType::try_from(arr)
    }

    /// The four type bytes.
    pub fn bytes(&self) -> (r: [u8; 4])
        ensures
            r@ == self@,
    {
        self.bytes
    }

    /// The type text: the string whose four bytes are the type bytes.
    pub fn to_text(&self) -> (r: String)
        requires
            self.wf(),
        ensures
            r@ == self@.map(|i: int, b: u8| b as char),
    {
        let v = vec![self.bytes[0], self.bytes[1], self.bytes[2], self.bytes[3]];
        proof {
            assert(v@ =~= self@);
            lemma_ascii_bytes_utf8(v@);
        }
        match string_from_utf8(v) {
            Some(s) => s,
            None => {
                proof {
                    assert(false);
                }
                String::new()
            },
        }
    }

    /// The whole code is valid exactly when its reserved bit is valid.
    pub fn is_valid(&self) -> (r: bool)
        ensures
            r == spec_case_bit_clear(self@[2]),
            self.wf() ==> (r <==> 65 <= self@[2] <= 90),
    {
        proof {
            if self.wf() {
                lemma_case_bit(self@[2]);
            }
        }
        (self.bytes[2] & 0x20) == 0
    }

    /// The chunk is critical when the case bit of byte 0 is clear (uppercase).
    pub fn is_critical(&self) -> (r: bool)
        ensures
            r == spec_case_bit_clear(self@[0]),
            self.wf() ==> (r <==> 65 <= self@[0] <= 90),
    {
        proof {
            if self.wf() {
                lemma_case_bit(self@[0]);
            }
        }
        (self.bytes[0] & 0x20) == 0
    }

    /// The chunk is public when the case bit of byte 1 is clear (uppercase).
    pub fn is_public(&self) -> (r: bool)
        ensures
            r == spec_case_bit_clear(self@[1]),
            self.wf() ==> (r <==> 65 <= self@[1] <= 90),
    {
        proof {
            if self.wf() {
                lemma_case_bit(self@[1]);
            }
        }
        (self.bytes[1] & 0x20) == 0
    }

    /// The reserved bit is valid when the case bit of byte 2 is clear.
    pub fn is_reserved_bit_valid(&self) -> (r: bool)
        ensures
            r == spec_case_bit_clear(self@[2]),
            self.wf() ==> (r <==> 65 <= self@[2] <= 90),
    {
        proof {
            if self.wf() {
                lemma_case_bit(self@[2]);
            }
        }
        (self.bytes[2] & 0x20) == 0
    }

    /// The chunk is safe to copy when the case bit of byte 3 is set (lowercase).
    pub fn is_safe_to_copy(&self) -> (r: bool)
        ensures
            r == !spec_case_bit_clear(self@[3]),
            self.wf() ==> (r <==> 97 <= self@[3] <= 122),
    {
        proof {
            if self.wf() {
                lemma_case_bit(self@[3]);
            }
        }
        (self.bytes[3] & 0x20) != 0
    }
}

/// Four ASCII letters always form a valid chunk type, returned unchanged.
pub proof fn lemma_alpha_bytes_accepted(b: Seq<u8>)
    requires
        b.len() == 4,
        forall|i: int| 0 <= i < 4 ==> spec_is_alpha(#[trigger] b[i]),
    ensures
        spec_type_parse(b) == Ok::<Seq<u8>, ChunkTypeError>(b),
{
}

/// A candidate with a byte that is not an ASCII letter is rejected, and the
/// error names the first such byte.
pub proof fn lemma_non_alpha_rejected(b: Seq<u8>, i: int)
    requires
        b.len() == 4,
        0 <= i < 4,
        !spec_is_alpha(b[i]),
        forall|j: int| 0 <= j < i ==> spec_is_alpha(#[trigger] b[j]),
    ensures
        spec_type_parse(b) == Err::<Seq<u8>, ChunkTypeError>(ChunkTypeError::NonAlpha(b[i])),
{
}

} // verus!
