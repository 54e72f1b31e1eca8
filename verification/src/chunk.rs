//! One length-prefixed, type-tagged, CRC-protected chunk record.

use vstd::prelude::*;
use vstd::seq_lib::*;
use vstd::slice::{slice_subrange, slice_to_vec};
use vstd::utf8::{decode_utf8, valid_utf8};
use crate::chunk_type::{spec_is_alpha, spec_type_parse, ChunkType, ChunkTypeError};
use crate::wire::{
    lemma_u32_be_bytes_round_trip, lemma_u32_be_round_trip, push_u32_be, spec_u32_from_be_bytes,
    spec_u32_to_be_bytes, string_from_utf8, u32_from_be_at,
};

verus! {

/// The CRC-32/ISO-HDLC checksum of a byte sequence. The value is computed by
/// the `crc` crate; nothing else is assumed of it.
pub uninterp spec fn crc32_of(bytes: Seq<u8>) -> u32;

/// Relies on the `crc` crate: `Crc::<u32>::new(&CRC_32_ISO_HDLC).checksum`
/// computes the CRC-32/ISO-HDLC checksum, a pure function of the input bytes,
/// named here by `crc32_of`.
#[verifier::external_body]
fn crc_checksum(bytes: &[u8]) -> (r: u32)
    ensures
        r == crc32_of(bytes@),
{
    crc::Crc::<u32>::new(&crc::CRC_32_ISO_HDLC).checksum(bytes)
}

/// Why parsing a chunk record failed.
#[derive(Debug, Clone, Copy, PartialEq, Eq, Structural)]
pub enum ChunkError {
    /// Fewer than the minimal 12 bytes were supplied.
    Short,
    /// The declared data length and the data region size disagree; holds the
    /// declared length and the actual data region size.
    Length(u32, usize),
    /// The stored CRC differs from the checksum of the type and data bytes.
    Crc,
    /// The type bytes are not a valid chunk type.
    ChunkType(ChunkTypeError),
    /// The data bytes are not valid UTF-8 (raised only by the text accessor).
    Utf8,
}

/// The mathematical content of a chunk record: declared length, type bytes,
/// data bytes, and stored checksum.
#[verifier::ext_equal]
pub ghost struct ChunkV {
    pub length: u32,
    pub ctype: Seq<u8>,
    pub data: Seq<u8>,
    pub crc: u32,
}

impl ChunkV {
    /// The record's invariant: four letter bytes, a length that counts the
    /// data bytes, and a checksum over type and data.
    pub open spec fn wf(self) -> bool {
        &&& self.ctype.len() == 4
        &&& (forall|i: int| 0 <= i < 4 ==> spec_is_alpha(#[trigger] self.ctype[i]))
        &&& self.length == self.data.len()
        &&& self.crc == crc32_of(self.ctype + self.data)
    }

    /// The wire layout: `length:4 | type:4 | data:N | crc:4`, big-endian.
    pub open spec fn spec_serialize(self) -> Seq<u8> {
        spec_u32_to_be_bytes(self.length) + self.ctype + self.data + spec_u32_to_be_bytes(self.crc)
    }
}

/// The result of parsing one chunk record from `b`, which must be consumed
/// exactly. Checks run in order: enough bytes, declared length against the
/// data region, letter bytes in the type, checksum.
#[verifier::opaque]
pub open spec fn spec_chunk_parse(b: Seq<u8>) -> Result<ChunkV, ChunkError> {
    if b.len() < 12 {
        Err(ChunkError::Short)
    } else {
        let length = spec_u32_from_be_bytes(b.subrange(0, 4));
        if length != b.len() - 12 {
            Err(ChunkError::Length(length, (b.len() - 12) as usize))
        } else {
            match spec_type_parse(b.subrange(4, 8)) {
                Err(e) => Err(ChunkError::ChunkType(e)),
                Ok(ctype) => {
                    let data = b.subrange(8, b.len() - 4);
                    let crc = spec_u32_from_be_bytes(b.subrange(b.len() - 4, b.len() as int));
                    if crc != crc32_of(b.subrange(4, b.len() - 4)) {
                        Err(ChunkError::Crc)
                    } else {
                        Ok(ChunkV { length, ctype, data, crc })
                    }
                },
            }
        }
    }
}

/// A chunk record. A constructed value always satisfies `wf`: its length
/// counts its data bytes and its checksum covers its type and data bytes.
#[derive(Debug)]
pub struct Chunk {
    length: u32,
    ctype: ChunkType,
    data: Vec<u8>,
    crc: u32,
}

impl View for Chunk {
    type V = ChunkV;

    closed spec fn view(&self) -> ChunkV {
        ChunkV { length: self.length, ctype: self.ctype@, data: self.data@, crc: self.crc }
    }
}

impl Chunk {
    pub open spec fn wf(self) -> bool {
        self@.wf()
    }

    /// Parses one chunk record that must occupy `bytes` exactly.
    pub fn try_from(bytes: &[u8]) -> (r: Result<Chunk, ChunkError>)
        ensures
            match r {
                Ok(c) => spec_chunk_parse(bytes@) == Ok::<ChunkV, ChunkError>(c@) && c.wf()
                    && c@.spec_serialize() == bytes@,
                Err(e) => spec_chunk_parse(bytes@) == Err::<ChunkV, ChunkError>(e),
            },
    {
        proof {
            reveal(spec_chunk_parse);
        }
        let n = bytes.len();
        if n < 12 {
            return Err(ChunkError::Short);
        }
        let length = u32_from_be_at(bytes, 0);
        if length as u64 != (n - 12) as u64 {
            return Err(ChunkError::Length(length, n - 12));
        }
        let ctype = match ChunkType::try_from([bytes[4], bytes[5], bytes[6], bytes[7]]) {
            Ok(t) => t,
            Err(e) => {
                proof {
                    assert([bytes@[4], bytes@[5], bytes@[6], bytes@[7]]@ =~= bytes@.subrange(
                        4,
                        8,
                    ));
                }
                return Err(ChunkError::ChunkType(e));
            },
        };
        proof {
            assert([bytes@[4], bytes@[5], bytes@[6], bytes@[7]]@ =~= bytes@.subrange(4, 8));
        }
        let data = slice_to_vec(slice_subrange(bytes, 8, n - 4));
        let crc = u32_from_be_at(bytes, n - 4);
        let computed = crc_checksum(slice_subrange(bytes, 4, n - 4));
        if crc != computed {
            return Err(ChunkError::Crc);
        }
        let c = Chunk { length, ctype, data, crc };
        proof {
            lemma_chunk_parse_serialize(bytes@, c@);
        }
        Ok(c)
    }

    /// Builds a fresh record from a validated type and arbitrary data; the
    /// length and checksum are computed, never supplied.
    pub fn new(ctype: ChunkType, data: Vec<u8>) -> (r: Chunk)
        requires
            ctype.wf(),
            data@.len() <= u32::MAX,
        ensures
            r@ == (ChunkV {
                length: data@.len() as u32,
                ctype: ctype@,
                data: data@,
                crc: crc32_of(ctype@ + data@),
            }),
            r.wf(),
    {
        let tb = ctype.bytes();
        let mut buf: Vec<u8> = Vec::new();
        buf.push(tb[0]);
        buf.push(tb[1]);
        buf.push(tb[2]);
        buf.push(tb[3]);
        let mut i: usize = 0;
        while i < data.len()
            invariant
                i <= data@.len(),
                buf@ == ctype@ + data@.subrange(0, i as int),
            decreases data@.len() - i,
        {
            buf.push(data[i]);
            proof {
                assert(buf@ =~= ctype@ + data@.subrange(0, i as int + 1));
            }
            i = i + 1;
        }
        proof {
            assert(buf@ =~= ctype@ + data@);
        }
        let crc = crc_checksum(buf.as_slice());
        Chunk { length: data.len() as u32, ctype, data, crc }
    }

    /// The declared data length.
    pub fn length(&self) -> (r: u32)
        ensures
            r == self@.length,
    {
        self.length
    }

    /// The chunk's type code.
    pub fn chunk_type(&self) -> (r: &ChunkType)
        ensures
            r@ == self@.ctype,
            self.wf() ==> r.wf(),
    {
        &self.ctype
    }

    /// The data bytes.
    pub fn data(&self) -> (r: &[u8])
        ensures
            r@ == self@.data,
    {
        self.data.as_slice()
    }

    /// The stored checksum.
    pub fn crc(&self) -> (r: u32)
        ensures
            r == self@.crc,
    {
        self.crc
    }

    /// The full wire encoding of the record: `length:4 | type:4 | data:N |
    /// crc:4`, big-endian.
    pub fn as_bytes(&self) -> (r: Vec<u8>)
        ensures
            r@ == self@.spec_serialize(),
    {
        self.serialize()
    }

    /// The data decoded as text; fails exactly when the data bytes are not
    /// valid UTF-8.
    pub fn data_as_string(&self) -> (r: Result<String, ChunkError>)
        ensures
            r is Ok <==> valid_utf8(self@.data),
            r matches Ok(s) ==> s@ == decode_utf8(self@.data),
            r is Err ==> r == Err::<String, ChunkError>(ChunkError::Utf8),
    {
        match string_from_utf8(slice_to_vec(self.data.as_slice())) {
            Some(s) => Ok(s),
            None => Err(ChunkError::Utf8),
        }
    }

    /// The full wire encoding of the record.
    pub fn serialize(&self) -> (r: Vec<u8>)
        ensures
            r@ == self@.spec_serialize(),
    {
        let mut out: Vec<u8> = Vec::new();
        push_u32_be(&mut out, self.length);
        let tb = self.ctype.bytes();
        out.push(tb[0]);
        out.push(tb[1]);
        out.push(tb[2]);
        out.push(tb[3]);
        let mut i: usize = 0;
        while i < self.data.len()
            invariant
                i <= self@.data.len(),
                out@ == spec_u32_to_be_bytes(self@.length) + self@.ctype + self@.data.subrange(
                    0,
                    i as int,
                ),
            decreases self@.data.len() - i,
        {
            out.push(self.data[i]);
            proof {
                assert(out@ =~= spec_u32_to_be_bytes(self@.length) + self@.ctype
                    + self@.data.subrange(0, i as int + 1));
            }
            i = i + 1;
        }
        push_u32_be(&mut out, self.crc);
        proof {
            assert(out@ =~= self@.spec_serialize());
        }
        out
    }
}

/// A successful parse inverts serialization: the parsed record's wire
/// encoding is the very input, and the record is well formed.
pub proof fn lemma_chunk_parse_serialize(b: Seq<u8>, c: ChunkV)
    requires
        spec_chunk_parse(b) == Ok::<ChunkV, ChunkError>(c),
    ensures
        c.spec_serialize() == b,
        c.wf(),
{
    reveal(spec_chunk_parse);
    let n = b.len() as int;
    lemma_u32_be_bytes_round_trip(b.subrange(0, 4));
    lemma_u32_be_bytes_round_trip(b.subrange(n - 4, n));
    assert(b.subrange(4, n - 4) =~= b.subrange(4, 8) + b.subrange(8, n - 4));
    assert(c.spec_serialize() =~= b);
}

/// Round trip: parsing the wire encoding of a well-formed record yields the
/// record back, with the same length, type, data and checksum.
pub proof fn lemma_chunk_round_trip(c: ChunkV)
    requires
        c.wf(),
    ensures
        spec_chunk_parse(c.spec_serialize()) == Ok::<ChunkV, ChunkError>(c),
{
    reveal(spec_chunk_parse);
    let b = c.spec_serialize();
    lemma_u32_be_round_trip(c.length);
    lemma_u32_be_round_trip(c.crc);
    let n = b.len() as int;
    assert(n == 12 + c.data.len());
    assert(b.subrange(0, 4) =~= spec_u32_to_be_bytes(c.length));
    assert(b.subrange(4, 8) =~= c.ctype);
    assert(b.subrange(8, n - 4) =~= c.data);
    assert(b.subrange(n - 4, n) =~= spec_u32_to_be_bytes(c.crc));
    assert(b.subrange(4, n - 4) =~= c.ctype + c.data);
    assert(spec_type_parse(b.subrange(4, 8)) == Ok::<Seq<u8>, ChunkTypeError>(c.ctype));
    assert(spec_chunk_parse(b) matches Ok(p) && p =~= c);
}

/// Tamper detection: when the bytes offered as one record carry a stored
/// checksum that differs from the checksum of their type-and-data region,
/// parsing fails; it reports the broken type code first, else the mismatch.
pub proof fn lemma_tamper_detected(b: Seq<u8>)
    requires
        b.len() >= 12,
        spec_u32_from_be_bytes(b.subrange(0, 4)) == b.len() - 12,
        crc32_of(b.subrange(4, b.len() - 4)) != spec_u32_from_be_bytes(
            b.subrange(b.len() - 4, b.len() as int),
        ),
    ensures
        spec_chunk_parse(b) is Err,
        spec_type_parse(b.subrange(4, 8)) is Ok ==> spec_chunk_parse(b) == Err::<
            ChunkV,
            ChunkError,
        >(ChunkError::Crc),
        spec_type_parse(b.subrange(4, 8)) matches Err(e) ==> spec_chunk_parse(b) == Err::<
            ChunkV,
            ChunkError,
        >(ChunkError::ChunkType(e)),
{
    reveal(spec_chunk_parse);
}

/// Tamper detection for a serialized record: altering one byte of the type
/// or data region is caught whenever it changes the region's checksum —
/// parsing then reports the broken type code, or else the CRC mismatch.
/// That a single altered byte always changes a CRC-32 checksum is a property
/// of the polynomial; `crc32_of` does not model it, so it stands here as the
/// last hypothesis.
pub proof fn lemma_single_byte_tamper_detected(c: ChunkV, t: Seq<u8>, i: int)
    requires
        c.wf(),
        t.len() == c.spec_serialize().len(),
        4 <= i < t.len() - 4,
        forall|j: int| 0 <= j < t.len() && j != i ==> t[j] == c.spec_serialize()[j],
        crc32_of(t.subrange(4, t.len() - 4)) != c.crc,
    ensures
        spec_chunk_parse(t) is Err,
        spec_type_parse(t.subrange(4, 8)) is Ok ==> spec_chunk_parse(t) == Err::<
            ChunkV,
            ChunkError,
        >(ChunkError::Crc),
        spec_type_parse(t.subrange(4, 8)) matches Err(e) ==> spec_chunk_parse(t) == Err::<
            ChunkV,
            ChunkError,
        >(ChunkError::ChunkType(e)),
{
    let s = c.spec_serialize();
    let n = t.len() as int;
    assert(n == 12 + c.data.len());
    assert(t.subrange(0, 4) =~= s.subrange(0, 4));
    assert(t.subrange(n - 4, n) =~= s.subrange(n - 4, n));
    assert(s.subrange(0, 4) =~= spec_u32_to_be_bytes(c.length));
    assert(s.subrange(n - 4, n) =~= spec_u32_to_be_bytes(c.crc));
    lemma_u32_be_round_trip(c.length);
    lemma_u32_be_round_trip(c.crc);
    lemma_tamper_detected(t);
}

} // verus!
