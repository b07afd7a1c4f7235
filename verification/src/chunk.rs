//! One container record: a type tag, an opaque payload, and a CRC-32
//! checksum over tag and payload.
//!
//! On the wire a chunk is a frame of a 4-byte big-endian length, the
//! 4-byte tag, the payload, and a 4-byte big-endian checksum.  The
//! checksum is recomputed on every construction and compared against the
//! stored one during parsing; a mismatch is a hard parse error.

use crate::chunk_type::{all_alpha, first_non_alpha, ChunkType, ChunkTypeError};
use crate::text::string_from_utf8;
use crate::wire::{
    lemma_u32_from_to_be_bytes, lemma_u32_to_from_be_bytes, push_u32_be_bytes,
    spec_u32_from_be_bytes, spec_u32_to_be_bytes, u32_from_be_bytes,
};
use vstd::prelude::*;
use vstd::slice::{slice_index_get, slice_subrange, slice_to_vec};
use vstd::utf8::{decode_utf8, valid_utf8};

verus! {

/// The CRC-32 (ISO-HDLC polynomial) checksum of a byte sequence.
pub uninterp spec fn crc32_of(bytes: Seq<u8>) -> u32;

/// Relies on `crc::Crc::<u32>::new(&CRC_32_ISO_HDLC)` and
/// `Crc::checksum`: the CRC-32/ISO-HDLC checksum of the input, a
/// function of the input bytes alone.
#[verifier::external_body]
fn crc32(bytes: &[u8]) -> (r: u32)
    ensures
        r == crc32_of(bytes@),
{
    crc::Crc::<u32>::new(&crc::CRC_32_ISO_HDLC).checksum(bytes)
}

#[derive(Debug, PartialEq, Eq)]
pub enum ChunkError {
    /// Fewer bytes than the minimum frame, or a declared length that
    /// exceeds the bytes available.
    Incomplete,
    /// Whole-buffer mode only: the declared length does not match the
    /// buffer; holds the expected and the declared length.
    InvalidLengthField(u32, u32),
    /// The four tag bytes do not form a chunk type.
    InvalidChunkType(ChunkTypeError),
    /// The stored checksum disagrees with the one computed over tag and
    /// payload.
    InvalidChecksum,
    /// An underlying read or write fault, passed through by a caller.
    IOException,
}

/// The mathematical content of a chunk: its tag bytes and its payload
/// bytes.  Length and checksum are functions of these two.
pub struct ChunkModel {
    pub tag: Seq<u8>,
    pub data: Seq<u8>,
}

impl ChunkModel {
    /// A well-formed chunk: a four-letter tag and a payload whose length
    /// fits the 32-bit length field.
    pub open spec fn wf(self) -> bool {
        &&& self.tag.len() == 4
        &&& all_alpha(self.tag)
        &&& self.data.len() <= u32::MAX
    }

    /// The chunk's exact wire frame: length, tag, payload, checksum.
    pub open spec fn wire(self) -> Seq<u8> {
        spec_u32_to_be_bytes(self.data.len() as u32) + self.tag + self.data + spec_u32_to_be_bytes(
            crc32_of(self.tag + self.data),
        )
    }
}

/// The result of decoding a frame known to span `bytes` exactly: the
/// tag must be four letters and the stored checksum must match the one
/// computed over tag and payload.
pub open spec fn spec_decode_frame(bytes: Seq<u8>) -> Result<ChunkModel, ChunkError>
    recommends
        bytes.len() >= 12,
{
    let tag = bytes.subrange(4, 8);
    let data = bytes.subrange(8, bytes.len() - 4);
    let stored = spec_u32_from_be_bytes(bytes.subrange(bytes.len() - 4, bytes.len() as int));
    if !all_alpha(tag) {
        Err(ChunkError::InvalidChunkType(ChunkTypeError::InvalidByte(tag[first_non_alpha(tag)])))
    } else if stored != crc32_of(tag + data) {
        Err(ChunkError::InvalidChecksum)
    } else {
        Ok(ChunkModel { tag, data })
    }
}

/// The result of parsing a buffer that must hold exactly one chunk: the
/// declared length must match the buffer's length.
pub open spec fn spec_parse_chunk(bytes: Seq<u8>) -> Result<ChunkModel, ChunkError> {
    if bytes.len() < 12 {
        Err(ChunkError::Incomplete)
    } else {
        let declared = spec_u32_from_be_bytes(bytes.subrange(0, 4));
        if declared != bytes.len() - 12 {
            Err(ChunkError::InvalidLengthField((bytes.len() - 12) as u32, declared))
        } else {
            spec_decode_frame(bytes)
        }
    }
}

/// One container record, owning its payload bytes.
#[derive(Debug)]
pub struct Chunk {
    length: u32,
    chunk_type: ChunkType,
    chunk_data: Vec<u8>,
    crc: u32,
}

impl View for Chunk {
    type V = ChunkModel;

    closed spec fn view(&self) -> ChunkModel {
        ChunkModel { tag: self.chunk_type@, data: self.chunk_data@ }
    }
}

impl Chunk {
    #[verifier::type_invariant]
    pub(crate) closed spec fn inv(self) -> bool {
        &&& self@.wf()
        &&& self.length == self@.data.len()
        &&& self.crc == crc32_of(self@.tag + self@.data)
    }

    /// Builds a chunk from a tag and a payload; length and checksum are
    /// computed from the inputs, any payload bytes are legal.
    pub fn new(chunk_type: ChunkType, data: Vec<u8>) -> (r: Chunk)
        requires
            data@.len() <= u32::MAX,
        ensures
            r@ == (ChunkModel { tag: chunk_type@, data: data@ }),
    {
        proof {
            use_type_invariant(&chunk_type);
        }
        let crc = compute_crc(&chunk_type, data.as_slice());
        let length = data.len() as u32;
        Chunk { length, chunk_type, chunk_data: data, crc }
    }

    /// The payload length in bytes.
    pub fn length(&self) -> (r: u32)
        ensures
            r == self@.data.len(),
    {
        proof {
            use_type_invariant(&*self);
        }
        self.length
    }

    /// The chunk's type tag.
    pub fn chunk_type(&self) -> (r: &ChunkType)
        ensures
            r@ == self@.tag,
    {
        &self.chunk_type
    }

    /// The payload bytes.
    pub fn data(&self) -> (r: &[u8])
        ensures
            r@ == self@.data,
    {
        self.chunk_data.as_slice()
    }

    /// The checksum over tag and payload.
    pub fn crc(&self) -> (r: u32)
        ensures
            r == crc32_of(self@.tag + self@.data),
    {
        proof {
            use_type_invariant(&*self);
        }
        self.crc
    }

    /// The payload decoded as text; an error when it is not valid UTF-8.
    pub fn data_as_string(&self) -> (r: Result<String, std::string::FromUtf8Error>)
        ensures
            match r {
                Ok(s) => valid_utf8(self@.data) && s@ == decode_utf8(self@.data),
                Err(_) => !valid_utf8(self@.data),
            },
    {
        string_from_utf8(slice_to_vec(self.chunk_data.as_slice()))
    }

    /// Parses a chunk from a buffer that must hold exactly one frame.
    pub fn try_from(bytes: &[u8]) -> (r: Result<Chunk, ChunkError>)
        ensures
            match r {
                Ok(c) => spec_parse_chunk(bytes@) == Ok::<ChunkModel, ChunkError>(c@),
                Err(e) => spec_parse_chunk(bytes@) == Err::<ChunkModel, ChunkError>(e),
            },
    {
        if bytes.len() < 12 {
            return Err(ChunkError::Incomplete);
        }
        let declared = u32_from_be_bytes(slice_subrange(bytes, 0, 4));
        let expected = bytes.len() - 12;
        if declared as usize != expected {
            return Err(
                ChunkError::InvalidLengthField(#[verifier::truncate] (expected as u32), declared),
            );
        }
        Self::decode_frame(bytes)
    }

    /// Decodes one frame that spans `bytes` exactly; shared by the
    /// whole-buffer parser and the container's stream parser.
    pub(crate) fn decode_frame(bytes: &[u8]) -> (r: Result<Chunk, ChunkError>)
        requires
            bytes@.len() >= 12,
            spec_u32_from_be_bytes(bytes@.subrange(0, 4)) == bytes@.len() - 12,
        ensures
            match r {
                Ok(c) => spec_decode_frame(bytes@) == Ok::<ChunkModel, ChunkError>(c@),
                Err(e) => spec_decode_frame(bytes@) == Err::<ChunkModel, ChunkError>(e),
            },
    {
        let n = bytes.len();
        let tag_slice = slice_subrange(bytes, 4, 8);
        let tag_arr = [
            *slice_index_get(tag_slice, 0),
            *slice_index_get(tag_slice, 1),
            *slice_index_get(tag_slice, 2),
            *slice_index_get(tag_slice, 3),
        ];
        proof {
            assert(tag_arr@ =~= bytes@.subrange(4, 8));
        }
        let chunk_type = match ChunkType::try_from(tag_arr) {
            Ok(t) => t,
            Err(e) => {
                return Err(ChunkError::InvalidChunkType(e));
            },
        };
        let chunk_data = slice_to_vec(slice_subrange(bytes, 8, n - 4));
        let crc = compute_crc(&chunk_type, chunk_data.as_slice());
        let stored = u32_from_be_bytes(slice_subrange(bytes, n - 4, n));
        if stored != crc {
            return Err(ChunkError::InvalidChecksum);
        }
        let length = u32_from_be_bytes(slice_subrange(bytes, 0, 4));
        Ok(Chunk { length, chunk_type, chunk_data, crc })
    }

    /// Emits the chunk's exact wire frame: length, tag, payload,
    /// checksum.
    pub fn serialize(&self) -> (r: Vec<u8>)
        ensures
            r@ == self@.wire(),
    {
        proof {
            use_type_invariant(&*self);
        }
        let mut out: Vec<u8> = Vec::new();
        push_u32_be_bytes(&mut out, self.length);
        let tb = self.chunk_type.bytes();
        out.push(tb[0]);
        out.push(tb[1]);
        out.push(tb[2]);
        out.push(tb[3]);
        proof {
            use_type_invariant(&*self);
            assert(out@ =~= spec_u32_to_be_bytes(self.length) + self@.tag);
        }
        let ghost head = out@;
        let mut i: usize = 0;
        while i < self.chunk_data.len()
            invariant
                i <= self.chunk_data@.len(),
                out@ == head + self@.data.take(i as int),
            decreases self.chunk_data@.len() - i,
        {
            out.push(self.chunk_data[i]);
            proof {
                assert(out@ =~= head + self@.data.take(i as int + 1));
            }
            i = i + 1;
        }
        proof {
            use_type_invariant(&*self);
            assert(self@.data.take(self@.data.len() as int) =~= self@.data);
        }
        push_u32_be_bytes(&mut out, self.crc);
        proof {
            assert(out@ =~= self@.wire());
        }
        out
    }
}

/// CRC-32 checksum over the tag bytes followed by the payload bytes.
fn compute_crc(tag: &ChunkType, data: &[u8]) -> (r: u32)
    ensures
        r == crc32_of(tag@ + data@),
{
    proof {
        use_type_invariant(tag);
    }
    let tb = tag.bytes();
    let mut v: Vec<u8> = Vec::new();
    v.push(tb[0]);
    v.push(tb[1]);
    v.push(tb[2]);
    v.push(tb[3]);
    proof {
        assert(v@ =~= tag@ + data@.take(0));
    }
    let mut i: usize = 0;
    while i < data.len()
        invariant
            i <= data@.len(),
            v@ == tag@ + data@.take(i as int),
        decreases data@.len() - i,
    {
        v.push(*slice_index_get(data, i));
        proof {
            assert(v@ =~= tag@ + data@.take(i as int + 1));
        }
        i = i + 1;
    }
    proof {
        assert(data@.take(data@.len() as int) =~= data@);
    }
    crc32(v.as_slice())
}

/// Round trip: a well-formed chunk parses back, field for field, from
/// its own serialized frame.
pub proof fn lemma_chunk_round_trip(m: ChunkModel)
    requires
        m.wf(),
    ensures
        spec_parse_chunk(m.wire()) == Ok::<ChunkModel, ChunkError>(m),
{
    let w = m.wire();
    lemma_u32_to_from_be_bytes(m.data.len() as u32);
    lemma_u32_to_from_be_bytes(crc32_of(m.tag + m.data));
    assert(w.subrange(0, 4) =~= spec_u32_to_be_bytes(m.data.len() as u32));
    assert(w.subrange(4, 8) =~= m.tag);
    assert(w.subrange(8, w.len() - 4) =~= m.data);
    assert(w.subrange(w.len() - 4, w.len() as int) =~= spec_u32_to_be_bytes(
        crc32_of(m.tag + m.data),
    ));
    assert(spec_parse_chunk(w) == Ok::<ChunkModel, ChunkError>(
        ChunkModel { tag: m.tag, data: m.data },
    ));
}

/// A frame whose stored checksum is not the checksum computed over its
/// tag and payload is rejected with a checksum error, never accepted.
pub proof fn lemma_checksum_mismatch_rejected(m: ChunkModel, stored: u32)
    requires
        m.wf(),
        stored != crc32_of(m.tag + m.data),
    ensures
        spec_parse_chunk(
            spec_u32_to_be_bytes(m.data.len() as u32) + m.tag + m.data + spec_u32_to_be_bytes(
                stored,
            ),
        ) == Err::<ChunkModel, ChunkError>(ChunkError::InvalidChecksum),
{
    let w = spec_u32_to_be_bytes(m.data.len() as u32) + m.tag + m.data + spec_u32_to_be_bytes(
        stored,
    );
    lemma_u32_to_from_be_bytes(m.data.len() as u32);
    lemma_u32_to_from_be_bytes(stored);
    assert(w.subrange(0, 4) =~= spec_u32_to_be_bytes(m.data.len() as u32));
    assert(w.subrange(4, 8) =~= m.tag);
    assert(w.subrange(8, w.len() - 4) =~= m.data);
    assert(w.subrange(w.len() - 4, w.len() as int) =~= spec_u32_to_be_bytes(stored));
}

/// A buffer that parses as one chunk is exactly that chunk's wire frame.
pub proof fn lemma_chunk_parse_serialize(bytes: Seq<u8>, m: ChunkModel)
    requires
        spec_parse_chunk(bytes) == Ok::<ChunkModel, ChunkError>(m),
    ensures
        m.wf(),
        m.wire() == bytes,
{
    let n = bytes.len() as int;
    lemma_u32_from_to_be_bytes(bytes.subrange(0, 4));
    lemma_u32_from_to_be_bytes(bytes.subrange(n - 4, n));
    assert(m.wire() =~= bytes);
}

} // verus!
