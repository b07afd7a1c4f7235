//! The container: a fixed eight-byte signature followed by an ordered
//! sequence of chunks.
//!
//! A container is built by parsing a byte buffer (which fails on a bad
//! signature, on a malformed chunk, or on a checksum mismatch — never
//! partially) or started empty.  It is mutated only by appending a chunk
//! or removing the first chunk of a given tag, and serializes back to
//! the signature followed by each chunk's frame in order.

use crate::chunk::{
    lemma_chunk_parse_serialize, lemma_chunk_round_trip, spec_decode_frame, spec_parse_chunk,
    Chunk, ChunkError, ChunkModel,
};
use crate::chunk_type::ChunkType;
use crate::wire::{lemma_u32_to_from_be_bytes, spec_u32_from_be_bytes, u32_from_be_bytes};
use vstd::prelude::*;
use vstd::slice::{slice_index_get, slice_subrange};
use vstd::string::StringSliceAdditionalSpecFns;

verus! {

/// The fixed leading signature of the file format.
pub open spec fn spec_signature() -> Seq<u8> {
    seq![137u8, 80u8, 78u8, 71u8, 13u8, 10u8, 26u8, 10u8]
}

/// The fixed leading signature of the file format, as bytes.
pub fn signature() -> (r: [u8; 8])
    ensures
        r@ == spec_signature(),
{
    let r: [u8; 8] = [137u8, 80u8, 78u8, 71u8, 13u8, 10u8, 26u8, 10u8];
    proof {
        assert(r@ =~= spec_signature());
    }
    r
}

#[derive(Debug, PartialEq, Eq)]
pub enum ContainerError {
    /// Fewer bytes than the signature itself.
    Incomplete,
    /// The leading bytes are not the format's signature.
    InvalidSignature,
    /// A chunk failed to parse; holds that chunk's error.
    Chunk(ChunkError),
    /// The tag named by a removal is not present.
    ChunkTypeNotFound,
}

/// The models of a sequence of chunks.
pub open spec fn models_of(cs: Seq<Chunk>) -> Seq<ChunkModel> {
    cs.map_values(|c: Chunk| c@)
}

/// The concatenated wire frames of a sequence of chunk models.
pub open spec fn wires(ms: Seq<ChunkModel>) -> Seq<u8>
    decreases ms.len(),
{
    if ms.len() == 0 {
        Seq::empty()
    } else {
        ms[0].wire() + wires(ms.drop_first())
    }
}

/// Appending one model extends the concatenated frames by its frame.
pub proof fn lemma_wires_push(s: Seq<ChunkModel>, m: ChunkModel)
    ensures
        wires(s.push(m)) == wires(s) + m.wire(),
    decreases s.len(),
{
    let p = s.push(m);
    if s.len() == 0 {
        assert(p[0] == m);
        assert(p.drop_first() =~= Seq::<ChunkModel>::empty());
        assert(wires(p) == m.wire() + wires(Seq::<ChunkModel>::empty()));
        assert(wires(p) =~= wires(s) + m.wire());
    } else {
        assert(p[0] == s[0]);
        assert(p.drop_first() =~= s.drop_first().push(m));
        lemma_wires_push(s.drop_first(), m);
        assert(wires(p) == p[0].wire() + wires(p.drop_first()));
        assert(wires(p) =~= wires(s) + m.wire());
    }
}

/// The result of parsing a stream of zero or more chunk frames: each
/// frame is delimited by its own declared length, and any chunk error
/// aborts the whole parse.
pub open spec fn spec_parse_chunks(bytes: Seq<u8>) -> Result<Seq<ChunkModel>, ChunkError>
    decreases bytes.len(),
{
    if bytes.len() == 0 {
        Ok(Seq::empty())
    } else if bytes.len() < 12 {
        Err(ChunkError::Incomplete)
    } else {
        let frame_len = 12 + spec_u32_from_be_bytes(bytes.subrange(0, 4));
        if bytes.len() < frame_len {
            Err(ChunkError::Incomplete)
        } else {
            match spec_decode_frame(bytes.subrange(0, frame_len as int)) {
                Err(e) => Err(e),
                Ok(m) => match spec_parse_chunks(bytes.skip(frame_len as int)) {
                    Err(e) => Err(e),
                    Ok(ms) => Ok(seq![m] + ms),
                },
            }
        }
    }
}

/// The result of parsing a whole container: the signature, then chunk
/// frames until the bytes are exhausted.
pub open spec fn spec_parse_container(bytes: Seq<u8>) -> Result<Seq<ChunkModel>, ContainerError> {
    if bytes.len() < 8 {
        Err(ContainerError::Incomplete)
    } else if bytes.subrange(0, 8) != spec_signature() {
        Err(ContainerError::InvalidSignature)
    } else {
        match spec_parse_chunks(bytes.skip(8)) {
            Ok(ms) => Ok(ms),
            Err(e) => Err(ContainerError::Chunk(e)),
        }
    }
}

/// True when `i` is the first index in `ms` whose tag is `t`.
pub open spec fn is_first_match(ms: Seq<ChunkModel>, t: Seq<u8>, i: int) -> bool {
    &&& 0 <= i < ms.len()
    &&& ms[i].tag == t
    &&& forall|j: int| 0 <= j < i ==> (#[trigger] ms[j]).tag != t
}

/// True when some chunk in `ms` has tag `t`.
pub open spec fn has_match(ms: Seq<ChunkModel>, t: Seq<u8>) -> bool {
    exists|i: int| is_first_match(ms, t, i)
}

/// The full in-memory representation of one file: the signature plus an
/// ordered chunk sequence.
#[derive(Debug)]
pub struct Container {
    chunks: Vec<Chunk>,
}

impl Container {
    /// The sequence of chunk models held, in on-disk order.
    pub closed spec fn models(self) -> Seq<ChunkModel> {
        models_of(self.chunks@)
    }

    /// The sequence of chunks held, in on-disk order.
    pub closed spec fn spec_chunks(self) -> Seq<Chunk> {
        self.chunks@
    }

    /// An empty container: the signature and no chunks yet.
    pub fn new() -> (r: Container)
        ensures
            r.models() == Seq::<ChunkModel>::empty(),
    {
        let r = Container { chunks: Vec::new() };
        proof {
            assert(r.models() =~= Seq::<ChunkModel>::empty());
        }
        r
    }

    /// The chunks held, in order.
    pub fn chunks(&self) -> (r: &Vec<Chunk>)
        ensures
            r@ == self.spec_chunks(),
            models_of(r@) == self.models(),
    {
        &self.chunks
    }

    /// Parses a whole file: the signature, then chunks until the bytes
    /// are exhausted.  Any failure rejects the whole input.
    #[verifier::loop_isolation(false)]
    pub fn parse(bytes: &[u8]) -> (r: Result<Container, ContainerError>)
        ensures
            match r {
                Ok(c) => spec_parse_container(bytes@) == Ok::<Seq<ChunkModel>, ContainerError>(
                    c.models(),
                ),
                Err(e) => spec_parse_container(bytes@) == Err::<Seq<ChunkModel>, ContainerError>(e),
            },
    {
        if bytes.len() < 8 {
            return Err(ContainerError::Incomplete);
        }
        let sig = signature();
        let mut k: usize = 0;
        while k < 8
            invariant
                0 <= k <= 8,
                bytes@.len() >= 8,
                forall|j: int| 0 <= j < k ==> bytes@[j] == spec_signature()[j],
            decreases 8 - k,
        {
            if *slice_index_get(bytes, k) != sig[k] {
                proof {
                    assert(bytes@.subrange(0, 8)[k as int] != spec_signature()[k as int]);
                }
                return Err(ContainerError::InvalidSignature);
            }
            k = k + 1;
        }
        proof {
            assert(bytes@.subrange(0, 8) =~= spec_signature());
        }
        let mut chunks: Vec<Chunk> = Vec::new();
        let mut offset: usize = 8;
        while offset < bytes.len()
            invariant
                8 <= offset <= bytes@.len(),
                spec_parse_chunks(bytes@.skip(8)) == (match spec_parse_chunks(
                    bytes@.skip(offset as int),
                ) {
                    Ok(ms) => Ok::<Seq<ChunkModel>, ChunkError>(models_of(chunks@) + ms),
                    Err(e) => Err::<Seq<ChunkModel>, ChunkError>(e),
                }),
            decreases bytes@.len() - offset,
        {
            let ghost rest = bytes@.skip(offset as int);
            let remaining = bytes.len() - offset;
            if remaining < 12 {
                return Err(ContainerError::Chunk(ChunkError::Incomplete));
            }
            let declared = u32_from_be_bytes(slice_subrange(bytes, offset, offset + 4));
            proof {
                assert(bytes@.subrange(offset as int, offset as int + 4) =~= rest.subrange(0, 4));
            }
            if declared as usize > remaining - 12 {
                return Err(ContainerError::Chunk(ChunkError::Incomplete));
            }
            let frame_len = 12 + declared as usize;
            let frame = slice_subrange(bytes, offset, offset + frame_len);
            proof {
                assert(frame@ =~= rest.subrange(0, frame_len as int));
                assert(frame@.subrange(0, 4) =~= rest.subrange(0, 4));
            }
            let chunk = match Chunk::decode_frame(frame) {
                Ok(c) => c,
                Err(e) => {
                    return Err(ContainerError::Chunk(e));
                },
            };
            proof {
                assert(bytes@.skip(offset as int + frame_len as int) =~= rest.skip(
                    frame_len as int,
                ));
                assert(models_of(chunks@.push(chunk)) =~= models_of(chunks@) + seq![chunk@]);
                match spec_parse_chunks(rest.skip(frame_len as int)) {
                    Ok(ms) => {
                        assert(models_of(chunks@) + (seq![chunk@] + ms) =~= (models_of(chunks@)
                            + seq![chunk@]) + ms);
                    },
                    Err(_) => {},
                }
            }
            chunks.push(chunk);
            offset = offset + frame_len;
        }
        proof {
            assert(bytes@.skip(offset as int) =~= Seq::<u8>::empty());
            assert(models_of(chunks@) + Seq::<ChunkModel>::empty() =~= models_of(chunks@));
        }
        Ok(Container { chunks })
    }

    /// Returns the first chunk whose tag renders to `tag_text`; absence
    /// is a normal outcome.
    #[verifier::loop_isolation(false)]
    pub fn find_by_type(&self, tag_text: &str) -> (r: Option<&Chunk>)
        ensures
            match r {
                Some(c) => exists|i: int|
                    #![auto]
                    is_first_match(self.models(), tag_text.spec_bytes(), i) && c@ == self.models()[
                        i
                    ],
                None => !has_match(self.models(), tag_text.spec_bytes()),
            },
    {
        let target = tag_text.as_bytes();
        let mut i: usize = 0;
        while i < self.chunks.len()
            invariant
                0 <= i <= self.chunks@.len(),
                forall|j: int|
                    0 <= j < i ==> (#[trigger] models_of(self.chunks@)[j]).tag
                        != tag_text.spec_bytes(),
            decreases self.chunks@.len() - i,
        {
            let c = &self.chunks[i];
            if tag_eq(c.chunk_type(), target) {
                proof {
                    assert(is_first_match(self.models(), tag_text.spec_bytes(), i as int));
                }
                return Some(c);
            }
            i = i + 1;
        }
        proof {
            assert(!has_match(self.models(), tag_text.spec_bytes()));
        }
        None
    }

    /// Appends a chunk at the end of the sequence, unconditionally;
    /// several chunks of one tag may coexist.
    pub fn append(&mut self, chunk: Chunk)
        ensures
            final(self).models() == old(self).models().push(chunk@),
    {
        proof {
            assert(models_of(self.chunks@.push(chunk)) =~= models_of(self.chunks@).push(chunk@));
        }
        self.chunks.push(chunk);
    }

    /// Removes and returns the first chunk whose tag renders to
    /// `tag_text`; an absent tag is an error and leaves the container
    /// unchanged.
    #[verifier::loop_isolation(false)]
    pub fn remove(&mut self, tag_text: &str) -> (r: Result<Chunk, ContainerError>)
        ensures
            match r {
                Ok(c) => exists|i: int|
                    #![auto]
                    is_first_match(old(self).models(), tag_text.spec_bytes(), i) && c@ == old(
                        self,
                    ).models()[i] && final(self).models() == old(self).models().remove(i),
                Err(e) => e == ContainerError::ChunkTypeNotFound && !has_match(
                    old(self).models(),
                    tag_text.spec_bytes(),
                ) && final(self).models() == old(self).models(),
            },
    {
        let target = tag_text.as_bytes();
        let mut i: usize = 0;
        while i < self.chunks.len()
            invariant
                0 <= i <= self.chunks@.len(),
                *self == *old(self),
                forall|j: int|
                    0 <= j < i ==> (#[trigger] models_of(self.chunks@)[j]).tag
                        != tag_text.spec_bytes(),
            decreases self.chunks@.len() - i,
        {
            let found = {
                let c = &self.chunks[i];
                tag_eq(c.chunk_type(), target)
            };
            if found {
                proof {
                    assert(is_first_match(self.models(), tag_text.spec_bytes(), i as int));
                }
                let c = self.chunks.remove(i);
                proof {
                    assert(models_of(self.chunks@) =~= models_of(old(self).chunks@).remove(
                        i as int,
                    ));
                }
                return Ok(c);
            }
            i = i + 1;
        }
        proof {
            assert(!has_match(self.models(), tag_text.spec_bytes()));
        }
        Err(ContainerError::ChunkTypeNotFound)
    }

    /// Emits the whole file: the signature, then each chunk's frame in
    /// sequence order.
    #[verifier::loop_isolation(false)]
    pub fn serialize(&self) -> (r: Vec<u8>)
        ensures
            r@ == spec_signature() + wires(self.models()),
    {
        let mut out: Vec<u8> = Vec::new();
        let sig = signature();
        let mut k: usize = 0;
        while k < 8
            invariant
                0 <= k <= 8,
                sig@ == spec_signature(),
                out@ == spec_signature().take(k as int),
            decreases 8 - k,
        {
            out.push(sig[k]);
            proof {
                assert(out@ =~= spec_signature().take(k as int + 1));
            }
            k = k + 1;
        }
        proof {
            assert(spec_signature().take(8) =~= spec_signature());
        }
        let mut i: usize = 0;
        while i < self.chunks.len()
            invariant
                0 <= i <= self.chunks@.len(),
                out@ == spec_signature() + wires(models_of(self.chunks@).take(i as int)),
            decreases self.chunks@.len() - i,
        {
            let mut frame = (&self.chunks[i]).serialize();
            proof {
                let ms = models_of(self.chunks@);
                assert(ms.take(i as int + 1) =~= ms.take(i as int).push(ms[i as int]));
                lemma_wires_push(ms.take(i as int), ms[i as int]);
            }
            out.append(&mut frame);
            i = i + 1;
        }
        proof {
            assert(models_of(self.chunks@).take(self.chunks@.len() as int) =~= self.models());
        }
        out
    }
}

/// True when the tag's four bytes equal the byte slice.
fn tag_eq(t: &ChunkType, s: &[u8]) -> (r: bool)
    ensures
        r == (t@ == s@),
{
    proof {
        use_type_invariant(t);
    }
    if s.len() != 4 {
        return false;
    }
    let tb = t.bytes();
    let r = tb[0] == *slice_index_get(s, 0) && tb[1] == *slice_index_get(s, 1) && tb[2]
        == *slice_index_get(s, 2) && tb[3] == *slice_index_get(s, 3);
    proof {
        if r {
            assert(t@ =~= s@);
        } else {
            if t@ == s@ {
                assert(tb@[0] == s@[0] && tb@[1] == s@[1] && tb@[2] == s@[2] && tb@[3] == s@[3]);
            }
        }
    }
    r
}

/// Any sequence of well-formed chunks parses back from its own
/// concatenated wire frames.
pub proof fn lemma_chunks_round_trip(ms: Seq<ChunkModel>)
    requires
        forall|i: int| 0 <= i < ms.len() ==> (#[trigger] ms[i]).wf(),
    ensures
        spec_parse_chunks(wires(ms)) == Ok::<Seq<ChunkModel>, ChunkError>(ms),
    decreases ms.len(),
{
    if ms.len() == 0 {
        assert(wires(ms) == Seq::<u8>::empty());
        assert(ms =~= Seq::<ChunkModel>::empty());
    } else {
        let m = ms[0];
        let w = m.wire();
        let rest = wires(ms.drop_first());
        let b = wires(ms);
        assert(b == w + rest);
        assert(w.len() == 12 + m.data.len());
        lemma_u32_to_from_be_bytes(m.data.len() as u32);
        lemma_chunk_round_trip(m);
        assert(b.subrange(0, 4) =~= w.subrange(0, 4));
        let declared = spec_u32_from_be_bytes(b.subrange(0, 4));
        assert(declared == m.data.len());
        let frame_len = 12 + declared as int;
        assert(frame_len == w.len());
        assert(b.subrange(0, frame_len) =~= w);
        assert(spec_decode_frame(w) == Ok::<ChunkModel, ChunkError>(m)) by {
            assert(spec_parse_chunk(w) == Ok::<ChunkModel, ChunkError>(m));
        }
        assert(b.skip(frame_len) =~= rest);
        lemma_chunks_round_trip(ms.drop_first());
        assert(spec_parse_chunks(b.skip(frame_len)) == Ok::<Seq<ChunkModel>, ChunkError>(
            ms.drop_first(),
        ));
        assert(spec_parse_chunks(b) == Ok::<Seq<ChunkModel>, ChunkError>(seq![m] + ms.drop_first()));
        assert(seq![m] + ms.drop_first() =~= ms);
    }
}

/// A byte-level container round trip: the signature followed by the
/// frames of well-formed chunks parses back to exactly those chunks.
pub proof fn lemma_container_round_trip(ms: Seq<ChunkModel>)
    requires
        forall|i: int| 0 <= i < ms.len() ==> (#[trigger] ms[i]).wf(),
    ensures
        spec_parse_container(spec_signature() + wires(ms)) == Ok::<Seq<ChunkModel>, ContainerError>(
            ms,
        ),
{
    let b = spec_signature() + wires(ms);
    assert(b.subrange(0, 8) =~= spec_signature());
    assert(b.skip(8) =~= wires(ms));
    lemma_chunks_round_trip(ms);
}

/// A byte stream that parses as a chunk sequence is exactly that
/// sequence's concatenated frames, and every parsed chunk is
/// well-formed.
#[verifier::rlimit(100)]
pub proof fn lemma_chunks_parse_serialize(bytes: Seq<u8>, ms: Seq<ChunkModel>)
    requires
        spec_parse_chunks(bytes) == Ok::<Seq<ChunkModel>, ChunkError>(ms),
    ensures
        wires(ms) == bytes,
        forall|i: int| 0 <= i < ms.len() ==> (#[trigger] ms[i]).wf(),
    decreases bytes.len(),
{
    if bytes.len() == 0 {
        assert(wires(ms) =~= bytes);
    } else {
        let frame_len = 12 + spec_u32_from_be_bytes(bytes.subrange(0, 4)) as int;
        let frame = bytes.subrange(0, frame_len);
        match spec_decode_frame(frame) {
            Err(_) => {
                assert(false);
            },
            Ok(m0) => {
                assert(frame.subrange(0, 4) =~= bytes.subrange(0, 4));
                assert(spec_parse_chunk(frame) == Ok::<ChunkModel, ChunkError>(m0));
                lemma_chunk_parse_serialize(frame, m0);
                match spec_parse_chunks(bytes.skip(frame_len)) {
                    Err(_) => {
                        assert(false);
                    },
                    Ok(tail) => {
                        lemma_chunks_parse_serialize(bytes.skip(frame_len), tail);
                        assert(ms == seq![m0] + tail);
                        assert(ms.drop_first() =~= tail);
                        assert(ms[0] == m0);
                        assert(wires(ms) == m0.wire() + wires(tail));
                        assert(wires(ms) =~= bytes);
                    },
                }
            },
        }
    }
}

/// A sequence of at least eight bytes is its first eight bytes followed
/// by the rest.
proof fn lemma_split_at_8(bytes: Seq<u8>)
    requires
        bytes.len() >= 8,
    ensures
        bytes.subrange(0, 8) + bytes.skip(8) == bytes,
{
    assert(bytes.subrange(0, 8) + bytes.skip(8) =~= bytes);
}

/// A byte buffer that parses as a container is exactly the signature
/// followed by the frames of the chunks it parses to.
pub proof fn lemma_container_parse_serialize(bytes: Seq<u8>, ms: Seq<ChunkModel>)
    requires
        spec_parse_container(bytes) == Ok::<Seq<ChunkModel>, ContainerError>(ms),
    ensures
        spec_signature() + wires(ms) == bytes,
        forall|i: int| 0 <= i < ms.len() ==> (#[trigger] ms[i]).wf(),
{
    assert(spec_parse_chunks(bytes.skip(8)) == Ok::<Seq<ChunkModel>, ChunkError>(ms));
    lemma_chunks_parse_serialize(bytes.skip(8), ms);
    lemma_split_at_8(bytes);
}

/// Appending a chunk whose tag is not already present and then removing
/// that tag restores the original chunk sequence, hence the original
/// serialized bytes.
pub proof fn lemma_append_remove_restores(ms: Seq<ChunkModel>, m: ChunkModel, i: int)
    requires
        !has_match(ms, m.tag),
        is_first_match(ms.push(m), m.tag, i),
    ensures
        i == ms.len(),
        ms.push(m).remove(i) == ms,
        wires(ms.push(m).remove(i)) == wires(ms),
{
    if i < ms.len() {
        assert(ms[i] == ms.push(m)[i]);
        assert forall|j: int| 0 <= j < i implies (#[trigger] ms[j]).tag != m.tag by {
            assert(ms[j] == ms.push(m)[j]);
        }
        assert(is_first_match(ms, m.tag, i));
        assert(false);
    }
    assert(ms.push(m).remove(i) =~= ms);
}

/// Truncating the last byte of a parsable chunk stream leaves the parse
/// incomplete; it can never succeed on the truncated bytes.
pub proof fn lemma_chunks_truncated_incomplete(bytes: Seq<u8>, ms: Seq<ChunkModel>)
    requires
        bytes.len() > 0,
        spec_parse_chunks(bytes) == Ok::<Seq<ChunkModel>, ChunkError>(ms),
    ensures
        spec_parse_chunks(bytes.take(bytes.len() - 1)) == Err::<Seq<ChunkModel>, ChunkError>(
            ChunkError::Incomplete,
        ),
    decreases bytes.len(),
{
    let t = bytes.take(bytes.len() - 1);
    let declared = spec_u32_from_be_bytes(bytes.subrange(0, 4));
    let frame_len = 12 + declared as int;
    if frame_len == bytes.len() {
        if t.len() >= 12 {
            assert(t.subrange(0, 4) =~= bytes.subrange(0, 4));
            assert(t.len() < frame_len);
        }
    } else {
        assert(t.len() >= frame_len);
        assert(t.subrange(0, 4) =~= bytes.subrange(0, 4));
        assert(t.subrange(0, frame_len) =~= bytes.subrange(0, frame_len));
        let rest = bytes.skip(frame_len);
        match spec_decode_frame(bytes.subrange(0, frame_len)) {
            Err(_) => {
                assert(false);
            },
            Ok(m0) => {
                match spec_parse_chunks(rest) {
                    Err(_) => {
                        assert(false);
                    },
                    Ok(tail) => {
                        lemma_chunks_truncated_incomplete(rest, tail);
                        assert(t.skip(frame_len) =~= rest.take(rest.len() - 1));
                    },
                }
            },
        }
    }
}

/// Truncating the last byte of a valid serialized container makes the
/// parse fail as incomplete; it can never succeed on truncated data.
pub proof fn lemma_container_truncated_fails(bytes: Seq<u8>, ms: Seq<ChunkModel>)
    requires
        spec_parse_container(bytes) == Ok::<Seq<ChunkModel>, ContainerError>(ms),
    ensures
        spec_parse_container(bytes.take(bytes.len() - 1)) == Err::<Seq<ChunkModel>, ContainerError>(
            ContainerError::Incomplete,
        ) || spec_parse_container(bytes.take(bytes.len() - 1)) == Err::<
            Seq<ChunkModel>,
            ContainerError,
        >(ContainerError::Chunk(ChunkError::Incomplete)),
{
    let t = bytes.take(bytes.len() - 1);
    if bytes.len() > 8 {
        assert(t.subrange(0, 8) =~= bytes.subrange(0, 8));
        let s = bytes.skip(8);
        assert(s.len() > 0);
        lemma_chunks_truncated_incomplete(s, ms);
        assert(t.skip(8) =~= s.take(s.len() - 1));
    }
}

} // verus!
