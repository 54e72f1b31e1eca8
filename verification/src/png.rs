//! The whole-file container: fixed signature plus an ordered chunk sequence.

use vstd::prelude::*;
use vstd::seq_lib::*;
use vstd::slice::slice_subrange;
use vstd::utf8::encode_utf8;
use crate::chunk::{
    lemma_chunk_parse_serialize, lemma_chunk_round_trip, spec_chunk_parse, Chunk, ChunkError,
    ChunkV,
};
use crate::wire::{lemma_u32_be_round_trip, spec_u32_from_be_bytes, u32_from_be_at};

verus! {

/// The fixed 8-byte signature that opens every container.
pub open spec fn spec_sig() -> Seq<u8> {
    seq![0x89u8, 0x50u8, 0x4eu8, 0x47u8, 0x0du8, 0x0au8, 0x1au8, 0x0au8]
}

/// How many bytes the next chunk record claims, bounded by what is left:
/// its declared data length plus the 12 framing bytes where that fits, and
/// everything that remains otherwise (so that the record parse reports the
/// mismatch exactly).
pub open spec fn spec_head_len(b: Seq<u8>) -> int {
    if b.len() < 12 {
        b.len() as int
    } else {
        let l = spec_u32_from_be_bytes(b.subrange(0, 4));
        if 12 + l <= b.len() {
            12 + l
        } else {
            b.len() as int
        }
    }
}

/// The result of splitting `b` into consecutive chunk records until it is
/// exhausted. Any record failure aborts the whole parse with that failure;
/// leftover bytes that form no complete record are a failure, never ignored.
pub open spec fn spec_stream_parse(b: Seq<u8>) -> Result<Seq<ChunkV>, ChunkError>
    decreases b.len(),
{
    if b.len() == 0 {
        Ok(Seq::empty())
    } else {
        let head = spec_head_len(b);
        match spec_chunk_parse(b.subrange(0, head)) {
            Err(e) => Err(e),
            Ok(c) => match spec_stream_parse(b.skip(head)) {
                Err(e) => Err(e),
                Ok(rest) => Ok(seq![c] + rest),
            },
        }
    }
}

/// Why parsing or editing a container failed.
#[derive(Debug, PartialEq, Eq)]
pub enum PngError {
    /// The first 8 bytes are not the fixed signature.
    BadSignature,
    /// A chunk record failed to parse; holds that failure.
    Chunk(ChunkError),
    /// A removal found no chunk of the requested type; holds the type text.
    NotFound(String),
}

/// The result of parsing a whole container: the signature followed by zero or
/// more chunk records that exhaust the input exactly.
pub open spec fn spec_png_parse(b: Seq<u8>) -> Result<Seq<ChunkV>, PngError> {
    if b.len() < 8 || b.subrange(0, 8) != spec_sig() {
        Err(PngError::BadSignature)
    } else {
        match spec_stream_parse(b.skip(8)) {
            Ok(cs) => Ok(cs),
            Err(e) => Err(PngError::Chunk(e)),
        }
    }
}

/// The concatenation of the wire encodings of `cs`, in order.
pub open spec fn spec_chunks_serialize(cs: Seq<ChunkV>) -> Seq<u8>
    decreases cs.len(),
{
    if cs.len() == 0 {
        Seq::empty()
    } else {
        cs[0].spec_serialize() + spec_chunks_serialize(cs.drop_first())
    }
}

/// The index of the first chunk in `cs` whose type bytes are `t`, if any.
pub open spec fn spec_first_match(cs: Seq<ChunkV>, t: Seq<u8>) -> Option<int>
    decreases cs.len(),
{
    if cs.len() == 0 {
        None
    } else if cs[0].ctype == t {
        Some(0)
    } else {
        match spec_first_match(cs.drop_first(), t) {
            Some(i) => Some(i + 1),
            None => None,
        }
    }
}

/// A match at `i` with no earlier match is the first match.
pub proof fn lemma_first_match_at(cs: Seq<ChunkV>, t: Seq<u8>, i: int)
    requires
        0 <= i < cs.len(),
        cs[i].ctype == t,
        forall|j: int| 0 <= j < i ==> (#[trigger] cs[j]).ctype != t,
    ensures
        spec_first_match(cs, t) == Some(i),
    decreases cs.len(),
{
    if i > 0 {
        lemma_first_match_at(cs.drop_first(), t, i - 1);
    }
}

/// With no match anywhere there is no first match.
pub proof fn lemma_first_match_none(cs: Seq<ChunkV>, t: Seq<u8>)
    requires
        forall|j: int| 0 <= j < cs.len() ==> (#[trigger] cs[j]).ctype != t,
    ensures
        spec_first_match(cs, t) is None,
    decreases cs.len(),
{
    if cs.len() > 0 {
        lemma_first_match_none(cs.drop_first(), t);
    }
}

/// The container: the fixed signature and an ordered chunk sequence, owned
/// exclusively. Its mathematical content is the sequence of chunk records.
#[derive(Debug)]
pub struct Png {
    chunks: Vec<Chunk>,
}

impl View for Png {
    type V = Seq<ChunkV>;

    closed spec fn view(&self) -> Seq<ChunkV> {
        self.chunks@.map_values(|c: Chunk| c@)
    }
}

/// The loop relation of the container parse: what the whole stream parses to
/// is the records already taken, followed by whatever the remainder yields.
spec fn spec_stream_extends(
    full: Result<Seq<ChunkV>, ChunkError>,
    done: Seq<ChunkV>,
    rest: Result<Seq<ChunkV>, ChunkError>,
) -> bool {
    match rest {
        Ok(r) => full == Ok::<Seq<ChunkV>, ChunkError>(done + r),
        Err(e) => full == Err::<Seq<ChunkV>, ChunkError>(e),
    }
}

/// One successful step of the stream parse: the head record parses, and the
/// stream continues after it.
proof fn lemma_stream_step_ok(b: Seq<u8>, c: ChunkV)
    requires
        b.len() > 0,
        spec_chunk_parse(b.subrange(0, spec_head_len(b))) == Ok::<ChunkV, ChunkError>(c),
    ensures
        spec_stream_extends(
            spec_stream_parse(b),
            seq![c],
            spec_stream_parse(b.skip(spec_head_len(b))),
        ),
{
}

/// One failing step of the stream parse: the head record's failure is the
/// stream's failure.
proof fn lemma_stream_step_err(b: Seq<u8>, e: ChunkError)
    requires
        b.len() > 0,
        spec_chunk_parse(b.subrange(0, spec_head_len(b))) == Err::<ChunkV, ChunkError>(e),
    ensures
        spec_stream_parse(b) == Err::<Seq<ChunkV>, ChunkError>(e),
{
}

/// Chains the loop relation across one further record.
proof fn lemma_stream_extends_trans(
    full: Result<Seq<ChunkV>, ChunkError>,
    done: Seq<ChunkV>,
    mid: Result<Seq<ChunkV>, ChunkError>,
    c: ChunkV,
    rest: Result<Seq<ChunkV>, ChunkError>,
)
    requires
        spec_stream_extends(full, done, mid),
        spec_stream_extends(mid, seq![c], rest),
    ensures
        spec_stream_extends(full, done.push(c), rest),
{
    match rest {
        Ok(r) => {
            assert(done + (seq![c] + r) =~= done.push(c) + r);
        },
        Err(_) => {},
    }
}

/// Reads how many bytes the record starting at `pos` occupies: its declared
/// data length plus the 12 framing bytes where that fits before the end, and
/// everything that remains otherwise.
fn head_len_at(bytes: &[u8], pos: usize) -> (h: usize)
    requires
        pos < bytes@.len(),
    ensures
        h == spec_head_len(bytes@.skip(pos as int)),
        1 <= h <= bytes@.len() - pos,
{
    let n = bytes.len();
    let rem = n - pos;
    proof {
        assert(bytes@.skip(pos as int).len() == rem);
    }
    if rem < 12 {
        rem
    } else {
        let l = u32_from_be_at(bytes, pos);
        proof {
            assert(bytes@.skip(pos as int).subrange(0, 4) =~= bytes@.subrange(
                pos as int,
                pos as int + 4,
            ));
        }
        if (l as u64) <= (rem as u64) - 12 {
            12 + (l as usize)
        } else {
            rem
        }
    }
}

/// Decides whether `bytes` opens with the fixed signature.
fn check_sig(bytes: &[u8]) -> (r: bool)
    ensures
        r == (bytes@.len() >= 8 && bytes@.subrange(0, 8) == spec_sig()),
{
    if bytes.len() < 8 {
        return false;
    }
    let ok = bytes[0] == 0x89 && bytes[1] == 0x50 && bytes[2] == 0x4e && bytes[3] == 0x47
        && bytes[4] == 0x0d && bytes[5] == 0x0a && bytes[6] == 0x1a && bytes[7] == 0x0a;
    proof {
        let s = bytes@.subrange(0, 8);
        assert(s[0] == bytes@[0] && s[1] == bytes@[1] && s[2] == bytes@[2] && s[3] == bytes@[3]
            && s[4] == bytes@[4] && s[5] == bytes@[5] && s[6] == bytes@[6] && s[7] == bytes@[7]);
        if ok {
            assert(s =~= spec_sig());
        } else {
            assert(s != spec_sig()) by {
                if s == spec_sig() {
                    assert(s[0] == 0x89 && s[1] == 0x50 && s[2] == 0x4e && s[3] == 0x47
                        && s[4] == 0x0d && s[5] == 0x0a && s[6] == 0x1a && s[7] == 0x0a);
                }
            }
        }
    }
    ok
}

impl Png {
    /// Every chunk in the container is well formed.
    pub open spec fn wf(self) -> bool {
        forall|i: int| 0 <= i < self@.len() ==> (#[trigger] self@[i]).wf()
    }

    /// The wire encoding: signature, then every chunk's encoding in order.
    pub open spec fn spec_serialize(self) -> Seq<u8> {
        spec_sig() + spec_chunks_serialize(self@)
    }

    /// A fresh container: just the signature, no chunks.
    pub fn new() -> (r: Png)
        ensures
            r@ == Seq::<ChunkV>::empty(),
            r.wf(),
    {
        let p = Png { chunks: Vec::new() };
        proof {
            assert(p@ =~= Seq::<ChunkV>::empty());
        }
        p
    }

    /// Parses a whole container; never returns a partial one.
    #[verifier::rlimit(100)]
    pub fn try_from(bytes: &[u8]) -> (r: Result<Png, PngError>)
        ensures
            match r {
                Ok(p) => spec_png_parse(bytes@) == Ok::<Seq<ChunkV>, PngError>(p@) && p.wf()
                    && p.spec_serialize() == bytes@,
                Err(e) => spec_png_parse(bytes@) == Err::<Seq<ChunkV>, PngError>(e),
            },
    {
        if !check_sig(bytes) {
            return Err(PngError::BadSignature);
        }
        let n = bytes.len();
        let mut chunks: Vec<Chunk> = Vec::new();
        let mut pos: usize = 8;
        while pos < n
            invariant
                8 <= pos <= n,
                n == bytes@.len(),
                bytes@.len() >= 8,
                bytes@.subrange(0, 8) == spec_sig(),
                forall|i: int| 0 <= i < chunks@.len() ==> (#[trigger] chunks@[i]).wf(),
                spec_stream_extends(
                    spec_stream_parse(bytes@.skip(8)),
                    chunks@.map_values(|c: Chunk| c@),
                    spec_stream_parse(bytes@.skip(pos as int)),
                ),
            decreases n - pos,
        {
            let ghost prev_pos = pos as int;
            let ghost tail = bytes@.skip(prev_pos);
            let head = head_len_at(bytes, pos);
            let sub = slice_subrange(bytes, pos, pos + head);
            proof {
                assert(sub@ =~= tail.subrange(0, head as int));
            }
            match Chunk::try_from(sub) {
                Ok(c) => {
                    let ghost prev_done = chunks@.map_values(|ch: Chunk| ch@);
                    chunks.push(c);
                    pos = pos + head;
                    proof {
                        assert(chunks@.map_values(|ch: Chunk| ch@) =~= prev_done.push(c@));
                        assert(tail.skip(head as int) =~= bytes@.skip(pos as int));
                        lemma_stream_step_ok(tail, c@);
                        lemma_stream_extends_trans(
                            spec_stream_parse(bytes@.skip(8)),
                            prev_done,
                            spec_stream_parse(tail),
                            c@,
                            spec_stream_parse(bytes@.skip(pos as int)),
                        );
                    }
                },
                Err(e) => {
                    proof {
                        lemma_stream_step_err(tail, e);
                    }
                    return Err(PngError::Chunk(e));
                },
            }
        }
        let p = Png { chunks };
        proof {
            assert(bytes@.skip(pos as int) =~= Seq::<u8>::empty());
            let done = p.chunks@.map_values(|c: Chunk| c@);
            assert(spec_stream_parse(bytes@.skip(8)) == Ok::<Seq<ChunkV>, ChunkError>(
                done + Seq::empty(),
            ));
            assert(done + Seq::<ChunkV>::empty() =~= done);
            lemma_stream_parse_serialize(bytes@.skip(8), p@);
            assert(spec_sig() + bytes@.skip(8) =~= bytes@);
        }
        Ok(p)
    }

    /// Appends a record at the end of the chunk sequence; always succeeds.
    pub fn append_chunk(&mut self, chunk: Chunk)
        requires
            old(self).wf(),
            chunk.wf(),
        ensures
            final(self)@ == old(self)@.push(chunk@),
            final(self).wf(),
    {
        let ghost prev = self@;
        self.chunks.push(chunk);
        proof {
            assert(self@ =~= prev.push(chunk@));
        }
    }

    /// The first chunk, in file order, whose type text equals `type_text`;
    /// nothing when no chunk matches.
    pub fn chunk_by_type(&self, type_text: &str) -> (r: Option<&Chunk>)
        requires
            self.wf(),
        ensures
            ({
                let t = encode_utf8(type_text@);
                match r {
                    Some(c) => spec_first_match(self@, t) matches Some(i) && c@ == self@[i]
                        && c.wf(),
                    None => spec_first_match(self@, t) is None,
                }
            }),
    {
        match self.find_first(type_text) {
            Some(i) => Some(&self.chunks[i]),
            None => None,
        }
    }

    /// The index of the first chunk whose type text equals `type_text`.
    fn find_first(&self, type_text: &str) -> (r: Option<usize>)
        requires
            self.wf(),
        ensures
            ({
                let t = encode_utf8(type_text@);
                match r {
                    Some(i) => spec_first_match(self@, t) == Some(i as int) && i < self@.len()
                        && self@[i as int].ctype == t,
                    None => spec_first_match(self@, t) is None,
                }
            }),
    {
        let ghost t = encode_utf8(type_text@);
        let tb = type_text.as_bytes();
        if tb.len() != 4 {
            proof {
                assert(forall|j: int| 0 <= j < self@.len() ==> (#[trigger] self@[j]).ctype != t);
                lemma_first_match_none(self@, t);
            }
            return None;
        }
        let mut i: usize = 0;
        while i < self.chunks.len()
            invariant
                self.wf(),
                i <= self.chunks@.len(),
                self@.len() == self.chunks@.len(),
                t == encode_utf8(type_text@),
                tb@ == t,
                tb@.len() == 4,
                forall|j: int| 0 <= j < i ==> (#[trigger] self@[j]).ctype != t,
            decreases self.chunks@.len() - i,
        {
            let c = &self.chunks[i];
            proof {
                assert(c@ == self@[i as int]);
            }
            let cb = c.chunk_type().bytes();
            if cb[0] == tb[0] && cb[1] == tb[1] && cb[2] == tb[2] && cb[3] == tb[3] {
                proof {
                    assert(c@.ctype =~= tb@);
                    lemma_first_match_at(self@, t, i as int);
                }
                return Some(i);
            }
            proof {
                assert(c@.ctype != tb@) by {
                    if c@.ctype == tb@ {
                        assert(cb@[0] == tb@[0] && cb@[1] == tb@[1] && cb@[2] == tb@[2]
                            && cb@[3] == tb@[3]);
                    }
                }
            }
            i = i + 1;
        }
        proof {
            lemma_first_match_none(self@, t);
        }
        None
    }

    /// Removes and returns the first chunk, in file order, whose type text
    /// equals `type_text`; later chunks keep their relative order. Fails with
    /// `NotFound` exactly when no chunk matches, leaving the container as it
    /// was.
    pub fn remove_first_chunk(&mut self, type_text: &str) -> (r: Result<Chunk, PngError>)
        requires
            old(self).wf(),
        ensures
            ({
                let t = encode_utf8(type_text@);
                match r {
                    Ok(c) => spec_first_match(old(self)@, t) matches Some(i) && c@ == old(
                        self,
                    )@[i] && final(self)@ == old(self)@.remove(i) && c.wf() && final(self).wf(),
                    Err(e) => e matches PngError::NotFound(s) && s@ == type_text@
                        && spec_first_match(old(self)@, t) is None && final(self)@ == old(
                        self,
                    )@,
                }
            }),
    {
        match self.find_first(type_text) {
            Some(i) => {
                let ghost prev = self@;
                let c = self.chunks.remove(i);
                proof {
                    assert(self@ =~= prev.remove(i as int));
                    assert(forall|j: int| 0 <= j < self@.len() ==> (#[trigger] self@[j]).wf());
                }
                Ok(c)
            },
            None => Err(PngError::NotFound(type_text.to_owned())),
        }
    }

    /// How many chunks the container holds.
    pub fn chunk_count(&self) -> (r: usize)
        ensures
            r == self@.len(),
    {
        self.chunks.len()
    }

    /// The chunk at position `i` in file order.
    pub fn chunk_at(&self, i: usize) -> (r: &Chunk)
        requires
            i < self@.len(),
        ensures
            r@ == self@[i as int],
            self.wf() ==> r.wf(),
    {
        proof {
            assert(self.chunks@[i as int]@ == self@[i as int]);
        }
        &self.chunks[i]
    }

    /// The wire encoding of the container: the signature, then each chunk's
    /// encoding in current order. Non-mutating.
    pub fn as_bytes(&self) -> (r: Vec<u8>)
        ensures
            r@ == self.spec_serialize(),
    {
        let mut out: Vec<u8> = Vec::new();
        out.push(0x89);
        out.push(0x50);
        out.push(0x4e);
        out.push(0x47);
        out.push(0x0d);
        out.push(0x0a);
        out.push(0x1a);
        out.push(0x0a);
        proof {
            assert(out@ =~= spec_sig());
            assert(self@.take(0) =~= Seq::<ChunkV>::empty());
        }
        let mut i: usize = 0;
        while i < self.chunks.len()
            invariant
                i <= self.chunks@.len(),
                self@.len() == self.chunks@.len(),
                out@ == spec_sig() + spec_chunks_serialize(self@.take(i as int)),
            decreases self.chunks@.len() - i,
        {
            let mut part = self.chunks[i].serialize();
            proof {
                assert(self.chunks@[i as int]@ == self@[i as int]);
            }
            out.append(&mut part);
            proof {
                lemma_chunks_serialize_take_succ(self@, i as int);
            }
            i = i + 1;
        }
        proof {
            assert(self@.take(self@.len() as int) =~= self@);
        }
        out
    }
}

/// Serializing one more chunk extends the serialized prefix by its encoding.
proof fn lemma_chunks_serialize_take_succ(cs: Seq<ChunkV>, i: int)
    requires
        0 <= i < cs.len(),
    ensures
        spec_chunks_serialize(cs.take(i + 1)) == spec_chunks_serialize(cs.take(i))
            + cs[i].spec_serialize(),
    decreases i,
{
    if i == 0 {
        assert(cs.take(1).drop_first() =~= Seq::<ChunkV>::empty());
        assert(cs.take(0) =~= Seq::<ChunkV>::empty());
        assert(spec_chunks_serialize(cs.take(1)) =~= spec_chunks_serialize(cs.take(0))
            + cs[0].spec_serialize());
    } else {
        lemma_chunks_serialize_take_succ(cs.drop_first(), i - 1);
        assert(cs.take(i + 1).drop_first() =~= cs.drop_first().take(i));
        assert(cs.take(i).drop_first() =~= cs.drop_first().take(i - 1));
        assert(cs.drop_first()[i - 1] == cs[i]);
        assert(spec_chunks_serialize(cs.take(i + 1)) =~= spec_chunks_serialize(cs.take(i))
            + cs[i].spec_serialize());
    }
}

/// A successful stream parse inverts serialization: the records' encodings
/// concatenate back to the very input, and every record is well formed.
#[verifier::rlimit(60)]
pub proof fn lemma_stream_parse_serialize(b: Seq<u8>, cs: Seq<ChunkV>)
    requires
        spec_stream_parse(b) == Ok::<Seq<ChunkV>, ChunkError>(cs),
    ensures
        spec_chunks_serialize(cs) == b,
        forall|i: int| 0 <= i < cs.len() ==> (#[trigger] cs[i]).wf(),
    decreases b.len(),
{
    if b.len() == 0 {
        assert(cs =~= Seq::<ChunkV>::empty());
        assert(spec_chunks_serialize(cs) =~= b);
    } else {
        let head = spec_head_len(b);
        let c = spec_chunk_parse(b.subrange(0, head))->Ok_0;
        let rest = spec_stream_parse(b.skip(head))->Ok_0;
        assert(cs == seq![c] + rest);
        lemma_chunk_parse_serialize(b.subrange(0, head), c);
        lemma_stream_parse_serialize(b.skip(head), rest);
        assert(cs[0] == c);
        assert(cs.drop_first() =~= rest);
        assert(spec_chunks_serialize(cs) =~= b.subrange(0, head) + b.skip(head));
        assert(b.subrange(0, head) + b.skip(head) =~= b);
    }
}

/// Round trip: parsing the concatenated encodings of well-formed records
/// yields exactly those records, in order.
#[verifier::rlimit(100)]
pub proof fn lemma_stream_round_trip(cs: Seq<ChunkV>)
    requires
        forall|i: int| 0 <= i < cs.len() ==> (#[trigger] cs[i]).wf(),
    ensures
        spec_stream_parse(spec_chunks_serialize(cs)) == Ok::<Seq<ChunkV>, ChunkError>(cs),
    decreases cs.len(),
{
    if cs.len() == 0 {
        assert(cs =~= Seq::<ChunkV>::empty());
        assert(spec_stream_parse(spec_chunks_serialize(cs)) == Ok::<Seq<ChunkV>, ChunkError>(
            Seq::empty(),
        ));
    } else {
        let b = spec_chunks_serialize(cs);
        let c = cs[0];
        let tail = spec_chunks_serialize(cs.drop_first());
        assert(b == c.spec_serialize() + tail);
        let m = c.spec_serialize().len() as int;
        assert(m == 12 + c.data.len());
        lemma_u32_be_round_trip(c.length);
        assert(b.subrange(0, 4) =~= crate::wire::spec_u32_to_be_bytes(c.length));
        assert(spec_head_len(b) == m);
        assert(b.subrange(0, m) =~= c.spec_serialize());
        lemma_chunk_round_trip(c);
        assert(b.skip(m) =~= tail);
        lemma_stream_round_trip(cs.drop_first());
        assert(seq![c] + cs.drop_first() =~= cs);
    }
}

/// Round trip for the whole container: parsing a serialized container yields
/// a chunk sequence identical to the one serialized.
pub proof fn lemma_png_round_trip(cs: Seq<ChunkV>)
    requires
        forall|i: int| 0 <= i < cs.len() ==> (#[trigger] cs[i]).wf(),
    ensures
        spec_png_parse(spec_sig() + spec_chunks_serialize(cs)) == Ok::<Seq<ChunkV>, PngError>(cs),
{
    let b = spec_sig() + spec_chunks_serialize(cs);
    assert(b.subrange(0, 8) =~= spec_sig());
    assert(b.skip(8) =~= spec_chunks_serialize(cs));
    lemma_stream_round_trip(cs);
}

/// Round trip, stated of a container value: parsing what it serializes to
/// yields its own chunk sequence.
pub proof fn lemma_container_round_trip(p: Png)
    requires
        p.wf(),
    ensures
        spec_png_parse(p.spec_serialize()) == Ok::<Seq<ChunkV>, PngError>(p@),
{
    lemma_png_round_trip(p@);
}

/// Serialization is deterministic: it depends only on the chunk sequence, so
/// serializing an unchanged container twice yields identical bytes.
pub proof fn lemma_serialize_deterministic(p: Png, q: Png)
    requires
        p@ == q@,
    ensures
        p.spec_serialize() == q.spec_serialize(),
{
}

} // verus!
