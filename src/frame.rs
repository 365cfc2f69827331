use vstd::prelude::*;

use crate::command::instream_bytes;
use crate::error::ClamAVClientError;

verus! {

/// The chunk size used where the caller names none.
pub const DEFAULT_CHUNK_SIZE: usize = 4096;

/// The chunk size that a caller's choice comes to.
pub open spec fn chosen_chunk_size(chunk_size: Option<usize>) -> nat {
    match chunk_size {
        Some(k) => k as nat,
        None => DEFAULT_CHUNK_SIZE as nat,
    }
}

/// A chunk size that the framer accepts: at least one byte, and small
/// enough for its length to fit in the 32-bit prefix.
pub open spec fn valid_chunk_size(k: nat) -> bool {
    1 <= k <= u32::MAX
}

/// `n` as four bytes, most significant first.
pub open spec fn be32(n: nat) -> Seq<u8> {
    seq![
        (n / 0x1000000 % 0x100) as u8,
        (n / 0x10000 % 0x100) as u8,
        (n / 0x100 % 0x100) as u8,
        (n % 0x100) as u8,
    ]
}

/// The number that four bytes, most significant first, stand for.
pub open spec fn be32_value(b: Seq<u8>) -> nat {
    b[0] as nat * 0x1000000 + b[1] as nat * 0x10000 + b[2] as nat * 0x100 + b[3] as nat
}

/// The zero-length marker that ends a chunk stream.
pub open spec fn footer() -> Seq<u8> {
    seq![0u8, 0u8, 0u8, 0u8]
}

/// One chunk on the wire: its length, then its bytes.
pub open spec fn chunk_frame(c: Seq<u8>) -> Seq<u8> {
    be32(c.len()) + c
}

/// The chunks on the wire, one after the other.
pub open spec fn frames(cs: Seq<Seq<u8>>) -> Seq<u8>
    decreases cs.len(),
{
    if cs.len() == 0 {
        Seq::empty()
    } else {
        chunk_frame(cs[0]) + frames(cs.drop_first())
    }
}

/// A whole chunk stream: the chunks, then the footer.
pub open spec fn stream_wire(cs: Seq<Seq<u8>>) -> Seq<u8> {
    frames(cs) + footer()
}

/// The payload that the chunks carry, in order.
pub open spec fn joined(cs: Seq<Seq<u8>>) -> Seq<u8>
    decreases cs.len(),
{
    if cs.len() == 0 {
        Seq::empty()
    } else {
        cs[0] + joined(cs.drop_first())
    }
}

/// The sum of the length prefixes written for the chunks.
pub open spec fn prefix_total(cs: Seq<Seq<u8>>) -> nat
    decreases cs.len(),
{
    if cs.len() == 0 {
        0
    } else {
        be32_value(chunk_frame(cs[0]).take(4)) + prefix_total(cs.drop_first())
    }
}

/// Every chunk holds at least one byte and at most `k`.
pub open spec fn chunks_fit(cs: Seq<Seq<u8>>, k: nat) -> bool {
    forall|i: int| 0 <= i < cs.len() ==> 1 <= (#[trigger] cs[i]).len() <= k
}

/// The chunks of `s` when every read fills `k` bytes while the source lasts.
pub open spec fn fixed_chunks(s: Seq<u8>, k: nat) -> Seq<Seq<u8>>
    decreases s.len(),
{
    if k == 0 || s.len() == 0 {
        Seq::empty()
    } else if s.len() <= k {
        seq![s]
    } else {
        seq![s.take(k as int)] + fixed_chunks(s.skip(k as int), k)
    }
}

/// Reads a chunk stream back: the chunks it carries, or `None` where the
/// bytes are not a chunk stream that ends exactly at its footer.
pub open spec fn decode_stream(w: Seq<u8>) -> Option<Seq<Seq<u8>>>
    decreases w.len(),
{
    if w.len() < 4 {
        None
    } else {
        let n = be32_value(w.take(4)) as int;
        if n == 0 {
            if w.len() == 4 {
                Some(Seq::empty())
            } else {
                None
            }
        } else if w.len() < 4 + n {
            None
        } else {
            match decode_stream(w.skip(4 + n)) {
                Some(rest) => Some(seq![w.subrange(4, 4 + n)] + rest),
                None => None,
            }
        }
    }
}

/// The framing side of an INSTREAM scan. Each call of `step` takes what one
/// read of the source gave and returns the bytes to write to the connection:
/// a length-prefixed chunk, or the footer once the source is exhausted.
pub struct Framer {
    chunk_size: usize,
    finished: bool,
    sent: Ghost<Seq<Seq<u8>>>,
}

impl Framer {
    /// The most bytes that one chunk may hold.
    pub closed spec fn spec_chunk_size(&self) -> nat {
        self.chunk_size as nat
    }

    /// The footer has been produced; nothing more is to be written.
    pub closed spec fn is_done(&self) -> bool {
        self.finished
    }

    /// The chunks produced so far, in order.
    pub closed spec fn chunks(&self) -> Seq<Seq<u8>> {
        self.sent@
    }

    /// The framer's invariant: a valid chunk size, and chunks that fit it.
    pub closed spec fn wf(&self) -> bool {
        valid_chunk_size(self.chunk_size as nat) && chunks_fit(self.sent@, self.chunk_size as nat)
    }

    /// All the bytes produced so far.
    pub open spec fn wire(&self) -> Seq<u8> {
        if self.is_done() {
            stream_wire(self.chunks())
        } else {
            frames(self.chunks())
        }
    }

    /// A framer for chunks of at most `chunk_size` bytes (4096 where `None`).
    pub fn new(chunk_size: Option<usize>) -> (r: Result<Framer, ClamAVClientError>)
        ensures
            r is Ok <==> valid_chunk_size(chosen_chunk_size(chunk_size)),
            r matches Ok(f) ==> f.wf() && f.spec_chunk_size() == chosen_chunk_size(chunk_size)
                && !f.is_done() && f.chunks() == Seq::<Seq<u8>>::empty(),
            r matches Err(e) ==> e is InvalidChunkSize && e->InvalidChunkSize_0 as nat
                == chosen_chunk_size(chunk_size),
    {
        let k = match chunk_size {
            Some(k) => k,
            None => DEFAULT_CHUNK_SIZE,
        };
        if k == 0 || k as u64 > u32::MAX as u64 {
            return Err(ClamAVClientError::InvalidChunkSize(k));
        }
        Ok(Framer { chunk_size: k, finished: false, sent: Ghost(Seq::empty()) })
    }

    /// The most bytes that one chunk may hold.
    pub fn chunk_size(&self) -> (r: usize)
        ensures
            r as nat == self.spec_chunk_size(),
    {
        self.chunk_size
    }

    /// Whether the footer has been produced.
    pub fn is_finished(&self) -> (r: bool)
        ensures
            r == self.is_done(),
    {
        self.finished
    }

    /// Takes the bytes of one read of the source and returns what to write:
    /// the chunk with its length in front, or the footer where the read was
    /// empty.
    pub fn step(&mut self, read: &[u8]) -> (out: Vec<u8>)
        requires
            old(self).wf(),
            !old(self).is_done(),
            read@.len() <= old(self).spec_chunk_size(),
        ensures
            final(self).wf(),
            final(self).spec_chunk_size() == old(self).spec_chunk_size(),
            read@.len() == 0 ==> out@ == footer() && final(self).is_done()
                && final(self).chunks() == old(self).chunks(),
            read@.len() > 0 ==> out@ == chunk_frame(read@) && !final(self).is_done()
                && final(self).chunks() == old(self).chunks().push(read@),
            final(self).wire() == old(self).wire() + out@,
    {
        let n = read.len();
        let mut out: Vec<u8> = Vec::new();
        out.push((n / 0x1000000 % 0x100) as u8);
        out.push((n / 0x10000 % 0x100) as u8);
        out.push((n / 0x100 % 0x100) as u8);
        out.push((n % 0x100) as u8);
        assert(out@ =~= be32(n as nat));
        let mut i: usize = 0;
        while i < n
            invariant
                n == read@.len(),
                i <= n,
                out@ == be32(n as nat) + read@.take(i as int),
            decreases n - i,
        {
            out.push(read[i]);
            assert(read@.take(i + 1) =~= read@.take(i as int).push(read@[i as int]));
            i += 1;
        }
        assert(read@.take(n as int) =~= read@);
        proof {
            lemma_frames_push(self.sent@, read@);
        }
        if n == 0 {
            assert(out@ =~= footer());
            self.finished = true;
        } else {
            self.sent = Ghost(self.sent@.push(read@));
        }
        out
    }
}

/// Frames an in-memory source as a chunk stream, reading `chunk_size` bytes
/// (4096 where `None`) at a time.
pub fn frame_stream(input: &[u8], chunk_size: Option<usize>) -> (r: Result<Vec<u8>, ClamAVClientError>)
    ensures
        r is Ok <==> valid_chunk_size(chosen_chunk_size(chunk_size)),
        r matches Ok(w) ==> w@ == stream_wire(fixed_chunks(input@, chosen_chunk_size(chunk_size))),
        r matches Err(e) ==> e is InvalidChunkSize && e->InvalidChunkSize_0 as nat
            == chosen_chunk_size(chunk_size),
{
    let mut framer = match Framer::new(chunk_size) {
        Ok(f) => f,
        Err(e) => return Err(e),
    };
    let k = framer.chunk_size();
    let ghost kk = k as nat;
    let len = input.len();
    let mut out: Vec<u8> = Vec::new();
    let mut pos: usize = 0;
    assert(input@.skip(0) =~= input@);
    while !framer.is_finished()
        invariant
            framer.wf(),
            kk == framer.spec_chunk_size(),
            kk == chosen_chunk_size(chunk_size),
            kk == k,
            len == input@.len(),
            pos <= len,
            out@ == framer.wire(),
            !framer.is_done() ==> fixed_chunks(input@, kk) == framer.chunks() + fixed_chunks(
                input@.skip(pos as int),
                kk,
            ),
            framer.is_done() ==> framer.chunks() == fixed_chunks(input@, kk),
        decreases len - pos + (if framer.is_done() { 0int } else { 1int }),
    {
        let end = if len - pos < k {
            len
        } else {
            pos + k
        };
        let read = &input[pos..end];
        assert(read@ =~= input@.subrange(pos as int, end as int));
        let ghost before = framer.chunks();
        let ghost rest = input@.skip(pos as int);
        let mut bytes = framer.step(read);
        out.append(&mut bytes);
        proof {
            if pos == len {
                assert(rest.len() == 0);
                assert(before + fixed_chunks(rest, kk) =~= before);
            } else {
                assert(rest.skip(end - pos) =~= input@.skip(end as int));
                if rest.len() <= kk {
                    assert(rest =~= read@);
                    assert(input@.skip(end as int).len() == 0);
                    assert(fixed_chunks(input@.skip(end as int), kk) == Seq::<Seq<u8>>::empty());
                    assert(before.push(read@) + fixed_chunks(input@.skip(end as int), kk)
                        =~= before + seq![rest]);
                } else {
                    assert(rest.take(kk as int) =~= read@);
                    assert(before.push(read@) + fixed_chunks(input@.skip(end as int), kk)
                        =~= before + (seq![read@] + fixed_chunks(rest.skip(kk as int), kk)));
                }
            }
        }
        pos = end;
    }
    Ok(out)
}

/// Adding a chunk adds its frame at the end of the wire.
pub proof fn lemma_frames_push(cs: Seq<Seq<u8>>, c: Seq<u8>)
    ensures
        frames(cs.push(c)) == frames(cs) + chunk_frame(c),
    decreases cs.len(),
{
    if cs.len() == 0 {
        assert(cs.push(c).drop_first() =~= Seq::<Seq<u8>>::empty());
        assert(cs.push(c)[0] == c);
        assert(frames(cs.push(c).drop_first()) == Seq::<u8>::empty());
        assert(frames(cs.push(c)) =~= frames(cs) + chunk_frame(c));
    } else {
        assert(cs.push(c).drop_first() =~= cs.drop_first().push(c));
        lemma_frames_push(cs.drop_first(), c);
        assert(cs.push(c)[0] == cs[0]);
        assert(frames(cs.push(c)) == chunk_frame(cs[0]) + frames(cs.drop_first().push(c)));
        assert(frames(cs.push(c)) =~= frames(cs) + chunk_frame(c));
    }
}

/// Four bytes written by `be32` read back as the same number.
pub proof fn lemma_be32_round_trip(n: nat)
    requires
        n <= u32::MAX,
    ensures
        be32(n).len() == 4,
        be32_value(be32(n)) == n,
{
    let b = be32(n);
    assert(b[0] as nat == n / 0x1000000 % 0x100);
    assert(b[1] as nat == n / 0x10000 % 0x100);
    assert(b[2] as nat == n / 0x100 % 0x100);
    assert(b[3] as nat == n % 0x100);
    assert(n / 0x1000000 % 0x100 * 0x1000000 + n / 0x10000 % 0x100 * 0x10000 + n / 0x100 % 0x100
        * 0x100 + n % 0x100 == n) by (nonlinear_arith)
        requires
            n <= 0xffffffff,
    ;
}

/// Reading fixed-size pieces covers the source exactly, in pieces that fit.
pub proof fn lemma_fixed_chunks(s: Seq<u8>, k: nat)
    requires
        k >= 1,
    ensures
        chunks_fit(fixed_chunks(s, k), k),
        joined(fixed_chunks(s, k)) == s,
    decreases s.len(),
{
    let cs = fixed_chunks(s, k);
    if s.len() == 0 {
        assert(joined(cs) =~= s);
    } else if s.len() <= k {
        assert(cs.drop_first() =~= Seq::<Seq<u8>>::empty());
        assert(cs[0] == s);
        assert(joined(cs.drop_first()) == Seq::<u8>::empty());
        assert(joined(cs) =~= s);
    } else {
        lemma_fixed_chunks(s.skip(k as int), k);
        assert(cs.drop_first() == fixed_chunks(s.skip(k as int), k));
        assert(joined(cs) =~= s);
        assert forall|i: int| 0 <= i < cs.len() implies 1 <= (#[trigger] cs[i]).len() <= k by {
            if i > 0 {
                assert(cs[i] == cs.drop_first()[i - 1]);
            }
        }
    }
}

/// Reading back a frame followed by more bytes gives the frame's chunk,
/// then whatever the bytes after it give.
proof fn lemma_decode_frame(c: Seq<u8>, tail: Seq<u8>)
    requires
        1 <= c.len() <= u32::MAX,
    ensures
        decode_stream(chunk_frame(c) + tail) == match decode_stream(tail) {
            Some(rest) => Some(seq![c] + rest),
            None => None::<Seq<Seq<u8>>>,
        },
{
    lemma_be32_round_trip(c.len());
    let w = chunk_frame(c) + tail;
    let n = c.len() as int;
    assert(w.take(4) =~= be32(c.len()));
    assert(w.skip(4 + n) =~= tail);
    assert(w.subrange(4, 4 + n) =~= c);
}

/// A chunk stream carries its chunks unchanged: read back, it gives the same
/// chunks, and the length prefixes add up to the payload's length. Besides
/// the four bytes of each prefix, the chunks on the wire are the payload.
pub proof fn lemma_stream_carries_chunks(cs: Seq<Seq<u8>>, k: nat)
    requires
        valid_chunk_size(k),
        chunks_fit(cs, k),
    ensures
        decode_stream(stream_wire(cs)) == Some(cs),
        prefix_total(cs) == joined(cs).len(),
        frames(cs).len() == 4 * cs.len() + joined(cs).len(),
    decreases cs.len(),
{
    if cs.len() == 0 {
        lemma_be32_round_trip(0);
        assert(stream_wire(cs) =~= footer());
        assert(footer() =~= be32(0));
        assert(footer().take(4) =~= footer());
    } else {
        let c = cs[0];
        let rest = cs.drop_first();
        assert(chunks_fit(rest, k)) by {
            assert forall|i: int| 0 <= i < rest.len() implies 1 <= (#[trigger] rest[i]).len() <= k by {
                assert(rest[i] == cs[i + 1]);
            }
        }
        lemma_stream_carries_chunks(rest, k);
        lemma_be32_round_trip(c.len());
        assert(stream_wire(cs) =~= chunk_frame(c) + stream_wire(rest));
        lemma_decode_frame(c, stream_wire(rest));
        assert(chunk_frame(c).take(4) =~= be32(c.len()));
        assert(seq![c] + rest =~= cs);
    }
}

/// Whatever reads a framer was given, once it has produced the footer its
/// output reads back as the chunks it was handed, and their length prefixes
/// add up to the number of payload bytes.
pub proof fn lemma_framer_output(f: Framer)
    requires
        f.wf(),
        f.is_done(),
    ensures
        decode_stream(f.wire()) == Some(f.chunks()),
        prefix_total(f.chunks()) == joined(f.chunks()).len(),
        chunks_fit(f.chunks(), f.spec_chunk_size()),
{
    lemma_stream_carries_chunks(f.chunks(), f.spec_chunk_size());
}

/// Framing an in-memory source carries exactly that source: the stream reads
/// back as chunks whose payload is the source, and the length prefixes add
/// up to the source's length.
pub proof fn lemma_frame_stream_carries_input(s: Seq<u8>, k: nat)
    requires
        valid_chunk_size(k),
    ensures
        decode_stream(stream_wire(fixed_chunks(s, k))) == Some(fixed_chunks(s, k)),
        joined(fixed_chunks(s, k)) == s,
        prefix_total(fixed_chunks(s, k)) == s.len(),
{
    lemma_fixed_chunks(s, k);
    lemma_stream_carries_chunks(fixed_chunks(s, k), k);
}

/// A scan request, header and chunk stream, always ends with the four zero
/// bytes of the footer, also when there is no chunk at all.
pub proof fn lemma_request_ends_with_footer(cs: Seq<Seq<u8>>)
    ensures
        ({
            let r = instream_bytes() + stream_wire(cs);
            r.subrange(r.len() - 4, r.len() as int) == footer()
        }),
{
    let r = instream_bytes() + stream_wire(cs);
    assert(r.subrange(r.len() - 4, r.len() as int) =~= footer());
}

/// With a chunk size of one, every byte of the source goes in a chunk of its
/// own, and the payload is the same as with any other chunk size.
pub proof fn lemma_unit_chunks(s: Seq<u8>, k: nat)
    requires
        valid_chunk_size(k),
    ensures
        fixed_chunks(s, 1).len() == s.len(),
        forall|i: int| 0 <= i < s.len() ==> (#[trigger] fixed_chunks(s, 1)[i]) == seq![s[i]],
        joined(fixed_chunks(s, 1)) == joined(fixed_chunks(s, k)),
    decreases s.len(),
{
    lemma_fixed_chunks(s, 1);
    lemma_fixed_chunks(s, k);
    let cs = fixed_chunks(s, 1);
    if s.len() == 1 {
        assert(s =~= seq![s[0]]);
    } else if s.len() > 1 {
        let t = s.skip(1);
        lemma_unit_chunks(t, k);
        assert(s.take(1) =~= seq![s[0]]);
        assert forall|i: int| 0 <= i < s.len() implies (#[trigger] cs[i]) == seq![s[i]] by {
            if i > 0 {
                assert(cs[i] == fixed_chunks(t, 1)[i - 1]);
                assert(t[i - 1] == s[i]);
            }
        }
    }
}

} // verus!
