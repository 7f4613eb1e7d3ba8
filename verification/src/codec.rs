//! The frame codec: the wire grammar shared by client and server, its pure
//! decode rules, and the incremental decoder that turns an arbitrarily
//! chunked byte stream into a sequence of frames.
//!
//! Wire format: `Ping` is the single byte 0x01 (a server reply with the same
//! byte is a pong); `Send(payload)` is 0x02, an 8-byte big-endian length, and
//! the payload bytes. The first 8 bytes of a connection are the untagged
//! big-endian client id and are read before this codec runs.

use vstd::prelude::*;
use bytes::BytesMut;
use crate::be::{be_to_int, int_to_be, lemma_be_to_int_bound, lemma_be_round_trip,
    lemma_int_to_be_len, pow256};
use crate::bytebuf::{buf_advance, buf_bytes, buf_copy_range, buf_extend, buf_first, buf_len,
    buf_new};

verus! {

/// A frame sent by the client. The server's only reply frame, a pong, shares
/// the `Ping` wire byte; direction disambiguates.
pub enum ClientMessage {
    Ping,
    Send(Vec<u8>),
}

/// The mathematical shape of a frame: what a `ClientMessage` holds.
pub enum FrameModel {
    Ping,
    Send(Seq<u8>),
}

impl View for ClientMessage {
    type V = FrameModel;

    open spec fn view(&self) -> FrameModel {
        match self {
            ClientMessage::Ping => FrameModel::Ping,
            ClientMessage::Send(p) => FrameModel::Send(p@),
        }
    }
}

/// A protocol violation in the byte stream. Fatal for the connection: the
/// decoder never resynchronizes after it.
#[derive(Debug)]
pub enum DecodeError {
    MalformedInput,
}

impl DecodeError {
    /// How this error reads when reported.
    pub fn message(&self) -> (r: &'static str)
        ensures
            r@ == "malformed input"@,
    {
        "malformed input"
    }
}

/// The largest `Send` payload the decoder accepts. The wire format allows a
/// 64-bit length; bounding it keeps a hostile length field from reserving
/// unbounded memory.
pub const MAX_SEND_LEN: u64 = 16777216;

/// One decode step on a byte sequence: a complete frame and the bytes it
/// consumes, a request for more bytes, or a protocol violation.
pub enum DecodeStep {
    Frame(FrameModel, nat),
    NeedMore,
    Malformed,
}

/// The decode rules of the wire grammar, applied at the front of a buffer.
pub open spec fn decode_of(b: Seq<u8>) -> DecodeStep {
    if b.len() == 0 {
        DecodeStep::NeedMore
    } else if b[0] == 1 {
        DecodeStep::Frame(FrameModel::Ping, 1)
    } else if b[0] == 2 {
        if b.len() < 9 {
            DecodeStep::NeedMore
        } else {
            let l = be_to_int(b.subrange(1, 9));
            if l > MAX_SEND_LEN {
                DecodeStep::Malformed
            } else if b.len() < 9 + l {
                DecodeStep::NeedMore
            } else {
                DecodeStep::Frame(FrameModel::Send(b.subrange(9, 9 + l as int)), (9 + l) as nat)
            }
        }
    } else {
        DecodeStep::Malformed
    }
}

/// The wire bytes of a frame.
pub open spec fn encoding_of(f: FrameModel) -> Seq<u8> {
    match f {
        FrameModel::Ping => seq![1u8],
        FrameModel::Send(p) => seq![2u8] + int_to_be(p.len(), 8) + p,
    }
}

/// A frame the decoder can hand back: its payload respects the length bound.
pub open spec fn frame_wf(f: FrameModel) -> bool {
    match f {
        FrameModel::Ping => true,
        FrameModel::Send(p) => p.len() <= MAX_SEND_LEN,
    }
}

/// Decodes one frame from the front of the buffer, consuming nothing until
/// a full frame is present.
pub struct MsgDecoder;

impl MsgDecoder {
    /// One non-blocking decode step. `Ok(None)` asks for more bytes and
    /// consumes nothing; a malformed leading byte consumes nothing either,
    /// so no byte is ever silently skipped.
    pub fn decode(&mut self, src: &mut BytesMut) -> (r: Result<Option<ClientMessage>, DecodeError>)
        ensures
            ({
                let b0 = buf_bytes(*old(src));
                let b1 = buf_bytes(*final(src));
                match decode_of(b0) {
                    DecodeStep::NeedMore => r matches Ok(m) && m is None && b1 == b0,
                    DecodeStep::Malformed => r matches Err(e) && e == DecodeError::MalformedInput
                        && b1 == b0,
                    DecodeStep::Frame(f, n) => r matches Ok(m) && m matches Some(msg) && msg@ == f
                        && b1 == b0.skip(n as int),
                }
            }),
    {
        let ghost b0 = buf_bytes(*src);
        match buf_first(src) {
            None => Ok(None),
            Some(1u8) => {
                buf_advance(src, 1);
                Ok(Some(ClientMessage::Ping))
            },
            Some(2u8) => {
                match buf_copy_range(src, 1, 9) {
                    None => Ok(None),
                    Some(len_bytes) => {
                        let l: u64 = crate::be::u64_from_be(len_bytes.as_slice());
                        proof {
                            assert(len_bytes@ == b0.subrange(1, 9));
                            lemma_be_to_int_bound(b0.subrange(1, 9));
                        }
                        if l > MAX_SEND_LEN {
                            Err(DecodeError::MalformedInput)
                        } else {
                            let l_us: usize = l as usize;
                            match buf_copy_range(src, 9, 9 + l_us) {
                                None => Ok(None),
                                Some(payload) => {
                                    buf_advance(src, 9 + l_us);
                                    Ok(Some(ClientMessage::Send(payload)))
                                },
                            }
                        }
                    },
                }
            },
            Some(_) => Err(DecodeError::MalformedInput),
        }
    }
}

/// The frames at the front of a byte stream, in arrival order, up to the
/// first incomplete or malformed point.
pub open spec fn stream_frames(b: Seq<u8>) -> Seq<FrameModel>
    decreases b.len(),
{
    match decode_of(b) {
        DecodeStep::Frame(f, n) => seq![f] + stream_frames(b.skip(n as int)),
        _ => Seq::empty(),
    }
}

/// The bytes left after taking every complete frame off the front.
pub open spec fn stream_rest(b: Seq<u8>) -> Seq<u8>
    decreases b.len(),
{
    match decode_of(b) {
        DecodeStep::Frame(f, n) => stream_rest(b.skip(n as int)),
        _ => b,
    }
}

/// Decoding looks only at the frame's own bytes: appending anything after a
/// complete frame changes nothing, and a malformed front stays malformed.
pub proof fn lemma_decode_extend(a: Seq<u8>, c: Seq<u8>)
    ensures
        decode_of(a) matches DecodeStep::Frame(f, n) ==> decode_of(a + c) == decode_of(a),
        decode_of(a) is Malformed ==> decode_of(a + c) is Malformed,
{
    if a.len() >= 1 {
        assert((a + c)[0] == a[0]);
        if a[0] == 2 && a.len() >= 9 {
            assert((a + c).subrange(1, 9) =~= a.subrange(1, 9));
            let l = be_to_int(a.subrange(1, 9));
            if l <= MAX_SEND_LEN && a.len() >= 9 + l {
                assert((a + c).subrange(9, 9 + l as int) =~= a.subrange(9, 9 + l as int));
            }
        }
    }
}

/// A complete frame at the front of a buffer is already complete in its own
/// first n bytes.
pub proof fn lemma_decode_take(a: Seq<u8>)
    ensures
        decode_of(a) matches DecodeStep::Frame(f, n) ==> decode_of(a.take(n as int)) == decode_of(
            a,
        ),
{
    match decode_of(a) {
        DecodeStep::Frame(f, n) => {
            let t = a.take(n as int);
            assert(t[0] == a[0]);
            if a[0] == 2 {
                let l = be_to_int(a.subrange(1, 9));
                assert(t.subrange(1, 9) =~= a.subrange(1, 9));
                assert(t.subrange(9, 9 + l as int) =~= a.subrange(9, 9 + l as int));
            }
        },
        _ => {},
    }
}

/// Frames come off a stream one after the other: a fully consumed prefix
/// contributes its frames, and what follows decodes independently.
pub proof fn lemma_stream_decompose(a: Seq<u8>, c: Seq<u8>)
    requires
        stream_rest(a) == Seq::<u8>::empty(),
    ensures
        stream_frames(a + c) == stream_frames(a) + stream_frames(c),
        stream_rest(a + c) == stream_rest(c),
    decreases a.len(),
{
    match decode_of(a) {
        DecodeStep::NeedMore => {
            assert(a =~= Seq::<u8>::empty());
            assert(a + c =~= c);
            assert(stream_frames(a) + stream_frames(c) =~= stream_frames(c));
        },
        DecodeStep::Malformed => {
            assert(a =~= Seq::<u8>::empty());
            assert(false);
        },
        DecodeStep::Frame(f, n) => {
            lemma_decode_extend(a, c);
            assert((a + c).skip(n as int) =~= a.skip(n as int) + c);
            lemma_stream_decompose(a.skip(n as int), c);
            assert(seq![f] + (stream_frames(a.skip(n as int)) + stream_frames(c)) =~= (seq![f]
                + stream_frames(a.skip(n as int))) + stream_frames(c));
        },
    }
}

/// The first n bytes of a buffer whose front decodes as an n-byte frame are
/// exactly one frame and nothing else.
pub proof fn lemma_stream_single(a: Seq<u8>)
    ensures
        decode_of(a) matches DecodeStep::Frame(f, n) ==> {
            &&& stream_frames(a.take(n as int)) == seq![f]
            &&& stream_rest(a.take(n as int)) == Seq::<u8>::empty()
        },
{
    match decode_of(a) {
        DecodeStep::Frame(f, n) => {
            lemma_decode_take(a);
            let t = a.take(n as int);
            assert(decode_of(t) == DecodeStep::Frame(f, n));
            assert(t.skip(n as int) =~= Seq::<u8>::empty());
            assert(stream_frames(t) == seq![f] + stream_frames(t.skip(n as int)));
            assert(stream_frames(Seq::<u8>::empty()) == Seq::<FrameModel>::empty());
            assert(seq![f] + Seq::<FrameModel>::empty() =~= seq![f]);
            assert(stream_rest(t) == stream_rest(t.skip(n as int)));
            assert(stream_rest(Seq::<u8>::empty()) == Seq::<u8>::empty());
        },
        _ => {},
    }
}

/// How a connection's byte stream ends: with no bytes pending, or in the
/// middle of a frame. The latter is a distinct fatal condition.
pub enum StreamEnd {
    Clean,
    Truncated,
}

/// The incremental decoder of one connection: buffers arriving chunks and
/// hands back the completed frames, in arrival order, independent of how the
/// stream was chunked.
pub struct MsgStream {
    pub buf: BytesMut,
    pub decoder: MsgDecoder,
    /// The fully consumed prefix of the stream: the bytes of every frame
    /// already handed out.
    pub done: Ghost<Seq<u8>>,
}

impl MsgStream {
    /// Every byte this stream has been fed.
    pub open spec fn fed(self) -> Seq<u8> {
        self.done@ + buf_bytes(self.buf)
    }

    /// The frames this stream has handed out so far.
    pub open spec fn yielded(self) -> Seq<FrameModel> {
        stream_frames(self.done@)
    }

    /// The bytes fed but not yet consumed as complete frames.
    pub open spec fn pending(self) -> Seq<u8> {
        buf_bytes(self.buf)
    }

    pub open spec fn wf(self) -> bool {
        stream_rest(self.done@) == Seq::<u8>::empty()
    }

    pub fn new() -> (s: MsgStream)
        ensures
            s.wf(),
            s.fed() == Seq::<u8>::empty(),
            s.yielded() == Seq::<FrameModel>::empty(),
    {
        let s = MsgStream { buf: buf_new(), decoder: MsgDecoder, done: Ghost(Seq::empty()) };
        proof {
            assert(s.fed() =~= Seq::<u8>::empty());
        }
        s
    }

    /// Appends a newly read chunk. Chunk boundaries carry no meaning: only
    /// the concatenation of everything fed decides what frames come out.
    pub fn append(&mut self, chunk: &[u8])
        ensures
            final(self).fed() == old(self).fed() + chunk@,
            final(self).yielded() == old(self).yielded(),
            final(self).wf() == old(self).wf(),
    {
        buf_extend(&mut self.buf, chunk);
        proof {
            assert(final(self).fed() =~= old(self).fed() + chunk@);
        }
    }

    /// Takes the next complete frame, if one is present. `Ok(None)` means
    /// every frame in the bytes fed so far has been handed out and the rest
    /// is a (possibly empty) frame prefix; an error means the stream is
    /// malformed at the current point and stays so for good.
    pub fn poll(&mut self) -> (r: Result<Option<ClientMessage>, DecodeError>)
        requires
            old(self).wf(),
        ensures
            final(self).wf(),
            final(self).fed() == old(self).fed(),
            r matches Ok(Some(m)) ==> final(self).yielded() == old(self).yielded().push(m@)
                && (decode_of(old(self).pending()) matches DecodeStep::Frame(f, n) && m@ == f
                && final(self).pending() == old(self).pending().skip(n as int)),
            r matches Ok(None) ==> final(self).yielded() == old(self).yielded()
                && final(self).pending() == old(self).pending()
                && decode_of(old(self).pending()) is NeedMore
                && stream_frames(old(self).fed()) == old(self).yielded(),
            r matches Err(e) ==> final(self).yielded() == old(self).yielded()
                && final(self).pending() == old(self).pending()
                && e == DecodeError::MalformedInput
                && stream_frames(old(self).fed()) == old(self).yielded()
                && stream_rest(old(self).fed()) == old(self).pending()
                && decode_of(old(self).pending()) is Malformed,
    {
        let ghost b0 = buf_bytes(self.buf);
        let ghost d0 = self.done@;
        proof {
            lemma_stream_decompose(d0, b0);
        }
        let r = self.decoder.decode(&mut self.buf);
        match &r {
            Ok(Some(m)) => {
                proof {
                    let step = decode_of(b0);
                    let n = step->Frame_1;
                    lemma_stream_single(b0);
                    lemma_stream_decompose(d0, b0.take(n as int));
                    self.done@ = d0 + b0.take(n as int);
                    assert(self.fed() =~= d0 + b0);
                    assert(self.yielded() =~= stream_frames(d0).push(m@));
                }
            },
            Ok(None) => {
                proof {
                    assert(stream_frames(b0) =~= Seq::<FrameModel>::empty());
                    assert(stream_frames(d0) + stream_frames(b0) =~= stream_frames(d0));
                }
            },
            Err(e) => {
                proof {
                    assert(stream_frames(b0) =~= Seq::<FrameModel>::empty());
                    assert(stream_frames(d0) + stream_frames(b0) =~= stream_frames(d0));
                }
            },
        }
        r
    }

    /// How the stream stands when the peer closes the connection: `Clean`
    /// exactly when no partial frame is buffered.
    pub fn at_eof(&self) -> (r: StreamEnd)
        ensures
            r == StreamEnd::Clean <==> self.pending().len() == 0,
    {
        if buf_len(&self.buf) == 0 {
            StreamEnd::Clean
        } else {
            StreamEnd::Truncated
        }
    }
}

/// The wire bytes of a sequence of frames, one encoding after the other.
pub open spec fn concat_encodings(fs: Seq<FrameModel>) -> Seq<u8>
    decreases fs.len(),
{
    if fs.len() == 0 {
        Seq::empty()
    } else {
        encoding_of(fs[0]) + concat_encodings(fs.skip(1))
    }
}

/// Decoding the encoding of one well-formed frame yields exactly that frame
/// and consumes every byte: nothing is left over.
pub proof fn lemma_encode_decode(f: FrameModel)
    requires
        frame_wf(f),
    ensures
        decode_of(encoding_of(f)) == DecodeStep::Frame(f, encoding_of(f).len() as nat),
        stream_frames(encoding_of(f)) == seq![f],
        stream_rest(encoding_of(f)) == Seq::<u8>::empty(),
{
    let e = encoding_of(f);
    match f {
        FrameModel::Ping => {
            assert(e.len() == 1);
            assert(e[0] == 1);
            assert(decode_of(e) == DecodeStep::Frame(FrameModel::Ping, 1nat));
            assert(e.skip(1) =~= Seq::<u8>::empty());
            assert(stream_frames(e) == seq![FrameModel::Ping] + stream_frames(e.skip(1)));
            assert(stream_frames(Seq::<u8>::empty()) == Seq::<FrameModel>::empty());
            assert(seq![FrameModel::Ping] + Seq::<FrameModel>::empty() =~= seq![FrameModel::Ping]);
            assert(stream_rest(e) == stream_rest(e.skip(1)));
            assert(stream_rest(Seq::<u8>::empty()) == Seq::<u8>::empty());
        },
        FrameModel::Send(p) => {
            lemma_int_to_be_len(p.len(), 8);
            assert(e.len() == 9 + p.len());
            assert(e[0] == 2);
            assert(e.subrange(1, 9) =~= int_to_be(p.len(), 8));
            assert(pow256(8) == 0x10000000000000000) by {
                reveal_with_fuel(pow256, 9);
            }
            lemma_be_round_trip(p.len(), 8);
            let l = be_to_int(e.subrange(1, 9));
            assert(l == p.len());
            assert(e.subrange(9, 9 + l as int) =~= p);
            assert(decode_of(e) == DecodeStep::Frame(f, (9 + l) as nat));
            assert(e.skip(9 + l as int) =~= Seq::<u8>::empty());
            assert(stream_frames(e) == seq![f] + stream_frames(e.skip(9 + l as int)));
            assert(stream_frames(Seq::<u8>::empty()) == Seq::<FrameModel>::empty());
            assert(seq![f] + Seq::<FrameModel>::empty() =~= seq![f]);
            assert(stream_rest(e) == stream_rest(e.skip(9 + l as int)));
            assert(stream_rest(Seq::<u8>::empty()) == Seq::<u8>::empty());
        },
    }
}

/// `Send` payloads of any content, text or not, empty or not, round-trip
/// unchanged through encode and decode.
pub proof fn lemma_send_round_trip(p: Seq<u8>)
    requires
        p.len() <= MAX_SEND_LEN,
    ensures
        stream_frames(encoding_of(FrameModel::Send(p))) == seq![FrameModel::Send(p)],
        stream_rest(encoding_of(FrameModel::Send(p))) == Seq::<u8>::empty(),
{
    lemma_encode_decode(FrameModel::Send(p));
}

/// The concatenation of any number of encoded frames decodes back to exactly
/// those frames, in order, with nothing left over. Together with the
/// `MsgStream` contracts - which depend only on the concatenation of the
/// chunks fed - this holds however the bytes are chunked.
pub proof fn lemma_stream_of_encodings(fs: Seq<FrameModel>)
    requires
        forall|i: int| 0 <= i < fs.len() ==> frame_wf(#[trigger] fs[i]),
    ensures
        stream_frames(concat_encodings(fs)) == fs,
        stream_rest(concat_encodings(fs)) == Seq::<u8>::empty(),
    decreases fs.len(),
{
    if fs.len() == 0 {
        assert(stream_frames(Seq::<u8>::empty()) =~= Seq::<FrameModel>::empty());
        assert(fs =~= Seq::<FrameModel>::empty());
    } else {
        lemma_encode_decode(fs[0]);
        lemma_stream_decompose(encoding_of(fs[0]), concat_encodings(fs.skip(1)));
        lemma_stream_of_encodings(fs.skip(1));
        assert(seq![fs[0]] + fs.skip(1) =~= fs);
    }
}

/// A buffer whose leading byte is no known tag is malformed at once: it is
/// reported, never silently skipped.
pub proof fn lemma_bad_leading_byte(b: Seq<u8>)
    requires
        b.len() >= 1,
        b[0] != 1,
        b[0] != 2,
    ensures
        decode_of(b) is Malformed,
{
}

} // verus!
