//! Frames on the wire, content-body splitting and connection tuning.
use vstd::prelude::*;
use crate::error::AmqpError;
use crate::model::{be16, be32, be64, get16, get32, get64, lemma_get32};
use crate::types::{put_u16, put_u32, put_u64, put_bytes, get_u16, get_u32, get_u64};

verus! {

pub const FRAME_METHOD: u8 = 1;
pub const FRAME_HEADER: u8 = 2;
pub const FRAME_BODY: u8 = 3;
pub const FRAME_HEARTBEAT: u8 = 8;
pub const FRAME_END: u8 = 0xce;

/// Bytes a frame adds around its payload: type, channel, length, end marker.
pub const FRAME_OVERHEAD: u32 = 8;

pub open spec fn known_kind(k: u8) -> bool {
    k == 1 || k == 2 || k == 3 || k == 8
}

/// One frame: its type, channel and payload.
#[derive(PartialEq, Eq, Debug)]
pub struct Frame {
    kind: u8,
    channel: u16,
    payload: Vec<u8>,
}

impl View for Frame {
    type V = (u8, u16, Seq<u8>);

    closed spec fn view(&self) -> (u8, u16, Seq<u8>) {
        (self.kind, self.channel, self.payload@)
    }
}

/// The wire form of a frame.
pub open spec fn frame_bytes(f: (u8, u16, Seq<u8>)) -> Seq<u8> {
    seq![f.0] + be16(f.1) + be32(f.2.len() as u32) + f.2 + seq![FRAME_END]
}

/// What reading a frame at the front of `b` gives: `None` while more bytes
/// are needed, then either the frame and its length or a malformed frame.
pub open spec fn parse(b: Seq<u8>) -> Option<Result<((u8, u16, Seq<u8>), int), ()>> {
    if b.len() < 7 {
        None
    } else {
        let n = get32(b, 3) as int;
        if b.len() < 8 + n {
            None
        } else if !known_kind(b[0]) || b[7 + n] != FRAME_END {
            Some(Err(()))
        } else {
            Some(Ok(((b[0], get16(b, 1), b.subrange(7, 7 + n)), 8 + n)))
        }
    }
}

impl Frame {
    #[verifier::type_invariant]
    spec fn inv(self) -> bool {
        known_kind(self.kind) && self.payload@.len() <= u32::MAX
    }

    /// A frame of a known type whose payload length fits 32 bits.
    pub fn new(kind: u8, channel: u16, payload: Vec<u8>) -> (r: Result<Frame, AmqpError>)
        ensures
            r is Ok <==> known_kind(kind) && payload@.len() <= u32::MAX,
            r matches Ok(f) ==> f@ == (kind, channel, payload@),
            r matches Err(e) ==> e == if known_kind(kind) {
                AmqpError::TableLengthOverflow
            } else {
                AmqpError::MalformedFrame
            },
    {
        if !(kind == 1 || kind == 2 || kind == 3 || kind == 8) {
            return Err(AmqpError::MalformedFrame);
        }
        if payload.len() as u64 > 0xffff_ffffu64 {
            return Err(AmqpError::TableLengthOverflow);
        }
        Ok(Frame { kind, channel, payload })
    }

    /// The heartbeat frame: empty, on channel 0.
    pub fn heartbeat() -> (r: Frame)
        ensures
            r@ == (FRAME_HEARTBEAT, 0u16, Seq::<u8>::empty()),
    {
        Frame { kind: FRAME_HEARTBEAT, channel: 0, payload: Vec::new() }
    }

    pub fn kind(&self) -> (r: u8)
        ensures
            r == self@.0,
    {
        self.kind
    }

    pub fn channel(&self) -> (r: u16)
        ensures
            r == self@.1,
    {
        self.channel
    }

    pub fn payload(&self) -> (r: &[u8])
        ensures
            r@ == self@.2,
    {
        self.payload.as_slice()
    }

    pub fn into_payload(self) -> (r: Vec<u8>)
        ensures
            r@ == self@.2,
    {
        self.payload
    }

    /// Appends the frame's wire form.
    pub fn encode(&self, out: &mut Vec<u8>)
        ensures
            final(out)@ == old(out)@ + frame_bytes(self@),
            known_kind(self@.0),
            self@.2.len() <= u32::MAX,
    {
        proof { use_type_invariant(self); }
        let ghost o = out@;
        out.push(self.kind);
        put_u16(out, self.channel);
        put_u32(out, self.payload.len() as u32);
        put_bytes(out, self.payload.as_slice());
        out.push(FRAME_END);
        assert(out@ =~= o + frame_bytes(self@));
    }

    /// Appends the frame's wire form, refusing a content-body frame that
    /// would exceed `frame_max` bytes in all.
    pub fn write(&self, frame_max: u32, out: &mut Vec<u8>) -> (r: Result<(), AmqpError>)
        ensures
            r is Err <==> self@.0 == FRAME_BODY && self@.2.len() + 8 > frame_max,
            r matches Err(e) ==> e == AmqpError::FrameTooLarge,
            r is Ok ==> final(out)@ == old(out)@ + frame_bytes(self@),
            r is Err ==> final(out)@ == old(out)@,
    {
        proof { use_type_invariant(self); }
        if self.kind == FRAME_BODY && self.payload.len() as u64 + 8 > frame_max as u64 {
            return Err(AmqpError::FrameTooLarge);
        }
        self.encode(out);
        Ok(())
    }
}

/// Reads one frame at the front of `buf`: `Ok(None)` while more bytes are
/// needed, `Ok(Some((frame, used)))` once a whole frame is there, and
/// `MalformedFrame` on an unknown type or a missing end marker.
pub fn read_frame(buf: &[u8]) -> (r: Result<Option<(Frame, usize)>, AmqpError>)
    ensures
        match parse(buf@) {
            None => r matches Ok(None),
            Some(Err(_)) => r == Err::<Option<(Frame, usize)>, AmqpError>(AmqpError::MalformedFrame),
            Some(Ok((f, n))) => r matches Ok(Some((x, m))) && x@ == f && m == n,
        },
{
    let len = buf.len();
    if len < 7 {
        return Ok(None);
    }
    let n = get_u32(buf, 3);
    if ((len - 7) as u64) < n as u64 + 1 {
        return Ok(None);
    }
    let stop = 7 + n as usize;
    let kind = buf[0];
    if !(kind == 1 || kind == 2 || kind == 3 || kind == 8) || buf[stop] != FRAME_END {
        return Err(AmqpError::MalformedFrame);
    }
    let channel = get_u16(buf, 1);
    let mut payload: Vec<u8> = Vec::new();
    let mut i: usize = 7;
    while i < stop
        invariant
            7 <= i <= stop < buf@.len(),
            payload@ == buf@.subrange(7, i as int),
        decreases stop - i,
    {
        payload.push(buf[i]);
        i = i + 1;
        assert(payload@ =~= buf@.subrange(7, i as int));
    }
    Ok(Some((Frame { kind, channel, payload }, stop + 1)))
}

/// A frame read back from its wire form is the same frame, whatever
/// follows it; the length field is the payload's length and the end marker
/// follows the payload.
pub proof fn lemma_frame_round_trip(f: (u8, u16, Seq<u8>), rest: Seq<u8>)
    requires
        known_kind(f.0),
        f.2.len() <= u32::MAX,
    ensures
        parse(frame_bytes(f) + rest) == Some(Ok::<((u8, u16, Seq<u8>), int), ()>((f, frame_bytes(f).len() as int))),
        get32(frame_bytes(f), 3) as int == f.2.len(),
        frame_bytes(f)[frame_bytes(f).len() - 1] == FRAME_END,
{
    let b = frame_bytes(f) + rest;
    let n = f.2.len() as u32;
    let pre = seq![f.0] + be16(f.1);
    lemma_get32(n, pre, f.2 + seq![FRAME_END] + rest);
    assert(pre + be32(n) + (f.2 + seq![FRAME_END] + rest) =~= b);
    lemma_get32(n, pre, f.2 + seq![FRAME_END]);
    assert(pre + be32(n) + (f.2 + seq![FRAME_END]) =~= frame_bytes(f));
    crate::model::lemma_get16(f.1, be32(n) + f.2 + seq![FRAME_END] + rest);
    assert(b.subrange(1, b.len() as int) =~= be16(f.1) + (be32(n) + f.2 + seq![FRAME_END] + rest));
    assert(get16(b, 1) == get16(b.subrange(1, b.len() as int), 0));
    assert(b.subrange(7, 7 + f.2.len() as int) =~= f.2);
    assert(b[7 + f.2.len() as int] == FRAME_END);
}

/// The `i`-th piece of `body` cut every `max` bytes.
pub open spec fn chunk(body: Seq<u8>, max: int, i: int) -> Seq<u8> {
    let start = i * max;
    let stop = if (i + 1) * max < body.len() { (i + 1) * max } else { body.len() as int };
    body.subrange(start, stop)
}

/// The pieces one after the other.
pub open spec fn flatten(s: Seq<Seq<u8>>) -> Seq<u8>
    decreases s.len(),
{
    if s.len() == 0 {
        Seq::empty()
    } else {
        flatten(s.drop_last()) + s.last()
    }
}

/// Cuts a message body into content-body payloads of `frame_max - 8` bytes,
/// the last one holding what is left.
pub fn split_body(body: &[u8], frame_max: u32) -> (r: Vec<Vec<u8>>)
    requires
        frame_max > FRAME_OVERHEAD,
    ensures
        r@.len() * (frame_max - 8) >= body@.len(),
        r@.len() == 0 || (r@.len() - 1) * (frame_max - 8) < body@.len(),
        forall|i: int| 0 <= i < r@.len() ==> #[trigger] r@[i]@ == chunk(body@, frame_max - 8, i),
{
    let max = (frame_max - FRAME_OVERHEAD) as usize;
    let len = body.len();
    let mut r: Vec<Vec<u8>> = Vec::new();
    let mut pos: usize = 0;
    proof {
        assert(r@.len() * (max as int) == 0) by (nonlinear_arith)
            requires r@.len() == 0;
    }
    while pos < len
        invariant
            len == body@.len(),
            max == frame_max - 8,
            max > 0,
            pos <= len,
            pos < len ==> pos == r@.len() * max,
            pos == len ==> r@.len() * max >= len,
            r@.len() == 0 || (r@.len() - 1) * max < len,
            forall|i: int| 0 <= i < r@.len() ==> #[trigger] r@[i]@ == chunk(body@, max as int, i),
        decreases len - pos,
    {
        let ghost i = r@.len() as int;
        let stop = if len - pos > max { pos + max } else { len };
        proof {
            assert((i + 1) * max == i * max + max) by (nonlinear_arith);
        }
        let mut piece: Vec<u8> = Vec::new();
        let mut j = pos;
        while j < stop
            invariant
                pos <= j <= stop <= body@.len(),
                piece@ == body@.subrange(pos as int, j as int),
            decreases stop - j,
        {
            piece.push(body[j]);
            j = j + 1;
            assert(piece@ =~= body@.subrange(pos as int, j as int));
        }
        r.push(piece);
        pos = stop;
    }
    proof {
        if len == 0 {
            assert(r@.len() * max >= len) by (nonlinear_arith)
                requires len == 0, r@.len() >= 0, max > 0;
        }
    }
    r
}

/// The pieces `split_body` cuts come back together as the body.
pub proof fn lemma_split_reassembles(body: Seq<u8>, max: int, pieces: Seq<Seq<u8>>)
    requires
        max > 0,
        pieces.len() * max >= body.len(),
        pieces.len() == 0 || (pieces.len() - 1) * max < body.len(),
        forall|i: int| 0 <= i < pieces.len() ==> #[trigger] pieces[i] == chunk(body, max, i),
    ensures
        flatten(pieces) == body,
{
    lemma_flatten_prefix(body, max, pieces, pieces.len() as int);
    assert(pieces.subrange(0, pieces.len() as int) =~= pieces);
    assert(body.subrange(0, body.len() as int) =~= body);
}

proof fn lemma_flatten_prefix(body: Seq<u8>, max: int, pieces: Seq<Seq<u8>>, k: int)
    requires
        max > 0,
        0 <= k <= pieces.len(),
        k == 0 || (k - 1) * max < body.len(),
        forall|i: int| 0 <= i < pieces.len() ==> #[trigger] pieces[i] == chunk(body, max, i),
    ensures
        flatten(pieces.subrange(0, k)) == body.subrange(0, if k * max < body.len() { k * max } else { body.len() as int }),
    decreases k,
{
    if k == 0 {
        assert(body.subrange(0, 0) =~= Seq::<u8>::empty());
        assert(k * max == 0) by (nonlinear_arith)
            requires k == 0;
    } else {
        if k >= 2 {
            assert((k - 2) * max < (k - 1) * max) by (nonlinear_arith)
                requires k >= 2, max > 0;
        }
        lemma_flatten_prefix(body, max, pieces, k - 1);
        let p = pieces.subrange(0, k);
        assert(p.drop_last() =~= pieces.subrange(0, k - 1));
        assert(p.last() == chunk(body, max, k - 1));
        assert(k * max == (k - 1) * max + max) by (nonlinear_arith);
        assert((k - 1) * max >= 0) by (nonlinear_arith)
            requires k >= 1, max > 0;
        let a = if (k - 1) * max < body.len() { (k - 1) * max } else { body.len() as int };
        let c = if k * max < body.len() { k * max } else { body.len() as int };
        assert(body.subrange(0, a) + body.subrange((k - 1) * max, c) =~= body.subrange(0, c));
    }
}

/// Joins content-body payloads in order.
pub fn reassemble(pieces: &Vec<Vec<u8>>) -> (r: Vec<u8>)
    ensures
        r@ == flatten(pieces@.map_values(|p: Vec<u8>| p@)),
{
    let ghost views = pieces@.map_values(|p: Vec<u8>| p@);
    let mut r: Vec<u8> = Vec::new();
    let mut i: usize = 0;
    while i < pieces.len()
        invariant
            i <= pieces@.len(),
            views == pieces@.map_values(|p: Vec<u8>| p@),
            r@ == flatten(views.subrange(0, i as int)),
        decreases pieces@.len() - i,
    {
        put_bytes(&mut r, pieces[i].as_slice());
        proof {
            let s = views.subrange(0, i + 1);
            assert(s.drop_last() =~= views.subrange(0, i as int));
        }
        i = i + 1;
    }
    proof { assert(views.subrange(0, i as int) =~= views); }
    r
}

/// Connection limits: proposed by the broker, configured by the client,
/// or agreed between them.
#[derive(PartialEq, Eq, Debug, Clone, Copy)]
pub struct Tune {
    pub channel_max: u16,
    pub frame_max: u32,
    pub heartbeat: u16,
}

/// Agrees on each limit as the smaller of the two.
pub fn negotiate(proposed: Tune, configured: Tune) -> (r: Tune)
    ensures
        r.channel_max == if proposed.channel_max <= configured.channel_max { proposed.channel_max } else { configured.channel_max },
        r.frame_max == if proposed.frame_max <= configured.frame_max { proposed.frame_max } else { configured.frame_max },
        r.heartbeat == if proposed.heartbeat <= configured.heartbeat { proposed.heartbeat } else { configured.heartbeat },
{
    Tune {
        channel_max: if proposed.channel_max <= configured.channel_max { proposed.channel_max } else { configured.channel_max },
        frame_max: if proposed.frame_max <= configured.frame_max { proposed.frame_max } else { configured.frame_max },
        heartbeat: if proposed.heartbeat <= configured.heartbeat { proposed.heartbeat } else { configured.heartbeat },
    }
}

/// The bytes a client sends first: `AMQP` then protocol 0-9-1.
pub fn protocol_header() -> (r: Vec<u8>)
    ensures
        r@ == seq![0x41u8, 0x4du8, 0x51u8, 0x50u8, 0u8, 0u8, 9u8, 1u8],
{
    let mut r: Vec<u8> = Vec::new();
    r.push(0x41);
    r.push(0x4d);
    r.push(0x51);
    r.push(0x50);
    r.push(0);
    r.push(0);
    r.push(9);
    r.push(1);
    assert(r@ =~= seq![0x41u8, 0x4du8, 0x51u8, 0x50u8, 0u8, 0u8, 9u8, 1u8]);
    r
}

/// Class id and method id at the front of a method payload.
pub fn method_id(payload: &[u8]) -> (r: Option<(u16, u16)>)
    ensures
        r is Some <==> payload@.len() >= 4,
        r matches Some((c, m)) ==> c == get16(payload@, 0) && m == get16(payload@, 2),
{
    if payload.len() < 4 {
        None
    } else {
        Some((get_u16(payload, 0), get_u16(payload, 2)))
    }
}

/// A content-header payload: class id, weight 0, body size, property flags.
pub fn content_header(class_id: u16, body_size: u64, flags: u16) -> (r: Vec<u8>)
    ensures
        r@ == be16(class_id) + be16(0) + be64(body_size) + be16(flags),
{
    let mut r: Vec<u8> = Vec::new();
    put_u16(&mut r, class_id);
    put_u16(&mut r, 0);
    put_u64(&mut r, body_size);
    put_u16(&mut r, flags);
    r
}

/// The body size announced by a content-header payload.
pub fn header_body_size(payload: &[u8]) -> (r: Option<u64>)
    ensures
        r is Some <==> payload@.len() >= 12,
        r matches Some(n) ==> n == get64(payload@, 4),
{
    if payload.len() < 12 {
        None
    } else {
        Some(get_u64(payload, 4))
    }
}

} // verus!
