//! Connection-level decisions: channel ids and heartbeat timing.
use vstd::prelude::*;
use crate::error::AmqpError;
use crate::frame::{negotiate, Tune};
use crate::model::{be16, be32, enc, get16, get32, Val};
use crate::types::{get_u16, get_u32, put_u16, put_u32, FieldTable, LongStr, ShortStr};

verus! {

/// Which channel ids in `1..=channel_max` are in use.
pub struct ChannelIds {
    max: u16,
    used: Vec<bool>,
}

impl ChannelIds {
    pub closed spec fn channel_max(&self) -> u16 {
        self.max
    }

    /// Whether `id` is taken; id 0 belongs to the connection.
    pub closed spec fn in_use(&self, id: int) -> bool {
        0 < id <= self.max && self.used@[id]
    }

    pub closed spec fn wf(&self) -> bool {
        self.used@.len() == self.max as int + 1
    }

    pub fn new(channel_max: u16) -> (r: ChannelIds)
        ensures
            r.wf(),
            r.channel_max() == channel_max,
            forall|id: int| !r.in_use(id),
    {
        let mut used: Vec<bool> = Vec::new();
        let mut i: u32 = 0;
        while i <= channel_max as u32
            invariant
                i <= channel_max as u32 + 1,
                used@.len() == i,
                forall|j: int| 0 <= j < i ==> !used@[j],
            decreases channel_max as u32 + 1 - i,
        {
            used.push(false);
            i = i + 1;
        }
        ChannelIds { max: channel_max, used }
    }

    /// Takes the lowest free id, or fails when all are taken.
    pub fn allocate(&mut self) -> (r: Result<u16, AmqpError>)
        requires
            old(self).wf(),
        ensures
            final(self).wf(),
            final(self).channel_max() == old(self).channel_max(),
            r is Err <==> forall|id: int| 1 <= id <= old(self).channel_max() ==> old(self).in_use(id),
            r matches Err(e) ==> e == AmqpError::NoFreeChannel && forall|id: int| final(self).in_use(id) == old(self).in_use(id),
            r matches Ok(id) ==> 1 <= id <= old(self).channel_max() && !old(self).in_use(id as int)
                && (forall|j: int| 1 <= j < id ==> old(self).in_use(j))
                && (forall|j: int| #[trigger] final(self).in_use(j) == (j == id as int || old(self).in_use(j))),
    {
        let mut i: usize = 1;
        while i <= self.max as usize
            invariant
                self.wf(),
                *self == *old(self),
                1 <= i <= self.max as usize + 1,
                forall|j: int| 1 <= j < i ==> self.in_use(j),
            decreases self.max as usize + 1 - i,
        {
            if !self.used[i] {
                proof {
                    assert(!old(self).in_use(i as int));
                }
                self.used.set(i, true);
                proof {
                    assert forall|j: int| #[trigger] self.in_use(j) == (j == i as int || old(self).in_use(j)) by {
                        if 0 < j <= self.max && j != i as int {
                            assert(self.used@[j] == old(self).used@[j]);
                        }
                    }
                }
                return Ok(i as u16);
            }
            i = i + 1;
        }
        Err(AmqpError::NoFreeChannel)
    }

    /// Gives `id` back once its dispatcher has stopped.
    pub fn release(&mut self, id: u16)
        requires
            old(self).wf(),
        ensures
            final(self).wf(),
            final(self).channel_max() == old(self).channel_max(),
            forall|j: int| #[trigger] final(self).in_use(j) == (j != id as int && old(self).in_use(j)),
    {
        if id >= 1 && id <= self.max {
            self.used.set(id as usize, false);
        }
    }
}

/// Whether the broker has been silent for two heartbeat intervals;
/// a heartbeat of 0 turns the check off.
pub fn heartbeat_lost(silent_ms: u64, heartbeat_s: u16) -> (r: bool)
    ensures
        r == (heartbeat_s > 0 && silent_ms >= 2000 * heartbeat_s),
{
    heartbeat_s > 0 && silent_ms >= 2000 * (heartbeat_s as u64)
}

/// Whether the writer owes the broker a heartbeat: nothing has been sent
/// for half the interval.
pub fn heartbeat_due(idle_ms: u64, heartbeat_s: u16) -> (r: bool)
    ensures
        r == (heartbeat_s > 0 && idle_ms >= 500 * heartbeat_s),
{
    heartbeat_s > 0 && idle_ms >= 500 * (heartbeat_s as u64)
}

/// Payload of `connection.start-ok`: client properties, mechanism,
/// response and locale.
pub fn start_ok_payload(properties: &FieldTable, mechanism: &ShortStr, response: &LongStr, locale: &ShortStr) -> (r: Vec<u8>)
    ensures
        r@ == be16(10) + be16(11) + enc(Val::Table(properties@)) + seq![mechanism@.len() as u8] + mechanism@
            + be32(response@.len() as u32) + response@ + seq![locale@.len() as u8] + locale@,
{
    let mut r: Vec<u8> = Vec::new();
    put_u16(&mut r, 10);
    put_u16(&mut r, 11);
    properties.encode(&mut r);
    mechanism.encode(&mut r);
    response.encode(&mut r);
    locale.encode(&mut r);
    r
}

/// Payload of `connection.tune-ok` carrying the agreed limits.
pub fn tune_ok_payload(t: Tune) -> (r: Vec<u8>)
    ensures
        r@ == be16(10) + be16(31) + be16(t.channel_max) + be32(t.frame_max) + be16(t.heartbeat),
{
    let mut r: Vec<u8> = Vec::new();
    put_u16(&mut r, 10);
    put_u16(&mut r, 31);
    put_u16(&mut r, t.channel_max);
    put_u32(&mut r, t.frame_max);
    put_u16(&mut r, t.heartbeat);
    r
}

/// Payload of `connection.open` for `vhost`, with the two reserved fields empty.
pub fn open_payload(vhost: &ShortStr) -> (r: Vec<u8>)
    ensures
        r@ == be16(10) + be16(40) + seq![vhost@.len() as u8] + vhost@ + seq![0u8, 0u8],
{
    let mut r: Vec<u8> = Vec::new();
    put_u16(&mut r, 10);
    put_u16(&mut r, 40);
    vhost.encode(&mut r);
    let ghost o = r@;
    r.push(0);
    r.push(0);
    assert(r@ =~= o + seq![0u8, 0u8]);
    r
}

/// The limits a `connection.tune` proposes, read from its arguments.
pub fn parse_tune(args: &[u8]) -> (r: Option<Tune>)
    ensures
        r is Some <==> args@.len() >= 8,
        r matches Some(t) ==> t.channel_max == get16(args@, 0) && t.frame_max == get32(args@, 2)
            && t.heartbeat == get16(args@, 6),
{
    if args.len() < 8 {
        None
    } else {
        Some(Tune { channel_max: get_u16(args, 0), frame_max: get_u32(args, 2), heartbeat: get_u16(args, 6) })
    }
}

/// Where the opening exchange stands.
#[derive(PartialEq, Eq, Structural, Debug, Clone, Copy)]
pub enum HandshakeStep {
    AwaitStart,
    AwaitTune,
    AwaitOpenOk,
    Open,
}

/// The client's side of the opening exchange: it answers `start` with
/// `start-ok`, `tune` with `tune-ok` and `open`, and is done at `open-ok`.
pub struct Handshake {
    pub step: HandshakeStep,
    pub configured: Tune,
    pub agreed: Tune,
}

impl Handshake {
    pub fn new(configured: Tune) -> (r: Handshake)
        ensures
            r.step == HandshakeStep::AwaitStart,
            r.configured == configured,
    {
        Handshake { step: HandshakeStep::AwaitStart, configured, agreed: configured }
    }

    /// Takes the next method from the broker on channel 0 and gives the
    /// method payloads to send back. Any method out of turn fails the
    /// handshake.
    pub fn on_method(
        &mut self,
        class_id: u16,
        method_id: u16,
        args: &[u8],
        start_ok: &Vec<u8>,
        open: &Vec<u8>,
    ) -> (r: Result<Vec<Vec<u8>>, AmqpError>)
        ensures
            final(self).configured == old(self).configured,
            r is Err ==> r == Err::<Vec<Vec<u8>>, AmqpError>(AmqpError::HandshakeFailed) && final(self).step == old(self).step,
            old(self).step == HandshakeStep::AwaitStart ==> (r is Ok <==> class_id == 10 && method_id == 10)
                && (r matches Ok(out) ==> out@.len() == 1 && out@[0]@ == start_ok@
                    && final(self).step == HandshakeStep::AwaitTune),
            old(self).step == HandshakeStep::AwaitTune ==> (r is Ok <==> class_id == 10 && method_id == 30 && args@.len() >= 8)
                && (r matches Ok(out) ==> {
                    let proposed = Tune { channel_max: get16(args@, 0), frame_max: get32(args@, 2), heartbeat: get16(args@, 6) };
                    let c = old(self).configured;
                    &&& final(self).agreed.channel_max == if proposed.channel_max <= c.channel_max { proposed.channel_max } else { c.channel_max }
                    &&& final(self).agreed.frame_max == if proposed.frame_max <= c.frame_max { proposed.frame_max } else { c.frame_max }
                    &&& final(self).agreed.heartbeat == if proposed.heartbeat <= c.heartbeat { proposed.heartbeat } else { c.heartbeat }
                    &&& out@.len() == 2
                    &&& out@[0]@ == be16(10) + be16(31) + be16(final(self).agreed.channel_max)
                        + be32(final(self).agreed.frame_max) + be16(final(self).agreed.heartbeat)
                    &&& out@[1]@ == open@
                    &&& final(self).step == HandshakeStep::AwaitOpenOk
                }),
            old(self).step == HandshakeStep::AwaitOpenOk ==> (r is Ok <==> class_id == 10 && method_id == 41)
                && (r matches Ok(out) ==> out@.len() == 0 && final(self).step == HandshakeStep::Open),
            old(self).step == HandshakeStep::Open ==> r is Err,
    {
        let mut out: Vec<Vec<u8>> = Vec::new();
        match self.step {
            HandshakeStep::AwaitStart => {
                if class_id != 10 || method_id != 10 {
                    return Err(AmqpError::HandshakeFailed);
                }
                out.push(start_ok.clone());
                self.step = HandshakeStep::AwaitTune;
            },
            HandshakeStep::AwaitTune => {
                if class_id != 10 || method_id != 30 {
                    return Err(AmqpError::HandshakeFailed);
                }
                let proposed = match parse_tune(args) {
                    Some(t) => t,
                    None => return Err(AmqpError::HandshakeFailed),
                };
                self.agreed = negotiate(proposed, self.configured);
                out.push(tune_ok_payload(self.agreed));
                out.push(open.clone());
                self.step = HandshakeStep::AwaitOpenOk;
            },
            HandshakeStep::AwaitOpenOk => {
                if class_id != 10 || method_id != 41 {
                    return Err(AmqpError::HandshakeFailed);
                }
                self.step = HandshakeStep::Open;
            },
            HandshakeStep::Open => {
                return Err(AmqpError::HandshakeFailed);
            },
        }
        Ok(out)
    }
}

} // verus!
