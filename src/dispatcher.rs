//! The per-channel dispatcher as a state machine: it takes inbound frames
//! and management commands one at a time and says what to do with them.
use vstd::prelude::*;
use vstd::utf8::{encode_utf8, valid_utf8};
use crate::error::AmqpError;
use crate::frame::{Frame, FRAME_METHOD, FRAME_HEADER, FRAME_BODY};
use crate::model::{get16, get64};
use crate::types::{copy_range, get_u16, get_u64, utf8_string};

verus! {

/// Class and method id of `channel.close-ok`.
pub const CLOSE_OK_CLASS: u16 = 20;
pub const CLOSE_OK_METHOD: u16 = 41;

/// Which content the next header and body frames belong to.
#[derive(PartialEq, Eq, Structural, Debug, Clone, Copy)]
pub enum DispatchState {
    Initial,
    Deliver,
    GetOk,
    GetEmpty,
    Return,
}

/// A message put together from a method, a content header and its bodies.
#[derive(PartialEq, Eq, Debug)]
pub struct ConsumerMessage {
    pub consumer_tag: String,
    pub delivery_tag: u64,
    pub properties: Vec<u8>,
    pub body: Vec<u8>,
}

/// A frame from the broker, as the dispatcher sees it.
#[derive(PartialEq, Eq, Debug)]
pub enum Inbound {
    Deliver { consumer_tag: String, delivery_tag: u64 },
    GetOk { delivery_tag: u64 },
    GetEmpty,
    Return { reply_code: u16 },
    ContentHeader { body_size: u64, properties: Vec<u8> },
    ContentBody(Vec<u8>),
    /// A synchronous reply, named by its class and method id, with its
    /// arguments.
    Reply { class_id: u16, method_id: u16, args: Vec<u8> },
    CloseChannel { code: u16, text: String },
    CloseChannelOk,
}

/// What the dispatcher asks its runner to do.
#[derive(PartialEq, Eq, Debug)]
pub enum Action {
    /// Hand a message to the sink registered for its consumer tag.
    Deliver(ConsumerMessage),
    /// Hand the message of a `basic.get` to the waiting caller.
    GetMessage(ConsumerMessage),
    /// Tell the waiting caller that `basic.get` found the queue empty.
    GetEmpty,
    /// Hand a returned message to the channel callback.
    Returned(ConsumerMessage),
    /// Hand this reply, with its arguments, to the caller waiting for it.
    Reply { class_id: u16, method_id: u16, args: Vec<u8> },
    /// Fail each of these waiters with `error`.
    FailWaiters { waiters: Vec<(u16, u16)>, error: AmqpError },
    /// The body ran past the size its header announced: the stream is out
    /// of step and the connection must fail with `MalformedFrame`.
    Malformed,
    /// Send `channel.close-ok` to the broker.
    SendCloseOk,
    /// Stop the dispatcher and give the channel id back.
    Exit,
}

/// One consumer tag: whether a sink is registered for it, and the messages
/// held until one is.
pub struct Consumer {
    tag: String,
    has_sink: bool,
    fifo: Vec<ConsumerMessage>,
}

/// State of one channel's dispatcher.
pub struct Dispatcher {
    state: DispatchState,
    closed: bool,
    consumers: Vec<Consumer>,
    waiters: Vec<(u16, u16)>,
    tag: String,
    delivery_tag: u64,
    properties: Vec<u8>,
    body_size: u64,
    body: Vec<u8>,
    has_header: bool,
}

/// What one step of a dispatcher does as to closing: a closed dispatcher
/// does nothing more, and `close-ok` closes it and is followed only by the
/// order to stop.
pub open spec fn step_closes(closed_before: bool, acts: Seq<Action>, closed_after: bool) -> bool {
    &&& closed_before ==> acts.len() == 0 && closed_after
    &&& forall|p: int| 0 <= p < acts.len() && (#[trigger] acts[p] is SendCloseOk) ==> closed_after
        && forall|q: int| p < q < acts.len() ==> #[trigger] acts[q] is Exit
}

/// Over any run of a dispatcher, `close-ok` is the last thing it produces:
/// after it comes only the order to stop, in the same step, and nothing at
/// all in later steps.
pub proof fn lemma_close_ok_last(closed: Seq<bool>, acts: Seq<Seq<Action>>, i: int, p: int)
    requires
        closed.len() == acts.len() + 1,
        forall|k: int| 0 <= k < acts.len() ==> #[trigger] step_closes(closed[k], acts[k], closed[k + 1]),
        0 <= i < acts.len(),
        0 <= p < acts[i].len(),
        acts[i][p] is SendCloseOk,
    ensures
        forall|q: int| p < q < acts[i].len() ==> #[trigger] acts[i][q] is Exit,
        forall|j: int| i < j < acts.len() ==> #[trigger] acts[j].len() == 0,
{
    assert(step_closes(closed[i], acts[i], closed[i + 1]));
    assert forall|j: int| i < j < acts.len() implies #[trigger] acts[j].len() == 0 by {
        lemma_stays_closed(closed, acts, i + 1, j);
        assert(step_closes(closed[j], acts[j], closed[j + 1]));
    }
}

proof fn lemma_stays_closed(closed: Seq<bool>, acts: Seq<Seq<Action>>, from: int, to: int)
    requires
        closed.len() == acts.len() + 1,
        forall|k: int| 0 <= k < acts.len() ==> #[trigger] step_closes(closed[k], acts[k], closed[k + 1]),
        0 <= from <= to < closed.len(),
        closed[from],
    ensures
        closed[to],
    decreases to - from,
{
    if from < to {
        assert(step_closes(closed[from], acts[from], closed[from + 1]));
        lemma_stays_closed(closed, acts, from + 1, to);
    }
}

/// Whether `acts` holds no frame for the broker.
pub open spec fn no_outbound(acts: Seq<Action>) -> bool {
    forall|i: int| 0 <= i < acts.len() ==> !(#[trigger] acts[i] is SendCloseOk)
}

impl Dispatcher {
    pub closed spec fn is_closed(&self) -> bool {
        self.closed
    }

    pub closed spec fn state(&self) -> DispatchState {
        self.state
    }

    /// Replies awaited, by class and method id.
    pub closed spec fn waiters(&self) -> Seq<(u16, u16)> {
        self.waiters@
    }

    /// The consumer tags, in slot order.
    pub closed spec fn tags(&self) -> Seq<Seq<char>> {
        self.consumers@.map_values(|c: Consumer| c.tag@)
    }

    /// Index of the consumer with this tag, if any.
    pub closed spec fn slot(&self, tag: Seq<char>) -> Option<int> {
        if self.tags().contains(tag) {
            Some(self.tags().index_of(tag))
        } else {
            None
        }
    }

    /// Messages held for `tag` until a sink is registered.
    pub closed spec fn buffered(&self, tag: Seq<char>) -> Seq<ConsumerMessage> {
        match self.slot(tag) {
            Some(i) => self.consumers@[i].fifo@,
            None => Seq::empty(),
        }
    }

    /// Whether a sink is registered for `tag`.
    pub closed spec fn has_sink(&self, tag: Seq<char>) -> bool {
        match self.slot(tag) {
            Some(i) => self.consumers@[i].has_sink,
            None => false,
        }
    }

    /// Consumer tags are unique.
    pub closed spec fn wf(&self) -> bool {
        self.tags().no_duplicates() && self.waiters@.no_duplicates()
    }

    pub fn new() -> (r: Dispatcher)
        ensures
            r.wf(),
            !r.is_closed(),
            r.state() == DispatchState::Initial,
            r.waiters() == Seq::<(u16, u16)>::empty(),
            forall|t: Seq<char>| !r.has_sink(t) && r.buffered(t) == Seq::<ConsumerMessage>::empty(),
    {
        Dispatcher {
            state: DispatchState::Initial,
            closed: false,
            consumers: Vec::new(),
            waiters: Vec::new(),
            tag: String::new(),
            delivery_tag: 0,
            properties: Vec::new(),
            body_size: 0,
            body: Vec::new(),
            has_header: false,
        }
    }

    /// Registers a caller awaiting the reply `(class_id, method_id)`; a second
    /// caller for the same reply is refused.
    pub fn register_rpc(&mut self, class_id: u16, method_id: u16) -> (r: Result<(), AmqpError>)
        requires
            old(self).wf(),
        ensures
            final(self).wf(),
            forall|t: Seq<char>| final(self).has_sink(t) == old(self).has_sink(t) && final(self).buffered(t) == old(self).buffered(t),
            r is Err <==> old(self).waiters().contains((class_id, method_id)),
            r matches Err(e) ==> e == AmqpError::RpcInFlight,
            r is Ok ==> final(self).waiters() == old(self).waiters().push((class_id, method_id)),
            r is Err ==> final(self).waiters() == old(self).waiters(),
            final(self).is_closed() == old(self).is_closed(),
    {
        let mut i: usize = 0;
        while i < self.waiters.len()
            invariant
                self.wf(),
                i <= self.waiters@.len(),
                forall|j: int| 0 <= j < i ==> self.waiters@[j] != (class_id, method_id),
            decreases self.waiters@.len() - i,
        {
            if self.waiters[i].0 == class_id && self.waiters[i].1 == method_id {
                proof { assert(self.waiters@[i as int] == (class_id, method_id)); }
                return Err(AmqpError::RpcInFlight);
            }
            i = i + 1;
        }
        let ghost w = self.waiters@;
        self.waiters.push((class_id, method_id));
        proof {
            assert forall|a: int, b: int| 0 <= a < self.waiters@.len() && 0 <= b < self.waiters@.len() && a != b
                implies self.waiters@[a] != self.waiters@[b] by {
                if a < w.len() && b < w.len() {
                    assert(self.waiters@[a] == w[a] && self.waiters@[b] == w[b]);
                }
            }
        }
        Ok(())
    }

    /// Drops the waiter in position `i`.
    fn remove_waiter(&mut self, i: usize)
        requires
            old(self).wf(),
            i < old(self).waiters@.len(),
        ensures
            final(self).wf(),
            final(self).waiters@ == old(self).waiters@.remove(i as int),
            !final(self).waiters@.contains(old(self).waiters@[i as int]),
            final(self).consumers == old(self).consumers,
            final(self).closed == old(self).closed,
            final(self).state == old(self).state,
    {
        let ghost w = self.waiters@;
        let _ = self.waiters.remove(i);
        proof {
            let v = self.waiters@;
            assert forall|a: int, b: int| 0 <= a < v.len() && 0 <= b < v.len() && a != b implies v[a] != v[b] by {
                let a2 = if a < i { a } else { a + 1 };
                let b2 = if b < i { b } else { b + 1 };
                assert(v[a] == w[a2] && v[b] == w[b2]);
            }
            assert(!v.contains(w[i as int])) by {
                if v.contains(w[i as int]) {
                    let k = choose|k: int| 0 <= k < v.len() && v[k] == w[i as int];
                    let k2 = if k < i { k } else { k + 1 };
                    assert(v[k] == w[k2]);
                }
            }
        }
    }

    /// Index of the waiter for `(c, m)`.
    fn find_waiter(&self, c: u16, m: u16) -> (r: Option<usize>)
        ensures
            r is None <==> !self.waiters().contains((c, m)),
            r matches Some(i) ==> i < self.waiters().len() && self.waiters()[i as int] == (c, m),
    {
        let mut i: usize = 0;
        while i < self.waiters.len()
            invariant
                i <= self.waiters@.len(),
                forall|j: int| 0 <= j < i ==> self.waiters@[j] != (c, m),
            decreases self.waiters@.len() - i,
        {
            if self.waiters[i].0 == c && self.waiters[i].1 == m {
                return Some(i);
            }
            i = i + 1;
        }
        None
    }

    /// Index of the consumer with this tag.
    fn find_consumer(&self, tag: &String) -> (r: Option<usize>)
        requires
            self.wf(),
        ensures
            r == match self.slot(tag@) {
                Some(i) => Some(i as usize),
                None => None::<usize>,
            },
            r matches Some(i) ==> i < self.consumers@.len() && self.consumers@[i as int].tag@ == tag@,
    {
        let ghost ts = self.tags();
        let mut i: usize = 0;
        while i < self.consumers.len()
            invariant
                self.wf(),
                ts == self.tags(),
                ts.len() == self.consumers@.len(),
                i <= self.consumers@.len(),
                forall|j: int| 0 <= j < i ==> self.consumers@[j].tag@ != tag@,
            decreases self.consumers@.len() - i,
        {
            if self.consumers[i].tag == *tag {
                proof {
                    assert(ts[i as int] == tag@);
                    assert(ts.contains(tag@));
                    let c = ts.index_of(tag@);
                    assert(c == i as int) by {
                        if c != i as int {
                            assert(ts[c] == ts[i as int]);
                        }
                    }
                }
                return Some(i);
            }
            i = i + 1;
        }
        proof {
            assert(!ts.contains(tag@)) by {
                if ts.contains(tag@) {
                    let c = choose|c: int| 0 <= c < ts.len() && ts[c] == tag@;
                    assert(self.consumers@[c].tag@ == tag@);
                }
            }
        }
        None
    }
}

impl Dispatcher {
    /// Adds a consumer whose tag is not there yet.
    #[verifier::spinoff_prover]
    fn push_consumer(&mut self, c: Consumer)
        requires
            old(self).wf(),
            old(self).slot(c.tag@) is None,
        ensures
            final(self).wf(),
            final(self).consumers@ == old(self).consumers@.push(c),
            final(self).slot(c.tag@) == Some(old(self).consumers@.len() as int),
            forall|t: Seq<char>| t != c.tag@ ==> #[trigger] final(self).slot(t) == old(self).slot(t)
                && (final(self).slot(t) matches Some(k) ==> k < old(self).consumers@.len()),
            final(self).closed == old(self).closed,
            final(self).state == old(self).state,
            final(self).waiters == old(self).waiters,
            final(self).tag == old(self).tag,
            final(self).delivery_tag == old(self).delivery_tag,
            final(self).properties == old(self).properties,
            final(self).body_size == old(self).body_size,
            final(self).body == old(self).body,
            final(self).has_header == old(self).has_header,
    {
        let ghost before = self.consumers@;
        let ghost tag = c.tag@;
        self.consumers.push(c);
        proof {
            let ts0 = before.map_values(|c: Consumer| c.tag@);
            let ts = self.tags();
            assert(ts =~= ts0.push(tag));
            assert(!ts0.contains(tag));
            assert(ts.no_duplicates()) by {
                assert forall|a: int, b: int| 0 <= a < ts.len() && 0 <= b < ts.len() && a != b implies ts[a] != ts[b] by {
                    if a == ts0.len() as int {
                        assert(ts0[b] == ts[b]);
                    } else if b == ts0.len() as int {
                        assert(ts0[a] == ts[a]);
                    } else {
                        assert(ts0[a] == ts[a] && ts0[b] == ts[b]);
                    }
                }
            }
            assert(ts.contains(tag)) by {
                assert(ts[ts0.len() as int] == tag);
            }
            let c = ts.index_of(tag);
            assert(c == ts0.len() as int) by {
                if c < ts0.len() {
                    assert(ts0[c] == tag);
                }
            }
            assert forall|t: Seq<char>| t != tag implies #[trigger] self.slot(t) == old(self).slot(t)
                && (self.slot(t) matches Some(k) ==> k < before.len()) by {
                if ts0.contains(t) {
                    let k = ts0.index_of(t);
                    assert(ts[k] == t);
                    let k2 = ts.index_of(t);
                    assert(k2 == k) by {
                        if k2 != k {
                            assert(ts[k2] == t);
                            if k2 == ts0.len() as int {
                            } else {
                                assert(ts0[k2] == t);
                            }
                        }
                    }
                } else {
                    assert(!ts.contains(t)) by {
                        if ts.contains(t) {
                            let k = choose|k: int| 0 <= k < ts.len() && ts[k] == t;
                            if k < ts0.len() {
                                assert(ts0[k] == t);
                            }
                        }
                    }
                }
            }
        }
    }

    /// Registers a sink for `tag` and hands back, in arrival order, the
    /// messages held for it; they go to the sink before anything else.
    #[verifier::spinoff_prover]
    pub fn register_consumer(&mut self, tag: String) -> (r: Vec<ConsumerMessage>)
        requires
            old(self).wf(),
        ensures
            final(self).wf(),
            old(self).is_closed() ==> r@.len() == 0 && *final(self) == *old(self),
            !old(self).is_closed() ==> {
                &&& r@ == old(self).buffered(tag@)
                &&& final(self).has_sink(tag@)
                &&& final(self).buffered(tag@) == Seq::<ConsumerMessage>::empty()
                &&& forall|t: Seq<char>| t != tag@ ==> final(self).has_sink(t) == old(self).has_sink(t)
                    && final(self).buffered(t) == old(self).buffered(t)
            },
            final(self).is_closed() == old(self).is_closed(),
            final(self).waiters() == old(self).waiters(),
            final(self).state() == old(self).state(),
    {
        if self.closed {
            return Vec::new();
        }
        match self.find_consumer(&tag) {
            Some(i) => {
                proof {
                    let ts = old(self).tags();
                    assert(ts.contains(tag@));
                    let k = ts.index_of(tag@);
                    assert(0 <= k < ts.len() && ts[k] == tag@);
                    assert(ts[i as int] == tag@);
                    assert(k == i as int) by {
                        if k != i as int {
                            assert(ts[k] == ts[i as int]);
                        }
                    }
                    assert(old(self).slot(tag@) == Some(i as int));
                }
                let ghost oldc = self.consumers@[i as int];
                let Consumer { tag: t, has_sink: _, fifo } = self.consumers.remove(i);
                assert(fifo == oldc.fifo);
                self.consumers.insert(i, Consumer { tag: t, has_sink: true, fifo: Vec::new() });
                proof {
                    let newc = self.consumers@[i as int];
                    assert(self.consumers@ =~= old(self).consumers@.update(i as int, newc));
                    assert(self.tags() =~= old(self).tags());
                    assert(self.slot(tag@) == old(self).slot(tag@));
                    assert(self.has_sink(tag@));
                    assert(fifo@ == old(self).buffered(tag@));
                    assert forall|t: Seq<char>| t != tag@ implies self.has_sink(t) == old(self).has_sink(t)
                        && self.buffered(t) == old(self).buffered(t) by {
                        assert(self.slot(t) == old(self).slot(t));
                        match self.slot(t) {
                            Some(k) => {
                                assert(self.tags()[k] == t);
                                assert(k != i as int);
                            },
                            None => {},
                        }
                    }
                }
                fifo
            },
            None => {
                let ghost t0 = tag@;
                self.push_consumer(Consumer { tag, has_sink: true, fifo: Vec::new() });
                proof {
                    assert(self.has_sink(t0));
                    assert forall|t: Seq<char>| t != t0 implies self.has_sink(t) == old(self).has_sink(t)
                        && self.buffered(t) == old(self).buffered(t) by {
                        match self.slot(t) {
                            Some(k) => {
                                assert(self.consumers@[k] == old(self).consumers@[k]);
                            },
                            None => {},
                        }
                    }
                }
                Vec::new()
            },
        }
    }
}

impl Dispatcher {
    /// Tag of the delivery being put together.
    pub closed spec fn pending_tag(&self) -> Seq<char> {
        self.tag@
    }

    /// Body bytes received so far for the message being put together.
    pub closed spec fn pending_body(&self) -> Seq<u8> {
        self.body@
    }

    /// Delivery tag of the message being put together.
    pub closed spec fn pending_delivery(&self) -> u64 {
        self.delivery_tag
    }

    /// Properties of the message being put together.
    pub closed spec fn pending_properties(&self) -> Seq<u8> {
        self.properties@
    }

    /// The body size the content header announced, once it has come.
    pub closed spec fn announced(&self) -> Option<u64> {
        if self.has_header { Some(self.body_size) } else { None }
    }

    /// Hands `msg` to its consumer's sink, or holds it for that consumer.
    #[verifier::spinoff_prover]
    fn store(&mut self, msg: ConsumerMessage) -> (r: Vec<Action>)
        requires
            old(self).wf(),
        ensures
            final(self).wf(),
            final(self).closed == old(self).closed,
            final(self).waiters == old(self).waiters,
            final(self).state == old(self).state,
            final(self).body == old(self).body,
            final(self).has_header == old(self).has_header,
            old(self).has_sink(msg.consumer_tag@) ==> r@ == seq![Action::Deliver(msg)]
                && final(self).buffered(msg.consumer_tag@) == old(self).buffered(msg.consumer_tag@),
            !old(self).has_sink(msg.consumer_tag@) ==> r@.len() == 0 && final(self).buffered(
                msg.consumer_tag@,
            ) == old(self).buffered(msg.consumer_tag@).push(msg),
            forall|t: Seq<char>| #[trigger] final(self).has_sink(t) == old(self).has_sink(t),
            forall|t: Seq<char>| t != msg.consumer_tag@ ==> #[trigger] final(self).buffered(t) == old(self).buffered(t),
    {
        let ghost m = msg;
        let ghost tag = msg.consumer_tag@;
        match self.find_consumer(&msg.consumer_tag) {
            Some(i) => {
                proof {
                    let ts = old(self).tags();
                    let k = ts.index_of(tag);
                    assert(ts[i as int] == tag);
                    assert(0 <= k < ts.len() && ts[k] == tag);
                    assert(k == i as int) by {
                        if k != i as int {
                            assert(ts[k] == ts[i as int]);
                        }
                    }
                }
                if self.consumers[i].has_sink {
                    let mut r: Vec<Action> = Vec::new();
                    r.push(Action::Deliver(msg));
                    proof { assert(r@ =~= seq![Action::Deliver(m)]); }
                    r
                } else {
                    let Consumer { tag: t, has_sink, mut fifo } = self.consumers.remove(i);
                    fifo.push(msg);
                    self.consumers.insert(i, Consumer { tag: t, has_sink, fifo });
                    proof {
                        let newc = self.consumers@[i as int];
                        assert(self.consumers@ =~= old(self).consumers@.update(i as int, newc));
                        assert(self.tags() =~= old(self).tags());
                        assert forall|t: Seq<char>| #[trigger] self.has_sink(t) == old(self).has_sink(t) by {
                            assert(self.slot(t) == old(self).slot(t));
                        }
                        assert forall|t: Seq<char>| t != tag implies #[trigger] self.buffered(t) == old(self).buffered(t) by {
                            assert(self.slot(t) == old(self).slot(t));
                            match self.slot(t) {
                                Some(k) => {
                                    assert(self.tags()[k] == t);
                                    assert(k != i as int);
                                },
                                None => {},
                            }
                        }
                    }
                    Vec::new()
                }
            },
            None => {
                let t = msg.consumer_tag.clone();
                let mut fifo: Vec<ConsumerMessage> = Vec::new();
                fifo.push(msg);
                self.push_consumer(Consumer { tag: t, has_sink: false, fifo });
                proof {
                    assert(self.buffered(tag) =~= old(self).buffered(tag).push(m));
                    assert forall|t: Seq<char>| #[trigger] self.has_sink(t) == old(self).has_sink(t) by {
                        if t != tag {
                            match self.slot(t) {
                                Some(k) => {
                                    assert(self.consumers@[k] == old(self).consumers@[k]);
                                },
                                None => {},
                            }
                        }
                    }
                    assert forall|t: Seq<char>| t != tag implies #[trigger] self.buffered(t) == old(self).buffered(t) by {
                        match self.slot(t) {
                            Some(k) => {
                                assert(self.consumers@[k] == old(self).consumers@[k]);
                            },
                            None => {},
                        }
                    }
                }
                Vec::new()
            },
        }
    }
}

/// The message that the assembly fields of `d` make up.
pub open spec fn assembled(tag: Seq<char>, delivery_tag: u64, properties: Seq<u8>, body: Seq<u8>, m: ConsumerMessage) -> bool {
    m.consumer_tag@ == tag && m.delivery_tag == delivery_tag && m.properties@ == properties && m.body@ == body
}

/// Whether awaiting content: after a deliver, a get-ok or a return.
pub open spec fn awaits_content(st: DispatchState) -> bool {
    st == DispatchState::Deliver || st == DispatchState::GetOk || st == DispatchState::Return
}

/// What completing the message `before` was putting together, with these
/// properties and body, does: a delivery goes to its consumer's sink or is
/// held for it; a get-ok message goes to the `basic.get` caller; a returned
/// message goes to the channel callback. Afterwards nothing is awaited.
pub open spec fn emits(before: Dispatcher, after: Dispatcher, r: Seq<Action>, properties: Seq<u8>, body: Seq<u8>) -> bool {
    let t = before.pending_tag();
    let d = before.pending_delivery();
    &&& after.state() == DispatchState::Initial
    &&& after.announced() is None
    &&& after.pending_body() == Seq::<u8>::empty()
    &&& no_outbound(r)
    &&& forall|u: Seq<char>| #[trigger] after.has_sink(u) == before.has_sink(u)
    &&& forall|u: Seq<char>| u != t ==> #[trigger] after.buffered(u) == before.buffered(u)
    &&& before.state() == DispatchState::Deliver ==> {
        &&& before.has_sink(t) ==> r.len() == 1 && (r[0] matches Action::Deliver(m) && assembled(t, d, properties, body, m))
            && after.buffered(t) == before.buffered(t)
        &&& !before.has_sink(t) ==> r.len() == 0 && after.buffered(t).len() == before.buffered(t).len() + 1
            && after.buffered(t).drop_last() == before.buffered(t)
            && assembled(t, d, properties, body, after.buffered(t).last())
    }
    &&& before.state() == DispatchState::GetOk ==> r.len() == 1 && (r[0] matches Action::GetMessage(m)
        && assembled(t, d, properties, body, m)) && after.buffered(t) == before.buffered(t)
    &&& before.state() == DispatchState::Return ==> r.len() == 1 && (r[0] matches Action::Returned(m)
        && assembled(t, d, properties, body, m)) && after.buffered(t) == before.buffered(t)
}

/// Nothing changed about consumers: the same sinks, the same held messages.
pub open spec fn same_consumers(before: Dispatcher, after: Dispatcher) -> bool {
    forall|u: Seq<char>| #[trigger] after.has_sink(u) == before.has_sink(u) && after.buffered(u) == before.buffered(u)
}

impl Dispatcher {
    /// Hands on the message just completed, according to what it answers.
    #[verifier::spinoff_prover]
    fn finish(&mut self) -> (r: Vec<Action>)
        requires
            old(self).wf(),
        ensures
            final(self).wf(),
            final(self).closed == old(self).closed,
            final(self).waiters == old(self).waiters,
            awaits_content(old(self).state) ==> emits(*old(self), *final(self), r@, old(self).pending_properties(), old(self).pending_body()),
    {
        let mut tag = String::new();
        core::mem::swap(&mut tag, &mut self.tag);
        let mut properties: Vec<u8> = Vec::new();
        core::mem::swap(&mut properties, &mut self.properties);
        let mut body: Vec<u8> = Vec::new();
        core::mem::swap(&mut body, &mut self.body);
        self.has_header = false;
        let msg = ConsumerMessage { consumer_tag: tag, delivery_tag: self.delivery_tag, properties, body };
        let state = self.state;
        self.state = DispatchState::Initial;
        let mut r: Vec<Action> = Vec::new();
        match state {
            DispatchState::Deliver => {
                let ghost m = msg;
                r = self.store(msg);
                proof {
                    if !old(self).has_sink(m.consumer_tag@) {
                        assert(self.buffered(m.consumer_tag@).drop_last() =~= old(self).buffered(m.consumer_tag@));
                    }
                }
            },
            DispatchState::GetOk => {
                r.push(Action::GetMessage(msg));
            },
            DispatchState::Return => {
                r.push(Action::Returned(msg));
            },
            _ => {},
        }
        r
    }

    /// Takes one frame from the broker and says what to do with it.
    #[verifier::spinoff_prover]
    #[verifier::rlimit(100)]
    pub fn handle(&mut self, ev: Inbound) -> (r: Vec<Action>)
        requires
            old(self).wf(),
        ensures
            final(self).wf(),
            old(self).is_closed() ==> r@.len() == 0 && final(self).is_closed(),
            step_closes(old(self).is_closed(), r@, final(self).is_closed()),
            final(self).waiters().len() <= old(self).waiters().len(),
            !(ev is ContentHeader || ev is ContentBody) ==> same_consumers(*old(self), *final(self)),
            !old(self).is_closed() ==> match ev {
                Inbound::CloseChannel { code, text } => {
                    &&& final(self).is_closed()
                    &&& final(self).waiters().len() == 0
                    &&& r@.len() == 3
                    &&& r@[0] matches Action::FailWaiters { waiters: w, error: e }
                        && w@ == old(self).waiters() && e == (AmqpError::ChannelClosed { code, text })
                    &&& r@[1] is SendCloseOk
                    &&& r@[2] is Exit
                },
                Inbound::CloseChannelOk => {
                    &&& final(self).is_closed()
                    &&& no_outbound(r@)
                    &&& r@.len() >= 1 && r@.last() is Exit
                    &&& old(self).waiters().contains((CLOSE_OK_CLASS, CLOSE_OK_METHOD)) ==> r@.len() == 2
                        && (r@[0] matches Action::Reply { class_id, method_id, args }
                            && class_id == CLOSE_OK_CLASS && method_id == CLOSE_OK_METHOD && args@.len() == 0)
                    &&& !old(self).waiters().contains((CLOSE_OK_CLASS, CLOSE_OK_METHOD)) ==> r@.len() == 1
                },
                Inbound::Reply { class_id, method_id, args } => {
                    &&& !final(self).is_closed()
                    &&& final(self).state() == old(self).state()
                    &&& old(self).waiters().contains((class_id, method_id)) ==> r@ == seq![
                        Action::Reply { class_id, method_id, args },
                    ] && final(self).waiters() == old(self).waiters().remove(
                        old(self).waiters().index_of((class_id, method_id)),
                    )
                    &&& !old(self).waiters().contains((class_id, method_id)) ==> r@.len() == 0
                        && final(self).waiters() == old(self).waiters()
                },
                Inbound::Deliver { consumer_tag, delivery_tag } => {
                    &&& !final(self).is_closed()
                    &&& r@.len() == 0
                    &&& final(self).waiters() == old(self).waiters()
                    &&& final(self).state() == DispatchState::Deliver
                    &&& final(self).pending_tag() == consumer_tag@
                    &&& final(self).pending_delivery() == delivery_tag
                    &&& final(self).pending_body() == Seq::<u8>::empty()
                    &&& final(self).announced() is None
                },
                Inbound::GetOk { delivery_tag } => {
                    &&& !final(self).is_closed()
                    &&& r@.len() == 0
                    &&& final(self).waiters() == old(self).waiters()
                    &&& final(self).state() == DispatchState::GetOk
                    &&& final(self).pending_tag() == Seq::<char>::empty()
                    &&& final(self).pending_delivery() == delivery_tag
                    &&& final(self).pending_body() == Seq::<u8>::empty()
                    &&& final(self).announced() is None
                },
                Inbound::Return { reply_code: _ } => {
                    &&& !final(self).is_closed()
                    &&& r@.len() == 0
                    &&& final(self).waiters() == old(self).waiters()
                    &&& final(self).state() == DispatchState::Return
                    &&& final(self).pending_tag() == Seq::<char>::empty()
                    &&& final(self).pending_body() == Seq::<u8>::empty()
                    &&& final(self).announced() is None
                },
                Inbound::GetEmpty => {
                    &&& !final(self).is_closed()
                    &&& r@ == seq![Action::GetEmpty]
                    &&& final(self).waiters() == old(self).waiters()
                    &&& final(self).state() == DispatchState::GetEmpty
                    &&& final(self).announced() is None
                },
                Inbound::ContentHeader { body_size, properties } => {
                    &&& !final(self).is_closed()
                    &&& final(self).waiters() == old(self).waiters()
                    &&& awaits_content(old(self).state()) && body_size > 0 ==> {
                        &&& r@.len() == 0
                        &&& final(self).state() == old(self).state()
                        &&& final(self).pending_tag() == old(self).pending_tag()
                        &&& final(self).pending_delivery() == old(self).pending_delivery()
                        &&& final(self).pending_properties() == properties@
                        &&& final(self).pending_body() == Seq::<u8>::empty()
                        &&& final(self).announced() == Some(body_size)
                        &&& same_consumers(*old(self), *final(self))
                    }
                    &&& awaits_content(old(self).state()) && body_size == 0 ==> emits(
                        *old(self),
                        *final(self),
                        r@,
                        properties@,
                        Seq::<u8>::empty(),
                    )
                    &&& !awaits_content(old(self).state()) ==> r@.len() == 0 && final(self).state()
                        == old(self).state() && same_consumers(*old(self), *final(self))
                },
                Inbound::ContentBody(bytes) => {
                    let body = old(self).pending_body() + bytes@;
                    let waiting = awaits_content(old(self).state()) && old(self).announced() is Some;
                    let size = old(self).announced()->0;
                    &&& !final(self).is_closed()
                    &&& final(self).waiters() == old(self).waiters()
                    &&& waiting && body.len() == size ==> emits(
                        *old(self),
                        *final(self),
                        r@,
                        old(self).pending_properties(),
                        body,
                    )
                    &&& waiting && body.len() < size ==> {
                        &&& r@.len() == 0
                        &&& final(self).state() == old(self).state()
                        &&& final(self).pending_tag() == old(self).pending_tag()
                        &&& final(self).pending_delivery() == old(self).pending_delivery()
                        &&& final(self).pending_properties() == old(self).pending_properties()
                        &&& final(self).pending_body() == body
                        &&& final(self).announced() == old(self).announced()
                        &&& same_consumers(*old(self), *final(self))
                    }
                    &&& waiting && body.len() > size ==> r@ == seq![Action::Malformed]
                        && final(self).state() == DispatchState::Initial && final(self).announced() is None
                        && same_consumers(*old(self), *final(self))
                    &&& !waiting ==> r@.len() == 0 && final(self).state() == old(self).state()
                        && same_consumers(*old(self), *final(self))
                },
            },
    {
        if self.closed {
            return Vec::new();
        }
        let mut r: Vec<Action> = Vec::new();
        match ev {
            Inbound::CloseChannel { code, text } => {
                self.closed = true;
                let mut waiters: Vec<(u16, u16)> = Vec::new();
                core::mem::swap(&mut waiters, &mut self.waiters);
                r.push(Action::FailWaiters { waiters, error: AmqpError::ChannelClosed { code, text } });
                r.push(Action::SendCloseOk);
                r.push(Action::Exit);
            },
            Inbound::CloseChannelOk => {
                self.closed = true;
                match self.find_waiter(CLOSE_OK_CLASS, CLOSE_OK_METHOD) {
                    Some(i) => {
                        self.remove_waiter(i);
                        r.push(Action::Reply { class_id: CLOSE_OK_CLASS, method_id: CLOSE_OK_METHOD, args: Vec::new() });
                    },
                    None => {},
                }
                r.push(Action::Exit);
            },
            Inbound::Reply { class_id, method_id, args } => {
                match self.find_waiter(class_id, method_id) {
                    Some(i) => {
                        proof {
                            let w = self.waiters@;
                            let k = w.index_of((class_id, method_id));
                            assert(w.contains((class_id, method_id)));
                            assert(0 <= k < w.len() && w[k] == (class_id, method_id));
                            assert(k == i as int) by {
                                if k != i as int {
                                    assert(w[k] == w[i as int]);
                                }
                            }
                        }
                        self.remove_waiter(i);
                        let ghost a = args;
                        r.push(Action::Reply { class_id, method_id, args });
                        proof { assert(r@ =~= seq![Action::Reply { class_id, method_id, args: a }]); }
                    },
                    None => {},
                }
            },
            Inbound::Deliver { consumer_tag, delivery_tag } => {
                self.state = DispatchState::Deliver;
                self.tag = consumer_tag;
                self.delivery_tag = delivery_tag;
                self.properties = Vec::new();
                self.body = Vec::new();
                self.has_header = false;
            },
            Inbound::GetOk { delivery_tag } => {
                self.state = DispatchState::GetOk;
                self.tag = String::new();
                self.delivery_tag = delivery_tag;
                self.properties = Vec::new();
                self.body = Vec::new();
                self.has_header = false;
            },
            Inbound::GetEmpty => {
                self.state = DispatchState::GetEmpty;
                self.has_header = false;
                r.push(Action::GetEmpty);
                proof { assert(r@ =~= seq![Action::GetEmpty]); }
            },
            Inbound::Return { reply_code: _ } => {
                self.state = DispatchState::Return;
                self.tag = String::new();
                self.delivery_tag = 0;
                self.properties = Vec::new();
                self.body = Vec::new();
                self.has_header = false;
            },
            Inbound::ContentHeader { body_size, properties } => {
                if self.state == DispatchState::Deliver || self.state == DispatchState::GetOk
                    || self.state == DispatchState::Return {
                    let ghost props = properties@;
                    self.properties = properties;
                    self.body_size = body_size;
                    self.has_header = true;
                    self.body = Vec::new();
                    if body_size == 0 {
                        let ghost mid = *self;
                        proof {
                            assert(mid.pending_body() == Seq::<u8>::empty());
                            assert(mid.pending_properties() == props);
                            assert(same_consumers(*old(self), mid));
                        }
                        r = self.finish();
                        proof {
                            assert(emits(mid, *self, r@, props, Seq::<u8>::empty()));
                            assert(emits(*old(self), *self, r@, props, Seq::<u8>::empty()));
                        }
                    }
                }
            },
            Inbound::ContentBody(bytes) => {
                if self.has_header && (self.state == DispatchState::Deliver || self.state
                    == DispatchState::GetOk || self.state == DispatchState::Return) {
                    let ghost bytes_view = bytes@;
                    let mut b = bytes;
                    self.body.append(&mut b);
                    let n = self.body.len() as u64;
                    if n == self.body_size {
                        let ghost mid = *self;
                        proof {
                            assert(mid.pending_body() == old(self).pending_body() + bytes_view);
                            assert(same_consumers(*old(self), mid));
                        }
                        r = self.finish();
                        proof {
                            assert(emits(mid, *self, r@, old(self).pending_properties(), old(self).pending_body() + bytes_view));
                            assert(emits(*old(self), *self, r@, old(self).pending_properties(), old(self).pending_body() + bytes_view));
                        }
                    } else if n > self.body_size {
                        self.state = DispatchState::Initial;
                        self.has_header = false;
                        self.body = Vec::new();
                        r.push(Action::Malformed);
                        proof { assert(r@ =~= seq![Action::Malformed]); }
                    }
                }
            },
        }
        r
    }

    /// The connection is gone: every waiter fails with `ConnectionClosed`
    /// and the dispatcher stops. Nothing is sent to the broker.
    pub fn connection_lost(&mut self, code: u16, text: String) -> (r: Vec<Action>)
        requires
            old(self).wf(),
        ensures
            final(self).wf(),
            final(self).is_closed(),
            step_closes(old(self).is_closed(), r@, final(self).is_closed()),
            no_outbound(r@),
            old(self).is_closed() ==> r@.len() == 0,
            !old(self).is_closed() ==> {
                &&& final(self).waiters().len() == 0
                &&& r@.len() == 2
                &&& r@[0] matches Action::FailWaiters { waiters: w, error: e }
                    && w@ == old(self).waiters() && e == (AmqpError::ConnectionClosed { code, text })
                &&& r@[1] is Exit
            },
    {
        if self.closed {
            return Vec::new();
        }
        self.closed = true;
        let mut waiters: Vec<(u16, u16)> = Vec::new();
        core::mem::swap(&mut waiters, &mut self.waiters);
        let mut r: Vec<Action> = Vec::new();
        r.push(Action::FailWaiters { waiters, error: AmqpError::ConnectionClosed { code, text } });
        r.push(Action::Exit);
        r
    }
}

impl Dispatcher {
    /// Forgets the sink of `tag` and the messages held for it, and hands
    /// those messages back when the tag was known.
    pub fn unregister_consumer(&mut self, tag: &String) -> (r: Option<Vec<ConsumerMessage>>)
        requires
            old(self).wf(),
        ensures
            final(self).wf(),
            r is Some <==> old(self).slot(tag@) is Some,
            r matches Some(held) ==> held@ == old(self).buffered(tag@),
            !final(self).has_sink(tag@),
            final(self).buffered(tag@) == Seq::<ConsumerMessage>::empty(),
            forall|t: Seq<char>| t != tag@ ==> final(self).has_sink(t) == old(self).has_sink(t)
                && final(self).buffered(t) == old(self).buffered(t),
            final(self).is_closed() == old(self).is_closed(),
            final(self).waiters() == old(self).waiters(),
    {
        match self.find_consumer(tag) {
            Some(i) => {
                proof {
                    let ts = old(self).tags();
                    let k = ts.index_of(tag@);
                    assert(ts[i as int] == tag@);
                    assert(0 <= k < ts.len() && ts[k] == tag@);
                    assert(k == i as int) by {
                        if k != i as int {
                            assert(ts[k] == ts[i as int]);
                        }
                    }
                }
                let ghost oldc = self.consumers@[i as int];
                let Consumer { tag: t, has_sink: _, fifo } = self.consumers.remove(i);
                assert(fifo == oldc.fifo);
                self.consumers.insert(i, Consumer { tag: t, has_sink: false, fifo: Vec::new() });
                proof {
                    let newc = self.consumers@[i as int];
                    assert(self.consumers@ =~= old(self).consumers@.update(i as int, newc));
                    assert(self.tags() =~= old(self).tags());
                    assert(old(self).slot(tag@) == Some(i as int));
                    assert(self.slot(tag@) == old(self).slot(tag@));
                    assert forall|t: Seq<char>| t != tag@ implies self.has_sink(t) == old(self).has_sink(t)
                        && self.buffered(t) == old(self).buffered(t) by {
                        assert(self.slot(t) == old(self).slot(t));
                        match self.slot(t) {
                            Some(k) => {
                                assert(self.tags()[k] == t);
                                assert(k != i as int);
                            },
                            None => {},
                        }
                    }
                }
                Some(fifo)
            },
            None => None,
        }
    }
}

/// Reads a short string at `pos`: its length byte, then that many bytes of
/// UTF-8. Gives the string and the position after it.
fn short_string_at(b: &[u8], pos: usize) -> (r: Option<(String, usize)>)
    ensures
        r is Some <==> pos < b@.len() && pos + 1 + b@[pos as int] <= b@.len() && valid_utf8(
            b@.subrange(pos + 1, pos + 1 + b@[pos as int]),
        ),
        r matches Some((s, p)) ==> pos < b@.len() && p == pos + 1 + b@[pos as int] && p <= b@.len()
            && encode_utf8(s@) == b@.subrange(pos + 1, p as int),
{
    if pos >= b.len() {
        return None;
    }
    let k = b[pos] as usize;
    if b.len() - pos - 1 < k {
        return None;
    }
    let bytes = copy_range(b, pos + 1, pos + 1 + k);
    match utf8_string(bytes.as_slice()) {
        Some(s) => Some((s, pos + 1 + k)),
        None => None,
    }
}

/// Turns a frame for a channel into the event its dispatcher takes.
/// `basic.deliver` gives its consumer and delivery tags, `basic.get-ok` its
/// delivery tag, `channel.close` its reply code and text; any other method
/// is a reply named by its class and method id, carrying its arguments.
#[verifier::spinoff_prover]
pub fn inbound_of(f: &Frame) -> (r: Result<Inbound, AmqpError>)
    ensures
        f@.0 == FRAME_BODY ==> r is Ok && (r->Ok_0 matches Inbound::ContentBody(b) && b@ == f@.2),
        f@.0 == FRAME_HEADER ==> (r is Ok <==> f@.2.len() >= 12),
        f@.0 == FRAME_HEADER && r is Ok ==> (r->Ok_0 matches Inbound::ContentHeader { body_size, properties }
            && body_size == get64(f@.2, 4) && properties@ == f@.2.subrange(12, f@.2.len() as int)),
        f@.0 == FRAME_METHOD && f@.2.len() < 4 ==> r is Err,
        f@.0 == FRAME_METHOD && f@.2.len() >= 4 ==> {
            let c = get16(f@.2, 0);
            let m = get16(f@.2, 2);
            &&& c == 60 && m == 60 ==> (r is Ok <==> f@.2.len() > 4 && 5 + f@.2[4] + 8 <= f@.2.len()
                && valid_utf8(f@.2.subrange(5, 5 + f@.2[4])))
            &&& c == 60 && m == 60 && r is Ok ==> (r->Ok_0 matches Inbound::Deliver { consumer_tag, delivery_tag }
                && encode_utf8(consumer_tag@) == f@.2.subrange(5, 5 + f@.2[4]) && delivery_tag == get64(f@.2, 5 + f@.2[4]))
            &&& c == 60 && m == 71 ==> (r is Ok <==> f@.2.len() >= 12)
            &&& c == 60 && m == 71 && r is Ok ==> (r->Ok_0 matches Inbound::GetOk { delivery_tag }
                && delivery_tag == get64(f@.2, 4))
            &&& c == 60 && m == 72 ==> r == Ok::<Inbound, AmqpError>(Inbound::GetEmpty)
            &&& c == 60 && m == 50 ==> (r is Ok <==> f@.2.len() >= 6)
            &&& c == 60 && m == 50 && r is Ok ==> (r->Ok_0 matches Inbound::Return { reply_code }
                && reply_code == get16(f@.2, 4))
            &&& c == 20 && m == 40 ==> (r is Ok <==> f@.2.len() > 6 && 7 + f@.2[6] <= f@.2.len()
                && valid_utf8(f@.2.subrange(7, 7 + f@.2[6])))
            &&& c == 20 && m == 40 && r is Ok ==> (r->Ok_0 matches Inbound::CloseChannel { code, text }
                && code == get16(f@.2, 4) && encode_utf8(text@) == f@.2.subrange(7, 7 + f@.2[6]))
            &&& c == 20 && m == 41 ==> r == Ok::<Inbound, AmqpError>(Inbound::CloseChannelOk)
            &&& !(c == 60 && (m == 60 || m == 71 || m == 72 || m == 50)) && !(c == 20 && (m == 40 || m == 41))
                ==> r is Ok && (r->Ok_0 matches Inbound::Reply { class_id, method_id, args }
                    && class_id == c && method_id == m && args@ == f@.2.subrange(4, f@.2.len() as int))
        },
        !(f@.0 == FRAME_BODY || f@.0 == FRAME_HEADER || f@.0 == FRAME_METHOD) ==> r
            == Err::<Inbound, AmqpError>(AmqpError::MalformedFrame),
{
    let p = f.payload();
    let kind = f.kind();
    if kind == FRAME_BODY {
        return Ok(Inbound::ContentBody(copy_range(p, 0, p.len())));
    }
    if kind == FRAME_HEADER {
        if p.len() < 12 {
            return Err(AmqpError::MalformedFrame);
        }
        return Ok(Inbound::ContentHeader { body_size: get_u64(p, 4), properties: copy_range(p, 12, p.len()) });
    }
    if kind != FRAME_METHOD || p.len() < 4 {
        return Err(AmqpError::MalformedFrame);
    }
    let c = get_u16(p, 0);
    let m = get_u16(p, 2);
    if c == 60 && m == 60 {
        match short_string_at(p, 4) {
            Some((consumer_tag, at)) => {
                if p.len() - at < 8 {
                    return Err(AmqpError::MalformedFrame);
                }
                Ok(Inbound::Deliver { consumer_tag, delivery_tag: get_u64(p, at) })
            },
            None => Err(AmqpError::MalformedFrame),
        }
    } else if c == 60 && m == 71 {
        if p.len() < 12 {
            return Err(AmqpError::MalformedFrame);
        }
        Ok(Inbound::GetOk { delivery_tag: get_u64(p, 4) })
    } else if c == 60 && m == 72 {
        Ok(Inbound::GetEmpty)
    } else if c == 60 && m == 50 {
        if p.len() < 6 {
            return Err(AmqpError::MalformedFrame);
        }
        Ok(Inbound::Return { reply_code: get_u16(p, 4) })
    } else if c == 20 && m == 40 {
        if p.len() < 6 {
            return Err(AmqpError::MalformedFrame);
        }
        let code = get_u16(p, 4);
        match short_string_at(p, 6) {
            Some((text, _)) => Ok(Inbound::CloseChannel { code, text }),
            None => Err(AmqpError::MalformedFrame),
        }
    } else if c == 20 && m == 41 {
        Ok(Inbound::CloseChannelOk)
    } else {
        Ok(Inbound::Reply { class_id: c, method_id: m, args: copy_range(p, 4, p.len()) })
    }
}

} // verus!
