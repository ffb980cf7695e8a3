//! Handing open descriptors to another process: what the messages hold, and
//! when to connect, to wait, to send and to give up.
use crate::errno::Errno;
use crate::fds::{absorbed, distinct, Fds, RawFd};
use crate::key_codec::{joined, serialize_vec_string, texts};
use vstd::prelude::*;

verus! {

/// How often a transfer is tried again where the caller sets no limit.
pub const MAX_RETRY: usize = 5;

/// Milliseconds between two tries while the peer is not ready.
pub const RETRY_INTERVAL_MS: u64 = 1000;

/// How often a nonblocking socket may report that it is not ready.
pub const MAX_NONBLOCKING_POLLS: usize = 20;

/// Milliseconds between two polls of a nonblocking socket.
pub const NONBLOCKING_POLL_INTERVAL_MS: u64 = 500;

/// Linux kernel limit (`SCM_MAX_FD`): the most descriptors that one
/// `SCM_RIGHTS` control message carries.
pub const MAX_FDS_PER_MSG: usize = 253;

/// One message of a transfer: the bytes, and the descriptors sent with them.
pub struct FdMessage {
    pub payload: Vec<u8>,
    pub fds: Vec<RawFd>,
}

/// What a message holds.
#[verifier::ext_equal]
pub struct Message {
    pub payload: Seq<u8>,
    pub fds: Seq<RawFd>,
}

impl View for FdMessage {
    type V = Message;

    open spec fn view(&self) -> Message {
        Message { payload: self.payload@, fds: self.fds@ }
    }
}

/// What each message holds.
pub open spec fn contents(v: Seq<FdMessage>) -> Seq<Message> {
    v.map_values(|m: FdMessage| m@)
}

/// How many bindings the first message of `n` carries.
pub open spec fn chunk_len(n: nat) -> nat {
    if n < MAX_FDS_PER_MSG {
        n
    } else {
        MAX_FDS_PER_MSG as nat
    }
}

/// The messages that carry the bindings: each takes the next addresses and
/// their descriptors, as many as the kernel lets through at once.
pub open spec fn chunked(keys: Seq<Seq<char>>, fds: Seq<RawFd>) -> Seq<Message>
    decreases keys.len(),
{
    if keys.len() == 0 {
        seq![]
    } else {
        let n = chunk_len(keys.len()) as int;
        seq![Message { payload: joined(keys.take(n)), fds: fds.take(n) }] + chunked(
            keys.skip(n),
            fds.skip(n),
        )
    }
}

/// Cuts the bindings into messages.
pub fn chunk_messages(keys: &[String], fds: &[RawFd]) -> (messages: Vec<FdMessage>)
    requires
        keys@.len() == fds@.len(),
    ensures
        contents(messages@) == chunked(texts(keys@), fds@),
{
    let mut messages: Vec<FdMessage> = Vec::new();
    let ghost all = texts(keys@);
    let mut i: usize = 0;
    assert(all.skip(0) =~= all);
    assert(fds@.skip(0) =~= fds@);
    assert(contents(messages@) + chunked(all, fds@) =~= chunked(all, fds@));
    while i < keys.len()
        invariant
            i <= keys@.len(),
            keys@.len() == fds@.len(),
            all == texts(keys@),
            contents(messages@) + chunked(all.skip(i as int), fds@.skip(i as int)) == chunked(
                all,
                fds@,
            ),
        decreases keys@.len() - i,
    {
        let left: usize = keys.len() - i;
        let n: usize = if left < MAX_FDS_PER_MSG {
            left
        } else {
            MAX_FDS_PER_MSG
        };
        let key_chunk = vstd::slice::slice_subrange(keys, i, i + n);
        let fd_chunk = vstd::slice::slice_subrange(fds, i, i + n);
        let message = FdMessage {
            payload: serialize_vec_string(key_chunk),
            fds: vstd::slice::slice_to_vec(fd_chunk),
        };
        let ghost before = contents(messages@);
        let ghost sent = message@;
        messages.push(message);
        proof {
            let k = all.skip(i as int);
            let f = fds@.skip(i as int);
            assert(texts(key_chunk@) =~= k.take(n as int));
            assert(fd_chunk@ =~= f.take(n as int));
            assert(k.skip(n as int) =~= all.skip(i + n));
            assert(f.skip(n as int) =~= fds@.skip(i + n));
            assert(contents(messages@) =~= before.push(sent));
            assert(before.push(sent) + chunked(all.skip(i + n), fds@.skip(i + n)) =~= before + (
            seq![sent] + chunked(all.skip(i + n), fds@.skip(i + n))));
        }
        i = i + n;
    }
    assert(contents(messages@) + chunked(all.skip(i as int), fds@.skip(i as int)) =~= contents(
        messages@,
    ));
    messages
}

/// No message carries more descriptors than the kernel lets through, none is
/// without one, and together they carry all of them, in order.
pub proof fn law_chunks(keys: Seq<Seq<char>>, fds: Seq<RawFd>)
    requires
        keys.len() == fds.len(),
    ensures
        forall|i: int|
            0 <= i < chunked(keys, fds).len() ==> 0 < (#[trigger] chunked(keys, fds)[i]).fds.len()
                <= MAX_FDS_PER_MSG,
        chunked(keys, fds).map_values(|m: Message| m.fds).flatten() == fds,
        chunked(keys, fds).len() == (keys.len() + MAX_FDS_PER_MSG - 1) / MAX_FDS_PER_MSG as int,
    decreases keys.len(),
{
    let all = chunked(keys, fds);
    let lists = all.map_values(|m: Message| m.fds);
    if keys.len() == 0 {
        assert(lists =~= seq![]);
        assert(lists.flatten() =~= fds);
    } else {
        let n = chunk_len(keys.len()) as int;
        let rest = chunked(keys.skip(n), fds.skip(n));
        law_chunks(keys.skip(n), fds.skip(n));
        assert forall|i: int| 0 <= i < all.len() implies 0 < (#[trigger] all[i]).fds.len()
            <= MAX_FDS_PER_MSG by {
            if i > 0 {
                assert(all[i] == rest[i - 1]);
            }
        }
        assert(lists.drop_first() =~= rest.map_values(|m: Message| m.fds));
        assert(lists.first() == fds.take(n));
        assert(lists.flatten() == lists.first() + lists.drop_first().flatten());
        assert(fds.take(n) + fds.skip(n) =~= fds);
    }
}

/// What the sending process does next.
#[derive(Clone, Copy, Debug, PartialEq, Eq)]
pub enum SendAction {
    /// Wait, then connect to the peer's socket.
    Connect { delay_ms: u64 },
    /// Wait, then send the message of this place in the list.
    Send { message: usize, delay_ms: u64 },
    /// Close the socket; this is the result of the transfer.
    Close(Result<usize, Errno>),
}

/// What came of the last action.
#[derive(Clone, Copy, Debug, PartialEq, Eq, Structural)]
pub enum SendEvent {
    Connected,
    ConnectFailed(Errno),
    Sent(usize),
    SendFailed(Errno),
}

/// How far a transfer is.
#[derive(Clone, Copy, Debug, PartialEq, Eq, Structural)]
pub enum SendPhase {
    Connecting,
    /// The messages before `next` are sent, with `total_sent` bytes; `polls`
    /// counts how often the socket was not ready, for this message and before
    /// it was connected.
    Sending { next: usize, polls: usize, total_sent: usize },
    Closed,
}

/// The state of a transfer apart from what its messages hold.
#[derive(Clone, Copy, Debug, PartialEq, Eq, Structural)]
pub struct SendState {
    /// How many messages there are to send.
    pub messages: usize,
    pub max_retry: usize,
    /// Tries that found no peer.
    pub retried: usize,
    /// Tries to connect that found the socket not ready.
    pub nonblocking_polls: usize,
    pub phase: SendPhase,
}

/// The peer may still come up: its socket is not there yet, nobody listens on
/// it yet, or its permissions are not set yet.
pub open spec fn peer_not_ready(e: Errno) -> bool {
    e == Errno::ENOENT || e == Errno::ECONNREFUSED || e == Errno::EACCES
}

impl SendState {
    /// A transfer of `messages` messages before its first try to connect.
    pub open spec fn initial(messages: usize, max_retry: usize) -> SendState {
        SendState {
            messages,
            max_retry,
            retried: 0,
            nonblocking_polls: 0,
            phase: SendPhase::Connecting,
        }
    }

    /// The counters are within their limits, and no message is sent that is
    /// not there.
    pub open spec fn wf(self) -> bool {
        &&& self.retried <= self.max_retry
        &&& self.nonblocking_polls < MAX_NONBLOCKING_POLLS
        &&& self.phase matches SendPhase::Sending { next, polls, total_sent } ==> next
            < self.messages && self.nonblocking_polls <= polls < MAX_NONBLOCKING_POLLS
    }

    /// The event can come of the action that the state asks for. The bytes of
    /// a transfer are counted in a machine word.
    pub open spec fn fits(self, event: SendEvent) -> bool {
        match self.phase {
            SendPhase::Connecting => event is Connected || event is ConnectFailed,
            SendPhase::Sending { next, polls, total_sent } => match event {
                SendEvent::Sent(n) => total_sent + n <= usize::MAX,
                SendEvent::SendFailed(e) => true,
                _ => false,
            },
            SendPhase::Closed => false,
        }
    }

    /// The transfer is over, with this result.
    pub open spec fn closed(self, result: Result<usize, Errno>) -> (SendState, SendAction) {
        (SendState { phase: SendPhase::Closed, ..self }, SendAction::Close(result))
    }

    /// The next state and the next action after an event.
    ///
    /// A peer that is not ready is tried again `max_retry` times, a socket
    /// that is not ready is polled until the limit is reached, and any other
    /// error ends the transfer. Each message may use up the polls that
    /// connecting left over.
    pub open spec fn after(self, event: SendEvent) -> (SendState, SendAction) {
        match (self.phase, event) {
            (SendPhase::Connecting, SendEvent::Connected) => self.send_next(0, 0),
            (SendPhase::Connecting, SendEvent::ConnectFailed(e)) => {
                if peer_not_ready(e) && self.retried < self.max_retry {
                    (
                        SendState { retried: (self.retried + 1) as usize, ..self },
                        SendAction::Connect { delay_ms: RETRY_INTERVAL_MS },
                    )
                } else if e == Errno::EINPROGRESS && self.nonblocking_polls + 1
                    < MAX_NONBLOCKING_POLLS {
                    (
                        SendState {
                            nonblocking_polls: (self.nonblocking_polls + 1) as usize,
                            ..self
                        },
                        SendAction::Connect { delay_ms: NONBLOCKING_POLL_INTERVAL_MS },
                    )
                } else {
                    self.closed(Err(e))
                }
            },
            (SendPhase::Sending { next, polls, total_sent }, SendEvent::Sent(n)) => self.send_next(
                next + 1,
                total_sent + n,
            ),
            (SendPhase::Sending { next, polls, total_sent }, SendEvent::SendFailed(e)) => {
                if e == Errno::EAGAIN && polls + 1 < MAX_NONBLOCKING_POLLS {
                    (
                        SendState {
                            phase: SendPhase::Sending {
                                next,
                                polls: (polls + 1) as usize,
                                total_sent,
                            },
                            ..self
                        },
                        SendAction::Send {
                            message: next,
                            delay_ms: NONBLOCKING_POLL_INTERVAL_MS,
                        },
                    )
                } else {
                    self.closed(Err(e))
                }
            },
            _ => arbitrary(),
        }
    }

    /// The message of place `next` is to be sent, where there is one; else
    /// the transfer has succeeded with `total_sent` bytes.
    pub open spec fn send_next(self, next: int, total_sent: int) -> (SendState, SendAction) {
        if next < self.messages {
            (
                SendState {
                    phase: SendPhase::Sending {
                        next: next as usize,
                        polls: self.nonblocking_polls,
                        total_sent: total_sent as usize,
                    },
                    ..self
                },
                SendAction::Send { message: next as usize, delay_ms: 0 },
            )
        } else {
            self.closed(Ok(total_sent as usize))
        }
    }
}

/// A transfer of messages to the process that listens on a socket.
///
/// The caller performs each action that it is given, and reports what came of
/// it; a transfer starts with a try to connect.
pub struct FdSender {
    messages: Vec<FdMessage>,
    state: SendState,
}

impl FdSender {
    /// What the messages hold.
    pub closed spec fn outgoing(&self) -> Seq<Message> {
        contents(self.messages@)
    }

    /// How far the transfer is.
    pub closed spec fn state(&self) -> SendState {
        self.state
    }

    /// The state is sound and counts these messages.
    pub open spec fn wf(&self) -> bool {
        &&& self.state().wf()
        &&& self.state().messages == self.outgoing().len()
    }

    fn new(messages: Vec<FdMessage>, max_retry: Option<usize>) -> (r: Self)
        ensures
            r.wf(),
            r.outgoing() == contents(messages@),
            r.state() == SendState::initial(
                messages@.len() as usize,
                match max_retry {
                    Some(n) => n,
                    None => MAX_RETRY,
                },
            ),
    {
        let max_retry: usize = match max_retry {
            Some(n) => n,
            None => MAX_RETRY,
        };
        let state = SendState {
            messages: messages.len(),
            max_retry,
            retried: 0,
            nonblocking_polls: 0,
            phase: SendPhase::Connecting,
        };
        FdSender { messages, state }
    }

    /// The first action of a transfer.
    pub fn start(&self) -> (action: SendAction)
        ensures
            action == (SendAction::Connect { delay_ms: 0 }),
    {
        SendAction::Connect { delay_ms: 0 }
    }

    /// The message of a place in the list.
    pub fn message(&self, index: usize) -> (r: Option<&FdMessage>)
        ensures
            match r {
                Some(m) => index < self.outgoing().len() && m@ == self.outgoing()[index as int],
                None => index >= self.outgoing().len(),
            },
    {
        if index < self.messages.len() {
            Some(&self.messages[index])
        } else {
            None
        }
    }

    /// Whether `event` can come of the action that the transfer asked for.
    pub fn accepts(&self, event: SendEvent) -> (r: bool)
        ensures
            r == self.state().fits(event),
    {
        match self.state.phase {
            SendPhase::Connecting => match event {
                SendEvent::Connected => true,
                SendEvent::ConnectFailed(_) => true,
                _ => false,
            },
            SendPhase::Sending { next: _, polls: _, total_sent } => match event {
                SendEvent::Sent(n) => n <= usize::MAX - total_sent,
                SendEvent::SendFailed(_) => true,
                _ => false,
            },
            SendPhase::Closed => false,
        }
    }

    /// Ends the transfer.
    fn close(&mut self, result: Result<usize, Errno>) -> (action: SendAction)
        requires
            old(self).wf(),
        ensures
            final(self).wf(),
            final(self).outgoing() == old(self).outgoing(),
            (final(self).state(), action) == old(self).state().closed(result),
    {
        self.state.phase = SendPhase::Closed;
        SendAction::Close(result)
    }

    /// Goes on to the message of place `next`.
    fn send_next(&mut self, next: usize, total_sent: usize) -> (action: SendAction)
        requires
            old(self).wf(),
        ensures
            final(self).wf(),
            final(self).outgoing() == old(self).outgoing(),
            (final(self).state(), action) == old(self).state().send_next(
                next as int,
                total_sent as int,
            ),
    {
        if next < self.state.messages {
            self.state.phase = SendPhase::Sending {
                next,
                polls: self.state.nonblocking_polls,
                total_sent,
            };
            SendAction::Send { message: next, delay_ms: 0 }
        } else {
            self.close(Ok(total_sent))
        }
    }

    /// Takes in what came of the last action, and gives the next one.
    pub fn on_event(&mut self, event: SendEvent) -> (action: SendAction)
        requires
            old(self).wf(),
            old(self).state().fits(event),
        ensures
            final(self).wf(),
            final(self).outgoing() == old(self).outgoing(),
            (final(self).state(), action) == old(self).state().after(event),
    {
        match self.state.phase {
            SendPhase::Connecting => match event {
                SendEvent::Connected => self.send_next(0, 0),
                SendEvent::ConnectFailed(e) => self.connect_failed(e),
                _ => vstd::pervasive::unreached(),
            },
            SendPhase::Sending { next, polls, total_sent } => match event {
                SendEvent::Sent(n) => self.send_next(next + 1, total_sent + n),
                SendEvent::SendFailed(e) => {
                    if e == Errno::EAGAIN && polls + 1 < MAX_NONBLOCKING_POLLS {
                        self.state.phase = SendPhase::Sending { next, polls: polls + 1, total_sent };
                        SendAction::Send {
                            message: next,
                            delay_ms: NONBLOCKING_POLL_INTERVAL_MS,
                        }
                    } else {
                        self.close(Err(e))
                    }
                },
                _ => vstd::pervasive::unreached(),
            },
            SendPhase::Closed => vstd::pervasive::unreached(),
        }
    }

    /// Decides whether to try to connect once more.
    fn connect_failed(&mut self, e: Errno) -> (action: SendAction)
        requires
            old(self).wf(),
            old(self).state().phase is Connecting,
        ensures
            final(self).wf(),
            final(self).outgoing() == old(self).outgoing(),
            (final(self).state(), action) == old(self).state().after(SendEvent::ConnectFailed(e)),
    {
        match e {
            Errno::ENOENT | Errno::ECONNREFUSED | Errno::EACCES => {
                if self.state.retried < self.state.max_retry {
                    self.state.retried = self.state.retried + 1;
                    SendAction::Connect { delay_ms: RETRY_INTERVAL_MS }
                } else {
                    self.close(Err(e))
                }
            },
            Errno::EINPROGRESS => {
                if self.state.nonblocking_polls + 1 < MAX_NONBLOCKING_POLLS {
                    self.state.nonblocking_polls = self.state.nonblocking_polls + 1;
                    SendAction::Connect { delay_ms: NONBLOCKING_POLL_INTERVAL_MS }
                } else {
                    self.close(Err(e))
                }
            },
            _ => self.close(Err(e)),
        }
    }
}

/// Starts to send descriptors with a payload, in one message.
pub fn send_fds_to(fds: Vec<RawFd>, payload: &[u8], max_retry: Option<usize>) -> (r: FdSender)
    ensures
        r.wf(),
        r.outgoing() == seq![Message { payload: payload@, fds: fds@ }],
        r.state() == SendState::initial(
            1,
            match max_retry {
                Some(n) => n,
                None => MAX_RETRY,
            },
        ),
{
    let mut messages: Vec<FdMessage> = Vec::new();
    let message = FdMessage { payload: vstd::slice::slice_to_vec(payload), fds };
    messages.push(message);
    assert(contents(messages@) =~= seq![Message { payload: payload@, fds: fds@ }]);
    FdSender::new(messages, max_retry)
}

/// Starts to send descriptors and their addresses, in as many messages as the
/// kernel's limit asks for.
pub fn send_fds_chunked_to(keys: &[String], fds: &[RawFd], max_retry: Option<usize>) -> (r: FdSender)
    requires
        keys@.len() == fds@.len(),
    ensures
        r.wf(),
        r.outgoing() == chunked(texts(keys@), fds@),
        r.state() == SendState::initial(
            chunked(texts(keys@), fds@).len() as usize,
            match max_retry {
                Some(n) => n,
                None => MAX_RETRY,
            },
        ),
{
    FdSender::new(chunk_messages(keys, fds), max_retry)
}

impl Fds {
    /// Starts to send the table to another process.
    pub fn send_to_sock(&self) -> (r: FdSender)
        requires
            self.wf(),
        ensures
            r.wf(),
            exists|keys: Seq<Seq<char>>, fds: Seq<RawFd>|
                keys.len() == fds.len() && distinct(keys) && absorbed(Map::empty(), keys, fds)
                    == self@ && r.outgoing() == #[trigger] chunked(keys, fds) && r.state()
                    == SendState::initial(chunked(keys, fds).len() as usize, MAX_RETRY),
    {
        let (keys, fds) = self.serialize();
        send_fds_chunked_to(keys.as_slice(), fds.as_slice(), None)
    }
}

/// The state after the events, in order.
pub open spec fn run(s: SendState, events: Seq<SendEvent>) -> SendState
    decreases events.len(),
{
    if events.len() == 0 {
        s
    } else {
        run(s, events.drop_last()).after(events.last()).0
    }
}

/// Each event fits the state that it meets.
pub open spec fn runs(s: SendState, events: Seq<SendEvent>) -> bool
    decreases events.len(),
{
    events.len() > 0 ==> runs(s, events.drop_last()) && run(s, events.drop_last()).fits(
        events.last(),
    )
}

/// The action that the last event led to.
pub open spec fn last_action(s: SendState, events: Seq<SendEvent>) -> SendAction {
    if events.len() == 0 {
        SendAction::Connect { delay_ms: 0 }
    } else {
        run(s, events.drop_last()).after(events.last()).1
    }
}

/// How many messages the events report as sent.
pub open spec fn sent_count(events: Seq<SendEvent>) -> nat
    decreases events.len(),
{
    if events.len() == 0 {
        0
    } else {
        sent_count(events.drop_last()) + if events.last() is Sent {
            1nat
        } else {
            0
        }
    }
}

/// How many bytes the events report as sent.
pub open spec fn sent_bytes(events: Seq<SendEvent>) -> nat
    decreases events.len(),
{
    if events.len() == 0 {
        0
    } else {
        sent_bytes(events.drop_last()) + match events.last() {
            SendEvent::Sent(n) => n as nat,
            _ => 0,
        }
    }
}

/// How long an action waits.
pub open spec fn delay(action: SendAction) -> nat {
    match action {
        SendAction::Connect { delay_ms } => delay_ms as nat,
        SendAction::Send { message, delay_ms } => delay_ms as nat,
        SendAction::Close(r) => 0,
    }
}

/// How long the transfer has waited, in milliseconds.
pub open spec fn waited(s: SendState, events: Seq<SendEvent>) -> nat
    decreases events.len(),
{
    if events.len() == 0 {
        0
    } else {
        waited(s, events.drop_last()) + delay(last_action(s, events))
    }
}

/// What a run keeps, of whatever events it is made.
proof fn lemma_run(messages: usize, max_retry: usize, events: Seq<SendEvent>)
    requires
        runs(SendState::initial(messages, max_retry), events),
    ensures
        ({
            let s = run(SendState::initial(messages, max_retry), events);
            let w = waited(SendState::initial(messages, max_retry), events);
            &&& s.wf()
            &&& s.messages == messages
            &&& s.max_retry == max_retry
            &&& s.phase is Connecting ==> {
                &&& sent_count(events) == 0
                &&& sent_bytes(events) == 0
                &&& w == RETRY_INTERVAL_MS * s.retried + NONBLOCKING_POLL_INTERVAL_MS
                    * s.nonblocking_polls
            }
            &&& s.phase matches SendPhase::Sending { next, polls, total_sent } ==> {
                &&& sent_count(events) == next
                &&& sent_bytes(events) == total_sent
                &&& w <= RETRY_INTERVAL_MS * s.retried + NONBLOCKING_POLL_INTERVAL_MS * (19 * next
                    + polls)
            }
            &&& s.phase is Closed ==> {
                &&& last_action(SendState::initial(messages, max_retry), events) is Close
                &&& w <= RETRY_INTERVAL_MS * max_retry + NONBLOCKING_POLL_INTERVAL_MS * (19 * if messages
                    == 0 {
                    1
                } else {
                    messages as int
                })
            }
        }),
    decreases events.len(),
{
    if events.len() > 0 {
        lemma_run(messages, max_retry, events.drop_last());
    }
}

/// Success is reported only when every message was sent, each once, and the
/// result is the number of bytes that went out.
pub proof fn law_success_means_all_sent(
    messages: usize,
    max_retry: usize,
    events: Seq<SendEvent>,
    total: usize,
)
    requires
        runs(SendState::initial(messages, max_retry), events),
        last_action(SendState::initial(messages, max_retry), events) == SendAction::Close(Ok(total)),
    ensures
        sent_count(events) == messages,
        sent_bytes(events) == total,
{
    lemma_run(messages, max_retry, events.drop_last());
}

/// While a transfer goes on, the messages that were sent are those before the
/// one that is asked for: the list goes out in order, none twice.
pub proof fn law_messages_in_order(messages: usize, max_retry: usize, events: Seq<SendEvent>)
    requires
        runs(SendState::initial(messages, max_retry), events),
    ensures
        last_action(SendState::initial(messages, max_retry), events) matches SendAction::Send {
            message,
            delay_ms,
        } ==> message == sent_count(events) && message < messages,
{
    lemma_run(messages, max_retry, events);
    if events.len() > 0 {
        lemma_run(messages, max_retry, events.drop_last());
    }
}

/// A peer that never gets ready is tried again exactly `max_retry` times, one
/// retry interval apart; then its last error is the result.
pub proof fn law_retry_budget(messages: usize, max_retry: usize, errors: Seq<Errno>)
    requires
        forall|i: int| 0 <= i < errors.len() ==> peer_not_ready(#[trigger] errors[i]),
        errors.len() <= max_retry + 1,
    ensures
        ({
            let s = SendState::initial(messages, max_retry);
            let events = errors.map_values(|e: Errno| SendEvent::ConnectFailed(e));
            &&& runs(s, events)
            &&& errors.len() <= max_retry ==> run(s, events).phase is Connecting && waited(s, events)
                == RETRY_INTERVAL_MS * errors.len()
            &&& errors.len() == max_retry + 1 ==> last_action(s, events) == SendAction::Close(
                Err(errors.last()),
            ) && waited(s, events) == RETRY_INTERVAL_MS * max_retry
        }),
    decreases errors.len(),
{
    let s = SendState::initial(messages, max_retry);
    let events = errors.map_values(|e: Errno| SendEvent::ConnectFailed(e));
    if errors.len() > 0 {
        let init = errors.drop_last();
        law_retry_budget(messages, max_retry, init);
        assert(init.map_values(|e: Errno| SendEvent::ConnectFailed(e)) =~= events.drop_last());
        assert(peer_not_ready(errors[errors.len() - 1]));
        lemma_not_ready_run(messages, max_retry, init);
    }
}

proof fn lemma_not_ready_run(messages: usize, max_retry: usize, errors: Seq<Errno>)
    requires
        forall|i: int| 0 <= i < errors.len() ==> peer_not_ready(#[trigger] errors[i]),
        errors.len() <= max_retry,
    ensures
        ({
            let s = SendState::initial(messages, max_retry);
            let events = errors.map_values(|e: Errno| SendEvent::ConnectFailed(e));
            run(s, events) == SendState { retried: errors.len() as usize, ..s }
        }),
    decreases errors.len(),
{
    let events = errors.map_values(|e: Errno| SendEvent::ConnectFailed(e));
    if errors.len() > 0 {
        let init = errors.drop_last();
        lemma_not_ready_run(messages, max_retry, init);
        assert(init.map_values(|e: Errno| SendEvent::ConnectFailed(e)) =~= events.drop_last());
        assert(peer_not_ready(errors[errors.len() - 1]));
    }
}

/// Whatever the sockets report, a transfer waits for a bounded time: the
/// retries, and for each message less than the limit of polls.
pub proof fn law_bounded_waiting(messages: usize, max_retry: usize, events: Seq<SendEvent>)
    requires
        runs(SendState::initial(messages, max_retry), events),
    ensures
        waited(SendState::initial(messages, max_retry), events) <= RETRY_INTERVAL_MS * max_retry
            + NONBLOCKING_POLL_INTERVAL_MS * (MAX_NONBLOCKING_POLLS - 1) * if messages == 0 {
            1
        } else {
            messages as int
        },
{
    lemma_run(messages, max_retry, events);
    assert(NONBLOCKING_POLL_INTERVAL_MS * (MAX_NONBLOCKING_POLLS - 1) == 9500);
    let s = run(SendState::initial(messages, max_retry), events);
    if let SendPhase::Sending { next, polls, total_sent } = s.phase {
        assert(19 * next + polls <= 19 * messages);
    }
}

/// A message shows its own bytes and descriptors, and a list of messages those
/// of each.
pub proof fn law_contents(v: Seq<FdMessage>, i: int)
    requires
        0 <= i < v.len(),
    ensures
        contents(v).len() == v.len(),
        contents(v)[i].payload == v[i].payload@,
        contents(v)[i].fds == v[i].fds@,
{
}

/// The message of place `i` carries the bindings from 253 times `i` on, 253 of
/// them or those that are left: their descriptors, and the wire form of their
/// addresses.
pub proof fn law_chunk_at(keys: Seq<Seq<char>>, fds: Seq<RawFd>, i: int)
    requires
        keys.len() == fds.len(),
        0 <= i,
        253 * i < keys.len(),
    ensures
        ({
            let from = 253 * i;
            let to = if from + 253 <= keys.len() {
                from + 253
            } else {
                keys.len() as int
            };
            &&& i < chunked(keys, fds).len()
            &&& chunked(keys, fds)[i].fds == fds.subrange(from, to)
            &&& chunked(keys, fds)[i].payload == joined(keys.subrange(from, to))
        }),
    decreases keys.len(),
{
    let n = chunk_len(keys.len()) as int;
    let from = 253 * i;
    let to = if from + 253 <= keys.len() {
        from + 253
    } else {
        keys.len() as int
    };
    let rest = chunked(keys.skip(n), fds.skip(n));
    if i == 0 {
        assert(keys.take(n) =~= keys.subrange(from, to));
        assert(fds.take(n) =~= fds.subrange(from, to));
    } else {
        assert(n == 253);
        law_chunk_at(keys.skip(n), fds.skip(n), i - 1);
        assert(chunked(keys, fds)[i] == rest[i - 1]);
        assert(keys.skip(n).subrange(from - 253, to - 253) =~= keys.subrange(from, to));
        assert(fds.skip(n).subrange(from - 253, to - 253) =~= fds.subrange(from, to));
    }
}

/// How many of the events report that the peer was not ready.
pub open spec fn not_ready_count(events: Seq<SendEvent>) -> nat
    decreases events.len(),
{
    if events.len() == 0 {
        0
    } else {
        not_ready_count(events.drop_last()) + if events.last() == SendEvent::ConnectFailed(
            Errno::ENOENT,
        ) || events.last() == SendEvent::ConnectFailed(Errno::ECONNREFUSED) || events.last()
            == SendEvent::ConnectFailed(Errno::EACCES) {
            1nat
        } else {
            0
        }
    }
}

/// How many of the events report that the socket was still connecting.
pub open spec fn in_progress_count(events: Seq<SendEvent>) -> nat
    decreases events.len(),
{
    if events.len() == 0 {
        0
    } else {
        in_progress_count(events.drop_last()) + if events.last() == SendEvent::ConnectFailed(
            Errno::EINPROGRESS,
        ) {
            1nat
        } else {
            0
        }
    }
}

/// How many of the last events, without another one between them, report that
/// the socket was not ready to send.
pub open spec fn stalled_count(events: Seq<SendEvent>) -> nat
    decreases events.len(),
{
    if events.len() == 0 || events.last() != SendEvent::SendFailed(Errno::EAGAIN) {
        0
    } else {
        stalled_count(events.drop_last()) + 1
    }
}

/// What the state of a transfer has counted.
proof fn lemma_counts(messages: usize, max_retry: usize, events: Seq<SendEvent>)
    requires
        runs(SendState::initial(messages, max_retry), events),
    ensures
        ({
            let s = run(SendState::initial(messages, max_retry), events);
            &&& s.messages == messages
            &&& s.max_retry == max_retry
            &&& s.phase is Connecting ==> {
                &&& s.retried == not_ready_count(events)
                &&& s.nonblocking_polls == in_progress_count(events)
                &&& sent_count(events) == 0
                &&& sent_bytes(events) == 0
                &&& stalled_count(events) == 0
                &&& not_ready_count(events) <= max_retry
                &&& in_progress_count(events) < 20
            }
            &&& s.phase matches SendPhase::Sending { next, polls, total_sent } ==> {
                &&& s.nonblocking_polls == in_progress_count(events)
                &&& next == sent_count(events)
                &&& next < messages
                &&& total_sent == sent_bytes(events)
                &&& polls == in_progress_count(events) + stalled_count(events)
                &&& polls < 20
            }
        }),
    decreases events.len(),
{
    if events.len() > 0 {
        lemma_counts(messages, max_retry, events.drop_last());
    }
}

/// What a transfer does next follows from what was reported so far, and from
/// nothing else. A peer that is not ready is tried again after a second,
/// `max_retry` times; a socket that is connecting is tried again after half a
/// second, until the twentieth report; any other error of connecting ends the
/// transfer. Once it is connected, the messages are sent one after the other,
/// at once; a socket that is not ready to send is tried again after half a
/// second, until it and the connecting socket have made twenty reports for one
/// message; any other error of sending ends the transfer. Behind the last
/// message it ends well, with the bytes that went out.
pub proof fn law_next_action(messages: usize, max_retry: usize, events: Seq<SendEvent>)
    requires
        events.len() > 0,
        runs(SendState::initial(messages, max_retry), events),
    ensures
        ({
            let action = last_action(SendState::initial(messages, max_retry), events);
            match events.last() {
                SendEvent::Connected => if messages > 0 {
                    action == (SendAction::Send { message: 0, delay_ms: 0 })
                } else {
                    action == SendAction::Close(Ok(0))
                },
                SendEvent::ConnectFailed(e) => if (e == Errno::ENOENT || e == Errno::ECONNREFUSED
                    || e == Errno::EACCES) && not_ready_count(events) <= max_retry {
                    action == (SendAction::Connect { delay_ms: 1000 })
                } else if e == Errno::EINPROGRESS && in_progress_count(events) < 20 {
                    action == (SendAction::Connect { delay_ms: 500 })
                } else {
                    action == SendAction::Close(Err(e))
                },
                SendEvent::Sent(n) => if sent_count(events) < messages {
                    action matches SendAction::Send { message, delay_ms } && message == sent_count(
                        events,
                    ) && delay_ms == 0
                } else {
                    action matches SendAction::Close(Ok(total)) && total == sent_bytes(events)
                },
                SendEvent::SendFailed(e) => if e == Errno::EAGAIN && in_progress_count(events)
                    + stalled_count(events) < 20 {
                    action matches SendAction::Send { message, delay_ms } && message == sent_count(
                        events,
                    ) && delay_ms == 500
                } else {
                    action == SendAction::Close(Err(e))
                },
            }
        }),
{
    lemma_counts(messages, max_retry, events.drop_last());
}

/// In every state, whatever it has counted, a transfer that is connecting takes
/// in each result of connecting, and one that is sending each result of
/// sending whose bytes can be counted; one that is over takes in nothing.
pub proof fn law_takes_in(s: SendState, event: SendEvent)
    ensures
        s.phase is Connecting ==> (s.fits(event) <==> event is Connected || event is ConnectFailed),
        s.phase matches SendPhase::Sending { next, polls, total_sent } ==> (s.fits(event) <==> (
        event is SendFailed || (event matches SendEvent::Sent(n) && total_sent + n <= usize::MAX))),
        s.phase is Closed ==> !s.fits(event),
{
}

/// In every state, whatever it has counted, a connection that comes about asks
/// for the first message, and a message that was sent for the next one; where
/// there is no further message, the transfer ends well.
pub proof fn law_progress(s: SendState, n: usize)
    ensures
        s.phase is Connecting && s.messages > 0 ==> s.after(SendEvent::Connected).1 == (
        SendAction::Send { message: 0, delay_ms: 0 }) && s.after(SendEvent::Connected).0.phase
            == (SendPhase::Sending { next: 0, polls: s.nonblocking_polls, total_sent: 0 }),
        s.phase is Connecting && s.messages == 0 ==> s.after(SendEvent::Connected).1
            == SendAction::Close(Ok(0)),
        s.phase matches SendPhase::Sending { next, polls, total_sent } ==> next < s.messages
            && total_sent + n <= usize::MAX ==> if next + 1 < s.messages {
            s.after(SendEvent::Sent(n)).1 == (SendAction::Send {
                message: (next + 1) as usize,
                delay_ms: 0,
            })
        } else {
            s.after(SendEvent::Sent(n)).1 == SendAction::Close(Ok((total_sent + n) as usize))
        },
{
}

/// The sum of what the sends report.
pub open spec fn total(sizes: Seq<usize>) -> nat
    decreases sizes.len(),
{
    if sizes.len() == 0 {
        0
    } else {
        total(sizes.drop_last()) + sizes.last() as nat
    }
}

/// Sends that all succeed.
pub open spec fn all_sent(sizes: Seq<usize>) -> Seq<SendEvent> {
    sizes.map_values(|n: usize| SendEvent::Sent(n))
}

/// Tries to connect that all fail, with these errors.
pub open spec fn all_failed(errors: Seq<Errno>) -> Seq<SendEvent> {
    errors.map_values(|e: Errno| SendEvent::ConnectFailed(e))
}

proof fn lemma_failed_run(messages: usize, max_retry: usize, errors: Seq<Errno>)
    requires
        forall|i: int|
            0 <= i < errors.len() ==> (#[trigger] errors[i] == Errno::ENOENT || errors[i]
                == Errno::ECONNREFUSED || errors[i] == Errno::EACCES || errors[i]
                == Errno::EINPROGRESS),
        not_ready_count(all_failed(errors)) <= max_retry,
        in_progress_count(all_failed(errors)) < 20,
    ensures
        ({
            let s = SendState::initial(messages, max_retry);
            &&& runs(s, all_failed(errors))
            &&& run(s, all_failed(errors)).phase is Connecting
        }),
    decreases errors.len(),
{
    if errors.len() > 0 {
        let init = errors.drop_last();
        let events = all_failed(errors);
        assert(events.drop_last() =~= all_failed(init));
        assert(events.last() == SendEvent::ConnectFailed(errors.last()));
        assert forall|i: int| 0 <= i < init.len() implies (#[trigger] init[i] == Errno::ENOENT
            || init[i] == Errno::ECONNREFUSED || init[i] == Errno::EACCES || init[i]
            == Errno::EINPROGRESS) by {
            assert(init[i] == errors[i]);
        }
        assert(errors[errors.len() - 1] == errors.last());
        lemma_failed_run(messages, max_retry, init);
        lemma_counts(messages, max_retry, all_failed(init));
    }
}

proof fn lemma_sent_run(
    messages: usize,
    max_retry: usize,
    errors: Seq<Errno>,
    sizes: Seq<usize>,
)
    requires
        runs(SendState::initial(messages, max_retry), all_failed(errors)),
        run(SendState::initial(messages, max_retry), all_failed(errors)).phase is Connecting,
        sizes.len() <= messages,
        total(sizes) <= usize::MAX,
    ensures
        ({
            let s = SendState::initial(messages, max_retry);
            let events = all_failed(errors).push(SendEvent::Connected) + all_sent(sizes);
            let state = run(s, events);
            &&& runs(s, events)
            &&& sent_count(events) == sizes.len()
            &&& sent_bytes(events) == total(sizes)
            &&& sizes.len() < messages ==> state.phase is Sending
        }),
    decreases sizes.len(),
{
    let s = SendState::initial(messages, max_retry);
    let front = all_failed(errors).push(SendEvent::Connected);
    let events = front + all_sent(sizes);
    lemma_counts(messages, max_retry, all_failed(errors));
    if sizes.len() == 0 {
        assert(events =~= front);
        assert(front.drop_last() =~= all_failed(errors));
    } else {
        let init = sizes.drop_last();
        assert(events.drop_last() =~= front + all_sent(init));
        assert(events.last() == SendEvent::Sent(sizes.last()));
        lemma_sent_run(messages, max_retry, errors, init);
        lemma_counts(messages, max_retry, front + all_sent(init));
    }
}

/// A transfer whose peer gets ready in time, and whose sends all succeed, ends
/// well with the bytes that went out: however often the peer was not ready, up
/// to `max_retry` times, and the socket was still connecting, up to nineteen
/// times, in whatever order.
pub proof fn law_transfer_completes(
    messages: usize,
    max_retry: usize,
    errors: Seq<Errno>,
    sizes: Seq<usize>,
)
    requires
        forall|i: int|
            0 <= i < errors.len() ==> (#[trigger] errors[i] == Errno::ENOENT || errors[i]
                == Errno::ECONNREFUSED || errors[i] == Errno::EACCES || errors[i]
                == Errno::EINPROGRESS),
        not_ready_count(all_failed(errors)) <= max_retry,
        in_progress_count(all_failed(errors)) < 20,
        sizes.len() == messages,
        total(sizes) <= usize::MAX,
    ensures
        ({
            let s = SendState::initial(messages, max_retry);
            let events = all_failed(errors).push(SendEvent::Connected) + all_sent(sizes);
            &&& runs(s, events)
            &&& last_action(s, events) == SendAction::Close(Ok(total(sizes) as usize))
        }),
{
    let s = SendState::initial(messages, max_retry);
    let events = all_failed(errors).push(SendEvent::Connected) + all_sent(sizes);
    lemma_failed_run(messages, max_retry, errors);
    lemma_sent_run(messages, max_retry, errors, sizes);
    if messages == 0 {
        assert(events.last() == SendEvent::Connected);
    } else {
        assert(events.last() == SendEvent::Sent(sizes.last()));
    }
    law_next_action(messages, max_retry, events);
}

/// A transfer starts with no try made, no message sent, and its own limits.
pub proof fn law_initial(messages: usize, max_retry: usize)
    ensures
        SendState::initial(messages, max_retry) == (SendState {
            messages,
            max_retry,
            retried: 0,
            nonblocking_polls: 0,
            phase: SendPhase::Connecting,
        }),
        SendState::initial(messages, max_retry).wf(),
{
}

} // verus!
