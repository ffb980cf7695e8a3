//! Taking over open descriptors from another process: how long to wait for
//! it, and what its messages add up to.
use crate::errno::Errno;
use crate::fd_send::{
    chunk_len, chunked, law_chunks, Message, MAX_FDS_PER_MSG, MAX_RETRY, RETRY_INTERVAL_MS,
};
use crate::fds::{absorbed, distinct, lemma_absorbed, Fds, RawFd};
use crate::key_codec::{
    decoded, deserialize_vec_string, is_key, is_separator, joined, law_empty_form,
    law_keys_round_trip, lemma_cut, texts, tokens,
};
use vstd::prelude::*;
use vstd::utf8::valid_utf8;

verus! {

/// How many bytes of payload one read takes at most.
pub const RECV_BUFFER_LEN: usize = 32768;

/// What the receiving process does after a failed accept.
#[derive(Clone, Copy, Debug, PartialEq, Eq, Structural)]
pub enum AcceptAction {
    /// Wait, then accept again.
    Accept { delay_ms: u64 },
    /// Give up; this is the result.
    GiveUp(Errno),
}

/// How often a listener has waited for its peer.
#[derive(Clone, Copy, Debug, PartialEq, Eq, Structural)]
pub struct AcceptRetry {
    pub max_retry: usize,
    /// How often nobody had come.
    pub retried: usize,
}

impl AcceptRetry {
    /// A listener that has not waited yet.
    pub fn new(max_retry: Option<usize>) -> (r: Self)
        ensures
            r.retried == 0,
            r.max_retry == match max_retry {
                Some(n) => n,
                None => MAX_RETRY,
            },
    {
        let max_retry: usize = match max_retry {
            Some(n) => n,
            None => MAX_RETRY,
        };
        AcceptRetry { max_retry, retried: 0 }
    }

    /// The listener gives up at the next error.
    pub open spec fn exhausted(self) -> bool {
        self.retried >= self.max_retry
    }

    /// The next state and the next action after a failed accept.
    pub open spec fn after(self, e: Errno) -> (AcceptRetry, AcceptAction) {
        if e == Errno::EAGAIN && !self.exhausted() {
            (
                AcceptRetry { retried: (self.retried + 1) as usize, ..self },
                AcceptAction::Accept { delay_ms: RETRY_INTERVAL_MS },
            )
        } else {
            (self, AcceptAction::GiveUp(e))
        }
    }

    /// Decides what follows a failed accept: where nobody has come yet, the
    /// listener waits and tries again until its retries are used up; any
    /// other error ends it.
    pub fn accept_with_retry_timeout(&mut self, e: Errno) -> (action: AcceptAction)
        ensures
            (*final(self), action) == old(self).after(e),
    {
        if self.retried >= self.max_retry {
            return AcceptAction::GiveUp(e);
        }
        match e {
            Errno::EAGAIN => {
                self.retried = self.retried + 1;
                AcceptAction::Accept { delay_ms: RETRY_INTERVAL_MS }
            },
            _ => AcceptAction::GiveUp(e),
        }
    }
}

/// A control message that came with a payload.
#[derive(Debug)]
pub enum ControlMessage {
    /// Descriptors.
    ScmRights(Vec<RawFd>),
    /// Anything else.
    Unexpected,
}

/// The descriptors of the control messages, in order.
pub open spec fn rights(cmsgs: Seq<ControlMessage>) -> Seq<RawFd>
    decreases cmsgs.len(),
{
    if cmsgs.len() == 0 {
        seq![]
    } else {
        rights(cmsgs.drop_last()) + match cmsgs.last() {
            ControlMessage::ScmRights(fds) => fds@,
            ControlMessage::Unexpected => seq![],
        }
    }
}

/// Gathers the descriptors of the control messages.
pub fn collect_rights(cmsgs: &Vec<ControlMessage>) -> (fds: Vec<RawFd>)
    ensures
        fds@ == rights(cmsgs@),
{
    let mut fds: Vec<RawFd> = Vec::new();
    let mut i: usize = 0;
    while i < cmsgs.len()
        invariant
            i <= cmsgs@.len(),
            fds@ == rights(cmsgs@.take(i as int)),
        decreases cmsgs@.len() - i,
    {
        let ghost before = fds@;
        assert(cmsgs@.take(i + 1).drop_last() =~= cmsgs@.take(i as int));
        assert(cmsgs@.take(i + 1).last() == cmsgs@[i as int]);
        match &cmsgs[i] {
            ControlMessage::ScmRights(chunk) => {
                fds.extend_from_slice(chunk.as_slice());
                assert(fds@ =~= before + chunk@);
            },
            ControlMessage::Unexpected => {
                assert(fds@ =~= before + Seq::<RawFd>::empty());
            },
        }
        i = i + 1;
    }
    assert(cmsgs@.take(i as int) =~= cmsgs@);
    fds
}

/// The result of taking over one message of `bytes` bytes.
pub fn get_fds_from(cmsgs: Vec<ControlMessage>, bytes: usize) -> (r: (Vec<RawFd>, usize))
    ensures
        r.0@ == rights(cmsgs@),
        r.1 == bytes,
{
    (collect_rights(&cmsgs), bytes)
}

/// What the receiving process does after a read.
#[derive(Debug)]
pub enum RecvAction {
    /// Read on.
    Receive,
    /// Close these descriptors, which no address came with, and read on.
    CloseAndReceive(Vec<RawFd>),
    /// The peer has closed the connection: the transfer is complete.
    Finish,
}

/// Addresses and descriptors that have arrived.
#[verifier::ext_equal]
pub struct Received {
    pub keys: Seq<Seq<char>>,
    pub fds: Seq<RawFd>,
}

/// What has arrived once a message has come too. One that is not valid UTF-8
/// is left out as a whole, so that addresses and descriptors stay in step.
pub open spec fn arrived(r: Received, m: Message) -> Received {
    if valid_utf8(m.payload) {
        Received { keys: r.keys + decoded(tokens(m.payload)), fds: r.fds + m.fds }
    } else {
        r
    }
}

/// The receiving side of a transfer: what its messages add up to.
pub struct FdReceiver {
    fds: Vec<RawFd>,
    keys: Vec<String>,
}

impl View for FdReceiver {
    type V = Received;

    closed spec fn view(&self) -> Received {
        Received { keys: texts(self.keys@), fds: self.fds@ }
    }
}

impl FdReceiver {
    /// A receiver to which nothing has come.
    pub fn new() -> (r: Self)
        ensures
            r@ == (Received { keys: seq![], fds: seq![] }),
    {
        let r = FdReceiver { fds: Vec::new(), keys: Vec::new() };
        assert(texts(r.keys@) =~= seq![]);
        r
    }

    /// Takes in the payload and the control messages of one read.
    pub fn recv_fds_chunked_from(&mut self, payload: &[u8], cmsgs: Vec<ControlMessage>) -> (action:
        RecvAction)
        ensures
            payload@.len() == 0 ==> action is Finish && final(self)@ == old(self)@,
            payload@.len() > 0 ==> final(self)@ == arrived(
                old(self)@,
                Message { payload: payload@, fds: rights(cmsgs@) },
            ),
            payload@.len() > 0 && valid_utf8(payload@) ==> action is Receive,
            payload@.len() > 0 && !valid_utf8(payload@) ==> {
                &&& action matches RecvAction::CloseAndReceive(fds)
                &&& fds@ == rights(cmsgs@)
            },
    {
        if payload.len() == 0 {
            return RecvAction::Finish;
        }
        let mut fds = collect_rights(&cmsgs);
        let ghost all_fds = fds@;
        match deserialize_vec_string(payload) {
            Ok(mut keys) => {
                let ghost new_keys = keys@;
                self.keys.append(&mut keys);
                self.fds.append(&mut fds);
                proof {
                    assert(self.keys@ =~= old(self).keys@ + new_keys);
                    assert(texts(self.keys@) =~= texts(old(self).keys@) + texts(new_keys));
                    assert(self.fds@ =~= old(self).fds@ + all_fds);
                }
                RecvAction::Receive
            },
            Err(_) => RecvAction::CloseAndReceive(fds),
        }
    }

    /// Whether each address has one descriptor.
    pub fn in_step(&self) -> (r: bool)
        ensures
            r == (self@.keys.len() == self@.fds.len()),
    {
        self.keys.len() == self.fds.len()
    }

    /// The descriptors and the addresses that have arrived.
    pub fn finish(self) -> (r: (Vec<RawFd>, Vec<String>))
        ensures
            r.0@ == self@.fds,
            texts(r.1@) == self@.keys,
    {
        (self.fds, self.keys)
    }
}

impl Fds {
    /// Adds what another process has sent to the table.
    pub fn get_from_sock(&mut self, received: FdReceiver)
        requires
            old(self).wf(),
            received@.keys.len() == received@.fds.len(),
        ensures
            final(self).wf(),
            final(self)@ == absorbed(old(self)@, received@.keys, received@.fds),
    {
        let (fds, keys) = received.finish();
        self.deserialize(keys, fds);
    }
}

/// A listener to which nobody has come `n` times.
pub open spec fn waited_for(s: AcceptRetry, n: nat) -> AcceptRetry
    decreases n,
{
    if n == 0 {
        s
    } else {
        waited_for(s, (n - 1) as nat).after(Errno::EAGAIN).0
    }
}

/// A listener to which nobody comes waits exactly `max_retry` times, one retry
/// interval each, and gives up at the next error.
pub proof fn law_accept_budget(max_retry: usize, n: nat)
    requires
        n <= max_retry,
    ensures
        ({
            let s = waited_for(AcceptRetry { max_retry, retried: 0 }, n);
            &&& s == AcceptRetry { max_retry, retried: n as usize }
            &&& n < max_retry ==> s.after(Errno::EAGAIN).1 == (AcceptAction::Accept {
                delay_ms: RETRY_INTERVAL_MS,
            })
            &&& n == max_retry ==> s.after(Errno::EAGAIN).1 == AcceptAction::GiveUp(
                Errno::EAGAIN,
            )
        }),
    decreases n,
{
    if n > 0 {
        law_accept_budget(max_retry, (n - 1) as nat);
    }
}

/// What has arrived once all messages have come, in order.
pub open spec fn all_arrived(r: Received, messages: Seq<Message>) -> Received
    decreases messages.len(),
{
    if messages.len() == 0 {
        r
    } else {
        all_arrived(arrived(r, messages[0]), messages.skip(1))
    }
}

/// What the reads of a message bring: the kernel gives the bytes out in
/// order, at most a buffer full at a time, and the descriptors with the first
/// of them. No read takes from two messages.
pub open spec fn read_as(m: Message, reads: Seq<Message>) -> bool {
    &&& reads.len() > 0
    &&& payloads(reads).flatten() == m.payload
    &&& reads[0].fds == m.fds
    &&& forall|i: int| 0 < i < reads.len() ==> (#[trigger] reads[i]).fds.len() == 0
    &&& forall|i: int|
        0 <= i < reads.len() ==> 0 < (#[trigger] reads[i]).payload.len() <= RECV_BUFFER_LEN
}

/// The payload of each message.
pub open spec fn payloads(messages: Seq<Message>) -> Seq<Seq<u8>> {
    messages.map_values(|m: Message| m.payload)
}

/// The descriptors of each message.
pub open spec fn descriptors(messages: Seq<Message>) -> Seq<Seq<RawFd>> {
    messages.map_values(|m: Message| m.fds)
}

/// No address is cut in two by the end of a read.
pub open spec fn keys_uncut(reads: Seq<Message>) -> bool {
    forall|i: int, j: int|
        0 <= i < j < reads.len() && j == i + 1 ==> is_separator(
            (#[trigger] reads[i]).payload.last(),
        ) || is_separator((#[trigger] reads[j]).payload[0])
}

/// `reads` holds, for each message of a transfer, what its reads bring. The
/// kernel hands the receiver descriptors of its own in place of those that
/// were sent.
pub open spec fn delivered(
    messages: Seq<Message>,
    duplicates: Seq<Seq<RawFd>>,
    reads: Seq<Seq<Message>>,
) -> bool {
    &&& duplicates.len() == messages.len()
    &&& reads.len() == messages.len()
    &&& forall|i: int|
        0 <= i < messages.len() ==> {
            &&& (#[trigger] duplicates[i]).len() == messages[i].fds.len()
            &&& read_as(Message { payload: messages[i].payload, fds: duplicates[i] }, reads[i])
            &&& keys_uncut(reads[i])
        }
}

/// A message that fits in the buffer and is not empty may come by one read,
/// which cuts no address.
pub proof fn law_one_read(m: Message)
    requires
        0 < m.payload.len() <= RECV_BUFFER_LEN,
    ensures
        read_as(m, seq![m]),
        keys_uncut(seq![m]),
{
    let lists = payloads(seq![m]);
    reveal_with_fuel(Seq::flatten, 2);
    assert(lists.drop_first() =~= Seq::<Seq<u8>>::empty());
    assert(lists.flatten() =~= m.payload);
}

proof fn lemma_arrived_concat(r: Received, a: Seq<Message>, b: Seq<Message>)
    ensures
        all_arrived(r, a + b) == all_arrived(all_arrived(r, a), b),
    decreases a.len(),
{
    if a.len() == 0 {
        assert(a + b =~= b);
    } else {
        assert((a + b)[0] == a[0]);
        assert((a + b).skip(1) =~= a.skip(1) + b);
        lemma_arrived_concat(arrived(r, a[0]), a.skip(1), b);
    }
}

proof fn lemma_reads_arrived(r: Received, reads: Seq<Message>)
    requires
        keys_uncut(reads),
        forall|i: int| 0 <= i < reads.len() ==> (#[trigger] reads[i]).payload.len() > 0,
        valid_utf8(payloads(reads).flatten()),
    ensures
        all_arrived(r, reads) == (Received {
            keys: r.keys + decoded(tokens(payloads(reads).flatten())),
            fds: r.fds + descriptors(reads).flatten(),
        }),
        forall|i: int| 0 <= i < reads.len() ==> valid_utf8((#[trigger] reads[i]).payload),
    decreases reads.len(),
{
    let bytes = payloads(reads).flatten();
    let fds = descriptors(reads).flatten();
    if reads.len() == 0 {
        assert(r.keys + decoded(tokens(bytes)) =~= r.keys);
        assert(r.fds + fds =~= r.fds);
    } else {
        let rest = reads.skip(1);
        let first = reads[0].payload;
        let others = payloads(rest).flatten();
        assert(payloads(reads).drop_first() =~= payloads(rest));
        assert(descriptors(reads).drop_first() =~= descriptors(rest));
        assert(bytes == first + others);
        assert(fds == reads[0].fds + descriptors(rest).flatten());
        if rest.len() > 0 {
            assert(rest[0] == reads[1]);
            assert(payloads(rest)[0] == reads[1].payload);
            assert(others == payloads(rest).first() + payloads(rest).drop_first().flatten());
            assert(others[0] == reads[1].payload[0]);
        } else {
            assert(others =~= Seq::<u8>::empty());
        }
        lemma_cut(first, others);
        assert forall|i: int, j: int| 0 <= i < j < rest.len() && j == i + 1 implies is_separator(
            (#[trigger] rest[i]).payload.last(),
        ) || is_separator((#[trigger] rest[j]).payload[0]) by {
            assert(rest[i] == reads[i + 1]);
            assert(rest[j] == reads[j + 1]);
        }
        let next = arrived(r, reads[0]);
        lemma_reads_arrived(next, rest);
        assert(decoded(tokens(first) + tokens(others)) =~= decoded(tokens(first)) + decoded(
            tokens(others),
        ));
        assert(next.keys + decoded(tokens(others)) =~= r.keys + decoded(tokens(bytes)));
        assert(next.fds + descriptors(rest).flatten() =~= r.fds + fds);
        assert forall|i: int| 0 <= i < reads.len() implies valid_utf8(
            (#[trigger] reads[i]).payload,
        ) by {
            if i > 0 {
                assert(rest[i - 1] == reads[i]);
            }
        }
    }
}

proof fn lemma_no_descriptors(reads: Seq<Message>)
    requires
        forall|i: int| 0 <= i < reads.len() ==> (#[trigger] reads[i]).fds.len() == 0,
    ensures
        descriptors(reads).flatten() == Seq::<RawFd>::empty(),
    decreases reads.len(),
{
    if reads.len() > 0 {
        assert(descriptors(reads).drop_first() =~= descriptors(reads.skip(1)));
        lemma_no_descriptors(reads.skip(1));
        assert(descriptors(reads).first() =~= Seq::<RawFd>::empty());
        assert(descriptors(reads).flatten() =~= Seq::<RawFd>::empty());
    } else {
        assert(descriptors(reads).flatten() =~= Seq::<RawFd>::empty());
    }
}

proof fn lemma_message_arrived(r: Received, m: Message, reads: Seq<Message>)
    requires
        read_as(m, reads),
        keys_uncut(reads),
        valid_utf8(m.payload),
    ensures
        all_arrived(r, reads) == arrived(r, m),
        forall|i: int| 0 <= i < reads.len() ==> valid_utf8((#[trigger] reads[i]).payload),
{
    lemma_reads_arrived(r, reads);
    assert(descriptors(reads).drop_first() =~= descriptors(reads.skip(1)));
    lemma_no_descriptors(reads.skip(1));
    assert(descriptors(reads).flatten() =~= m.fds);
}

proof fn lemma_all_arrived(
    r: Received,
    keys: Seq<Seq<char>>,
    fds: Seq<RawFd>,
    duplicates: Seq<Seq<RawFd>>,
    reads: Seq<Seq<Message>>,
)
    requires
        forall|i: int| 0 <= i < keys.len() ==> is_key(#[trigger] keys[i]),
        keys.len() == fds.len(),
        delivered(chunked(keys, fds), duplicates, reads),
    ensures
        all_arrived(r, reads.flatten()) == (Received {
            keys: r.keys + keys,
            fds: r.fds + duplicates.flatten(),
        }),
        duplicates.flatten().len() == keys.len(),
        forall|i: int, j: int|
            0 <= i < reads.len() && 0 <= j < reads[i].len() ==> {
                &&& (#[trigger] reads[i][j]).payload.len() > 0
                &&& valid_utf8(reads[i][j].payload)
            },
    decreases keys.len(),
{
    let messages = chunked(keys, fds);
    if keys.len() == 0 {
        assert(duplicates =~= seq![]);
        assert(duplicates.flatten() =~= seq![]);
        assert(reads.flatten() =~= seq![]);
        assert(r.keys + keys =~= r.keys);
        assert(r.fds + duplicates.flatten() =~= r.fds);
    } else {
        let n = chunk_len(keys.len()) as int;
        let first = keys.take(n);
        let rest = chunked(keys.skip(n), fds.skip(n));
        let rest_duplicates = duplicates.drop_first();
        let rest_reads = reads.drop_first();
        let m = Message { payload: messages[0].payload, fds: duplicates[0] };
        assert forall|i: int| 0 <= i < first.len() implies is_key(#[trigger] first[i]) by {
            assert(first[i] == keys[i]);
        }
        assert forall|i: int| 0 <= i < keys.skip(n).len() implies is_key(
            #[trigger] keys.skip(n)[i],
        ) by {
            assert(keys.skip(n)[i] == keys[i + n]);
        }
        law_keys_round_trip(first);
        assert(messages[0].payload == joined(first));
        assert(messages.skip(1) =~= rest);
        assert(delivered(rest, rest_duplicates, rest_reads)) by {
            assert forall|i: int| 0 <= i < rest.len() implies {
                &&& (#[trigger] rest_duplicates[i]).len() == rest[i].fds.len()
                &&& read_as(
                    Message { payload: rest[i].payload, fds: rest_duplicates[i] },
                    rest_reads[i],
                )
                &&& keys_uncut(rest_reads[i])
            } by {
                assert(messages[i + 1] == rest[i]);
                assert(duplicates[i + 1] == rest_duplicates[i]);
                assert(reads[i + 1] == rest_reads[i]);
            }
        }
        assert(duplicates[0].len() == messages[0].fds.len());
        lemma_message_arrived(r, m, reads[0]);
        let next = arrived(r, m);
        lemma_all_arrived(next, keys.skip(n), fds.skip(n), rest_duplicates, rest_reads);
        assert(reads.flatten() == reads.first() + rest_reads.flatten());
        lemma_arrived_concat(r, reads[0], rest_reads.flatten());
        assert(duplicates.flatten() == duplicates.first() + rest_duplicates.flatten());
        assert((r.keys + first) + keys.skip(n) =~= r.keys + keys);
        assert((r.fds + duplicates[0]) + rest_duplicates.flatten() =~= r.fds
            + duplicates.flatten());
        assert forall|i: int, j: int| 0 <= i < reads.len() && 0 <= j < reads[i].len() implies {
            &&& (#[trigger] reads[i][j]).payload.len() > 0
            &&& valid_utf8(reads[i][j].payload)
        } by {
            if i > 0 {
                assert(reads[i] == rest_reads[i - 1]);
                assert(rest_reads[i - 1][j] == reads[i][j]);
            }
        }
    }
}

/// What one process sends is what the other gets: the messages of a table, in
/// which no address is empty or holds ASCII whitespace, bring its addresses
/// in order, each beside the descriptor that the kernel handed over for its
/// own. None of the reads is taken for the end of the stream, and none is
/// refused. A message may come by several reads, as long as none of them ends
/// within an address.
pub proof fn law_transfer(
    keys: Seq<Seq<char>>,
    fds: Seq<RawFd>,
    duplicates: Seq<Seq<RawFd>>,
    reads: Seq<Seq<Message>>,
)
    requires
        forall|i: int| 0 <= i < keys.len() ==> is_key(#[trigger] keys[i]),
        keys.len() == fds.len(),
        delivered(chunked(keys, fds), duplicates, reads),
    ensures
        all_arrived(Received { keys: seq![], fds: seq![] }, reads.flatten()) == (Received {
            keys,
            fds: duplicates.flatten(),
        }),
        duplicates.flatten().len() == keys.len(),
        forall|i: int, j: int|
            0 <= i < reads.len() && 0 <= j < reads[i].len() ==> {
                &&& (#[trigger] reads[i][j]).payload.len() > 0
                &&& valid_utf8(reads[i][j].payload)
            },
{
    let none = Received { keys: seq![], fds: seq![] };
    lemma_all_arrived(none, keys, fds, duplicates, reads);
    assert(none.keys + keys =~= keys);
    assert(none.fds + duplicates.flatten() =~= duplicates.flatten());
}

/// A table that is sent and taken in by an empty table, with the descriptors
/// that it held, gives that table again.
pub proof fn law_table_transfer(
    keys: Seq<Seq<char>>,
    fds: Seq<RawFd>,
    reads: Seq<Seq<Message>>,
)
    requires
        forall|i: int| 0 <= i < keys.len() ==> is_key(#[trigger] keys[i]),
        keys.len() == fds.len(),
        delivered(chunked(keys, fds), descriptors(chunked(keys, fds)), reads),
    ensures
        ({
            let r = all_arrived(Received { keys: seq![], fds: seq![] }, reads.flatten());
            absorbed(Map::empty(), r.keys, r.fds) == absorbed(Map::empty(), keys, fds)
        }),
{
    law_transfer(keys, fds, descriptors(chunked(keys, fds)), reads);
    law_chunks(keys, fds);
    assert(descriptors(chunked(keys, fds)) =~= chunked(keys, fds).map_values(|m: Message| m.fds));
}

/// In the table of the receiving process each address of the sender's table
/// is bound to the descriptor that the kernel handed over for its own, and
/// nothing else is bound.
pub proof fn law_descriptor_follows_address(
    keys: Seq<Seq<char>>,
    fds: Seq<RawFd>,
    duplicates: Seq<Seq<RawFd>>,
    reads: Seq<Seq<Message>>,
)
    requires
        forall|i: int| 0 <= i < keys.len() ==> is_key(#[trigger] keys[i]),
        distinct(keys),
        keys.len() == fds.len(),
        delivered(chunked(keys, fds), duplicates, reads),
    ensures
        ({
            let r = all_arrived(Received { keys: seq![], fds: seq![] }, reads.flatten());
            let table = absorbed(Map::empty(), r.keys, r.fds);
            &&& forall|i: int|
                0 <= i < keys.len() ==> table[#[trigger] keys[i]] == duplicates.flatten()[i]
            &&& forall|k: Seq<char>| #[trigger] table.contains_key(k) <==> keys.contains(k)
        }),
{
    law_transfer(keys, fds, duplicates, reads);
    lemma_absorbed(Map::empty(), keys, duplicates.flatten());
}

/// A sender that puts its whole table into one message is understood too: up
/// to the kernel's limit, that message is the one that a chunked transfer
/// sends.
pub proof fn law_single_message(keys: Seq<Seq<char>>, fds: Seq<RawFd>)
    requires
        0 < keys.len() <= MAX_FDS_PER_MSG,
        keys.len() == fds.len(),
    ensures
        chunked(keys, fds) == seq![Message { payload: joined(keys), fds }],
{
    reveal_with_fuel(chunked, 2);
    assert(keys.take(keys.len() as int) =~= keys);
    assert(fds.take(keys.len() as int) =~= fds);
    assert(chunked(keys, fds) =~= seq![Message { payload: joined(keys), fds }]);
}

/// A receiver that takes in one message alone gets the front of the table:
/// as many of its addresses as the kernel lets through at once, each beside
/// its own descriptor.
pub proof fn law_first_message(keys: Seq<Seq<char>>, fds: Seq<RawFd>)
    requires
        forall|i: int| 0 <= i < keys.len() ==> is_key(#[trigger] keys[i]),
        0 < keys.len(),
        keys.len() == fds.len(),
    ensures
        ({
            let n = chunk_len(keys.len()) as int;
            let first = chunked(keys, fds)[0];
            &&& arrived(Received { keys: seq![], fds: seq![] }, first) == (Received {
                keys: keys.take(n),
                fds: fds.take(n),
            })
            &&& first.fds == fds.take(n)
        }),
{
    let n = chunk_len(keys.len()) as int;
    let front = keys.take(n);
    assert forall|i: int| 0 <= i < front.len() implies is_key(#[trigger] front[i]) by {
        assert(front[i] == keys[i]);
    }
    law_keys_round_trip(front);
    assert(Seq::<Seq<char>>::empty() + front =~= front);
    assert(Seq::<RawFd>::empty() + fds.take(n) =~= fds.take(n));
}

/// Addresses and descriptors stay in step, whatever arrives, as long as each
/// message that can be read names as many addresses as it carries
/// descriptors.
pub proof fn law_in_step(r: Received, messages: Seq<Message>)
    requires
        r.keys.len() == r.fds.len(),
        forall|i: int|
            0 <= i < messages.len() && valid_utf8((#[trigger] messages[i]).payload) ==> tokens(
                messages[i].payload,
            ).len() == messages[i].fds.len(),
    ensures
        all_arrived(r, messages).keys.len() == all_arrived(r, messages).fds.len(),
    decreases messages.len(),
{
    if messages.len() > 0 {
        let rest = messages.skip(1);
        assert forall|i: int|
            0 <= i < rest.len() && valid_utf8((#[trigger] rest[i]).payload) implies tokens(
            rest[i].payload,
        ).len() == rest[i].fds.len() by {
            assert(rest[i] == messages[i + 1]);
        }
        law_in_step(arrived(r, messages[0]), rest);
    }
}

/// What a listener does at an error, whatever it has counted: where nobody has
/// come and it has retries left, it counts one and waits a second; in every
/// other case it gives up with this error.
pub proof fn law_accept_step(s: AcceptRetry, e: Errno)
    ensures
        e == Errno::EAGAIN && s.retried < s.max_retry ==> s.after(e).1 == (AcceptAction::Accept {
            delay_ms: 1000,
        }) && s.after(e).0.retried == s.retried + 1 && s.after(e).0.max_retry == s.max_retry,
        e != Errno::EAGAIN || s.retried >= s.max_retry ==> s.after(e) == (
            s,
            AcceptAction::GiveUp(e),
        ),
{
}

/// The descriptors of control messages are what their lists hold, one behind
/// the other: a list alone gives itself, any other message gives nothing, and
/// two sequences of messages give what the first gives and then what the
/// second gives.
pub proof fn law_rights(
    v: Vec<RawFd>,
    a: Seq<ControlMessage>,
    b: Seq<ControlMessage>,
)
    ensures
        rights(Seq::<ControlMessage>::empty()) == Seq::<RawFd>::empty(),
        rights(seq![ControlMessage::ScmRights(v)]) == v@,
        rights(seq![ControlMessage::Unexpected]) == Seq::<RawFd>::empty(),
        rights(a + b) == rights(a) + rights(b),
    decreases b.len(),
{
    let none = Seq::<ControlMessage>::empty();
    let list = seq![ControlMessage::ScmRights(v)];
    let other = seq![ControlMessage::Unexpected];
    assert(list.drop_last() =~= none);
    assert(other.drop_last() =~= none);
    assert(rights(list) =~= v@) by {
        reveal_with_fuel(rights, 2);
    }
    assert(rights(other) =~= Seq::<RawFd>::empty()) by {
        reveal_with_fuel(rights, 2);
    }
    if b.len() == 0 {
        assert(a + b =~= a);
        assert(rights(a) + rights(b) =~= rights(a));
    } else {
        assert((a + b).drop_last() =~= a + b.drop_last());
        assert((a + b).last() == b.last());
        law_rights(v, a, b.drop_last());
        assert(rights(a + b) =~= rights(a) + rights(b));
    }
}

/// What one read brings, as the system hands it out.
pub struct RawRead {
    pub payload: Seq<u8>,
    pub cmsgs: Seq<ControlMessage>,
}

/// What has arrived once all reads were taken in, in order.
pub open spec fn all_read(r: Received, reads: Seq<RawRead>) -> Received
    decreases reads.len(),
{
    if reads.len() == 0 {
        r
    } else {
        let before = all_read(r, reads.drop_last());
        arrived(
            before,
            Message { payload: reads.last().payload, fds: rights(reads.last().cmsgs) },
        )
    }
}

/// No control message of the read holds descriptors.
pub open spec fn without_descriptors(cmsgs: Seq<ControlMessage>) -> bool {
    forall|i: int| 0 <= i < cmsgs.len() ==> #[trigger] cmsgs[i] is Unexpected
}

/// Among the control messages is one list of descriptors, `v`, and no other.
pub open spec fn with_descriptors(cmsgs: Seq<ControlMessage>, v: Vec<RawFd>) -> bool {
    exists|i: int|
        0 <= i < cmsgs.len() && #[trigger] cmsgs[i] == ControlMessage::ScmRights(v)
            && without_descriptors(cmsgs.take(i)) && without_descriptors(cmsgs.skip(i + 1))
}

proof fn lemma_without_descriptors(cmsgs: Seq<ControlMessage>)
    requires
        without_descriptors(cmsgs),
    ensures
        rights(cmsgs) == Seq::<RawFd>::empty(),
    decreases cmsgs.len(),
{
    if cmsgs.len() > 0 {
        let init = cmsgs.drop_last();
        assert forall|i: int| 0 <= i < init.len() implies #[trigger] init[i] is Unexpected by {
            assert(cmsgs[i] is Unexpected);
        }
        lemma_without_descriptors(init);
        assert(cmsgs[cmsgs.len() - 1] is Unexpected);
        assert(rights(cmsgs) =~= Seq::<RawFd>::empty());
    }
}

proof fn lemma_with_descriptors(cmsgs: Seq<ControlMessage>, v: Vec<RawFd>)
    requires
        with_descriptors(cmsgs, v),
    ensures
        rights(cmsgs) == v@,
{
    let i = choose|i: int|
        0 <= i < cmsgs.len() && #[trigger] cmsgs[i] == ControlMessage::ScmRights(v)
            && without_descriptors(cmsgs.take(i)) && without_descriptors(cmsgs.skip(i + 1));
    let front = cmsgs.take(i);
    let list = seq![ControlMessage::ScmRights(v)];
    let back = cmsgs.skip(i + 1);
    assert(cmsgs =~= front + (list + back));
    law_rights(v, front, list + back);
    law_rights(v, list, back);
    lemma_without_descriptors(front);
    lemma_without_descriptors(back);
    assert(rights(cmsgs) =~= v@);
}

proof fn lemma_all_read(r: Received, reads: Seq<RawRead>, messages: Seq<Message>)
    requires
        reads.len() == messages.len(),
        forall|i: int|
            0 <= i < reads.len() ==> #[trigger] messages[i] == (Message {
                payload: reads[i].payload,
                fds: rights(reads[i].cmsgs),
            }),
    ensures
        all_read(r, reads) == all_arrived(r, messages),
    decreases reads.len(),
{
    if reads.len() > 0 {
        let init = reads.drop_last();
        let front = messages.drop_last();
        assert forall|i: int| 0 <= i < init.len() implies #[trigger] front[i] == (Message {
            payload: init[i].payload,
            fds: rights(init[i].cmsgs),
        }) by {
            assert(front[i] == messages[i]);
        }
        lemma_all_read(r, init, front);
        assert(messages[messages.len() - 1] == messages.last());
        assert(messages =~= front + seq![messages.last()]);
        lemma_arrived_concat(r, front, seq![messages.last()]);
        reveal_with_fuel(all_arrived, 2);
        assert(seq![messages.last()].skip(1) =~= Seq::<Message>::empty());
    }
}

/// One process sends a table that fits in one message per chunk, and the other
/// gets it: each read brings the payload of one chunk, and among its control
/// messages one list of as many descriptors as were sent. In the table that
/// takes them in, the address of place `i` is bound to the descriptor of place
/// `i` of these lists, one behind the other, and no other address is bound.
pub proof fn law_take_over(
    keys: Seq<Seq<char>>,
    fds: Seq<RawFd>,
    lists: Seq<Vec<RawFd>>,
    reads: Seq<RawRead>,
    i: int,
)
    requires
        forall|k: int| 0 <= k < keys.len() ==> is_key(#[trigger] keys[k]),
        distinct(keys),
        keys.len() == fds.len(),
        reads.len() == chunked(keys, fds).len(),
        lists.len() == reads.len(),
        forall|k: int|
            0 <= k < reads.len() ==> {
                &&& (#[trigger] reads[k]).payload == chunked(keys, fds)[k].payload
                &&& reads[k].payload.len() <= RECV_BUFFER_LEN
                &&& with_descriptors(reads[k].cmsgs, lists[k])
                &&& lists[k]@.len() == chunked(keys, fds)[k].fds.len()
            },
        0 <= i < keys.len(),
    ensures
        ({
            let r = all_read(Received { keys: seq![], fds: seq![] }, reads);
            let table = absorbed(Map::empty(), r.keys, r.fds);
            &&& r.keys == keys
            &&& r.fds.len() == keys.len()
            &&& i / 253 < lists.len()
            &&& i % 253 < lists[i / 253]@.len()
            &&& table.contains_key(keys[i])
            &&& table[keys[i]] == lists[i / 253]@[i % 253]
            &&& forall|k: Seq<char>| #[trigger] table.contains_key(k) ==> keys.contains(k)
        }),
{
    let sent = chunked(keys, fds);
    let none = Received { keys: seq![], fds: seq![] };
    let duplicates = Seq::new(lists.len(), |k: int| lists[k]@);
    let messages = Seq::new(
        reads.len(),
        |k: int| Message { payload: reads[k].payload, fds: rights(reads[k].cmsgs) },
    );
    let parts = Seq::new(messages.len(), |k: int| seq![messages[k]]);
    lemma_all_read(none, reads, messages);
    lemma_payloads(keys, fds);
    assert(delivered(sent, duplicates, parts)) by {
        assert forall|k: int| 0 <= k < sent.len() implies {
            &&& (#[trigger] duplicates[k]).len() == sent[k].fds.len()
            &&& read_as(Message { payload: sent[k].payload, fds: duplicates[k] }, parts[k])
            &&& keys_uncut(parts[k])
        } by {
            assert(reads[k].payload == sent[k].payload);
            lemma_with_descriptors(reads[k].cmsgs, lists[k]);
            law_one_read(messages[k]);
        }
    }
    assert(parts.flatten() == messages) by {
        lemma_flatten_singles(messages, parts);
    }
    law_descriptor_follows_address(keys, fds, duplicates, parts);
    law_transfer(keys, fds, duplicates, parts);
    lemma_place(keys, fds, duplicates, i);
}

proof fn lemma_flatten_singles(items: Seq<Message>, parts: Seq<Seq<Message>>)
    requires
        parts.len() == items.len(),
        forall|k: int| 0 <= k < items.len() ==> #[trigger] parts[k] == seq![items[k]],
    ensures
        parts.flatten() == items,
    decreases items.len(),
{
    if items.len() > 0 {
        let rest = items.skip(1);
        let others = parts.drop_first();
        assert forall|k: int| 0 <= k < rest.len() implies #[trigger] others[k] == seq![rest[k]] by {
            assert(others[k] == parts[k + 1]);
        }
        lemma_flatten_singles(rest, others);
        assert(parts.first() == seq![items[0]]);
        assert(seq![items[0]] + rest =~= items);
    } else {
        assert(parts.flatten() =~= items);
    }
}

proof fn lemma_payloads(keys: Seq<Seq<char>>, fds: Seq<RawFd>)
    requires
        forall|i: int| 0 <= i < keys.len() ==> is_key(#[trigger] keys[i]),
        keys.len() == fds.len(),
    ensures
        forall|i: int|
            0 <= i < chunked(keys, fds).len() ==> (#[trigger] chunked(keys, fds)[i]).payload.len()
                > 0,
    decreases keys.len(),
{
    if keys.len() > 0 {
        let n = chunk_len(keys.len()) as int;
        let first = keys.take(n);
        let rest = chunked(keys.skip(n), fds.skip(n));
        assert forall|i: int| 0 <= i < first.len() implies is_key(#[trigger] first[i]) by {
            assert(first[i] == keys[i]);
        }
        assert forall|i: int| 0 <= i < keys.skip(n).len() implies is_key(
            #[trigger] keys.skip(n)[i],
        ) by {
            assert(keys.skip(n)[i] == keys[i + n]);
        }
        law_empty_form(first);
        lemma_payloads(keys.skip(n), fds.skip(n));
        assert forall|i: int| 0 <= i < chunked(keys, fds).len() implies (#[trigger] chunked(
            keys,
            fds,
        )[i]).payload.len() > 0 by {
            if i > 0 {
                assert(chunked(keys, fds)[i] == rest[i - 1]);
            }
        }
    }
}

proof fn lemma_place(
    keys: Seq<Seq<char>>,
    fds: Seq<RawFd>,
    duplicates: Seq<Seq<RawFd>>,
    i: int,
)
    requires
        keys.len() == fds.len(),
        duplicates.len() == chunked(keys, fds).len(),
        forall|k: int|
            0 <= k < duplicates.len() ==> (#[trigger] duplicates[k]).len() == chunked(
                keys,
                fds,
            )[k].fds.len(),
        0 <= i < keys.len(),
    ensures
        i / 253 < duplicates.len(),
        i % 253 < duplicates[i / 253].len(),
        i < duplicates.flatten().len(),
        duplicates.flatten()[i] == duplicates[i / 253][i % 253],
    decreases keys.len(),
{
    let n = chunk_len(keys.len()) as int;
    let sent = chunked(keys, fds);
    let rest = chunked(keys.skip(n), fds.skip(n));
    let others = duplicates.drop_first();
    assert(duplicates.flatten() == duplicates.first() + others.flatten());
    assert(duplicates[0].len() == sent[0].fds.len());
    if i < n {
        assert(i / 253 == 0 && i % 253 == i);
    } else {
        assert(n == 253);
        assert forall|k: int| 0 <= k < others.len() implies (#[trigger] others[k]).len()
            == rest[k].fds.len() by {
            assert(others[k] == duplicates[k + 1]);
            assert(sent[k + 1] == rest[k]);
        }
        lemma_place(keys.skip(n), fds.skip(n), others, i - n);
        assert((i - 253) / 253 == i / 253 - 1 && (i - 253) % 253 == i % 253);
        assert(others[i / 253 - 1] == duplicates[i / 253]);
    }
}

/// What has arrived grows by what a read brings that can be read, and stays
/// what it was where the read cannot be: nothing that came before is lost or
/// moved, and as many addresses are added as the payload has runs.
pub proof fn law_arrived(r: Received, m: Message)
    ensures
        !valid_utf8(m.payload) ==> arrived(r, m) == r,
        valid_utf8(m.payload) ==> {
            &&& arrived(r, m).fds == r.fds + m.fds
            &&& arrived(r, m).keys.len() == r.keys.len() + tokens(m.payload).len()
            &&& forall|i: int|
                0 <= i < r.keys.len() ==> #[trigger] arrived(r, m).keys[i] == r.keys[i]
            &&& forall|i: int|
                0 <= i < tokens(m.payload).len() ==> arrived(r, m).keys[r.keys.len() + i]
                    == vstd::utf8::decode_utf8(#[trigger] tokens(m.payload)[i])
        },
{
}

} // verus!
