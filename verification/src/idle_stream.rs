//! A stream whose connection is given up when no bytes flow in either
//! direction for too long.
use crate::idle_conn::{
    conn, duration_to_micros, effect, found, gated, law_activity_stands, law_effects_differ,
    law_times_out, no_effect, on_time, registering, sweep_interval, sweeps, Change, ConnOp, Direction, History, IdleConnState, ACTIVITY_MASK,
};
use crate::sweeper::{outcome_fits, SweepOutcome};
use std::sync::Arc;
use std::task::Waker;
use vstd::prelude::*;

verus! {

/// What the error of an operation says whose connection was given up.
pub fn timed_out() -> (r: &'static str)
    ensures
        r@ == "downstream idle timeout"@,
{
    "downstream idle timeout"
}

/// What came of recording activity, where there was any: how the word of the
/// connection changed, or the word that was left in place because the
/// connection had been given up.
pub type Recorded = Option<Result<Change, u64>>;

/// The name of what closing an operation does to the connection: it records
/// activity where there was some, and does nothing where there was none.
pub open spec fn closing(active: bool, now: u64) -> int {
    if active {
        effect(ConnOp::Activity { now })
    } else {
        no_effect()
    }
}

/// The timeout of a stream. Each operation of the stream is opened and closed
/// here; between the two, one that may go on is passed to the transport.
pub struct IdleStream {
    state: Arc<IdleConnState>,
}

impl IdleStream {
    /// The state of the connection, which the sweeper shares.
    pub closed spec fn shared(&self) -> Arc<IdleConnState> {
        self.state
    }

    /// After how many idle microseconds the connection is given up.
    pub open spec fn idle_timeout(&self) -> u64 {
        self.shared().idle_timeout()
    }

    /// `word` is what a read of the connection's word gave.
    pub open spec fn read(&self, word: u64) -> bool {
        self.shared().read(word)
    }

    /// `waker` was registered for this half of the connection.
    pub open spec fn registered(&self, direction: Direction, waker: &Waker) -> bool {
        self.shared().registered(direction, waker)
    }

    /// `waker` was registered for this half of the connection, and `word` is
    /// what a read gave that came behind this registration.
    pub open spec fn read_once_registered(
        &self,
        direction: Direction,
        waker: &Waker,
        word: u64,
    ) -> bool {
        self.shared().read_once_registered(direction, waker, word)
    }

    /// `r` is the record of activity at this time in the connection's word,
    /// made exactly where there was some.
    pub open spec fn records(&self, r: Recorded, active: bool, now: u64) -> bool {
        &&& r is Some <==> active
        &&& r matches Some(word) ==> self.shared().recorded(now, word)
    }

    /// The timeout of a stream that was just opened. The state of its
    /// connection is to be registered with the sweeper of this timeout.
    pub fn new(now: u64, idle_secs: u64, idle_subsec_nanos: u32) -> (r: Self)
        requires
            now <= ACTIVITY_MASK,
        ensures
            r.shared().started(now),
            ({
                let micros = idle_secs * 1_000_000 + idle_subsec_nanos as int / 1000;
                r.idle_timeout() == if micros <= u64::MAX {
                    micros
                } else {
                    u64::MAX as int
                }
            }),
    {
        IdleStream {
            state: Arc::new(
                IdleConnState::new(now, duration_to_micros(idle_secs, idle_subsec_nanos)),
            ),
        }
    }

    /// The state of the connection, which the sweeper shares.
    pub fn state(&self) -> (r: &Arc<IdleConnState>)
        ensures
            *r == self.shared(),
        opens_invariants none
    {
        &self.state
    }

    /// Records activity where there was any.
    fn record(&self, active: bool, now: u64) -> (r: Recorded)
        requires
            now <= ACTIVITY_MASK,
        ensures
            self.records(r, active, now),
        opens_invariants [ closing(active, now) ]
    {
        if active {
            Some(self.state.note_activity(now))
        } else {
            None
        }
    }

    /// Whether the connection was given up, apart from any operation: the
    /// word that says so, or the word that says it was not.
    pub fn check(&self) -> (r: Result<u64, u64>)
        ensures
            self.read(found(r)),
            gated(r),
        opens_invariants [ effect(ConnOp::Look) ]
    {
        self.state.observe()
    }

    /// Opens a read or a peek: it may go on, or it has timed out.
    pub fn poll_read(&self, waker: &Waker) -> (r: Result<u64, u64>)
        ensures
            self.registered(Direction::Read, waker),
            self.read(found(r)),
            self.read_once_registered(Direction::Read, waker, found(r)),
            gated(r),
        opens_invariants [ registering(), effect(ConnOp::Look) ]
    {
        self.state.start_io(Direction::Read, waker)
    }

    /// Closes a read that found `before` bytes in its buffer and left
    /// `after`: bytes that arrived are activity.
    pub fn read_done(&self, before: usize, after: usize, now: u64) -> (r: Recorded)
        requires
            now <= ACTIVITY_MASK,
        ensures
            self.records(r, after > before, now),
        opens_invariants [ closing(after > before, now) ]
    {
        self.record(after > before, now)
    }

    /// Opens a write, a flush or a shutdown: it may go on, or it has timed
    /// out.
    pub fn poll_write(&self, waker: &Waker) -> (r: Result<u64, u64>)
        ensures
            self.registered(Direction::Write, waker),
            self.read(found(r)),
            self.read_once_registered(Direction::Write, waker, found(r)),
            gated(r),
        opens_invariants [ registering(), effect(ConnOp::Look) ]
    {
        self.state.start_io(Direction::Write, waker)
    }

    /// Closes a write: bytes that went out are activity. `written` is missing
    /// where the write failed or is still pending.
    pub fn write_done(&self, written: Option<usize>, now: u64) -> (r: Recorded)
        requires
            now <= ACTIVITY_MASK,
        ensures
            self.records(r, written matches Some(n) && n > 0, now),
        opens_invariants [ closing(written matches Some(n) && n > 0, now) ]
    {
        let active = match written {
            Some(n) => n > 0,
            None => false,
        };
        self.record(active, now)
    }

    /// Closes a peek: bytes that were there are activity. `peeked` is missing
    /// where the peek failed.
    pub fn try_peek(&self, peeked: Option<bool>, now: u64) -> (r: Recorded)
        requires
            now <= ACTIVITY_MASK,
        ensures
            self.records(r, peeked == Some(true), now),
        opens_invariants [ closing(peeked == Some(true), now) ]
    {
        let active = match peeked {
            Some(seen) => seen,
            None => false,
        };
        self.record(active, now)
    }
}

/// What an outcome of a sweep says of the update that the sweep made.
pub open spec fn outcome_of(r: Result<u64, u64>) -> SweepOutcome {
    match r {
        Ok(found) => SweepOutcome::GivenUp { found },
        Err(found) => SweepOutcome::Left { found },
    }
}

/// A stream on which no byte flows any more, be it from the start, times out.
/// Of sweeps that come in time, one gives the connection up, no earlier than
/// its timeout and no later than one sweep interval past it, and behind this
/// wakes the tasks that wait for either half. Before it every sweep leaves the
/// connection alone and an operation may go on; from it on every operation is
/// refused, whatever happens.
pub proof fn law_stream_times_out(
    stream: &IdleStream,
    now: u64,
    h: History,
    from: nat,
    times: Seq<u64>,
    outcomes: Seq<SweepOutcome>,
) -> (k: nat)
    requires
        stream.shared().lived(now, h),
        from + times.len() <= h.ops.len(),
        h.ops.subrange(from as int, (from + times.len()) as int) == sweeps(
            times,
            stream.idle_timeout(),
        ),
        !conn(h.words[from as int]).aborted,
        on_time(times, conn(h.words[from as int]).last_activity, stream.idle_timeout()),
        outcomes.len() == times.len(),
        forall|i: int|
            0 <= i < outcomes.len() ==> {
                &&& outcome_fits(Some(stream.shared()), times[i], #[trigger] outcomes[i])
                &&& outcomes[i] == outcome_of(h.results[from + i])
            },
    ensures
        ({
            let due = conn(h.words[from as int]).last_activity + stream.idle_timeout();
            &&& k < times.len()
            &&& due <= times[k as int] <= due + sweep_interval(stream.idle_timeout())
            &&& outcomes[k as int] matches SweepOutcome::GivenUp { found } && {
                &&& found == h.words[(from + k) as int]
                &&& stream.shared().woken_once_given_up(times[k as int], found)
            }
            &&& forall|i: int| 0 <= i < k ==> (#[trigger] outcomes[i]) is Left
            &&& forall|j: int, r: Result<u64, u64>|
                from <= j <= from + k && #[trigger] gated(r) && found(r) == (#[trigger] h.words[j])
                    ==> r is Ok
            &&& forall|j: int, r: Result<u64, u64>|
                from + k < j < h.words.len() && #[trigger] gated(r) && found(r) == (
                #[trigger] h.words[j]) ==> r is Err
        }),
{
    let k = law_times_out(&*stream.shared(), now, h, from, times);
    assert(outcomes[k as int] == outcome_of(h.results[(from + k) as int]));
    assert(stream.shared().updated(h.ops[(from + k) as int], h.results[(from + k) as int]));
    assert forall|i: int| 0 <= i < k implies (#[trigger] outcomes[i]) is Left by {
        assert(h.results[from + i] is Err);
    }
    k
}

/// What closing a read, a write or a peek leaves behind. Where bytes flowed, a
/// connection that was not given up has the time of the call as its word, and
/// a look at it gives this time; where none did, or where it was given up, its
/// word is the one that it had. `h.ops` from `from` on are the updates that the
/// call made, which have the name that the call opens.
pub proof fn law_closing(
    stream: &IdleStream,
    start: u64,
    h: History,
    from: nat,
    active: bool,
    now: u64,
    look: Result<u64, u64>,
)
    requires
        stream.shared().lived(start, h),
        now < 0x8000_0000_0000_0000,
        from <= h.ops.len(),
        forall|i: int|
            from <= i < h.ops.len() ==> effect(#[trigger] h.ops[i]) == closing(active, now),
        active ==> from < h.ops.len(),
        gated(look),
        found(look) == h.words.last(),
    ensures
        h.words[from as int] < 0x8000_0000_0000_0000 && active ==> look == Ok::<u64, u64>(now),
        h.words[from as int] < 0x8000_0000_0000_0000 && !active ==> look == Ok::<u64, u64>(
            h.words[from as int],
        ),
        h.words[from as int] >= 0x8000_0000_0000_0000 ==> look == Err::<u64, u64>(
            h.words[from as int],
        ),
{
    let n = (h.ops.len() - from) as nat;
    assert forall|i: int| from <= i < from + n implies #[trigger] h.ops[i] == (ConnOp::Activity {
        now,
    }) by {
        law_effects_differ(h.ops[i], ConnOp::Activity { now });
    }
    if !active && n > 0 {
        law_effects_differ(h.ops[from as int], ConnOp::Look);
    }
    law_activity_stands(&*stream.shared(), start, h, from, now, n);
}

/// A record is made exactly where bytes flowed, and it is an update of the
/// stream's own connection by activity at that time.
pub proof fn law_record(stream: &IdleStream, r: Recorded, active: bool, now: u64)
    requires
        stream.records(r, active, now),
        now < 0x8000_0000_0000_0000,
    ensures
        r is Some <==> active,
        r matches Some(Ok(change)) ==> change.from < 0x8000_0000_0000_0000 && change.to == now
            && stream.shared().updated(ConnOp::Activity { now }, Ok(change.from)),
        r matches Some(Err(w)) ==> w >= 0x8000_0000_0000_0000 && stream.shared().updated(
            ConnOp::Activity { now },
            Err(w),
        ),
{
}

} // verus!
