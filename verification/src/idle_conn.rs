//! The idle state of one connection: when bytes last flowed, and whether the
//! connection was given up.
//!
//! Both live in one machine word that is only ever replaced as a whole, so
//! that a connection is given up only while the time of its last activity is
//! the one that was found stale.
use futures::task::AtomicWaker;
use std::sync::atomic::{AtomicU64, Ordering};
use std::task::Waker;
use vstd::prelude::*;

verus! {

/// Lower bound on the time between two sweeps, in microseconds.
pub const MIN_SWEEP_INTERVAL_MICROS: u64 = 10_000;

/// Upper bound on the time between two sweeps, in microseconds. It bounds by
/// how much a timeout is overshot, however long the timeout is.
pub const MAX_SWEEP_INTERVAL_MICROS: u64 = 5_000_000;

/// High bit of a connection's word: the connection was given up.
pub const ABORTED_BIT: u64 = 0x8000_0000_0000_0000;

/// Low 63 bits of a connection's word: the time of the last activity, in
/// microseconds.
pub const ACTIVITY_MASK: u64 = 0x7fff_ffff_ffff_ffff;

/// What a connection's word says.
pub struct Conn {
    pub aborted: bool,
    pub last_activity: nat,
}

/// What a connection's word says: the high bit, and the number that the other
/// bits make.
pub open spec fn conn(word: u64) -> Conn {
    if word >= ABORTED_BIT {
        Conn { aborted: true, last_activity: (word - ABORTED_BIT) as nat }
    } else {
        Conn { aborted: false, last_activity: word as nat }
    }
}

/// Something that happens to a connection.
#[derive(Clone, Copy, Debug, PartialEq, Eq, Structural)]
pub enum ConnOp {
    /// Bytes flowed at this time.
    Activity { now: u64 },
    /// A sweep came by at this time.
    Sweep { now: u64, idle_timeout: u64 },
    /// Somebody looked at it.
    Look,
}

impl ConnOp {
    /// The time of an activity fits beside the high bit.
    pub open spec fn wf(self) -> bool {
        self matches ConnOp::Activity { now } ==> now <= ACTIVITY_MASK
    }
}

/// How long no byte has flowed. A time before the last activity counts as the
/// time of it.
pub open spec fn idle_for(c: Conn, now: u64) -> nat {
    if now >= c.last_activity {
        (now - c.last_activity) as nat
    } else {
        0
    }
}

/// What happens to a connection: nothing, or a new state. One that was given
/// up stays as it is; activity moves the time of the last activity; a sweep
/// gives up a connection that was idle for its timeout.
pub open spec fn after(c: Conn, op: ConnOp) -> Option<Conn> {
    if c.aborted {
        None
    } else {
        match op {
            ConnOp::Activity { now } => Some(Conn { aborted: false, last_activity: now as nat }),
            ConnOp::Sweep { now, idle_timeout } => if idle_for(c, now) >= idle_timeout {
                Some(Conn { aborted: true, ..c })
            } else {
                None
            },
            ConnOp::Look => None,
        }
    }
}

/// The parts of a word by their bits.
proof fn lemma_word_bits(word: u64)
    ensures
        word & ABORTED_BIT != 0 <==> word >= ABORTED_BIT,
        word < ABORTED_BIT ==> word & ACTIVITY_MASK == word,
        word < ABORTED_BIT ==> word & ABORTED_BIT == 0,
        word < ABORTED_BIT ==> word | ABORTED_BIT == word + ABORTED_BIT,
        0u64 | word == word,
{
    assert(word & 0x8000_0000_0000_0000u64 != 0 <==> word >= 0x8000_0000_0000_0000u64)
        by (bit_vector);
    assert(word < 0x8000_0000_0000_0000u64 ==> word & 0x7fff_ffff_ffff_ffffu64 == word)
        by (bit_vector);
    assert(word < 0x8000_0000_0000_0000u64 ==> word | 0x8000_0000_0000_0000u64 == word
        + 0x8000_0000_0000_0000u64) by (bit_vector);
    assert(0u64 | word == word) by (bit_vector);
}

/// A count of microseconds as a last activity holds it, in 63 bits: what is
/// too large counts as the largest value.
pub open spec fn clamped(micros: u128) -> u64 {
    if micros <= ACTIVITY_MASK {
        micros as u64
    } else {
        ACTIVITY_MASK
    }
}

/// Saturates a count of microseconds to the 63 bits of a last activity.
pub fn clamp_micros(micros: u128) -> (r: u64)
    ensures
        r == clamped(micros),
        r <= ACTIVITY_MASK,
{
    if micros <= 0x7fff_ffff_ffff_ffff {
        micros as u64
    } else {
        ACTIVITY_MASK
    }
}

/// A later reading of the clock never gives an earlier time, and no reading
/// sets the high bit.
pub proof fn law_clock_is_monotone(earlier: u128, later: u128)
    requires
        earlier <= later,
    ensures
        clamped(earlier) <= clamped(later) < ABORTED_BIT,
{
}

/// A point in time of the runtime's clock.
#[verifier::external_type_specification]
#[verifier::external_body]
pub struct ExInstant(tokio::time::Instant);

/// Calls `tokio::time::Instant::now` and `saturating_duration_since`, and gives
/// the duration in microseconds: how many have passed since `origin`. It
/// depends on the clock, so nothing is said of it.
#[verifier::external_body]
fn micros_since(origin: &tokio::time::Instant) -> (r: u128) {
    tokio::time::Instant::now().saturating_duration_since(*origin).as_micros()
}

/// The clock has shown `micros` microseconds since `origin`.
pub closed spec fn clock_showed(origin: &tokio::time::Instant, micros: u128) -> bool {
    call_ensures(micros_since, (origin,), micros)
}

/// The microseconds that the clock shows since `origin`, as a last activity
/// holds them.
pub fn monotonic_micros(origin: &tokio::time::Instant) -> (r: u64)
    ensures
        exists|micros: u128| #[trigger] clock_showed(origin, micros) && r == clamped(micros),
        r <= ACTIVITY_MASK,
{
    let micros: u128 = micros_since(origin);
    assert(clock_showed(origin, micros));
    clamp_micros(micros)
}

/// A duration in microseconds. Parts of a microsecond are dropped; what is
/// too large counts as the largest value.
pub fn duration_to_micros(secs: u64, subsec_nanos: u32) -> (r: u64)
    ensures
        ({
            let micros = secs * 1_000_000 + subsec_nanos as int / 1000;
            r == if micros <= u64::MAX {
                micros
            } else {
                u64::MAX as int
            }
        }),
{
    let micros: u128 = secs as u128 * 1_000_000 + (subsec_nanos / 1000) as u128;
    if micros <= 0xffff_ffff_ffff_ffff {
        micros as u64
    } else {
        u64::MAX
    }
}

/// The time between two sweeps of connections with this timeout: a quarter of
/// it, within the bounds.
pub open spec fn sweep_interval(idle_timeout_micros: u64) -> u64 {
    let quarter = idle_timeout_micros / 4;
    if quarter < MIN_SWEEP_INTERVAL_MICROS {
        MIN_SWEEP_INTERVAL_MICROS
    } else if quarter > MAX_SWEEP_INTERVAL_MICROS {
        MAX_SWEEP_INTERVAL_MICROS
    } else {
        quarter
    }
}

/// The time between two sweeps of connections with this timeout, in
/// microseconds.
pub fn sweep_interval_for(idle_timeout_micros: u64) -> (r: u64)
    ensures
        r == sweep_interval(idle_timeout_micros),
{
    let quarter: u64 = idle_timeout_micros / 4;
    if quarter < MIN_SWEEP_INTERVAL_MICROS {
        MIN_SWEEP_INTERVAL_MICROS
    } else if quarter > MAX_SWEEP_INTERVAL_MICROS {
        MAX_SWEEP_INTERVAL_MICROS
    } else {
        quarter
    }
}

/// `word` says what `c` says, where there is one.
pub open spec fn says(word: Option<u64>, c: Option<Conn>) -> bool {
    match c {
        Some(c) => word matches Some(w) && conn(w) == c,
        None => word is None,
    }
}

/// The word that follows `cur`, where something happens to it.
pub fn next_word(cur: u64, op: ConnOp) -> (r: Option<u64>)
    requires
        op.wf(),
    ensures
        says(r, after(conn(cur), op)),
    opens_invariants none
{
    proof {
        lemma_word_bits(cur);
    }
    if cur & ABORTED_BIT != 0 {
        return None;
    }
    match op {
        ConnOp::Activity { now } => {
            proof {
                lemma_word_bits(now);
            }
            Some((cur & ABORTED_BIT) | now)
        },
        ConnOp::Sweep { now, idle_timeout } => {
            let last: u64 = cur & ACTIVITY_MASK;
            let idle: u64 = if now >= last {
                now - last
            } else {
                0
            };
            if idle < idle_timeout {
                None
            } else {
                Some(cur | ABORTED_BIT)
            }
        },
        ConnOp::Look => None,
    }
}

/// The name of what an operation does to a connection's word.
///
/// A function that touches the word says in its `opens_invariants` clause under
/// which names it does so. Its body can then call nothing that touches the
/// word, or a waker, under another name, and no atomic operation directly.
pub open spec fn effect(op: ConnOp) -> int {
    match op {
        ConnOp::Activity { now } => now as int,
        ConnOp::Sweep { now, idle_timeout } => -1 - (now * 0x1_0000_0000_0000_0000
            + idle_timeout),
        ConnOp::Look => 0x1_0000_0000_0000_0000,
    }
}

/// The name of calling a waker.
pub open spec fn waking() -> int {
    0x1_0000_0000_0000_0001
}

/// The name of registering a waker.
pub open spec fn registering() -> int {
    0x1_0000_0000_0000_0002
}

/// The name of doing nothing to a connection.
pub open spec fn no_effect() -> int {
    0x1_0000_0000_0000_0003
}

/// No two operations have the same name, and none has that of calling or
/// registering a waker, or of doing nothing.
pub proof fn law_effects_differ(a: ConnOp, b: ConnOp)
    ensures
        effect(a) == effect(b) ==> a == b,
        effect(a) != waking(),
        effect(a) != registering(),
        effect(a) != no_effect(),
        waking() != registering(),
        waking() != no_effect(),
        registering() != no_effect(),
{
}

/// A waker that can be set and called from several tasks.
#[verifier::external_type_specification]
#[verifier::external_body]
pub struct ExAtomicWaker(AtomicWaker);

/// What wakes a task.
#[verifier::external_type_specification]
#[verifier::external_body]
pub struct ExWaker(Waker);

/// `AtomicWaker::new`: a cell without a waker.
pub assume_specification[ AtomicWaker::new ]() -> AtomicWaker;

/// `AtomicWaker::register`: the waker to call next. Its effect shows only in
/// the runtime, so nothing is said of it. It opens no invariant; the clause
/// gives its name.
pub assume_specification[ AtomicWaker::register ](cell: &AtomicWaker, waker: &Waker)
    opens_invariants [ registering() ];

/// `AtomicWaker::wake`: calls the waker that was registered last, if any. Its
/// effect shows only in the runtime, so nothing is said of it. It opens no
/// invariant; the clause gives its name.
pub assume_specification[ AtomicWaker::wake ](cell: &AtomicWaker)
    opens_invariants [ waking() ];

/// Calls `AtomicU64::fetch_update` with `next_word`: either a word with a
/// successor was replaced by it, or a word without one was found. Other tasks
/// may replace the word at any time, so nothing is said of which word it was.
/// It opens no invariant; the clause gives the name of the update.
#[verifier::external_body]
fn fetch_update(word: &AtomicU64, op: ConnOp) -> (r: Result<u64, u64>)
    requires
        op.wf(),
    ensures
        match r {
            Ok(found) => after(conn(found), op) is Some,
            Err(found) => after(conn(found), op) is None,
        },
    opens_invariants [ effect(op) ]
{
    word.fetch_update(Ordering::Release, Ordering::Acquire, |cur| next_word(cur, op))
}

/// Which half of a connection is polled.
#[derive(Clone, Copy, Debug, PartialEq, Eq, Structural)]
pub enum Direction {
    Read,
    Write,
}

/// Sorts a word: an operation of a connection that was given up has timed
/// out, any other may go on.
pub fn gate(word: u64) -> (r: Result<u64, u64>)
    ensures
        r == if conn(word).aborted {
            Err::<u64, u64>(word)
        } else {
            Ok::<u64, u64>(word)
        },
    opens_invariants none
{
    proof {
        lemma_word_bits(word);
    }
    if word & ABORTED_BIT != 0 {
        Err(word)
    } else {
        Ok(word)
    }
}

/// A word of a connection and the word that took its place.
#[derive(Clone, Copy, Debug, PartialEq, Eq, Structural)]
pub struct Change {
    pub from: u64,
    pub to: u64,
}

/// `r` is what came of recording activity: a word that was not given up was
/// replaced by one that says when the activity was, or a word that was given
/// up was left in place.
pub open spec fn noted(r: Result<Change, u64>, now: u64) -> bool {
    match r {
        Ok(change) => !conn(change.from).aborted && conn(change.to) == (Conn {
            aborted: false,
            last_activity: now as nat,
        }),
        Err(found) => conn(found).aborted,
    }
}

/// What the update found, of what came of recording activity.
pub open spec fn replaced(r: Result<Change, u64>) -> Result<u64, u64> {
    match r {
        Ok(change) => Ok(change.from),
        Err(found) => Err(found),
    }
}

/// `r` is the word that was found: on the right side for whether the
/// connection was given up.
pub open spec fn gated(r: Result<u64, u64>) -> bool {
    match r {
        Ok(found) => !conn(found).aborted,
        Err(found) => conn(found).aborted,
    }
}

/// The word that was found.
pub open spec fn found(r: Result<u64, u64>) -> u64 {
    match r {
        Ok(word) => word,
        Err(word) => word,
    }
}

/// `r` is what a sweep found: a word that was stale and not given up, which
/// it replaced, or one that it left in place.
pub open spec fn sorted_by_sweep(r: Result<u64, u64>, now: u64, idle_timeout: u64) -> bool {
    match r {
        Ok(found) => !conn(found).aborted && idle_for(conn(found), now) >= idle_timeout,
        Err(found) => conn(found).aborted || idle_for(conn(found), now) < idle_timeout,
    }
}

/// That a waker was registered. Nothing is said of what it holds, so that one
/// that goes with a registration comes from that registration alone.
#[allow(dead_code)]
struct Armed<'a> {
    waker: &'a Waker,
}

/// That a connection was given up. Nothing is said of what it holds, so that
/// one that goes with a give-up comes from that give-up alone.
#[allow(dead_code)]
struct Marked<'a> {
    state: &'a IdleConnState,
}

/// The idle state of a connection, shared between its stream and the sweeper.
///
/// The two halves have wakers of their own, so that tasks that drive them
/// independently are both woken when the connection is given up.
pub struct IdleConnState {
    state: AtomicU64,
    read_waker: AtomicWaker,
    write_waker: AtomicWaker,
    idle_timeout_micros: u64,
}

impl IdleConnState {
    /// After how many idle microseconds the connection is given up.
    pub closed spec fn idle_timeout(&self) -> u64 {
        self.idle_timeout_micros
    }

    /// `word` is what a read of this connection's word gave.
    pub closed spec fn read(&self, word: u64) -> bool {
        call_ensures(fetch_update, (&self.state, ConnOp::Look), Err::<u64, u64>(word))
    }

    /// `r` is what an update of this connection's word by `op` gave: the word
    /// that was replaced by its successor, or the word without one that was
    /// left in place.
    pub closed spec fn updated(&self, op: ConnOp, r: Result<u64, u64>) -> bool {
        call_ensures(fetch_update, (&self.state, op), r)
    }

    /// `waker` was registered for this half of the connection.
    pub closed spec fn registered(&self, direction: Direction, waker: &Waker) -> bool {
        match direction {
            Direction::Read => call_ensures(AtomicWaker::register, (&self.read_waker, waker), ()),
            Direction::Write => call_ensures(AtomicWaker::register, (&self.write_waker, waker), ()),
        }
    }

    /// `waker` was registered for this half of the connection, and `word` is
    /// what a read gave that came behind this registration.
    pub closed spec fn read_once_registered(
        &self,
        direction: Direction,
        waker: &Waker,
        word: u64,
    ) -> bool {
        exists|armed: Armed| #[trigger]
            call_ensures(IdleConnState::arm, (self, direction, waker), armed) && call_ensures(
                IdleConnState::read_armed,
                (self, armed),
                word,
            )
    }

    /// This connection's word was made as one that was active at `now` and was
    /// not given up.
    pub closed spec fn started(&self, now: u64) -> bool {
        call_ensures(AtomicU64::new, (now,), self.state)
    }

    /// The wakers of both halves were called.
    pub closed spec fn woken(&self) -> bool {
        &&& call_ensures(AtomicWaker::wake, (&self.read_waker,), ())
        &&& call_ensures(AtomicWaker::wake, (&self.write_waker,), ())
    }

    /// A sweep at `now` gave this connection up when it found `found`, and the
    /// wakers of both halves were called behind this give-up.
    pub closed spec fn woken_once_given_up(&self, now: u64, found: u64) -> bool {
        exists|marked: Marked| #[trigger]
            call_ensures(
                IdleConnState::mark,
                (self, now),
                Ok::<(Marked, u64), u64>((marked, found)),
            ) && call_ensures(IdleConnState::wake_marked, (self, marked), ())
    }

    /// `r` is what came of recording activity at `now` in this connection's
    /// word.
    pub open spec fn recorded(&self, now: u64, r: Result<Change, u64>) -> bool {
        &&& self.updated(ConnOp::Activity { now }, replaced(r))
        &&& noted(r, now)
    }

    /// The state of a connection that was active just now.
    pub fn new(now: u64, idle_timeout_micros: u64) -> (r: Self)
        requires
            now <= ACTIVITY_MASK,
        ensures
            r.started(now),
            r.idle_timeout() == idle_timeout_micros,
    {
        IdleConnState {
            state: AtomicU64::new(now),
            read_waker: AtomicWaker::new(),
            write_waker: AtomicWaker::new(),
            idle_timeout_micros,
        }
    }

    /// After how many idle microseconds the connection is given up.
    pub fn idle_timeout_micros(&self) -> (r: u64)
        ensures
            r == self.idle_timeout(),
        opens_invariants none
    {
        self.idle_timeout_micros
    }

    /// Records activity, unless the connection was given up. Gives the word
    /// that it replaced with the word that it put there, or the word that it
    /// left in place.
    pub fn note_activity(&self, now: u64) -> (r: Result<Change, u64>)
        requires
            now <= ACTIVITY_MASK,
        ensures
            self.recorded(now, r),
        opens_invariants [ effect(ConnOp::Activity { now }) ]
    {
        let op = ConnOp::Activity { now };
        match fetch_update(&self.state, op) {
            Ok(found) => match next_word(found, op) {
                Some(to) => Ok(Change { from: found, to }),
                None => Err(found),
            },
            Err(found) => Err(found),
        }
    }

    /// Reads the word of the connection, which stays as it is.
    fn look(&self) -> (word: u64)
        ensures
            self.read(word),
        opens_invariants [ effect(ConnOp::Look) ]
    {
        match fetch_update(&self.state, ConnOp::Look) {
            Ok(word) => word,
            Err(word) => word,
        }
    }

    /// Reads the word of the connection.
    pub fn observe(&self) -> (r: Result<u64, u64>)
        ensures
            self.read(found(r)),
            gated(r),
        opens_invariants [ effect(ConnOp::Look) ]
    {
        gate(self.look())
    }

    /// Whether the connection was given up, as a read of its word says. Other
    /// tasks may give it up at any time, so nothing is said of which word that
    /// is.
    pub fn is_aborted(&self) -> (r: bool)
        ensures
            exists|word: u64| #[trigger] self.read(word) && r == conn(word).aborted,
        opens_invariants [ effect(ConnOp::Look) ]
    {
        let seen = self.observe();
        assert(self.read(found(seen)));
        match seen {
            Ok(_) => false,
            Err(_) => true,
        }
    }

    /// Gives the connection up, where it is idle for its timeout and was not
    /// given up before. Gives the word that it replaced, or the word that it
    /// left in place: activity that comes in between wins.
    pub fn sweep(&self, now_micros: u64) -> (r: Result<u64, u64>)
        ensures
            self.updated(
                ConnOp::Sweep { now: now_micros, idle_timeout: self.idle_timeout() },
                r,
            ),
            sorted_by_sweep(r, now_micros, self.idle_timeout()),
        opens_invariants [ effect(
            ConnOp::Sweep { now: now_micros, idle_timeout: self.idle_timeout() },
        ) ]
    {
        fetch_update(
            &self.state,
            ConnOp::Sweep { now: now_micros, idle_timeout: self.idle_timeout_micros },
        )
    }

    /// Gives the connection up, where it is idle for its timeout. Whether it
    /// was given up by this call: whether the update of its word replaced one
    /// that was stale and not given up.
    pub fn try_mark_aborted_if_stale(&self, now_micros: u64) -> (r: bool)
        ensures
            exists|w: Result<u64, u64>| #[trigger]
                self.updated(
                    ConnOp::Sweep { now: now_micros, idle_timeout: self.idle_timeout() },
                    w,
                ) && sorted_by_sweep(w, now_micros, self.idle_timeout()) && r == (w is Ok),
            r ==> self.idle_timeout() <= now_micros,
        opens_invariants [ effect(
            ConnOp::Sweep { now: now_micros, idle_timeout: self.idle_timeout() },
        ) ]
    {
        match self.sweep(now_micros) {
            Ok(_) => true,
            Err(_) => false,
        }
    }

    /// Wakes the tasks that wait for either half.
    pub fn wake(&self)
        ensures
            self.woken(),
        opens_invariants [ waking() ]
    {
        self.read_waker.wake();
        self.write_waker.wake();
    }

    /// Gives the connection up, where it is idle for its timeout and was not
    /// given up before.
    fn mark<'a>(&'a self, now_micros: u64) -> (r: Result<(Marked<'a>, u64), u64>)
        ensures
            ({
                let w = match r {
                    Ok((_, found)) => Ok::<u64, u64>(found),
                    Err(found) => Err::<u64, u64>(found),
                };
                &&& self.updated(
                    ConnOp::Sweep { now: now_micros, idle_timeout: self.idle_timeout() },
                    w,
                )
                &&& sorted_by_sweep(w, now_micros, self.idle_timeout())
            }),
        opens_invariants [ effect(
            ConnOp::Sweep { now: now_micros, idle_timeout: self.idle_timeout() },
        ) ]
    {
        match self.sweep(now_micros) {
            Ok(found) => Ok((Marked { state: self }, found)),
            Err(found) => Err(found),
        }
    }

    /// Wakes the tasks that wait for either half, once the connection is given
    /// up.
    fn wake_marked(&self, _marked: Marked<'_>)
        ensures
            self.woken(),
        opens_invariants [ waking() ]
    {
        self.wake();
    }

    /// Gives the connection up, where it is idle for its timeout and was not
    /// given up before, and then wakes the tasks that wait for either half:
    /// they poll again and find it given up. Gives the word that it replaced,
    /// or the word that it left in place.
    pub fn give_up(&self, now_micros: u64) -> (r: Result<u64, u64>)
        ensures
            self.updated(
                ConnOp::Sweep { now: now_micros, idle_timeout: self.idle_timeout() },
                r,
            ),
            sorted_by_sweep(r, now_micros, self.idle_timeout()),
            r matches Ok(found) ==> self.woken() && self.woken_once_given_up(now_micros, found),
        opens_invariants [ effect(
            ConnOp::Sweep { now: now_micros, idle_timeout: self.idle_timeout() },
        ), waking() ]
    {
        match self.mark(now_micros) {
            Ok((marked, found)) => {
                self.wake_marked(marked);
                Ok(found)
            },
            Err(found) => Err(found),
        }
    }

    /// Registers the waker of a half.
    fn arm<'a>(&self, direction: Direction, waker: &'a Waker) -> (r: Armed<'a>)
        ensures
            self.registered(direction, waker),
        opens_invariants [ registering() ]
    {
        match direction {
            Direction::Read => self.read_waker.register(waker),
            Direction::Write => self.write_waker.register(waker),
        }
        Armed { waker }
    }

    /// Reads the word of the connection, once a waker is registered.
    fn read_armed(&self, _armed: Armed<'_>) -> (word: u64)
        ensures
            self.read(word),
        opens_invariants [ effect(ConnOp::Look) ]
    {
        self.look()
    }

    /// Readies a half for being polled. The waker is registered before the
    /// word is read: a connection that is given up in between is seen, or the
    /// waker is called.
    pub fn start_io(&self, direction: Direction, waker: &Waker) -> (r: Result<u64, u64>)
        ensures
            self.registered(direction, waker),
            self.read(found(r)),
            self.read_once_registered(direction, waker, found(r)),
            gated(r),
        opens_invariants [ registering(), effect(ConnOp::Look) ]
    {
        let armed = self.arm(direction, waker);
        gate(self.read_armed(armed))
    }
}

/// The state after one thing happened.
pub open spec fn step(c: Conn, op: ConnOp) -> Conn {
    match after(c, op) {
        Some(next) => next,
        None => c,
    }
}

/// The state after things happened, in order.
pub open spec fn steps(c: Conn, ops: Seq<ConnOp>) -> Conn
    decreases ops.len(),
{
    if ops.len() == 0 {
        c
    } else {
        step(steps(c, ops.drop_last()), ops.last())
    }
}

/// Sweeps at these times.
pub open spec fn sweeps(times: Seq<u64>, idle_timeout: u64) -> Seq<ConnOp> {
    times.map_values(|t: u64| ConnOp::Sweep { now: t, idle_timeout })
}

/// A connection that was given up stays given up, and its last activity stays
/// what it was, whatever happens.
pub proof fn law_abort_is_sticky(c: Conn, ops: Seq<ConnOp>)
    requires
        c.aborted,
    ensures
        steps(c, ops) == c,
    decreases ops.len(),
{
    if ops.len() > 0 {
        law_abort_is_sticky(c, ops.drop_last());
    }
}

/// Of several sweeps at most one gives the connection up: behind it no other
/// one does.
pub proof fn law_abort_once(c: Conn, op: ConnOp, ops: Seq<ConnOp>, later: ConnOp)
    requires
        after(c, op) is Some,
        step(c, op).aborted,
    ensures
        after(steps(step(c, op), ops), later) is None,
{
    law_abort_is_sticky(step(c, op), ops);
}

/// Whatever happens, a connection is given up only by a sweep that found it
/// idle for its timeout: at the sweep that does it, that long has passed
/// since the last activity.
pub proof fn law_no_early_abort(c: Conn, ops: Seq<ConnOp>) -> (k: nat)
    requires
        !c.aborted,
        steps(c, ops).aborted,
    ensures
        k < ops.len(),
        !steps(c, ops.take(k as int)).aborted,
        ops[k as int] matches ConnOp::Sweep { now, idle_timeout } && idle_for(
            steps(c, ops.take(k as int)),
            now,
        ) >= idle_timeout,
    decreases ops.len(),
{
    let init = ops.drop_last();
    if steps(c, init).aborted {
        let k = law_no_early_abort(c, init);
        assert(init.take(k as int) =~= ops.take(k as int));
        k
    } else {
        assert(ops.take(ops.len() - 1) =~= init);
        (ops.len() - 1) as nat
    }
}

proof fn lemma_early_sweeps(c: Conn, times: Seq<u64>, idle_timeout: u64)
    requires
        !c.aborted,
        forall|i: int|
            0 <= i < times.len() ==> c.last_activity <= #[trigger] times[i] < c.last_activity
                + idle_timeout,
    ensures
        steps(c, sweeps(times, idle_timeout)) == c,
    decreases times.len(),
{
    if times.len() > 0 {
        let init = times.drop_last();
        assert forall|i: int| 0 <= i < init.len() implies c.last_activity <= #[trigger] init[i]
            < c.last_activity + idle_timeout by {
            assert(init[i] == times[i]);
        }
        lemma_early_sweeps(c, init, idle_timeout);
        assert(sweeps(times, idle_timeout).drop_last() =~= sweeps(init, idle_timeout));
        assert(c.last_activity <= times[times.len() - 1] < c.last_activity + idle_timeout);
    }
}

/// Activity starts the timeout anew: whatever the connection's past, sweeps
/// within one timeout of its activity leave it alone.
pub proof fn law_activity_restarts_timeout(
    c: Conn,
    now: u64,
    times: Seq<u64>,
    idle_timeout: u64,
)
    requires
        !c.aborted,
        forall|i: int|
            0 <= i < times.len() ==> now <= #[trigger] times[i] < now + idle_timeout,
    ensures
        steps(step(c, ConnOp::Activity { now }), sweeps(times, idle_timeout)) == (Conn {
            aborted: false,
            last_activity: now as nat,
        }),
{
    lemma_early_sweeps(step(c, ConnOp::Activity { now }), times, idle_timeout);
}

/// A timeout fires no earlier than it is due and no later than one sweep
/// interval past that: of sweeps that come at most one interval apart, from
/// the last activity on, the one that gives the connection up comes within
/// this band.
pub proof fn law_timeout_band(c: Conn, times: Seq<u64>, idle_timeout: u64) -> (k: nat)
    requires
        !c.aborted,
        times.len() > 0,
        c.last_activity <= times[0] <= c.last_activity + sweep_interval(idle_timeout),
        forall|i: int, j: int| 0 <= i < j < times.len() ==> times[i] <= times[j],
        forall|i: int|
            0 < i < times.len() ==> #[trigger] times[i] <= times[i - 1] + sweep_interval(
                idle_timeout,
            ),
        times.last() >= c.last_activity + idle_timeout,
    ensures
        k < times.len(),
        !steps(c, sweeps(times.take(k as int), idle_timeout)).aborted,
        steps(c, sweeps(times.take(k as int + 1), idle_timeout)).aborted,
        c.last_activity + idle_timeout <= times[k as int] <= c.last_activity + idle_timeout
            + sweep_interval(idle_timeout),
{
    lemma_band_from(c, times, idle_timeout, 0)
}

proof fn lemma_band_from(c: Conn, times: Seq<u64>, idle_timeout: u64, from: nat) -> (k: nat)
    requires
        !c.aborted,
        from < times.len(),
        c.last_activity <= times[0] <= c.last_activity + sweep_interval(idle_timeout),
        forall|i: int, j: int| 0 <= i < j < times.len() ==> times[i] <= times[j],
        forall|i: int|
            0 < i < times.len() ==> #[trigger] times[i] <= times[i - 1] + sweep_interval(
                idle_timeout,
            ),
        times.last() >= c.last_activity + idle_timeout,
        forall|i: int| 0 <= i < from ==> #[trigger] times[i] < c.last_activity + idle_timeout,
    ensures
        k < times.len(),
        !steps(c, sweeps(times.take(k as int), idle_timeout)).aborted,
        steps(c, sweeps(times.take(k as int + 1), idle_timeout)).aborted,
        c.last_activity + idle_timeout <= times[k as int] <= c.last_activity + idle_timeout
            + sweep_interval(idle_timeout),
    decreases times.len() - from,
{
    if times[from as int] < c.last_activity + idle_timeout {
        lemma_band_from(c, times, idle_timeout, from + 1)
    } else {
        let before = times.take(from as int);
        assert forall|i: int| 0 <= i < before.len() implies c.last_activity <= #[trigger] before[i]
            < c.last_activity + idle_timeout by {
            assert(before[i] == times[i]);
            if i > 0 {
                assert(times[0] <= times[i]);
            }
        }
        lemma_early_sweeps(c, before, idle_timeout);
        let with = sweeps(times.take(from as int + 1), idle_timeout);
        assert(with.drop_last() =~= sweeps(before, idle_timeout));
        assert(with.last() == (ConnOp::Sweep { now: times[from as int], idle_timeout }));
        if from > 0 {
            assert(times[from - 1] < c.last_activity + idle_timeout);
        }
        from
    }
}

/// Activity that races a sweep comes first or second. Where it comes first,
/// the sweep goes by the time of the activity; where it comes second, it
/// changes nothing of a connection that the sweep gave up. So activity that is
/// fresh at the sweep is never recorded in a connection that is given up.
pub proof fn law_race(c: Conn, active: u64, swept: u64, idle_timeout: u64)
    ensures
        ({
            let activity = ConnOp::Activity { now: active };
            let sweep = ConnOp::Sweep { now: swept, idle_timeout };
            let noted = Conn { aborted: false, last_activity: active as nat };
            &&& step(step(c, activity), sweep) == if c.aborted {
                c
            } else if idle_for(noted, swept) >= idle_timeout {
                Conn { aborted: true, ..noted }
            } else {
                noted
            }
            &&& step(step(c, sweep), activity) == if c.aborted {
                c
            } else if idle_for(c, swept) >= idle_timeout {
                Conn { aborted: true, ..c }
            } else {
                noted
            }
        }),
{
}

/// What has happened to the word of a connection: the updates in the order in
/// which they took effect, what each of them gave, and the words before,
/// between and behind them.
pub struct History {
    pub ops: Seq<ConnOp>,
    pub results: Seq<Result<u64, u64>>,
    pub words: Seq<u64>,
}

impl IdleConnState {
    /// `h` is the history of this connection since it was made at `now`: each
    /// update found the word that the one before it left, and left the word
    /// that its result speaks of.
    pub open spec fn lived(&self, now: u64, h: History) -> bool {
        &&& now <= ACTIVITY_MASK
        &&& self.started(now)
        &&& h.results.len() == h.ops.len()
        &&& h.words.len() == h.ops.len() + 1
        &&& h.words[0] == now
        &&& forall|i: int|
            0 <= i < h.ops.len() ==> {
                &&& self.updated(#[trigger] h.ops[i], h.results[i])
                &&& found(h.results[i]) == h.words[i]
                &&& h.results[i] is Ok ==> conn(h.words[i + 1]) == after(
                    conn(h.words[i]),
                    h.ops[i],
                )->0
                &&& h.results[i] is Err ==> h.words[i + 1] == h.words[i]
            }
    }
}

/// An update replaces the word that it finds exactly where it has a successor.
pub proof fn law_update(s: &IdleConnState, op: ConnOp, r: Result<u64, u64>)
    requires
        s.updated(op, r),
    ensures
        r is Ok <==> after(conn(found(r)), op) is Some,
{
}

proof fn lemma_lived(s: &IdleConnState, now: u64, h: History, from: nat, n: nat)
    requires
        s.lived(now, h),
        from + n <= h.ops.len(),
    ensures
        conn(h.words[(from + n) as int]) == steps(
            conn(h.words[from as int]),
            h.ops.subrange(from as int, (from + n) as int),
        ),
    decreases n,
{
    if n > 0 {
        let last = from + n - 1;
        lemma_lived(s, now, h, from, (n - 1) as nat);
        let ops = h.ops.subrange(from as int, (from + n) as int);
        assert(ops.drop_last() =~= h.ops.subrange(from as int, last));
        assert(ops.last() == h.ops[last]);
        law_update(s, h.ops[last], h.results[last]);
    }
}

/// A connection starts active and not given up, and its words are those that
/// its updates lead to, one after the other.
pub proof fn law_history(s: &IdleConnState, now: u64, h: History, n: nat)
    requires
        s.lived(now, h),
        n <= h.ops.len(),
    ensures
        conn(h.words[n as int]) == steps(
            Conn { aborted: false, last_activity: now as nat },
            h.ops.take(n as int),
        ),
{
    lemma_lived(s, now, h, 0, n);
    assert(h.ops.subrange(0, n as int) =~= h.ops.take(n as int));
}

/// Once a connection is given up, its word stays as it is: no activity is
/// recorded in it and no sweep gives it up again.
pub proof fn law_given_up_for_good(s: &IdleConnState, now: u64, h: History, i: nat, j: nat)
    requires
        s.lived(now, h),
        i <= j <= h.ops.len(),
        conn(h.words[i as int]).aborted,
    ensures
        h.words[j as int] == h.words[i as int],
        j < h.ops.len() ==> h.results[j as int] is Err,
    decreases j - i,
{
    if i < j {
        law_given_up_for_good(s, now, h, i, (j - 1) as nat);
        assert(s.updated(h.ops[j - 1], h.results[j - 1]));
    }
    if j < h.ops.len() {
        law_update(s, h.ops[j as int], h.results[j as int]);
    }
}

/// A connection is not given up before a sweep reports that it gave it up.
pub proof fn law_alive_until_swept(s: &IdleConnState, now: u64, h: History, n: nat)
    requires
        s.lived(now, h),
        n <= h.ops.len(),
        forall|i: int| 0 <= i < n && (#[trigger] h.ops[i]) is Sweep ==> h.results[i] is Err,
    ensures
        !conn(h.words[n as int]).aborted,
    decreases n,
{
    if n > 0 {
        law_alive_until_swept(s, now, h, (n - 1) as nat);
        law_update(s, h.ops[n - 1], h.results[n - 1]);
    }
}

/// Activity that was recorded is the last activity, and leaves the connection
/// as one that was not given up.
pub proof fn law_recorded_activity(s: &IdleConnState, now: u64, h: History, i: nat, active: u64)
    requires
        s.lived(now, h),
        i < h.ops.len(),
        h.ops[i as int] == (ConnOp::Activity { now: active }),
    ensures
        h.results[i as int] is Ok <==> !conn(h.words[i as int]).aborted,
        h.results[i as int] is Ok ==> conn(h.words[i as int + 1]) == (Conn {
            aborted: false,
            last_activity: active as nat,
        }),
{
    law_update(s, h.ops[i as int], h.results[i as int]);
}

/// Sweeps at these times come in time for a connection whose last activity was
/// at `last`: they go on until its timeout is past, and neither the first nor
/// any later one is more than one sweep interval away from what came before.
pub open spec fn on_time(times: Seq<u64>, last: nat, idle_timeout: u64) -> bool {
    &&& times.len() > 0
    &&& last <= times[0] <= last + sweep_interval(idle_timeout)
    &&& forall|i: int, j: int| 0 <= i < j < times.len() ==> times[i] <= times[j]
    &&& forall|i: int|
        0 < i < times.len() ==> #[trigger] times[i] <= times[i - 1] + sweep_interval(idle_timeout)
    &&& times.last() >= last + idle_timeout
}

/// From when no byte flows any more, be it from the start, a connection is
/// given up no earlier than its timeout and no later than one sweep interval
/// past it: of sweeps that come at most one interval apart, the one that
/// reports it comes within this band. Up to it the connection was not given
/// up; behind it, it stays given up, whatever happens.
pub proof fn law_times_out(
    s: &IdleConnState,
    now: u64,
    h: History,
    from: nat,
    times: Seq<u64>,
) -> (k: nat)
    requires
        s.lived(now, h),
        from + times.len() <= h.ops.len(),
        h.ops.subrange(from as int, (from + times.len()) as int) == sweeps(
            times,
            s.idle_timeout(),
        ),
        !conn(h.words[from as int]).aborted,
        on_time(times, conn(h.words[from as int]).last_activity, s.idle_timeout()),
    ensures
        ({
            let last = conn(h.words[from as int]).last_activity;
            &&& k < times.len()
            &&& h.results[(from + k) as int] is Ok
            &&& conn(h.words[(from + k) as int + 1]).aborted
            &&& forall|i: int| from <= i < from + k ==> (#[trigger] h.results[i]) is Err
            &&& forall|j: int|
                from <= j <= from + k ==> !conn(#[trigger] h.words[j]).aborted
            &&& forall|j: int|
                from + k < j < h.words.len() ==> conn(#[trigger] h.words[j]).aborted
            &&& last + s.idle_timeout() <= times[k as int] <= last + s.idle_timeout()
                + sweep_interval(s.idle_timeout())
        }),
{
    let c = conn(h.words[from as int]);
    let idle_timeout = s.idle_timeout();
    let all = sweeps(times, idle_timeout);
    let swept = h.ops.subrange(from as int, (from + times.len()) as int);
    assert(swept.len() == times.len());
    let k = law_timeout_band(c, times, idle_timeout);
    assert forall|n: int| 0 <= n <= times.len() implies conn(#[trigger] h.words[from + n]) == steps(
        c,
        sweeps(times.take(n), idle_timeout),
    ) by {
        lemma_lived(s, now, h, from, n as nat);
        assert(h.ops.subrange(from as int, from + n) =~= sweeps(times.take(n), idle_timeout)) by {
            assert forall|i: int| 0 <= i < n implies h.ops[from + i] == #[trigger] all[i] by {
                assert(swept[i] == h.ops[from + i]);
            }
        }
    }
    assert(h.words[from + (k as int + 1)] == h.words[(from + k) as int + 1]);
    assert(swept[k as int] == h.ops[(from + k) as int]);
    assert(!conn(h.words[from + k as int]).aborted);
    law_update(s, h.ops[(from + k) as int], h.results[(from + k) as int]);
    if h.results[(from + k) as int] is Err {
        assert(h.words[(from + k) as int + 1] == h.words[(from + k) as int]);
    }
    assert forall|i: int| from <= i < from + k implies (#[trigger] h.results[i]) is Err by {
        assert(swept[i - from] == h.ops[i]);
        law_update(s, h.ops[i], h.results[i]);
        if h.results[i] is Ok {
            assert(conn(h.words[i + 1]).aborted);
            law_given_up_for_good(s, now, h, (i + 1) as nat, (from + k) as nat);
        }
    }
    assert forall|j: int| from <= j <= from + k implies !conn(#[trigger] h.words[j]).aborted by {
        if conn(h.words[j]).aborted {
            law_given_up_for_good(s, now, h, j as nat, (from + k) as nat);
        }
    }
    assert forall|j: int| from + k < j < h.words.len() implies conn(
        #[trigger] h.words[j],
    ).aborted by {
        law_given_up_for_good(s, now, h, (from + k + 1) as nat, j as nat);
    }
    k
}

/// What follows a word, number by number: nothing follows one with the high
/// bit; activity puts its own time there; a sweep sets the high bit of one
/// that it is at least the timeout ahead of, and leaves the other bits; a look
/// changes nothing.
pub proof fn law_next_word(cur: u64, op: ConnOp, r: Option<u64>)
    requires
        op matches ConnOp::Activity { now } ==> now < 0x8000_0000_0000_0000,
        says(r, after(conn(cur), op)),
    ensures
        cur >= 0x8000_0000_0000_0000 ==> r is None,
        cur < 0x8000_0000_0000_0000 ==> match op {
            ConnOp::Activity { now } => r == Some(now),
            ConnOp::Sweep { now, idle_timeout } => if now >= cur + idle_timeout || idle_timeout
                == 0 {
                r matches Some(w) && w == cur + 0x8000_0000_0000_0000
            } else {
                r is None
            },
            ConnOp::Look => r is None,
        },
{
}

/// A word is passed on as one that may go on exactly where its high bit is
/// clear, and the word itself is what was found.
pub proof fn law_gate(r: Result<u64, u64>)
    ensures
        gated(r) <==> match r {
            Ok(w) => w < 0x8000_0000_0000_0000,
            Err(w) => w >= 0x8000_0000_0000_0000,
        },
        r matches Ok(w) ==> found(r) == w,
        r matches Err(w) ==> found(r) == w,
{
}

/// Recording activity puts its time in place of a word whose high bit is
/// clear, and leaves a word in place whose high bit is set.
pub proof fn law_note(s: &IdleConnState, now: u64, r: Result<Change, u64>)
    requires
        s.recorded(now, r),
        now < 0x8000_0000_0000_0000,
    ensures
        match r {
            Ok(change) => change.from < 0x8000_0000_0000_0000 && change.to == now && s.updated(
                ConnOp::Activity { now },
                Ok(change.from),
            ),
            Err(w) => w >= 0x8000_0000_0000_0000 && s.updated(ConnOp::Activity { now }, Err(w)),
        },
{
}

/// A sweep replaces a word exactly where its high bit is clear and the sweep
/// comes at least the timeout behind it.
pub proof fn law_sweep_sorts(r: Result<u64, u64>, now: u64, idle_timeout: u64)
    ensures
        sorted_by_sweep(r, now, idle_timeout) <==> match r {
            Ok(w) => w < 0x8000_0000_0000_0000 && (now >= w + idle_timeout || idle_timeout == 0),
            Err(w) => w >= 0x8000_0000_0000_0000 || (now < w + idle_timeout && idle_timeout > 0),
        },
{
}

/// Two words of which a sweep replaces one and leaves the other, at the same
/// time and with the same timeout, differ in that the one it replaced is the
/// older one.
pub proof fn law_sweep_is_monotone(a: u64, b: u64, now: u64, idle_timeout: u64)
    requires
        a <= b < 0x8000_0000_0000_0000,
        after(conn(b), ConnOp::Sweep { now, idle_timeout }) is Some,
    ensures
        after(conn(a), ConnOp::Sweep { now, idle_timeout }) is Some,
{
}

/// The largest count that a last activity holds is reached by every count
/// that is larger; each smaller count is held as it is.
pub proof fn law_clamp(micros: u128)
    ensures
        micros < 0x8000_0000_0000_0000 ==> clamped(micros) == micros,
        micros >= 0x8000_0000_0000_0000 ==> clamped(micros) == 0x7fff_ffff_ffff_ffff,
{
}

/// Sweeps come every 10 ms for timeouts under 40 ms, every 5 s for timeouts
/// of 20 s and more, and four times in a timeout between these.
pub proof fn law_sweep_interval(idle_timeout_micros: u64)
    ensures
        idle_timeout_micros < 40_000 ==> sweep_interval(idle_timeout_micros) == 10_000,
        idle_timeout_micros >= 20_000_000 ==> sweep_interval(idle_timeout_micros) == 5_000_000,
        40_000 <= idle_timeout_micros < 20_000_000 ==> 4 * sweep_interval(idle_timeout_micros)
            <= idle_timeout_micros < 4 * sweep_interval(idle_timeout_micros) + 4,
{
}

/// Updates that all record activity at one time leave that time as the word of
/// a connection that was not given up, and change nothing of one that was.
pub proof fn law_activity_stands(
    s: &IdleConnState,
    start: u64,
    h: History,
    from: nat,
    now: u64,
    n: nat,
)
    requires
        s.lived(start, h),
        now < 0x8000_0000_0000_0000,
        from + n <= h.ops.len(),
        forall|i: int|
            from <= i < from + n ==> #[trigger] h.ops[i] == (ConnOp::Activity { now }),
    ensures
        h.words[from as int] >= 0x8000_0000_0000_0000 || n == 0 ==> h.words[(from + n) as int]
            == h.words[from as int],
        h.words[from as int] < 0x8000_0000_0000_0000 && n > 0 ==> h.words[(from + n) as int]
            == now,
    decreases n,
{
    if n > 0 {
        law_activity_stands(s, start, h, from, now, (n - 1) as nat);
        let i = from + n - 1;
        assert(h.ops[i] == (ConnOp::Activity { now }));
        law_update(s, h.ops[i], h.results[i]);
    }
}

/// A wake behind a give-up goes with a sweep that gave the connection up, at
/// that time and with its own timeout, and is a wake of both halves.
pub proof fn law_wake_goes_with_give_up(s: &IdleConnState, now: u64, found: u64)
    requires
        s.woken_once_given_up(now, found),
    ensures
        s.updated(ConnOp::Sweep { now, idle_timeout: s.idle_timeout() }, Ok(found)),
        s.woken(),
        found < 0x8000_0000_0000_0000,
        now >= found + s.idle_timeout() || s.idle_timeout() == 0,
{
}

/// A read behind a registration goes with the registration of that waker for
/// that half, and is a read of the same connection's word.
pub proof fn law_read_goes_with_registration(
    s: &IdleConnState,
    direction: Direction,
    waker: &Waker,
    word: u64,
)
    requires
        s.read_once_registered(direction, waker, word),
    ensures
        s.registered(direction, waker),
        s.read(word),
{
}

/// What is said of a connection is said of calls on its own parts: its word is
/// made with the time that it started at, and is read and updated as a whole;
/// each half has its own waker, and both are called.
proof fn law_own_parts(
    s: &IdleConnState,
    now: u64,
    op: ConnOp,
    r: Result<u64, u64>,
    word: u64,
    waker: &Waker,
)
    ensures
        s.started(now) <==> call_ensures(AtomicU64::new, (now,), s.state),
        s.read(word) <==> call_ensures(
            fetch_update,
            (&s.state, ConnOp::Look),
            Err::<u64, u64>(word),
        ),
        s.updated(op, r) <==> call_ensures(fetch_update, (&s.state, op), r),
        s.registered(Direction::Read, waker) <==> call_ensures(
            AtomicWaker::register,
            (&s.read_waker, waker),
            (),
        ),
        s.registered(Direction::Write, waker) <==> call_ensures(
            AtomicWaker::register,
            (&s.write_waker, waker),
            (),
        ),
        s.woken() ==> call_ensures(AtomicWaker::wake, (&s.read_waker,), ()),
        s.woken() ==> call_ensures(AtomicWaker::wake, (&s.write_waker,), ()),
{
}

/// What is said of calls in a row is said of a value that the first hands to
/// the second.
proof fn law_handed_on(
    s: &IdleConnState,
    now: u64,
    found: u64,
    direction: Direction,
    waker: &Waker,
    word: u64,
)
    ensures
        s.woken_once_given_up(now, found) ==> exists|marked: Marked| #[trigger]
            call_ensures(
                IdleConnState::mark,
                (s, now),
                Ok::<(Marked, u64), u64>((marked, found)),
            ) && call_ensures(IdleConnState::wake_marked, (s, marked), ()),
        s.read_once_registered(direction, waker, word) ==> exists|armed: Armed| #[trigger]
            call_ensures(IdleConnState::arm, (s, direction, waker), armed) && call_ensures(
                IdleConnState::read_armed,
                (s, armed),
                word,
            ),
{
}

/// What the clock showed is what was read of it since that origin.
proof fn law_clock(origin: &tokio::time::Instant, micros: u128)
    ensures
        clock_showed(origin, micros) <==> call_ensures(micros_since, (origin,), micros),
{
}

} // verus!
