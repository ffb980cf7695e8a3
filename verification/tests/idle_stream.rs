use futures::task::{noop_waker, waker, ArcWake};
use pingora_core::idle_conn::{
    clamp_micros, duration_to_micros, gate, monotonic_micros, next_word, sweep_interval_for,
    Change, ConnOp, Direction, IdleConnState, ABORTED_BIT, ACTIVITY_MASK,
    MIN_SWEEP_INTERVAL_MICROS,
};
use pingora_core::idle_stream::{timed_out, IdleStream};
use pingora_core::sweeper::{
    Buckets, RegisterAction, RegistryInner, SweepOutcome, REGISTRATIONS_PER_PRUNE,
};
use std::cell::RefCell;
use std::rc::Rc;
use std::sync::atomic::{AtomicUsize, Ordering};
use std::sync::{Arc, Weak};
use std::task::Waker;
use std::time::Duration;
use tokio::time::Instant;

type Registry = RegistryInner<Weak<IdleConnState>>;

/// A bucket whose sweeper is driven by hand.
#[derive(Clone)]
struct Bucket {
    registry: Rc<RefCell<Registry>>,
    interval: u64,
    next_sweep: u64,
    finished: bool,
}

/// A worker with a clock of its own, in microseconds.
struct Worker {
    now: u64,
    buckets: Buckets<Bucket>,
    keys: Vec<u64>,
}

fn is_live(w: &Weak<IdleConnState>) -> bool {
    w.strong_count() > 0
}

fn upgrade(w: &Weak<IdleConnState>) -> Option<Arc<IdleConnState>> {
    w.upgrade()
}

fn is_finished(b: &Bucket) -> bool {
    b.finished
}

impl Worker {
    fn new() -> Self {
        Worker {
            now: 1_000_000,
            buckets: Buckets::new(),
            keys: vec![],
        }
    }

    /// Opens a stream and registers its connection.
    fn open(&mut self, idle: Duration) -> IdleStream {
        let stream = IdleStream::new(self.now, idle.as_secs(), idle.subsec_nanos());
        let key = stream.state().idle_timeout_micros();
        let mut action = self
            .buckets
            .register_in_local_sweeper(stream.state(), is_finished);
        loop {
            match action {
                RegisterAction::Spawn => {
                    let interval = sweep_interval_for(key);
                    let bucket = Bucket {
                        registry: Rc::new(RefCell::new(RegistryInner::new(key))),
                        interval,
                        next_sweep: self.now + interval,
                        finished: false,
                    };
                    action = self.buckets.spawned(stream.state(), bucket);
                    self.keys.push(key);
                }
                RegisterAction::Push => {
                    let registry = self.buckets.get(key).unwrap().registry.clone();
                    let conn = Arc::downgrade(stream.state());
                    let added = registry.borrow_mut().register(conn, is_live);
                    match self.buckets.pushed(stream.state(), added) {
                        None => return stream,
                        Some(next) => action = next,
                    }
                }
            }
        }
    }

    /// Lets time pass; sweeps happen when they are due.
    fn advance(&mut self, micros: u64) {
        let end = self.now + micros;
        loop {
            let mut due: Option<(u64, u64)> = None;
            for key in &self.keys {
                if let Some(b) = self.buckets.get(*key) {
                    let sooner = match due {
                        Some((at, _)) => b.next_sweep < at,
                        None => true,
                    };
                    if !b.finished && b.next_sweep <= end && sooner {
                        due = Some((b.next_sweep, *key));
                    }
                }
            }
            match due {
                None => break,
                Some((at, key)) => {
                    self.now = at;
                    let mut b = self.buckets.get(key).unwrap().clone();
                    let report = b.registry.borrow_mut().sweep_and_maybe_retire(at, upgrade);
                    b.next_sweep += b.interval;
                    b.finished = report.retire;
                    self.buckets.spawned(&IdleConnState::new(0, key), b);
                }
            }
        }
        self.now = end;
    }

    /// Waits in a read until it times out. Gives how long that took.
    fn read_until_timeout(&mut self, stream: &IdleStream) -> u64 {
        let start = self.now;
        while stream.poll_read(&noop_waker()).is_ok() {
            self.advance(500);
            assert!(self.now - start < 60_000_000, "never timed out");
        }
        self.now - start
    }
}

fn micros(d: Duration) -> u64 {
    duration_to_micros(d.as_secs(), d.subsec_nanos())
}

fn assert_in_band(elapsed: u64, idle: Duration) {
    let idle = micros(idle);
    let upper = idle + sweep_interval_for(idle);
    assert!(elapsed >= idle, "fired too early: {elapsed:?} < {idle:?}");
    assert!(elapsed <= upper, "fired too late: {elapsed:?} > {upper:?}");
}

#[test]
fn timer_fires_on_no_reads() {
    let idle = Duration::from_millis(50);
    let mut worker = Worker::new();
    let stream = worker.open(idle);
    let elapsed = worker.read_until_timeout(&stream);
    assert_in_band(elapsed, idle);
    assert_eq!(timed_out(), "downstream idle timeout");
}

#[test]
fn timer_resets_on_successful_read() {
    let idle = Duration::from_millis(50);
    let mut worker = Worker::new();
    let stream = worker.open(idle);
    worker.advance(30_000);
    assert!(stream.poll_read(&noop_waker()).is_ok());
    let recorded = stream.read_done(0, 5, worker.now);
    assert!(matches!(recorded, Some(Ok(_))));
    let elapsed_since_read = worker.read_until_timeout(&stream);
    assert_in_band(elapsed_since_read, idle);
}

#[test]
fn writes_reset_timer() {
    let mut worker = Worker::new();
    let stream = worker.open(Duration::from_millis(50));
    worker.advance(40_000);
    assert!(stream.poll_write(&noop_waker()).is_ok());
    stream.write_done(Some(3), worker.now);
    worker.advance(40_000);
    let outcome = stream.poll_read(&noop_waker());
    assert!(outcome.is_ok(), "expected read Pending; got {outcome:?}");
}

#[test]
fn timer_still_fires_after_writes_when_traffic_stops() {
    let idle = Duration::from_millis(50);
    let mut worker = Worker::new();
    let stream = worker.open(idle);
    assert!(stream.poll_write(&noop_waker()).is_ok());
    stream.write_done(Some(3), worker.now);
    let after_write = worker.now;
    worker.advance(60_000);
    worker.read_until_timeout(&stream);
    assert_in_band(worker.now - after_write, idle);
}

#[test]
fn stalled_write_times_out() {
    let idle = Duration::from_millis(50);
    let mut worker = Worker::new();
    let stream = worker.open(idle);
    assert!(stream.poll_write(&noop_waker()).is_ok());
    stream.write_done(Some(16), worker.now);
    let start = worker.now;
    while stream.poll_write(&noop_waker()).is_ok() {
        assert_eq!(stream.write_done(None, worker.now), None);
        worker.advance(500);
    }
    assert_in_band(worker.now - start, idle);
}

/// Counts how often it is woken.
struct Count(AtomicUsize);

impl ArcWake for Count {
    fn wake_by_ref(arc_self: &Arc<Self>) {
        arc_self.0.fetch_add(1, Ordering::SeqCst);
    }
}

fn counter() -> (Arc<Count>, Waker) {
    let count = Arc::new(Count(AtomicUsize::new(0)));
    (count.clone(), waker(count))
}

fn woken(count: &Arc<Count>) -> usize {
    count.0.load(Ordering::SeqCst)
}

#[test]
fn sweeper_wakes_parked_task() {
    let idle = Duration::from_millis(100);
    let mut worker = Worker::new();
    let stream = worker.open(idle);
    let (count, waker) = counter();
    assert!(stream.poll_read(&waker).is_ok());
    let start = worker.now;
    while woken(&count) == 0 {
        worker.advance(500);
    }
    assert!(stream.poll_read(&waker).is_err());
    assert_in_band(worker.now - start, idle);
}

#[test]
fn split_style_wakes_both_directions() {
    let mut worker = Worker::new();
    let stream = worker.open(Duration::from_millis(50));
    let (reader, read_waker) = counter();
    let (writer, write_waker) = counter();
    assert!(stream.poll_read(&read_waker).is_ok());
    assert!(stream.poll_write(&write_waker).is_ok());
    worker.advance(100_000);
    assert_eq!(woken(&reader), 1);
    assert_eq!(woken(&writer), 1);
    assert!(
        stream.poll_read(&read_waker).is_err(),
        "reader half did not time out"
    );
    assert!(
        stream.poll_write(&write_waker).is_err(),
        "writer half did not time out"
    );
}

/// Counts how often it is woken, and how often the connection was given up by
/// then.
struct Watch {
    state: Arc<IdleConnState>,
    woken: AtomicUsize,
    given_up: AtomicUsize,
}

impl ArcWake for Watch {
    fn wake_by_ref(arc_self: &Arc<Self>) {
        arc_self.woken.fetch_add(1, Ordering::SeqCst);
        if arc_self.state.is_aborted() {
            arc_self.given_up.fetch_add(1, Ordering::SeqCst);
        }
    }
}

#[test]
fn woken_task_finds_the_connection_given_up() {
    let mut worker = Worker::new();
    let stream = worker.open(Duration::from_millis(50));
    let watch = || {
        Arc::new(Watch {
            state: stream.state().clone(),
            woken: AtomicUsize::new(0),
            given_up: AtomicUsize::new(0),
        })
    };
    let (reader, writer) = (watch(), watch());
    assert!(stream.poll_read(&waker(reader.clone())).is_ok());
    assert!(stream.poll_write(&waker(writer.clone())).is_ok());
    // Sweeps before the timeout wake nobody.
    worker.advance(49_000);
    assert_eq!(reader.woken.load(Ordering::SeqCst), 0);
    worker.advance(51_000);
    for half in [&reader, &writer] {
        assert_eq!(half.woken.load(Ordering::SeqCst), 1);
        assert_eq!(half.given_up.load(Ordering::SeqCst), 1);
    }
}

#[test]
fn zero_idle_timeout_aborts_within_one_sweep_tick() {
    let mut worker = Worker::new();
    let stream = worker.open(Duration::ZERO);
    let elapsed = worker.read_until_timeout(&stream);
    assert!(
        elapsed <= MIN_SWEEP_INTERVAL_MICROS + 1000,
        "Duration::ZERO timeout overshot the sweep floor: {elapsed:?}"
    );
}

#[test]
fn sub_floor_idle_timeout_aborts_at_floor() {
    let idle = Duration::from_millis(1);
    let mut worker = Worker::new();
    let stream = worker.open(idle);
    let elapsed = worker.read_until_timeout(&stream);
    assert!(elapsed >= micros(idle), "fired too early: {elapsed:?}");
    assert!(
        elapsed <= micros(idle) + MIN_SWEEP_INTERVAL_MICROS + 1000,
        "sub-floor timeout overshot the bound: {elapsed:?}"
    );
}

#[test]
fn empty_bucket_retires_and_is_pruned_on_next_register() {
    let short = Duration::from_millis(50);
    let other = Duration::from_secs(10);
    let mut worker = Worker::new();
    {
        let _stream = worker.open(short);
        assert_eq!(worker.buckets.current_sweeper_bucket_count(), 1);
    }
    worker.advance(100_000);
    let _stream2 = worker.open(other);
    assert_eq!(
        worker.buckets.current_sweeper_bucket_count(),
        1,
        "retired bucket leaked"
    );
    assert!(worker.buckets.get(micros(short)).is_none());
    assert!(worker.buckets.get(micros(other)).is_some());
}

#[test]
fn mixed_timeouts_each_aborted_at_own_deadline() {
    let short = Duration::from_millis(50);
    let long = Duration::from_secs(5);
    let mut worker = Worker::new();
    let short_stream = worker.open(short);
    let long_stream = worker.open(long);
    assert_eq!(worker.buckets.current_sweeper_bucket_count(), 2);

    let elapsed = worker.read_until_timeout(&short_stream);
    assert_in_band(elapsed, short);

    worker.advance(micros(short) + 100_000);
    let long_outcome = long_stream.poll_read(&noop_waker());
    assert!(
        long_outcome.is_ok(),
        "long-timeout stream was aborted by the short bucket's cadence: {long_outcome:?}"
    );
}

#[test]
fn note_activity_after_abort_is_noop() {
    let origin = Instant::now();
    let now = monotonic_micros(&origin);
    let state = IdleConnState::new(now, micros(Duration::from_millis(50)));
    let stale_time = monotonic_micros(&origin) + micros(Duration::from_secs(1));
    assert!(state.try_mark_aborted_if_stale(stale_time));
    assert!(state.is_aborted());
    assert!(state.note_activity(monotonic_micros(&origin)).is_err());
    assert!(
        state.is_aborted(),
        "note_activity cleared the abort bit, breaking abort-stickiness"
    );
}

#[test]
fn try_mark_aborted_is_idempotent() {
    let origin = Instant::now();
    let now = monotonic_micros(&origin);
    let state = IdleConnState::new(now, micros(Duration::from_millis(50)));
    let stale_time = monotonic_micros(&origin) + micros(Duration::from_secs(1));
    assert!(state.try_mark_aborted_if_stale(stale_time));
    assert!(
        !state.try_mark_aborted_if_stale(stale_time),
        "second try_mark_aborted_if_stale on an aborted state should return false"
    );
}

#[test]
fn sweep_intervals() {
    assert_eq!(sweep_interval_for(micros(Duration::from_secs(90))), 5_000_000);
    assert_eq!(sweep_interval_for(micros(Duration::from_millis(50))), 12_500);
    assert_eq!(sweep_interval_for(micros(Duration::from_millis(5))), 10_000);
    assert_eq!(sweep_interval_for(40_000), 10_000);
    assert_eq!(sweep_interval_for(40_004), 10_001);
    assert_eq!(sweep_interval_for(u64::MAX), 5_000_000);
    assert_eq!(sweep_interval_for(0), 10_000);
}

#[test]
fn durations_in_micros() {
    assert_eq!(micros(Duration::from_nanos(999)), 0);
    assert_eq!(micros(Duration::from_nanos(1999)), 1);
    assert_eq!(micros(Duration::new(3, 4_000)), 3_000_004);
    assert_eq!(micros(Duration::MAX), u64::MAX);
    assert_eq!(duration_to_micros(18_446_744_073_709, 551_615_999), u64::MAX);
    assert_eq!(
        duration_to_micros(18_446_744_073_709, 551_614_000),
        u64::MAX - 1
    );
}

#[test]
fn timestamps_leave_the_high_bit_free() {
    assert_eq!(ABORTED_BIT, 1u64 << 63);
    assert_eq!(ACTIVITY_MASK, !ABORTED_BIT);
    assert_eq!(clamp_micros(12), 12);
    assert_eq!(clamp_micros(ACTIVITY_MASK as u128), ACTIVITY_MASK);
    assert_eq!(clamp_micros(ABORTED_BIT as u128), ACTIVITY_MASK);
    assert_eq!(clamp_micros(ABORTED_BIT as u128 + 5), ACTIVITY_MASK);
    assert_eq!(clamp_micros(u128::MAX), ACTIVITY_MASK);
}

#[test]
fn clock_counts_from_its_origin() {
    let now = Instant::now();
    assert_eq!(monotonic_micros(&(now + Duration::from_secs(3600))), 0);
    let earlier = monotonic_micros(&now.checked_sub(Duration::from_secs(1)).unwrap());
    assert!(earlier >= 1_000_000);
    assert!(earlier < 1_000_000_000);
}

#[test]
fn words_follow_each_other() {
    let sweep = |now, idle_timeout| ConnOp::Sweep { now, idle_timeout };
    assert_eq!(next_word(5, ConnOp::Activity { now: 9 }), Some(9));
    assert_eq!(next_word(9, ConnOp::Activity { now: 5 }), Some(5));
    assert_eq!(next_word(5 | ABORTED_BIT, ConnOp::Activity { now: 9 }), None);
    assert_eq!(next_word(5, sweep(14, 10)), None);
    assert_eq!(next_word(5, sweep(15, 10)), Some(5 | ABORTED_BIT));
    assert_eq!(next_word(5 | ABORTED_BIT, sweep(15, 10)), None);
    // A sweep before the last activity finds it fresh.
    assert_eq!(next_word(20, sweep(5, 1)), None);
    assert_eq!(next_word(20, sweep(5, 0)), Some(20 | ABORTED_BIT));
    assert_eq!(gate(7), Ok(7));
    assert_eq!(gate(7 | ABORTED_BIT), Err(7 | ABORTED_BIT));
}

#[test]
fn activity_and_sweeps_on_one_state() {
    let state = IdleConnState::new(100, 50);
    assert_eq!(state.idle_timeout_micros(), 50);
    assert_eq!(state.observe(), Ok(100));
    assert_eq!(state.sweep(149), Err(100));
    assert_eq!(state.note_activity(120), Ok(Change { from: 100, to: 120 }));
    // The sweep that was due before the activity finds it fresh.
    assert_eq!(state.sweep(150), Err(120));
    assert_eq!(state.sweep(170), Ok(120));
    assert_eq!(state.observe(), Err(120 | ABORTED_BIT));
    assert_eq!(state.note_activity(180), Err(120 | ABORTED_BIT));
    assert_eq!(state.sweep(1000), Err(120 | ABORTED_BIT));
    assert!(state.start_io(Direction::Read, &noop_waker()).is_err());
    assert!(state.start_io(Direction::Write, &noop_waker()).is_err());
}

#[test]
fn only_bytes_are_activity() {
    let stream = IdleStream::new(10, 0, 50_000);
    assert_eq!(stream.state().idle_timeout_micros(), 50);
    assert_eq!(stream.read_done(4, 4, 20), None);
    assert_eq!(stream.write_done(Some(0), 20), None);
    assert_eq!(stream.write_done(None, 20), None);
    assert_eq!(stream.try_peek(Some(false), 20), None);
    assert_eq!(stream.try_peek(None, 20), None);
    assert_eq!(stream.check(), Ok(10));
    let change = |from, to| Some(Ok(Change { from, to }));
    assert_eq!(stream.read_done(4, 5, 20), change(10, 20));
    assert_eq!(stream.write_done(Some(1), 30), change(20, 30));
    assert_eq!(stream.try_peek(Some(true), 40), change(30, 40));
    assert!(stream.state().try_mark_aborted_if_stale(90));
    assert_eq!(stream.check(), Err(40 | ABORTED_BIT));
    assert_eq!(stream.read_done(0, 1, 95), Some(Err(40 | ABORTED_BIT)));
}

#[test]
fn sweep_sorts_connections() {
    let mut registry: Registry = RegistryInner::new(50);
    let stale = Arc::new(IdleConnState::new(100, 50));
    let fresh = Arc::new(IdleConnState::new(140, 50));
    let gone = Arc::new(IdleConnState::new(100, 50));
    for state in [&stale, &gone, &fresh] {
        assert!(registry.register(Arc::downgrade(state), is_live));
    }
    drop(gone);
    let report = registry.sweep_and_maybe_retire(150, upgrade);
    assert_eq!(
        report.outcomes,
        vec![
            SweepOutcome::GivenUp { found: 100 },
            SweepOutcome::Gone,
            SweepOutcome::Left { found: 140 },
        ]
    );
    assert!(!report.retire);
    assert_eq!(registry.len(), 2);
    assert!(stale.is_aborted());
    assert!(!fresh.is_aborted());
    // One that was given up is not given up again.
    let report = registry.sweep_and_maybe_retire(190, upgrade);
    assert_eq!(
        report.outcomes,
        vec![
            SweepOutcome::Left {
                found: 100 | ABORTED_BIT
            },
            SweepOutcome::GivenUp { found: 140 },
        ]
    );
}

#[test]
fn retired_registry_takes_no_connection() {
    let mut registry: Registry = RegistryInner::new(50);
    assert_eq!(registry.idle_timeout_micros(), 50);
    let report = registry.sweep_and_maybe_retire(1, upgrade);
    assert!(report.retire);
    let state = Arc::new(IdleConnState::new(100, 50));
    assert!(!registry.register(Arc::downgrade(&state), is_live));
    assert_eq!(registry.len(), 0);
    let mut fresh: Registry = RegistryInner::new(50);
    assert!(fresh.register(Arc::downgrade(&state), is_live));
    assert_eq!(fresh.len(), 1);
}

#[test]
fn retired_bucket_is_replaced() {
    let idle = Duration::from_millis(50);
    let mut worker = Worker::new();
    drop(worker.open(idle));
    // The sweeper has retired the registry, and its task is not over yet.
    let key = micros(idle);
    let bucket = worker.buckets.get(key).unwrap().clone();
    assert!(
        bucket
            .registry
            .borrow_mut()
            .sweep_and_maybe_retire(worker.now, upgrade)
            .retire
    );
    let _stream = worker.open(idle);
    assert_eq!(worker.buckets.current_sweeper_bucket_count(), 1);
    let fresh = worker.buckets.get(key).unwrap();
    assert_eq!(fresh.registry.borrow().len(), 1);
    assert_eq!(bucket.registry.borrow().len(), 0);
}

#[test]
fn handles_of_dead_connections_are_pruned() {
    assert_eq!(REGISTRATIONS_PER_PRUNE, 4096);
    let mut registry: Registry = RegistryInner::new(50);
    let live: Vec<Arc<IdleConnState>> =
        (0..3).map(|_| Arc::new(IdleConnState::new(1, 50))).collect();
    for state in &live {
        registry.register(Arc::downgrade(state), is_live);
    }
    for _ in 3..4095 {
        registry.register(Weak::new(), is_live);
    }
    assert_eq!(registry.len(), 4095);
    registry.register(Arc::downgrade(&live[0]), is_live);
    assert_eq!(registry.len(), 4);
    // The count starts anew.
    for _ in 0..4095 {
        registry.register(Weak::new(), is_live);
    }
    assert_eq!(registry.len(), 4099);
    registry.register(Weak::new(), is_live);
    assert_eq!(registry.len(), 5);
}

#[test]
fn buckets_by_timeout() {
    let mut buckets: Buckets<&'static str> = Buckets::new();
    let state = IdleConnState::new(0, 50);
    let done = |b: &&'static str| *b == "done";
    assert_eq!(
        buckets.register_in_local_sweeper(&state, done),
        RegisterAction::Spawn
    );
    assert_eq!(buckets.spawned(&state, "running"), RegisterAction::Push);
    buckets.spawned(&IdleConnState::new(0, 60), "done");
    assert_eq!(buckets.current_sweeper_bucket_count(), 2);
    assert_eq!(
        buckets.register_in_local_sweeper(&state, done),
        RegisterAction::Push
    );
    assert_eq!(buckets.get(60), None);
    assert_eq!(buckets.get(50), Some(&"running"));
    assert_eq!(buckets.pushed(&state, true), None);
    assert_eq!(buckets.get(50), Some(&"running"));
    assert_eq!(buckets.pushed(&state, false), Some(RegisterAction::Spawn));
    assert_eq!(buckets.current_sweeper_bucket_count(), 0);
}
