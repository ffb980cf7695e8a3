//! Which connections are swept together, and what a sweep does to them.
//!
//! Connections with the same idle timeout share a registry and a sweeper, so
//! that those with a short timeout do not have the others scanned too often.
use crate::idle_conn::{after, conn, ConnOp, IdleConnState};
use std::collections::HashMap;
use std::sync::Arc;
use vstd::prelude::*;

verus! {

broadcast use vstd::std_specs::hash::group_hash_axioms;

/// After how many registrations the handles of connections that are gone are
/// dropped.
pub const REGISTRATIONS_PER_PRUNE: u64 = 4096;

/// The items whose flag is set, in order.
pub open spec fn kept<W>(items: Seq<W>, flags: Seq<bool>) -> Seq<W>
    decreases items.len(),
{
    if items.len() == 0 {
        seq![]
    } else if flags.last() {
        kept(items.drop_last(), flags.drop_last()).push(items.last())
    } else {
        kept(items.drop_last(), flags.drop_last())
    }
}

/// How many flags are set.
pub open spec fn count(flags: Seq<bool>) -> nat
    decreases flags.len(),
{
    if flags.len() == 0 {
        0
    } else {
        count(flags.drop_last()) + if flags.last() {
            1nat
        } else {
            0
        }
    }
}

/// As many items are kept as flags are set.
proof fn lemma_kept_len<W>(items: Seq<W>, flags: Seq<bool>)
    requires
        items.len() == flags.len(),
    ensures
        kept(items, flags).len() == count(flags),
    decreases items.len(),
{
    if items.len() > 0 {
        lemma_kept_len(items.drop_last(), flags.drop_last());
    }
}

/// Keeps the items whose flag is set.
fn keep_flagged<W>(items: Vec<W>, flags: &Vec<bool>) -> (r: Vec<W>)
    requires
        items@.len() == flags@.len(),
    ensures
        r@ == kept(items@, flags@),
{
    let mut out: Vec<W> = Vec::new();
    let ghost all = items@;
    let mut i: usize = 0;
    for item in iter: items
        invariant
            i == iter.index(),
            iter.seq() == all,
            all.len() == flags@.len(),
            out@ == kept(all.take(i as int), flags@.take(i as int)),
    {
        assert(all.take(i + 1).drop_last() =~= all.take(i as int));
        assert(flags@.take(i + 1).drop_last() =~= flags@.take(i as int));
        if flags[i] {
            out.push(item);
        }
        assert(i < flags.len());
        i = i + 1;
    }
    assert(all.take(i as int) =~= all);
    assert(flags@.take(i as int) =~= flags@);
    out
}

/// The registry of connections that share one idle timeout. `W` is a handle
/// that does not keep its connection alive.
pub struct RegistryInner<W> {
    conns: Vec<W>,
    registrations_since_prune: u64,
    idle_timeout_micros: u64,
    retired: bool,
}

/// What a registry holds.
#[verifier::ext_equal]
pub struct Registry<W> {
    pub conns: Seq<W>,
    pub registrations_since_prune: nat,
    pub idle_timeout_micros: u64,
    /// Its sweeper has ended: no connection may be added any more.
    pub retired: bool,
}

impl<W> View for RegistryInner<W> {
    type V = Registry<W>;

    closed spec fn view(&self) -> Registry<W> {
        Registry {
            conns: self.conns@,
            registrations_since_prune: self.registrations_since_prune as nat,
            idle_timeout_micros: self.idle_timeout_micros,
            retired: self.retired,
        }
    }
}

impl<W> Registry<W> {
    /// A prune is due in time, and a registry retires only when it is empty.
    pub open spec fn wf(self) -> bool {
        &&& self.registrations_since_prune < REGISTRATIONS_PER_PRUNE
        &&& self.retired ==> self.conns.len() == 0
    }

    /// The next registration drops the handles of connections that are gone.
    pub open spec fn prune_due(self) -> bool {
        self.registrations_since_prune + 1 >= REGISTRATIONS_PER_PRUNE
    }

    /// The registry once `conn` was added, where `live` says which of its
    /// connections are not gone. A registry that has retired takes none.
    pub open spec fn registered(self, conn: W, live: Seq<bool>) -> Registry<W> {
        if self.retired {
            self
        } else if self.prune_due() {
            Registry {
                conns: kept(self.conns, live).push(conn),
                registrations_since_prune: 0,
                ..self
            }
        } else {
            Registry {
                conns: self.conns.push(conn),
                registrations_since_prune: self.registrations_since_prune + 1,
                ..self
            }
        }
    }

    /// The registry after a sweep, where `live` says which of its connections
    /// are not gone.
    pub open spec fn swept(self, live: Seq<bool>) -> Registry<W> {
        let conns = kept(self.conns, live);
        Registry { conns, retired: self.retired || conns.len() == 0, ..self }
    }
}

/// `answers` is what `f` says of each item.
pub open spec fn asked<W, T, F: Fn(&W) -> T>(f: F, items: Seq<W>, answers: Seq<T>) -> bool {
    &&& answers.len() == items.len()
    &&& forall|i: int| 0 <= i < items.len() ==> f.ensures((&items[i],), #[trigger] answers[i])
}

/// `f` may be asked about each item.
pub open spec fn askable<W, T, F: Fn(&W) -> T>(f: F, items: Seq<W>) -> bool {
    forall|i: int| 0 <= i < items.len() ==> f.requires((&#[trigger] items[i],))
}

/// Asks about each item.
fn ask<W, T, F: Fn(&W) -> T>(f: &F, items: &Vec<W>) -> (answers: Vec<T>)
    requires
        askable(*f, items@),
    ensures
        asked(*f, items@, answers@),
{
    let mut answers: Vec<T> = Vec::new();
    let mut i: usize = 0;
    while i < items.len()
        invariant
            i <= items@.len(),
            answers@.len() == i,
            askable(*f, items@),
            forall|j: int| 0 <= j < i ==> f.ensures((&items@[j],), #[trigger] answers@[j]),
        decreases items@.len() - i,
    {
        answers.push(f(&items[i]));
        i = i + 1;
    }
    answers
}

/// What a sweep did to a connection: it was gone, it was given up and woken,
/// or it was left alone. The word is the one that the sweep found.
#[derive(Clone, Copy, Debug, PartialEq, Eq, Structural)]
pub enum SweepOutcome {
    Gone,
    GivenUp { found: u64 },
    Left { found: u64 },
}

/// The outcome is right for the connection. The word of one that is there was
/// swept; it was given up, and behind this its tasks were woken, exactly where
/// the word that was found was not given up before and was stale.
pub open spec fn outcome_fits(
    state: Option<Arc<IdleConnState>>,
    now: u64,
    outcome: SweepOutcome,
) -> bool {
    match state {
        None => outcome is Gone,
        Some(state) => {
            let op = ConnOp::Sweep { now, idle_timeout: state.idle_timeout() };
            match outcome {
                SweepOutcome::Gone => false,
                SweepOutcome::GivenUp { found } => after(conn(found), op) is Some && state.updated(
                    op,
                    Ok(found),
                ) && state.woken() && state.woken_once_given_up(now, found),
                SweepOutcome::Left { found } => after(conn(found), op) is None && state.updated(
                    op,
                    Err(found),
                ),
            }
        },
    }
}

/// Which connections are not gone.
pub open spec fn present(states: Seq<Option<Arc<IdleConnState>>>) -> Seq<bool> {
    states.map_values(|s: Option<Arc<IdleConnState>>| s is Some)
}

/// What a sweep did to each connection, and whether the sweeper is done.
pub struct SweepReport {
    pub outcomes: Vec<SweepOutcome>,
    pub retire: bool,
}

impl<W> RegistryInner<W> {
    /// The registry of connections with this timeout, without any yet.
    pub fn new(idle_timeout_micros: u64) -> (r: Self)
        ensures
            r@ == (Registry {
                conns: Seq::<W>::empty(),
                registrations_since_prune: 0,
                idle_timeout_micros,
                retired: false,
            }),
            r@.wf(),
    {
        RegistryInner {
            conns: Vec::new(),
            registrations_since_prune: 0,
            idle_timeout_micros,
            retired: false,
        }
    }

    /// The timeout that the connections share.
    pub fn idle_timeout_micros(&self) -> (r: u64)
        ensures
            r == self@.idle_timeout_micros,
    {
        self.idle_timeout_micros
    }

    /// How many handles the registry holds.
    pub fn len(&self) -> (r: usize)
        ensures
            r == self@.conns.len(),
    {
        self.conns.len()
    }

    /// Keeps the connections whose flag is set.
    fn retain(&mut self, flags: &Vec<bool>)
        requires
            old(self)@.conns.len() == flags@.len(),
        ensures
            final(self)@ == (Registry { conns: kept(old(self)@.conns, flags@), ..old(self)@ }),
    {
        let mut conns: Vec<W> = Vec::new();
        std::mem::swap(&mut conns, &mut self.conns);
        self.conns = keep_flagged(conns, flags);
    }

    /// Adds a connection, unless the registry has retired. Every so often the
    /// handles of connections that are gone are dropped first.
    pub fn register<F: Fn(&W) -> bool>(&mut self, conn: W, is_live: F) -> (added: bool)
        requires
            old(self)@.wf(),
            askable(is_live, old(self)@.conns),
        ensures
            final(self)@.wf(),
            added == !old(self)@.retired,
            old(self)@.retired || !old(self)@.prune_due() ==> final(self)@ == old(
                self,
            )@.registered(conn, seq![]),
            !old(self)@.retired && old(self)@.prune_due() ==> exists|live: Seq<bool>| #[trigger]
                asked(is_live, old(self)@.conns, live) && final(self)@ == old(self)@.registered(
                    conn,
                    live,
                ),
    {
        if self.retired {
            return false;
        }
        if self.registrations_since_prune + 1 >= REGISTRATIONS_PER_PRUNE {
            self.registrations_since_prune = 0;
            let live = ask(&is_live, &self.conns);
            self.retain(&live);
            assert(asked(is_live, old(self)@.conns, live@));
        } else {
            self.registrations_since_prune = self.registrations_since_prune + 1;
        }
        self.conns.push(conn);
        true
    }

    /// Sweeps the connections, given which of them are not gone: gives up
    /// those that were idle for their timeout and wakes their tasks, drops the
    /// handles of those that are gone, and retires once none is left.
    pub fn sweep(&mut self, now: u64, states: Vec<Option<Arc<IdleConnState>>>) -> (report:
        SweepReport)
        requires
            old(self)@.wf(),
            states@.len() == old(self)@.conns.len(),
        ensures
            final(self)@.wf(),
            final(self)@ == old(self)@.swept(present(states@)),
            report.retire == (final(self)@.conns.len() == 0),
            report.outcomes@.len() == states@.len(),
            forall|i: int|
                0 <= i < states@.len() ==> outcome_fits(
                    states@[i],
                    now,
                    #[trigger] report.outcomes@[i],
                ),
    {
        let mut outcomes: Vec<SweepOutcome> = Vec::new();
        let mut live: Vec<bool> = Vec::new();
        let mut i: usize = 0;
        while i < states.len()
            invariant
                i <= states@.len(),
                outcomes@.len() == i,
                live@ == present(states@.take(i as int)),
                forall|j: int|
                    0 <= j < i ==> outcome_fits(states@[j], now, #[trigger] outcomes@[j]),
            decreases states@.len() - i,
        {
            match &states[i] {
                None => {
                    outcomes.push(SweepOutcome::Gone);
                    live.push(false);
                },
                Some(state) => {
                    match state.give_up(now) {
                        Ok(found) => {
                            outcomes.push(SweepOutcome::GivenUp { found });
                        },
                        Err(found) => {
                            outcomes.push(SweepOutcome::Left { found });
                        },
                    }
                    live.push(true);
                },
            }
            assert(live@ =~= present(states@.take(i + 1)));
            i = i + 1;
        }
        assert(states@.take(i as int) =~= states@);
        self.retain(&live);
        let retire = self.conns.is_empty();
        if retire {
            self.retired = true;
        }
        proof {
            assert(self.conns@.len() == 0 <==> retire);
            if old(self).retired {
                assert(kept(old(self)@.conns, present(states@)).len() == 0);
            }
        }
        SweepReport { outcomes, retire }
    }

    /// Sweeps the connections; `upgrade` reaches one that is not gone.
    pub fn sweep_and_maybe_retire<F: Fn(&W) -> Option<Arc<IdleConnState>>>(
        &mut self,
        now: u64,
        upgrade: F,
    ) -> (report: SweepReport)
        requires
            old(self)@.wf(),
            askable(upgrade, old(self)@.conns),
        ensures
            final(self)@.wf(),
            report.retire == (final(self)@.conns.len() == 0),
            exists|states: Seq<Option<Arc<IdleConnState>>>| #[trigger]
                asked(upgrade, old(self)@.conns, states) && final(self)@ == old(self)@.swept(
                    present(states),
                ) && report.outcomes@.len() == states.len() && forall|i: int|
                    0 <= i < states.len() ==> outcome_fits(
                        states[i],
                        now,
                        #[trigger] report.outcomes@[i],
                    ),
    {
        let states = ask(&upgrade, &self.conns);
        let ghost found = states@;
        let report = self.sweep(now, states);
        assert(asked(upgrade, old(self)@.conns, found));
        report
    }
}

/// What a registration does next.
#[derive(Clone, Copy, Debug, PartialEq, Eq, Structural)]
pub enum RegisterAction {
    /// Start a sweeper for the timeout, with a registry of its own.
    Spawn,
    /// Add the connection to the registry of its timeout.
    Push,
}

/// The sweepers of one worker, by the idle timeout of their connections. `B`
/// holds a registry and the task that sweeps it.
pub struct Buckets<B> {
    map: HashMap<u64, B>,
}

impl<B> View for Buckets<B> {
    type V = Map<u64, B>;

    closed spec fn view(&self) -> Map<u64, B> {
        self.map@
    }
}

/// `answers` is what `f` says of each bucket.
pub open spec fn asked_of<B, F: Fn(&B) -> bool>(
    f: F,
    buckets: Map<u64, B>,
    answers: Map<u64, bool>,
) -> bool {
    &&& answers.dom() == buckets.dom()
    &&& forall|k: u64|
        buckets.contains_key(k) ==> f.ensures((&buckets[k],), #[trigger] answers[k])
}

/// `f` may be asked about each bucket.
pub open spec fn askable_of<B, F: Fn(&B) -> bool>(f: F, buckets: Map<u64, B>) -> bool {
    forall|k: u64| #[trigger] buckets.contains_key(k) ==> f.requires((&buckets[k],))
}

/// The buckets whose sweeper has not finished.
pub open spec fn running<B>(buckets: Map<u64, B>, finished: Map<u64, bool>) -> Map<u64, B> {
    buckets.restrict(buckets.dom().filter(|k: u64| !finished[k]))
}

impl<B> Buckets<B> {
    /// A worker without sweepers.
    pub fn new() -> (r: Self)
        ensures
            r@ == Map::<u64, B>::empty(),
    {
        Buckets { map: HashMap::new() }
    }

    /// How many sweepers the worker has.
    pub fn current_sweeper_bucket_count(&self) -> (r: usize)
        ensures
            r == self@.len(),
    {
        self.map.len()
    }

    /// The bucket of a timeout.
    pub fn get(&self, key: u64) -> (r: Option<&B>)
        ensures
            match r {
                Some(b) => self@.contains_key(key) && *b == self@[key],
                None => !self@.contains_key(key),
            },
    {
        self.map.get(&key)
    }

    /// The timeouts that have a bucket, each once.
    fn keys(&self) -> (r: Vec<u64>)
        ensures
            r@.no_duplicates(),
            forall|k: u64| self@.contains_key(k) <==> r@.contains(k),
    {
        let mut out: Vec<u64> = Vec::new();
        for k in iter: self.map.keys()
            invariant
                out@ == iter.seq().take(iter.index()).unref(),
                iter.index() == iter.seq().len() ==> out@ == iter.seq().unref(),
                iter.seq().unref().to_set() == self@.dom(),
                iter.seq().no_duplicates(),
        {
            out.push(*k);
            assert(iter.seq().take(iter.index() + 1).unref() =~= out@);
        }
        assert(out@.to_set() == self@.dom());
        assert forall|k: u64| self@.contains_key(k) <==> out@.contains(k) by {
            assert(out@.to_set().contains(k) <==> out@.contains(k));
        }
        out
    }

    /// Drops the buckets whose sweeper has finished.
    fn prune_finished<F: Fn(&B) -> bool>(&mut self, is_finished: &F)
        requires
            askable_of(*is_finished, old(self)@),
        ensures
            exists|finished: Map<u64, bool>| #[trigger]
                asked_of(*is_finished, old(self)@, finished) && final(self)@ == running(
                    old(self)@,
                    finished,
                ),
    {
        let keys = self.keys();
        let ghost all = self@;
        let ghost mut finished: Map<u64, bool> = Map::empty();
        let mut i: usize = 0;
        while i < keys.len()
            invariant
                i <= keys@.len(),
                keys@.no_duplicates(),
                forall|k: u64| all.contains_key(k) <==> keys@.contains(k),
                askable_of(*is_finished, all),
                forall|k: u64| #[trigger]
                    finished.contains_key(k) <==> keys@.take(i as int).contains(k),
                forall|k: u64| #[trigger]
                    finished.contains_key(k) ==> is_finished.ensures((&all[k],), finished[k]),
                forall|k: u64| #[trigger]
                    self@.contains_key(k) <==> all.contains_key(k) && !(finished.contains_key(k)
                        && finished[k]),
                forall|k: u64| #[trigger] self@.contains_key(k) ==> self@[k] == all[k],
            decreases keys@.len() - i,
        {
            let key: u64 = keys[i];
            proof {
                assert(keys@.contains(key));
                if keys@.take(i as int).contains(key) {
                    let j = choose|j: int| 0 <= j < i && keys@.take(i as int)[j] == key;
                    assert(keys@[j] == keys@[i as int]);
                }
                assert(!finished.contains_key(key));
                assert(self@.contains_key(key));
                assert(all.contains_key(key));
            }
            let done: bool = match self.map.get(&key) {
                Some(bucket) => is_finished(bucket),
                None => false,
            };
            if done {
                self.map.remove(&key);
            }
            proof {
                let now = keys@.take(i + 1);
                assert(now =~= keys@.take(i as int).push(key));
                assert forall|k: u64| now.contains(k) <==> keys@.take(i as int).contains(k) || k
                    == key by {
                    if keys@.take(i as int).contains(k) {
                        let j = choose|j: int| 0 <= j < i && keys@.take(i as int)[j] == k;
                        assert(now[j] == k);
                    }
                    assert(now[i as int] == key);
                }
                finished = finished.insert(key, done);
            }
            i = i + 1;
        }
        proof {
            assert(keys@.take(i as int) =~= keys@);
            assert(finished.dom() =~= all.dom());
            assert(asked_of(*is_finished, all, finished));
            assert(self@ =~= running(all, finished));
        }
    }

    /// Starts to register a connection, once the buckets whose sweeper has
    /// finished were dropped. It goes to the bucket of its own timeout.
    pub fn register_in_local_sweeper<F: Fn(&B) -> bool>(
        &mut self,
        state: &IdleConnState,
        is_finished: F,
    ) -> (r: RegisterAction)
        requires
            askable_of(is_finished, old(self)@),
        ensures
            exists|finished: Map<u64, bool>| #[trigger]
                asked_of(is_finished, old(self)@, finished) && final(self)@ == running(
                    old(self)@,
                    finished,
                ),
            r == if final(self)@.contains_key(state.idle_timeout()) {
                RegisterAction::Push
            } else {
                RegisterAction::Spawn
            },
    {
        self.prune_finished(&is_finished);
        if self.map.contains_key(&state.idle_timeout_micros()) {
            RegisterAction::Push
        } else {
            RegisterAction::Spawn
        }
    }

    /// Takes in the bucket that was started for the timeout of a connection.
    pub fn spawned(&mut self, state: &IdleConnState, bucket: B) -> (r: RegisterAction)
        ensures
            final(self)@ == old(self)@.insert(state.idle_timeout(), bucket),
            r == RegisterAction::Push,
    {
        self.map.insert(state.idle_timeout_micros(), bucket);
        RegisterAction::Push
    }

    /// Takes in whether the registry of a connection's timeout took it. Where
    /// it did, the connection is registered and nothing is left to do. Where
    /// it did not, it had retired: its bucket is dropped, and the connection
    /// needs a fresh one.
    pub fn pushed(&mut self, state: &IdleConnState, added: bool) -> (r: Option<RegisterAction>)
        ensures
            added ==> final(self)@ == old(self)@ && r is None,
            !added ==> final(self)@ == old(self)@.remove(state.idle_timeout()) && r == Some(
                RegisterAction::Spawn,
            ),
    {
        if added {
            None
        } else {
            self.map.remove(&state.idle_timeout_micros());
            Some(RegisterAction::Spawn)
        }
    }
}

/// The registry once these connections were added, in order, and none of them
/// had handles dropped.
pub open spec fn registered_all<W>(r: Registry<W>, conns: Seq<W>) -> Registry<W>
    decreases conns.len(),
{
    if conns.len() == 0 {
        r
    } else {
        registered_all(r, conns.drop_last()).registered(conns.last(), seq![])
    }
}

/// A registration that drops handles leaves those of the live connections and
/// the new one, and starts the count anew.
pub proof fn law_prune<W>(r: Registry<W>, conn: W, live: Seq<bool>)
    requires
        r.wf(),
        !r.retired,
        r.prune_due(),
        live.len() == r.conns.len(),
    ensures
        r.registered(conn, live).conns.len() == count(live) + 1,
        r.registered(conn, live).registrations_since_prune == 0,
{
    lemma_kept_len(r.conns, live);
}

/// Between two prunes a registry holds at most as many handles as there were
/// live connections at the first, and one for each registration since: with
/// `live` of them it never holds more than `live` and the prune cadence.
pub proof fn law_registry_bound<W>(r: Registry<W>, conns: Seq<W>, live: nat)
    requires
        r.wf(),
        !r.retired,
        r.registrations_since_prune == 0,
        r.conns.len() <= live + 1,
        conns.len() < REGISTRATIONS_PER_PRUNE,
    ensures
        registered_all(r, conns).conns == r.conns + conns,
        registered_all(r, conns).conns.len() <= live + REGISTRATIONS_PER_PRUNE,
        registered_all(r, conns).prune_due() <==> conns.len() + 1 == REGISTRATIONS_PER_PRUNE,
        !registered_all(r, conns).retired,
        registered_all(r, conns).registrations_since_prune == conns.len(),
    decreases conns.len(),
{
    if conns.len() > 0 {
        law_registry_bound(r, conns.drop_last(), live);
        assert(r.conns + conns =~= (r.conns + conns.drop_last()).push(conns.last()));
    } else {
        assert(r.conns + conns =~= r.conns);
    }
}

/// A registry that has retired is empty and stays so: no connection is left
/// behind in it.
pub proof fn law_retired_is_final<W>(r: Registry<W>, conn: W, live: Seq<bool>)
    requires
        r.wf(),
        r.retired,
    ensures
        r.registered(conn, live) == r,
        r.swept(live) == r,
        r.conns.len() == 0,
{
    assert(r.swept(live).conns =~= r.conns);
}

/// A connection whose registry was found to have retired goes to a fresh one,
/// which takes it.
pub proof fn law_fresh_takes<W>(idle_timeout_micros: u64, conn: W)
    ensures
        ({
            let fresh = Registry::<W> {
                conns: seq![],
                registrations_since_prune: 0,
                idle_timeout_micros,
                retired: false,
            };
            fresh.registered(conn, seq![]) == (Registry {
                conns: seq![conn],
                registrations_since_prune: 1,
                ..fresh
            })
        }),
{
}

/// A sweep retires a registry exactly when every connection in it is gone.
pub proof fn law_retires_when_empty<W>(r: Registry<W>, live: Seq<bool>)
    requires
        r.wf(),
        !r.retired,
        live.len() == r.conns.len(),
    ensures
        r.swept(live).wf(),
        r.swept(live).retired <==> count(live) == 0,
{
    lemma_kept_len(r.conns, live);
}

/// What is kept are the items whose flag is set, each once and in order: `at`
/// lists their places. Every item whose flag is set is among them, and none
/// whose flag is not.
pub proof fn law_kept<W>(items: Seq<W>, flags: Seq<bool>) -> (at: Seq<int>)
    requires
        items.len() == flags.len(),
    ensures
        at.len() == kept(items, flags).len(),
        forall|j: int|
            0 <= j < at.len() ==> 0 <= #[trigger] at[j] < items.len() && flags[at[j]] && kept(
                items,
                flags,
            )[j] == items[at[j]],
        forall|j: int, k: int| 0 <= j < k < at.len() ==> at[j] < at[k],
        forall|i: int| 0 <= i < items.len() && #[trigger] flags[i] ==> at.contains(i),
    decreases items.len(),
{
    if items.len() == 0 {
        seq![]
    } else {
        let n = items.len() - 1;
        let init = law_kept(items.drop_last(), flags.drop_last());
        let before = kept(items.drop_last(), flags.drop_last());
        assert forall|i: int| 0 <= i < n && #[trigger] flags[i] implies init.contains(i) by {
            assert(flags.drop_last()[i]);
        }
        if flags.last() {
            let at = init.push(n);
            assert forall|j: int| 0 <= j < at.len() implies 0 <= #[trigger] at[j] < items.len()
                && flags[at[j]] && kept(items, flags)[j] == items[at[j]] by {
                if j < init.len() {
                    assert(at[j] == init[j]);
                    assert(flags.drop_last()[init[j]]);
                    assert(kept(items, flags)[j] == before[j]);
                }
            }
            assert forall|i: int| 0 <= i < items.len() && #[trigger] flags[i] implies at.contains(
                i,
            ) by {
                if i < n {
                    let j = choose|j: int| 0 <= j < init.len() && init[j] == i;
                    assert(at[j] == i);
                } else {
                    assert(at[init.len() as int] == i);
                }
            }
            at
        } else {
            assert forall|j: int| 0 <= j < init.len() implies 0 <= #[trigger] init[j] < items.len()
                && flags[init[j]] && kept(items, flags)[j] == items[init[j]] by {
                assert(flags.drop_last()[init[j]]);
            }
            init
        }
    }
}

/// What a registration does, whatever the registry holds. One that has retired
/// stays as it is. Any other has the new connection behind those that it keeps:
/// all of them, or at the 4096th registration the live ones.
pub proof fn law_registered<W>(r: Registry<W>, conn: W, live: Seq<bool>)
    ensures
        r.retired ==> r.registered(conn, live) == r,
        !r.retired && r.registrations_since_prune < 4095 ==> {
            &&& r.registered(conn, live).conns == r.conns + seq![conn]
            &&& r.registered(conn, live).registrations_since_prune == r.registrations_since_prune
                + 1
        },
        !r.retired && r.registrations_since_prune >= 4095 ==> {
            &&& r.registered(conn, live).conns == kept(r.conns, live) + seq![conn]
            &&& r.registered(conn, live).registrations_since_prune == 0
        },
        r.registered(conn, live).idle_timeout_micros == r.idle_timeout_micros,
        r.registered(conn, live).retired == r.retired,
        r.prune_due() <==> r.registrations_since_prune >= 4095,
{
    assert(r.conns.push(conn) =~= r.conns + seq![conn]);
    assert(kept(r.conns, live).push(conn) =~= kept(r.conns, live) + seq![conn]);
}

/// What a sweep does to a registry: it keeps the live connections, each once
/// and in order, at the places that `at` lists, and drops all others; it
/// retires where none is live, and changes nothing else.
pub proof fn law_swept<W>(r: Registry<W>, live: Seq<bool>) -> (at: Seq<int>)
    requires
        live.len() == r.conns.len(),
    ensures
        at.len() == r.swept(live).conns.len(),
        forall|j: int|
            0 <= j < at.len() ==> 0 <= #[trigger] at[j] < r.conns.len() && live[at[j]] && r.swept(
                live,
            ).conns[j] == r.conns[at[j]],
        forall|j: int, k: int| 0 <= j < k < at.len() ==> at[j] < at[k],
        forall|i: int| 0 <= i < r.conns.len() && #[trigger] live[i] ==> at.contains(i),
        r.swept(live).retired <==> r.retired || forall|i: int|
            0 <= i < live.len() ==> !(#[trigger] live[i]),
        r.swept(live).idle_timeout_micros == r.idle_timeout_micros,
        r.swept(live).registrations_since_prune == r.registrations_since_prune,
{
    let at = law_kept(r.conns, live);
    if r.swept(live).conns.len() == 0 {
        assert forall|i: int| 0 <= i < live.len() implies !(#[trigger] live[i]) by {
            if live[i] {
                assert(at.contains(i));
            }
        }
    } else {
        assert(live[at[0]]);
    }
    at
}

/// A connection is there exactly where its handle leads to it.
pub proof fn law_present(states: Seq<Option<Arc<IdleConnState>>>, i: int)
    requires
        0 <= i < states.len(),
    ensures
        present(states).len() == states.len(),
        present(states)[i] <==> states[i] is Some,
{
}

/// What the outcome of a sweep says. A connection that is gone was not touched.
/// One that is there was swept once for it, with its own timeout: it was given
/// up where the word that was found had its high bit clear and was at least the
/// timeout old, and was woken behind that; in every other case it was left.
pub proof fn law_outcome(state: Option<Arc<IdleConnState>>, now: u64, outcome: SweepOutcome)
    requires
        outcome_fits(state, now, outcome),
    ensures
        state is None <==> outcome is Gone,
        outcome matches SweepOutcome::GivenUp { found } ==> {
            let c = state->0;
            let op = ConnOp::Sweep { now, idle_timeout: c.idle_timeout() };
            &&& found < 0x8000_0000_0000_0000
            &&& now >= found + c.idle_timeout() || c.idle_timeout() == 0
            &&& c.updated(op, Ok(found))
            &&& c.woken()
            &&& c.woken_once_given_up(now, found)
        },
        outcome matches SweepOutcome::Left { found } ==> {
            let c = state->0;
            let op = ConnOp::Sweep { now, idle_timeout: c.idle_timeout() };
            &&& found >= 0x8000_0000_0000_0000 || (now < found + c.idle_timeout()
                && c.idle_timeout() > 0)
            &&& c.updated(op, Err(found))
        },
{
}

/// The answers are what was said of each item, in the place of the item.
pub proof fn law_asked<W, T, F: Fn(&W) -> T>(f: F, items: Seq<W>, answers: Seq<T>, i: int)
    requires
        asked(f, items, answers),
        0 <= i < items.len(),
    ensures
        answers.len() == items.len(),
        f.ensures((&items[i],), answers[i]),
{
}

/// Exactly the buckets stay whose sweeper was said not to have finished, each
/// as it was.
pub proof fn law_running<B, F: Fn(&B) -> bool>(
    f: F,
    buckets: Map<u64, B>,
    finished: Map<u64, bool>,
    k: u64,
)
    requires
        asked_of(f, buckets, finished),
    ensures
        running(buckets, finished).contains_key(k) <==> buckets.contains_key(k) && !finished[k],
        running(buckets, finished).contains_key(k) ==> running(buckets, finished)[k] == buckets[k],
        buckets.contains_key(k) ==> f.ensures((&buckets[k],), finished[k]),
{
}

} // verus!
