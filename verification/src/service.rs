//! The application: one engine, one log, one writer.
//!
//! Events are durable before they are visible. `App::execute` decides, writes
//! to the log, and only then applies: applying first would leave a state the
//! log cannot reproduce if the process died in between. A write that fails
//! leaves the state exactly as it was.
use vstd::prelude::*;

use crate::broker::{fee_outcome, FeeSchedule, FillPolicy, MockBroker};
use crate::command::Command;
use crate::engine::{
    decided, empty_view, fees_of, journal_after, journalled, law_accepted_commands_apply,
    lemma_journal_of_events, next_id_after, numbered, Engine, EngineError, EngineView,
};
use crate::error::DomainError;
use crate::event::{Event, Journaled};
use crate::ids::ClientOrderId;
use crate::instrument::InstrumentSpec;
use crate::problem::AppError;
use crate::store::{agree, entries_after, tail_after, EventLog};
use crate::time::Timestamp;

verus! {

pub struct App<L: EventLog> {
    engine: Engine<MockBroker>,
    log: L,
    next_order_id: u64,
    /// What the broker is rebuilt from on a reset: a fresh generator stream
    /// and id counter, so a reset world is as deterministic as a booted one.
    broker_seed: u64,
    policy: FillPolicy,
    fees: FeeSchedule,
    /// Instruments listed, as fresh journalled events, whenever the registry
    /// is empty after a boot or a reset.
    seeds: Vec<InstrumentSpec>,
}

/// What a write-ahead execution comes to, given what the engine decided: a
/// refusal changes nothing; an accepted decision is journalled, and either
/// the journal is persisted and the state becomes its fold, or persisting
/// fails and the state is as it was.
pub open spec fn written_ahead(
    s: EngineView,
    evs: Result<Vec<Event>, EngineError>,
    at: Timestamp,
    r: Result<(), AppError>,
    t: EngineView,
) -> bool {
    match evs {
        Err(e) => r == Err::<(), AppError>(AppError::Engine(e)) && t == s,
        Ok(v) => exists|j: Seq<Journaled>|
            #[trigger] numbered(j, v@, s.seq, at) && ((r is Ok && journal_after(s, j) == Ok::<
                EngineView,
                EngineError,
            >(t)) || (r matches Err(AppError::Store(_)) && t == s)),
    }
}

/// One command through `App::execute`: refused for want of sequence
/// numbers, or decided by the engine and then written ahead.
pub open spec fn executed(
    s: EngineView,
    fees: spec_fn(int) -> Result<int, DomainError>,
    command: Command,
    at: Timestamp,
    r: Result<(), AppError>,
    t: EngineView,
) -> bool {
    &&& s.seq + 2 > u64::MAX ==> r == Err::<(), AppError>(
        AppError::Domain(DomainError::Overflow("sequence")),
    ) && t == s
    &&& s.seq + 2 <= u64::MAX ==> exists|evs: Result<Vec<Event>, EngineError>|
        #[trigger] decided(s, fees, command, at, evs) && written_ahead(s, evs, at, r, t)
}

/// Listing `seeds` in order, each as a `CreateInstrument` command executed
/// write-ahead, stopping at the first that fails: from state `s`, with
/// outcome `r` and final state `t`.
pub open spec fn listing(
    s: EngineView,
    fees: spec_fn(int) -> Result<int, DomainError>,
    seeds: Seq<InstrumentSpec>,
    at: Timestamp,
    r: Result<(), AppError>,
    t: EngineView,
) -> bool
    decreases seeds.len(),
{
    if seeds.len() == 0 {
        r is Ok && t == s
    } else {
        exists|mid: EngineView, first: Result<(), AppError>|
            #[trigger] executed(s, fees, Command::CreateInstrument { spec: seeds[0] }, at, first, mid)
                && match first {
                Ok(()) => listing(mid, fees, seeds.drop_first(), at, r, t),
                Err(e) => r == Err::<(), AppError>(e) && t == mid,
            }
    }
}

/// Seeds land only in an empty registry; a registry with anything in it is
/// left exactly as it is.
pub open spec fn seeding(
    s: EngineView,
    fees: spec_fn(int) -> Result<int, DomainError>,
    seeds: Seq<InstrumentSpec>,
    at: Timestamp,
    r: Result<(), AppError>,
    t: EngineView,
) -> bool {
    if s.instruments.len() > 0 {
        r is Ok && t == s
    } else {
        listing(s, fees, seeds, at, r, t)
    }
}

/// The commission a fee schedule charges, as a broker's fee rule.
pub open spec fn schedule_fees(f: FeeSchedule) -> spec_fn(int) -> Result<int, DomainError> {
    |n: int| fee_outcome(f.bps as int, n)
}

/// What booting from the journal `read` gives: the replay's refusal, or the
/// replayed state with the seeds listed into it, ids resumed past the
/// highest in use.
pub open spec fn booted<L: EventLog>(
    read: Seq<Journaled>,
    fees: spec_fn(int) -> Result<int, DomainError>,
    seeds: Seq<InstrumentSpec>,
    at: Timestamp,
    r: Result<App<L>, AppError>,
) -> bool {
    match journal_after(empty_view(), read) {
        Err(e) => r matches Err(x) && x == AppError::Engine(e),
        Ok(s) => match r {
            Ok(app) => seeding(s, fees, seeds, at, Ok(()), app.state()) && app.next_id()
                == next_id_after(s.orders) && app.seed_list() == seeds && fees_of(app.broker())
                == fees,
            Err(e) => exists|t: EngineView| #[trigger] seeding(s, fees, seeds, at, Err(e), t),
        },
    }
}

impl<L: EventLog> App<L> {
    pub closed spec fn state(self) -> EngineView {
        self.engine@
    }

    pub closed spec fn broker(self) -> MockBroker {
        self.engine.broker_value()
    }

    /// The id the next order is minted with.
    pub closed spec fn next_id(self) -> u64 {
        self.next_order_id
    }

    /// The instruments listed into an empty registry.
    pub closed spec fn seed_list(self) -> Seq<InstrumentSpec> {
        self.seeds@
    }

    /// The fee schedule a broker is rebuilt with.
    pub closed spec fn fee_schedule(self) -> FeeSchedule {
        self.fees
    }

    /// Open a log and rebuild state from it: an empty log gives an empty
    /// competition, a populated one continues where it left off, with ids
    /// resumed past the highest in use. Seeds are listed when the registry
    /// is empty. A log that cannot be read is refused as a store error.
    pub fn open(
        log: L,
        broker_seed: u64,
        policy: FillPolicy,
        fees: FeeSchedule,
        seeds: Vec<InstrumentSpec>,
        at: Timestamp,
    ) -> (r: Result<App<L>, AppError>)
        ensures
            r matches Err(AppError::Store(_)) || exists|read: Seq<Journaled>|
                #[trigger] booted(read, schedule_fees(fees), seeds@, at, r),
    {
        let entries = match log.read_all() {
            Ok(v) => v,
            Err(e) => return Err(AppError::Store(e)),
        };
        let ghost read = entries@;
        let r = App::resume(log, entries, broker_seed, policy, fees, seeds, at);
        assert(booted(read, schedule_fees(fees), seeds@, at, r));
        r
    }

    /// Rebuild from a journal already read from `log`: replay it, resume ids
    /// past the highest in use, and list the seeds if the registry is empty.
    pub fn resume(
        log: L,
        entries: Vec<Journaled>,
        broker_seed: u64,
        policy: FillPolicy,
        fees: FeeSchedule,
        seeds: Vec<InstrumentSpec>,
        at: Timestamp,
    ) -> (r: Result<App<L>, AppError>)
        ensures
            booted(entries@, schedule_fees(fees), seeds@, at, r),
    {
        let broker = MockBroker::new(broker_seed, policy, fees);
        assert(fees_of(broker) =~= schedule_fees(fees));
        let engine = match Engine::replay(broker, entries) {
            Ok(e) => e,
            Err(e) => return Err(AppError::Engine(e)),
        };
        let ghost s = engine@;
        let next_order_id = engine.next_order_id();
        let mut app = App { engine, log, next_order_id, broker_seed, policy, fees, seeds };
        assert(app.state() == s);
        assert(fees_of(app.broker()) == schedule_fees(fees));
        let ghost listed = app.seed_list();
        let seeded = app.apply_seeds(at);
        let ghost t = app.state();
        assert(seeding(s, schedule_fees(fees), listed, at, seeded, t));
        match seeded {
            Ok(u) => {
                assert(seeded == Ok::<(), AppError>(u));
                Ok(app)
            },
            Err(e) => Err(e),
        }
    }

    /// Seeds land only in an empty registry: the log is the authority, and
    /// neither a restart nor a reset may fight what has since been edited.
    fn apply_seeds(&mut self, at: Timestamp) -> (r: Result<(), AppError>)
        ensures
            final(self).next_id() == old(self).next_id(),
            final(self).seed_list() == old(self).seed_list(),
            final(self).fee_schedule() == old(self).fee_schedule(),
            fees_of(final(self).broker()) == fees_of(old(self).broker()),
            seeding(
                old(self).state(),
                fees_of(old(self).broker()),
                old(self).seed_list(),
                at,
                r,
                final(self).state(),
            ),
    {
        if self.engine.instruments().len() > 0 {
            return Ok(());
        }
        let ghost f = fees_of(self.broker());
        let ghost s0 = self.state();
        let ghost all = self.seed_list();
        let mut i: usize = 0;
        assert(all.skip(0) =~= all);
        while i < self.seeds.len()
            invariant
                i <= self.seeds@.len(),
                self.seeds@ == self.seed_list(),
                all == old(self).seed_list(),
                s0 == old(self).state(),
                s0.instruments.len() == 0,
                f == fees_of(old(self).broker()),
                self.next_id() == old(self).next_id(),
                self.seed_list() == old(self).seed_list(),
                self.fee_schedule() == old(self).fee_schedule(),
                fees_of(self.broker()) == f,
                forall|r: Result<(), AppError>, t: EngineView|
                    #[trigger] listing(self.state(), f, all.skip(i as int), at, r, t) ==> listing(
                        s0,
                        f,
                        all,
                        at,
                        r,
                        t,
                    ),
            decreases self.seeds@.len() - i,
        {
            let ghost cur = self.state();
            let spec = self.seeds[i].clone();
            let ghost cmd = Command::CreateInstrument { spec };
            assert(all.skip(i as int)[0] == all[i as int]);
            assert(all.skip(i as int).drop_first() =~= all.skip(i + 1));
            match self.execute(at, Command::CreateInstrument { spec }) {
                Ok(()) => {},
                Err(e) => {
                    assert(executed(cur, f, cmd, at, Err::<(), AppError>(e), self.state()));
                    assert(listing(cur, f, all.skip(i as int), at, Err::<(), AppError>(e), self.state()));
                    return Err(e);
                },
            }
            let ghost next = self.state();
            assert(executed(cur, f, cmd, at, Ok::<(), AppError>(()), next));
            assert forall|r: Result<(), AppError>, t: EngineView|
                #[trigger] listing(next, f, all.skip(i + 1), at, r, t) implies listing(
                    s0,
                    f,
                    all,
                    at,
                    r,
                    t,
                ) by {
                assert(executed(cur, f, cmd, at, Ok::<(), AppError>(()), next));
                assert(listing(cur, f, all.skip(i as int), at, r, t));
            }
            i = i + 1;
        }
        assert(all.skip(i as int).len() == 0);
        assert(listing(self.state(), f, all.skip(i as int), at, Ok::<(), AppError>(()), self.state()));
        Ok(())
    }

    /// Destroy the world and restore the boot state: empty log, reborn
    /// engine and broker, seeds listed afresh. A log that cannot be cleared
    /// leaves everything as it was.
    pub fn reset(&mut self, at: Timestamp) -> (r: Result<(), AppError>)
        ensures
            final(self).seed_list() == old(self).seed_list(),
            final(self).fee_schedule() == old(self).fee_schedule(),
            (r matches Err(AppError::Store(_)) && final(self).state() == old(self).state()
                && final(self).next_id() == old(self).next_id()) || (final(self).next_id() == 1
                && seeding(
                empty_view(),
                schedule_fees(old(self).fee_schedule()),
                old(self).seed_list(),
                at,
                r,
                final(self).state(),
            )),
    {
        match self.log.clear() {
            Ok(()) => {},
            Err(e) => return Err(AppError::Store(e)),
        }
        let broker = MockBroker::new(self.broker_seed, self.policy, self.fees);
        assert(fees_of(broker) =~= schedule_fees(self.fees));
        self.engine = Engine::new(broker);
        self.next_order_id = 1;
        let r = self.apply_seeds(at);
        r
    }

    /// Write ahead: decide, persist, then apply.
    pub fn execute(&mut self, at: Timestamp, command: Command) -> (r: Result<(), AppError>)
        ensures
            final(self).next_id() == old(self).next_id(),
            final(self).seed_list() == old(self).seed_list(),
            final(self).fee_schedule() == old(self).fee_schedule(),
            fees_of(final(self).broker()) == fees_of(old(self).broker()),
            executed(old(self).state(), fees_of(old(self).broker()), command, at, r, final(self).state()),
    {
        if self.engine.seq() > u64::MAX - 2 {
            return Err(AppError::Domain(DomainError::Overflow("sequence")));
        }
        self.engine.facts();
        let ghost s = self.engine@;
        let ghost fees = fees_of(self.engine.broker_value());
        let ghost cmd = command;
        assert(s == old(self).state());
        assert(fees == fees_of(old(self).broker()));
        let planned = self.engine.plan(at, command);
        let ghost evs = choose|evs: Result<Vec<Event>, EngineError>|
            decided(s, fees, cmd, at, evs) && #[trigger] journalled(evs, planned, s.seq, at);
        let entries = match planned {
            Ok(j) => j,
            Err(e) => {
                assert(decided(s, fees, cmd, at, evs));
                assert(written_ahead(s, evs, at, Err(AppError::Engine(e)), self.engine@));
                return Err(AppError::Engine(e));
            },
        };
        proof {
            law_accepted_commands_apply(s, fees, cmd, at, evs);
            lemma_journal_of_events(s, entries@, evs->Ok_0@, s.seq, at);
            assert(numbered(entries@, evs->Ok_0@, s.seq, at));
        }
        match self.log.append(entries.as_slice()) {
            Ok(()) => {},
            Err(e) => {
                assert(written_ahead(s, evs, at, Err(AppError::Store(e)), self.engine@));
                return Err(AppError::Store(e));
            },
        }
        let r = match self.engine.commit(&entries) {
            Ok(()) => Ok(()),
            Err(e) => Err(AppError::Engine(e)),
        };
        assert(written_ahead(s, evs, at, r, self.engine@));
        r
    }

    /// Mint the next client order id. Server-side because the id is ours:
    /// the client is in no position to guarantee uniqueness.
    pub fn mint_order_id(&mut self) -> (r: Result<ClientOrderId, AppError>)
        ensures
            final(self).state() == old(self).state(),
            final(self).seed_list() == old(self).seed_list(),
            old(self).next_id() < u64::MAX ==> (r matches Ok(id) && id@ == old(self).next_id()
                && final(self).next_id() == old(self).next_id() + 1),
            old(self).next_id() == u64::MAX ==> r == Err::<ClientOrderId, AppError>(
                AppError::Domain(DomainError::Overflow("order id")),
            ),
    {
        if self.next_order_id == u64::MAX {
            return Err(AppError::Domain(DomainError::Overflow("order id")));
        }
        let id = ClientOrderId::new(self.next_order_id);
        self.next_order_id = self.next_order_id + 1;
        Ok(id)
    }

    pub fn engine(&self) -> (e: &Engine<MockBroker>)
        ensures
            e@ == self.state(),
    {
        &self.engine
    }

    /// The journal after sequence number `after` (all of it for none), read
    /// back from the log.
    pub fn events_after(&self, after: Option<u64>) -> (r: Result<Vec<Journaled>, AppError>)
        ensures
            r matches Ok(v) ==> exists|read: Seq<Journaled>| agree(v@, #[trigger] tail_after(read, after)),
            r matches Ok(v) ==> forall|i: int|
                0 <= i < v@.len() ==> (after matches Some(n) ==> (#[trigger] v@[i]).seq > n),
    {
        match self.log.read_all() {
            Ok(all) => Ok(entries_after(&all, after)),
            Err(e) => Err(AppError::Store(e)),
        }
    }
}

} // verus!
