//! The engine: commands in, events out, state as a fold over the events.
//!
//! `apply` is the only thing that mutates state, and it is the same code path
//! a replay uses. Anything `decide` learns that is not in an event — a broker
//! id, a chosen fill size — would be lost on replay, so it is put in the event
//! rather than applied directly. That single rule is what makes "rebuild from
//! the log and get the same state" true by construction.
//!
//! `decide` validates everything before any mutation happens: a command that
//! would advance the order but be refused by the book is refused whole.
use vstd::prelude::*;

use crate::broker::{Broker, BrokerError, Execution};
use crate::command::Command;
use crate::error::DomainError;
use crate::event::{clone_entries, same_event, Event, Journaled};
use crate::ids::{BrokerOrderId, ClientOrderId, ExecutionId, ParticipantId, Symbol};
use crate::instrument::InstrumentSpec;
use crate::keyed::{
    count_below, count_below_int, has_key, increasing, key_index, lemma_count_below_splits,
    lemma_slot_is_count_int,
    lemma_sorted_insert, lemma_sorted_unique, lemma_upsert_insert, lemma_upsert_update,
    strictly_sorted, upsert,
};
use crate::lifecycle::{
    broker_id_of, event_name, filled_of, is_terminal_state, transition, OrderEvent, OrderState,
    RejectReason, TransitionError,
};
use crate::money::{money_range, Money, Px, Qty};
use crate::order::{submitted, NewOrder, Order, Side};
use crate::portfolio::{
    booked, fill_effect, held_positions, mark_keys, pos_for, total_value_of, Fill, Marks, Portfolio,
    PortfolioError, PortfolioView,
};
use crate::position::Position;
use crate::scoring::{
    all_rows, appears, compounding_fails, daily_results, distinct_ladder, in_ladder_order,
    in_rank_order, ladder_row_matches, placed, repeats_earlier, result_matches, results_of, DailyResult,
    DayInput, LadderRow, Leaderboard, LeaderboardRow, ScoringError,
};
use crate::text::{lemma_lex_total, lex_lt};
use crate::time::{day_before, lemma_day_before_irreflexive, lemma_day_order, Timestamp, TradingDay};

verus! {

broadcast use crate::money::group_money;

#[derive(Debug, Clone, PartialEq, Eq)]
pub enum EngineError {
    UnknownParticipant(ParticipantId),
    DuplicateParticipant(ParticipantId),
    UnknownOrder(ClientOrderId),
    DuplicateOrder(ClientOrderId),
    UnknownInstrument(Symbol),
    DuplicateInstrument(Symbol),
    /// Delisting refused: working orders or open positions remain on it.
    InstrumentInUse { symbol: Symbol, working_orders: u64, positions: u64 },
    /// The cash not already committed to working buy orders is not enough.
    InsufficientAvailableCash { need: Money, available: Money },
    /// The shares not already committed to working sell orders are not enough.
    InsufficientAvailablePosition { symbol: Symbol, want: i64, available: i64 },
    NothingToExecute(ClientOrderId),
    DayNotClosed(TradingDay),
    /// Days close in calendar order: each is measured against the one before.
    DayOutOfOrder { day: TradingDay, latest: TradingDay },
    Scoring(ScoringError),
    Transition(TransitionError),
    Portfolio(PortfolioError),
    Broker(BrokerError),
    Domain(DomainError),
}

// ---- state --------------------------------------------------------------------

/// One participant: the book, and the day's running facts about it.
pub struct Account {
    portfolio: Portfolio,
    /// Gross notional traded since the last close: a projection of the fills,
    /// reset by the close.
    day_turnover: Money,
    /// At least one fill since the last close.
    traded_today: bool,
    /// Last published closing value; the baseline the next day's return is
    /// measured from. Absent until the participant's first close.
    last_close: Option<Money>,
}

pub ghost struct AccountView {
    pub owner: ParticipantId,
    pub book: PortfolioView,
    pub turnover: int,
    pub traded: bool,
    pub last_close: Option<int>,
}

pub open spec fn money_opt(m: Option<Money>) -> Option<int> {
    match m {
        Some(x) => Some(x@),
        None => None,
    }
}

impl View for Account {
    type V = AccountView;

    closed spec fn view(&self) -> AccountView {
        AccountView {
            owner: self.portfolio.participant_value(),
            book: self.portfolio@,
            turnover: self.day_turnover@,
            traded: self.traded_today,
            last_close: money_opt(self.last_close),
        }
    }
}

/// An order and the fees charged on its fills so far.
pub struct OrderRecord {
    order: Order,
    fees: Money,
}

impl View for OrderRecord {
    type V = (Order, int);

    closed spec fn view(&self) -> (Order, int) {
        (self.order, self.fees@)
    }
}

/// A closed day and the facts it closed on.
pub struct ClosedDay {
    day: TradingDay,
    entries: Vec<DayInput>,
}

impl View for ClosedDay {
    type V = (TradingDay, Seq<DayInput>);

    closed spec fn view(&self) -> (TradingDay, Seq<DayInput>) {
        (self.day, self.entries@)
    }
}

/// One execution on the tape: its id, the order it filled, and its terms.
#[derive(Debug, Clone, Copy, PartialEq, Eq, Structural)]
pub struct ExecRow {
    pub exec_id: ExecutionId,
    pub order: ClientOrderId,
    pub qty: Qty,
    pub px: Px,
    pub fee: Money,
}

/// Everything a participant can observe of the engine.
pub ghost struct EngineView {
    /// In participant-id order.
    pub accounts: Seq<AccountView>,
    /// In client-order-id order, each with its fees so far.
    pub orders: Seq<(Order, int)>,
    pub marks: Seq<(Symbol, Px)>,
    /// The security master, in symbol order. Empty means unrestricted.
    pub instruments: Seq<InstrumentSpec>,
    pub seq: int,
    /// In calendar order.
    pub closed: Seq<(TradingDay, Seq<DayInput>)>,
    /// The tape: every execution, in the order it was booked.
    pub executions: Seq<ExecRow>,
}

pub open spec fn account_keys(a: Seq<AccountView>) -> Seq<Seq<char>> {
    a.map_values(|x: AccountView| x.book.participant)
}

pub open spec fn account_for(a: Seq<AccountView>, k: Seq<char>) -> Option<AccountView> {
    if has_key(account_keys(a), k) {
        Some(a[key_index(account_keys(a), k)])
    } else {
        None
    }
}

pub open spec fn order_keys(o: Seq<(Order, int)>) -> Seq<int> {
    o.map_values(|x: (Order, int)| x.0.id@ as int)
}

pub open spec fn has_order(o: Seq<(Order, int)>, id: int) -> bool {
    exists|i: int| 0 <= i < o.len() && (#[trigger] o[i]).0.id@ == id
}

pub open spec fn order_index(o: Seq<(Order, int)>, id: int) -> int {
    choose|i: int| 0 <= i < o.len() && (#[trigger] o[i]).0.id@ == id
}

pub open spec fn order_for(o: Seq<(Order, int)>, id: int) -> Option<(Order, int)> {
    if has_order(o, id) {
        Some(o[order_index(o, id)])
    } else {
        None
    }
}

/// `o` with a new order record inserted in id order.
pub open spec fn insert_order(o: Seq<(Order, int)>, rec: (Order, int)) -> Seq<(Order, int)> {
    o.insert(count_below_int(order_keys(o), rec.0.id@ as int), rec)
}

pub open spec fn instrument_keys(s: Seq<InstrumentSpec>) -> Seq<Seq<char>> {
    s.map_values(|x: InstrumentSpec| x.symbol@)
}

pub open spec fn instrument_for(s: Seq<InstrumentSpec>, k: Seq<char>) -> Option<InstrumentSpec> {
    if has_key(instrument_keys(s), k) {
        Some(s[key_index(instrument_keys(s), k)])
    } else {
        None
    }
}

pub open spec fn closed_in_order(c: Seq<(TradingDay, Seq<DayInput>)>) -> bool {
    forall|i: int, j: int| 0 <= i < j < c.len() ==> day_before(#[trigger] c[i].0@, #[trigger] c[j].0@)
}

/// The engine's state is well formed: every keyed collection in key order,
/// each account filed under its owner.
pub open spec fn well_formed(v: EngineView) -> bool {
    &&& strictly_sorted(account_keys(v.accounts))
    &&& forall|i: int| 0 <= i < v.accounts.len() ==> (#[trigger] v.accounts[i]).owner@
        == v.accounts[i].book.participant
    &&& increasing(order_keys(v.orders))
    &&& strictly_sorted(instrument_keys(v.instruments))
    &&& closed_in_order(v.closed)
}

/// Everything the engine knows, as opposed to the broker it asks.
pub struct Books {
    accounts: Vec<Account>,
    orders: Vec<OrderRecord>,
    marks: Marks,
    instruments: Vec<InstrumentSpec>,
    seq: u64,
    closed: Vec<ClosedDay>,
    executions: Vec<ExecRow>,
}

impl View for Books {
    type V = EngineView;

    closed spec fn view(&self) -> EngineView {
        EngineView {
            accounts: self.accounts@.map_values(|a: Account| a@),
            orders: self.orders@.map_values(|o: OrderRecord| o@),
            marks: self.marks@,
            instruments: self.instruments@,
            seq: self.seq as int,
            closed: self.closed@.map_values(|c: ClosedDay| c@),
            executions: self.executions@,
        }
    }
}

pub struct Engine<B: Broker> {
    broker: B,
    books: Books,
}

impl<B: Broker> View for Engine<B> {
    type V = EngineView;

    closed spec fn view(&self) -> EngineView {
        self.books@
    }
}

/// An empty competition.
pub open spec fn empty_view() -> EngineView {
    EngineView {
        accounts: Seq::empty(),
        orders: Seq::empty(),
        marks: Seq::empty(),
        instruments: Seq::empty(),
        seq: 0,
        closed: Seq::empty(),
        executions: Seq::empty(),
    }
}

impl<B: Broker> Engine<B> {
    pub closed spec fn broker_value(self) -> B {
        self.broker
    }

    pub fn new(broker: B) -> (e: Engine<B>)
        ensures
            e@ == empty_view(),
            e.broker_value() == broker,
    {
        Engine { broker, books: Books::new() }
    }

    /// The engine's state is well formed.
    pub fn facts(&self)
        ensures
            well_formed(self@),
    {
        proof {
            use_type_invariant(&self.books);
        }
    }
}

impl Books {
    #[verifier::type_invariant]
    spec fn inv(self) -> bool {
        well_formed(self@)
    }

    fn new() -> (e: Books)
        ensures
            e@ == empty_view(),
    {
        let e = Books {
            accounts: Vec::new(),
            orders: Vec::new(),
            marks: Marks::new(),
            instruments: Vec::new(),
            seq: 0,
            closed: Vec::new(),
            executions: Vec::new(),
        };
        assert(e@.accounts =~= Seq::empty());
        assert(e@.orders =~= Seq::empty());
        assert(e@.marks =~= Seq::empty());
        assert(e@.closed =~= Seq::empty());
        e
    }

    // ---- lookups --------------------------------------------------------------

    fn account_slot(&self, id: &ParticipantId) -> (r: Option<usize>)
        ensures
            match r {
                Some(i) => i < self@.accounts.len() && account_for(self@.accounts, id@) == Some(
                    self@.accounts[i as int],
                ) && self@.accounts[i as int].book.participant == id@,
                None => account_for(self@.accounts, id@) is None,
            },
    {
        proof {
            use_type_invariant(self);
        }
        let ghost keys = account_keys(self@.accounts);
        let mut i: usize = 0;
        while i < self.accounts.len()
            invariant
                i <= self.accounts@.len(),
                keys == account_keys(self@.accounts),
                self@.accounts.len() == self.accounts@.len(),
                strictly_sorted(keys),
                forall|j: int| 0 <= j < i ==> keys[j] != id@,
            decreases self.accounts@.len() - i,
        {
            assert(keys[i as int] == self.accounts@[i as int]@.book.participant);
            if self.accounts[i].portfolio.participant().same(id) {
                proof {
                    assert(keys[i as int] == id@);
                    assert(has_key(keys, id@));
                    lemma_sorted_unique(keys, i as int, key_index(keys, id@));
                }
                return Some(i);
            }
            i = i + 1;
        }
        None
    }

    /// Where an account for `id` would be inserted, in id order.
    fn account_insert_point(&self, id: &ParticipantId) -> (r: usize)
        ensures
            r <= self@.accounts.len(),
            forall|j: int| 0 <= j < r ==> lex_lt(#[trigger] account_keys(self@.accounts)[j], id@),
            r < self@.accounts.len() ==> !lex_lt(account_keys(self@.accounts)[r as int], id@),
    {
        let ghost keys = account_keys(self@.accounts);
        let mut i: usize = 0;
        loop
            invariant
                i <= self.accounts@.len(),
                keys == account_keys(self@.accounts),
                self@.accounts.len() == self.accounts@.len(),
                forall|j: int| 0 <= j < i ==> lex_lt(#[trigger] keys[j], id@),
            ensures
                i <= self.accounts@.len(),
                forall|j: int| 0 <= j < i ==> lex_lt(#[trigger] keys[j], id@),
                i < self.accounts@.len() ==> !lex_lt(keys[i as int], id@),
            decreases self.accounts@.len() - i,
        {
            if i >= self.accounts.len() {
                break;
            }
            assert(keys[i as int] == self.accounts@[i as int]@.book.participant);
            if !self.accounts[i].portfolio.participant().precedes(id) {
                break;
            }
            i = i + 1;
        }
        i
    }

    fn order_slot(&self, id: ClientOrderId) -> (r: Option<usize>)
        ensures
            match r {
                Some(i) => i < self@.orders.len() && order_for(self@.orders, id@ as int) == Some(
                    self@.orders[i as int],
                ) && self@.orders[i as int].0.id == id,
                None => order_for(self@.orders, id@ as int) is None,
            },
    {
        proof {
            use_type_invariant(self);
        }
        let ghost keys = order_keys(self@.orders);
        let mut i: usize = 0;
        while i < self.orders.len()
            invariant
                i <= self.orders@.len(),
                keys == order_keys(self@.orders),
                self@.orders.len() == self.orders@.len(),
                increasing(keys),
                forall|j: int| 0 <= j < i ==> (#[trigger] self@.orders[j]).0.id@ != id@,
            decreases self.orders@.len() - i,
        {
            assert(self@.orders[i as int] == self.orders@[i as int]@);
            if self.orders[i].order.id.get() == id.get() {
                proof {
                    ClientOrderId::lemma_view_injective(self@.orders[i as int].0.id, id);
                    assert(has_order(self@.orders, id@ as int));
                    let j = order_index(self@.orders, id@ as int);
                    assert(keys[i as int] == keys[j]);
                    if i < j {
                        assert(keys[i as int] < keys[j]);
                    } else if j < i {
                        assert(keys[j] < keys[i as int]);
                    }
                }
                return Some(i);
            }
            i = i + 1;
        }
        None
    }

    fn order_insert_point(&self, id: ClientOrderId) -> (r: usize)
        ensures
            r == count_below_int(order_keys(self@.orders), id@ as int),
            r <= self@.orders.len(),
    {
        proof {
            use_type_invariant(self);
        }
        let ghost keys = order_keys(self@.orders);
        let mut i: usize = 0;
        loop
            invariant
                i <= self.orders@.len(),
                keys == order_keys(self@.orders),
                self@.orders.len() == self.orders@.len(),
                forall|j: int| 0 <= j < i ==> #[trigger] keys[j] < id@,
            ensures
                i <= self.orders@.len(),
                forall|j: int| 0 <= j < i ==> #[trigger] keys[j] < id@,
                i < self.orders@.len() ==> keys[i as int] >= id@,
            decreases self.orders@.len() - i,
        {
            if i >= self.orders.len() {
                break;
            }
            assert(keys[i as int] == self.orders@[i as int]@.0.id@);
            if self.orders[i].order.id.get() >= id.get() {
                break;
            }
            i = i + 1;
        }
        proof {
            lemma_slot_is_count_int(keys, id@ as int, i as int);
        }
        i
    }

    fn instrument_slot(&self, symbol: &Symbol) -> (r: Option<usize>)
        ensures
            match r {
                Some(i) => i < self@.instruments.len() && instrument_for(self@.instruments, symbol@)
                    == Some(self@.instruments[i as int]) && self@.instruments[i as int].symbol@
                    == symbol@,
                None => instrument_for(self@.instruments, symbol@) is None,
            },
    {
        proof {
            use_type_invariant(self);
        }
        let ghost keys = instrument_keys(self@.instruments);
        let mut i: usize = 0;
        while i < self.instruments.len()
            invariant
                i <= self.instruments@.len(),
                keys == instrument_keys(self@.instruments),
                self@.instruments == self.instruments@,
                strictly_sorted(keys),
                forall|j: int| 0 <= j < i ==> keys[j] != symbol@,
            decreases self.instruments@.len() - i,
        {
            if self.instruments[i].symbol.same(symbol) {
                proof {
                    assert(keys[i as int] == symbol@);
                    assert(has_key(keys, symbol@));
                    lemma_sorted_unique(keys, i as int, key_index(keys, symbol@));
                }
                return Some(i);
            }
            i = i + 1;
        }
        None
    }

    fn instrument_insert_point(&self, symbol: &Symbol) -> (r: usize)
        ensures
            r <= self@.instruments.len(),
            forall|j: int| 0 <= j < r ==> lex_lt(#[trigger] instrument_keys(self@.instruments)[j], symbol@),
            r < self@.instruments.len() ==> !lex_lt(instrument_keys(self@.instruments)[r as int], symbol@),
    {
        let ghost keys = instrument_keys(self@.instruments);
        let mut i: usize = 0;
        loop
            invariant
                i <= self.instruments@.len(),
                keys == instrument_keys(self@.instruments),
                self@.instruments == self.instruments@,
                forall|j: int| 0 <= j < i ==> lex_lt(#[trigger] keys[j], symbol@),
            ensures
                i <= self.instruments@.len(),
                forall|j: int| 0 <= j < i ==> lex_lt(#[trigger] keys[j], symbol@),
                i < self.instruments@.len() ==> !lex_lt(keys[i as int], symbol@),
            decreases self.instruments@.len() - i,
        {
            if i >= self.instruments.len() {
                break;
            }
            if !self.instruments[i].symbol.precedes(symbol) {
                break;
            }
            i = i + 1;
        }
        i
    }
}


// ---- what an event does ---------------------------------------------------------

/// A new participant's account: the starting cash, nothing else.
pub open spec fn fresh_account(participant: ParticipantId, cash: Money) -> AccountView {
    AccountView {
        owner: participant,
        book: PortfolioView {
            participant: participant@,
            starting_cash: cash@,
            cash: cash@,
            realized_pnl: 0,
            fees_paid: 0,
            positions: Seq::empty(),
        },
        turnover: 0,
        traded: false,
        last_close: None,
    }
}

/// One lifecycle event on a known order.
pub open spec fn advanced(s: EngineView, id: ClientOrderId, ev: OrderEvent) -> Result<
    EngineView,
    EngineError,
> {
    match order_for(s.orders, id@ as int) {
        None => Err(EngineError::UnknownOrder(id)),
        Some(rec) => match transition(rec.0.state, rec.0.qty@, ev) {
            Err(e) => Err(EngineError::Transition(e)),
            Ok(st) => Ok(
                EngineView {
                    orders: s.orders.update(
                        order_index(s.orders, id@ as int),
                        (Order { state: st, ..rec.0 }, rec.1),
                    ),
                    ..s
                },
            ),
        },
    }
}

/// The fill an execution of `o` books.
pub open spec fn fill_of(o: Order, qty: Qty, px: Px, fee: Money) -> Fill {
    Fill { symbol: o.symbol, side: o.side, qty, px, fee }
}

/// An execution: the order advances, the book takes the fill, the day's
/// turnover and the order's fees grow.
pub open spec fn filled_after(s: EngineView, id: ClientOrderId, qty: Qty, px: Px, fee: Money) -> Result<
    EngineView,
    EngineError,
> {
    match order_for(s.orders, id@ as int) {
        None => Err(EngineError::UnknownOrder(id)),
        Some(rec) => match transition(rec.0.state, rec.0.qty@, OrderEvent::Fill { qty, px }) {
            Err(e) => Err(EngineError::Transition(e)),
            Ok(st) => match account_for(s.accounts, rec.0.participant@) {
                None => Err(EngineError::UnknownParticipant(rec.0.participant)),
                Some(a) => {
                    let notional = px@ * qty@;
                    if !money_range(notional) {
                        Err(EngineError::Domain(DomainError::Overflow("notional")))
                    } else if !money_range(a.turnover + notional) {
                        Err(EngineError::Domain(DomainError::Overflow("cash addition")))
                    } else if !money_range(rec.1 + fee@) {
                        Err(EngineError::Domain(DomainError::Overflow("cash addition")))
                    } else {
                        match fill_effect(a.book, fill_of(rec.0, qty, px, fee)) {
                            Err(e) => Err(EngineError::Portfolio(e)),
                            Ok(eff) => Ok(
                                EngineView {
                                    orders: s.orders.update(
                                        order_index(s.orders, id@ as int),
                                        (Order { state: st, ..rec.0 }, rec.1 + fee@),
                                    ),
                                    accounts: s.accounts.update(
                                        key_index(account_keys(s.accounts), rec.0.participant@),
                                        AccountView {
                                            book: booked(a.book, fill_of(rec.0, qty, px, fee), eff),
                                            turnover: a.turnover + notional,
                                            traded: true,
                                            ..a
                                        },
                                    ),
                                    ..s
                                },
                            ),
                        }
                    }
                },
            },
        },
    }
}

/// The last entry filed for participant `k`, if any.
pub open spec fn entry_for(entries: Seq<DayInput>, k: Seq<char>) -> Option<DayInput>
    decreases entries.len(),
{
    if entries.len() == 0 {
        None
    } else if entries.last().participant@ == k {
        Some(entries.last())
    } else {
        entry_for(entries.drop_last(), k)
    }
}

/// An account once a day closes: its closing value becomes the next
/// baseline, and the day's counters start again.
pub open spec fn closed_account(a: AccountView, entries: Seq<DayInput>) -> AccountView {
    AccountView {
        turnover: 0,
        traded: false,
        last_close: match entry_for(entries, a.book.participant) {
            Some(e) => Some(e.closing_value@),
            None => a.last_close,
        },
        ..a
    }
}

pub open spec fn closed_after(s: EngineView, day: TradingDay, entries: Seq<DayInput>) -> Result<
    EngineView,
    EngineError,
> {
    let n = s.closed.len();
    if n > 0 && s.closed[n - 1].0 != day && !day_before(s.closed[n - 1].0@, day@) {
        Err(EngineError::DayOutOfOrder { day, latest: s.closed[n - 1].0 })
    } else {
        Ok(
            EngineView {
                closed: if n > 0 && s.closed[n - 1].0 == day {
                    s.closed.update(n - 1, (day, entries))
                } else {
                    s.closed.push((day, entries))
                },
                accounts: s.accounts.map_values(|a: AccountView| closed_account(a, entries)),
                ..s
            },
        )
    }
}

/// What folding one event into the state does, or why the event cannot be
/// folded. The sequence number is the journal's business.
pub open spec fn after(s: EngineView, e: Event) -> Result<EngineView, EngineError> {
    match e {
        Event::ParticipantCreated { participant, starting_cash } => if has_key(
            account_keys(s.accounts),
            participant@,
        ) {
            Err(EngineError::DuplicateParticipant(participant))
        } else {
            Ok(
                EngineView {
                    accounts: upsert(
                        s.accounts,
                        account_keys(s.accounts),
                        participant@,
                        fresh_account(participant, starting_cash),
                    ),
                    ..s
                },
            )
        },
        Event::OrderSubmitted { order } => if has_order(s.orders, order.id@ as int) {
            Err(EngineError::DuplicateOrder(order.id))
        } else if order.qty@ == 0 {
            Err(EngineError::Domain(DomainError::NonPositiveQty(0)))
        } else {
            Ok(EngineView { orders: insert_order(s.orders, (submitted(order), 0)), ..s })
        },
        Event::OrderAcknowledged { id, broker_id } => advanced(
            s,
            id,
            OrderEvent::Acknowledged { broker_id },
        ),
        Event::OrderRejected { id, reason } => advanced(s, id, OrderEvent::Rejected { reason }),
        Event::OrderCancelled { id } => advanced(s, id, OrderEvent::Cancelled),
        Event::OrderReplaced { original, replacement } => if has_order(
            s.orders,
            replacement.id@ as int,
        ) {
            Err(EngineError::DuplicateOrder(replacement.id))
        } else if replacement.qty@ == 0 {
            Err(EngineError::Domain(DomainError::NonPositiveQty(0)))
        } else {
            match advanced(s, original, OrderEvent::Cancelled) {
                Err(e) => Err(e),
                Ok(t) => Ok(
                    EngineView {
                        orders: insert_order(
                            t.orders,
                            (Order { replaces: Some(original), ..submitted(replacement) }, 0),
                        ),
                        ..t
                    },
                ),
            }
        },
        Event::OrderFilled { id, exec_id, qty, px, fee } => match filled_after(s, id, qty, px, fee) {
            Err(e) => Err(e),
            Ok(t) => Ok(
                EngineView {
                    executions: s.executions.push(ExecRow { exec_id, order: id, qty, px, fee }),
                    ..t
                },
            ),
        },
        Event::MarkUpdated { symbol, px } => Ok(
            EngineView { marks: upsert(s.marks, mark_keys(s.marks), symbol@, (symbol, px)), ..s },
        ),
        Event::InstrumentUpserted { spec } => Ok(
            EngineView {
                instruments: upsert(
                    s.instruments,
                    instrument_keys(s.instruments),
                    spec.symbol@,
                    spec,
                ),
                ..s
            },
        ),
        Event::InstrumentRemoved { symbol } => Ok(
            EngineView {
                instruments: if has_key(instrument_keys(s.instruments), symbol@) {
                    s.instruments.remove(key_index(instrument_keys(s.instruments), symbol@))
                } else {
                    s.instruments
                },
                ..s
            },
        ),
        Event::DayClosed { day, entries } => closed_after(s, day, entries@),
    }
}


/// A successful fold leaves the state as `after` says; a refused one leaves
/// it exactly as it was.
pub open spec fn folded(before: EngineView, now: EngineView, e: Event, r: Result<(), EngineError>) -> bool {
    match after(before, e) {
        Ok(v) => r is Ok && now == v,
        Err(err) => r == Err::<(), EngineError>(err) && now == before,
    }
}

impl Books {
    fn apply_created(&mut self, participant: &ParticipantId, cash: Money) -> (r: Result<
        (),
        EngineError,
    >)
        ensures
            folded(
                old(self)@,
                final(self)@,
                Event::ParticipantCreated { participant: *participant, starting_cash: cash },
                r,
            ),
    {
        proof {
            use_type_invariant(&*self);
        }
        let ghost keys = account_keys(self@.accounts);
        if self.account_slot(participant).is_some() {
            return Err(EngineError::DuplicateParticipant(participant.clone()));
        }
        let i = self.account_insert_point(participant);
        let acct = Account {
            portfolio: Portfolio::open(participant.clone(), cash),
            day_turnover: Money::zero(),
            traded_today: false,
            last_close: None,
        };
        let ghost old_view = self@;
        proof {
            assert(acct@.book.positions =~= Seq::<Position>::empty());
            assert(acct@ == fresh_account(*participant, cash));
            assert(!has_key(keys, participant@));
            if i < keys.len() {
                lemma_lex_total(keys[i as int], participant@);
                if keys[i as int] == participant@ {
                    assert(has_key(keys, participant@));
                }
            }
            lemma_sorted_insert(keys, i as int, participant@);
            lemma_upsert_insert(old_view.accounts, keys, participant@, i as int, acct@);
        }
        let mut accounts: Vec<Account> = Vec::new();
        std::mem::swap(&mut accounts, &mut self.accounts);
        let ghost old_accounts = accounts@;
        accounts.insert(i, acct);
        proof {
            assert(accounts@.map_values(|a: Account| a@) =~= old_view.accounts.insert(i as int, acct@));
            assert(account_keys(old_view.accounts.insert(i as int, acct@)) =~= keys.insert(
                i as int,
                participant@,
            ));
        }
        self.accounts = accounts;
        Ok(())
    }

    fn apply_mark(&mut self, symbol: &Symbol, px: Px) -> (r: Result<(), EngineError>)
        ensures
            folded(old(self)@, final(self)@, Event::MarkUpdated { symbol: *symbol, px }, r),
    {
        proof {
            use_type_invariant(&*self);
        }
        let mut marks = Marks::new();
        std::mem::swap(&mut marks, &mut self.marks);
        marks.set(symbol.clone(), px);
        self.marks = marks;
        Ok(())
    }

    fn apply_listed(&mut self, spec: &InstrumentSpec) -> (r: Result<(), EngineError>)
        ensures
            folded(old(self)@, final(self)@, Event::InstrumentUpserted { spec: *spec }, r),
    {
        proof {
            use_type_invariant(&*self);
        }
        let ghost keys = instrument_keys(self@.instruments);
        let ghost old_view = self@;
        let k = spec.symbol.clone();
        match self.instrument_slot(&k) {
            Some(i) => {
                let mut instruments: Vec<InstrumentSpec> = Vec::new();
                std::mem::swap(&mut instruments, &mut self.instruments);
                proof {
                    lemma_upsert_update(old_view.instruments, keys, i as int, *spec);
                }
                instruments.set(i, spec.clone());
                proof {
                    assert(instrument_keys(instruments@) =~= keys);
                }
                self.instruments = instruments;
            },
            None => {
                let i = self.instrument_insert_point(&k);
                proof {
                    if i < keys.len() {
                        lemma_lex_total(keys[i as int], k@);
                        if keys[i as int] == k@ {
                            assert(has_key(keys, k@));
                        }
                    }
                    lemma_sorted_insert(keys, i as int, k@);
                    lemma_upsert_insert(old_view.instruments, keys, k@, i as int, *spec);
                }
                let mut instruments: Vec<InstrumentSpec> = Vec::new();
                std::mem::swap(&mut instruments, &mut self.instruments);
                instruments.insert(i, spec.clone());
                proof {
                    assert(instrument_keys(instruments@) =~= keys.insert(i as int, k@));
                }
                self.instruments = instruments;
            },
        }
        Ok(())
    }

    fn apply_delisted(&mut self, symbol: &Symbol) -> (r: Result<(), EngineError>)
        ensures
            folded(old(self)@, final(self)@, Event::InstrumentRemoved { symbol: *symbol }, r),
    {
        proof {
            use_type_invariant(&*self);
        }
        let ghost keys = instrument_keys(self@.instruments);
        let ghost old_view = self@;
        match self.instrument_slot(symbol) {
            Some(i) => {
                proof {
                    assert(has_key(keys, symbol@));
                    lemma_sorted_unique(keys, i as int, key_index(keys, symbol@));
                }
                let mut instruments: Vec<InstrumentSpec> = Vec::new();
                std::mem::swap(&mut instruments, &mut self.instruments);
                instruments.remove(i);
                proof {
                    assert(instrument_keys(instruments@) =~= keys.remove(i as int));
                    assert forall|a: int, b: int|
                        0 <= a < b < keys.remove(i as int).len() implies lex_lt(
                        #[trigger] keys.remove(i as int)[a],
                        #[trigger] keys.remove(i as int)[b],
                    ) by {
                        let ka = if a < i { a } else { a + 1 };
                        let kb = if b < i { b } else { b + 1 };
                        assert(keys.remove(i as int)[a] == keys[ka]);
                        assert(keys.remove(i as int)[b] == keys[kb]);
                    }
                }
                self.instruments = instruments;
            },
            None => {},
        }
        Ok(())
    }

    fn apply_submitted(&mut self, order: &NewOrder) -> (r: Result<(), EngineError>)
        ensures
            folded(old(self)@, final(self)@, Event::OrderSubmitted { order: *order }, r),
    {
        proof {
            use_type_invariant(&*self);
        }
        if self.order_slot(order.id).is_some() {
            return Err(EngineError::DuplicateOrder(order.id));
        }
        let o = match Order::submit(order.clone()) {
            Ok(o) => o,
            Err(e) => {
                return Err(EngineError::Domain(e));
            },
        };
        self.insert_order_record(OrderRecord { order: o, fees: Money::zero() });
        Ok(())
    }

    /// File a new order record in id order.
    fn insert_order_record(&mut self, rec: OrderRecord)
        requires
            order_for(old(self)@.orders, rec@.0.id@ as int) is None,
        ensures
            final(self)@ == (EngineView { orders: insert_order(old(self)@.orders, rec@), ..old(self)@ }),
    {
        proof {
            use_type_invariant(&*self);
        }
        let ghost old_view = self@;
        let ghost keys = order_keys(self@.orders);
        let ghost k = rec@.0.id@ as int;
        let i = self.order_insert_point(rec.order.id);
        proof {
            assert(!has_order(old_view.orders, k));
            lemma_slot_prefix_int(keys, k, i as int);
        }
        let mut orders: Vec<OrderRecord> = Vec::new();
        std::mem::swap(&mut orders, &mut self.orders);
        orders.insert(i, rec);
        proof {
            assert(orders@.map_values(|o: OrderRecord| o@) =~= old_view.orders.insert(i as int, rec@));
            let nk = order_keys(old_view.orders.insert(i as int, rec@));
            assert(nk =~= keys.insert(i as int, k));
            assert forall|a: int, b: int| 0 <= a < b < nk.len() implies #[trigger] nk[a] < #[trigger] nk[b] by {
                if a < i && b < i {
                } else if a < i && b == i {
                } else if a < i {
                    assert(nk[b] == keys[b - 1]);
                } else if a == i {
                    assert(nk[b] == keys[b - 1]);
                    if b - 1 == i {
                        assert(keys[i as int] >= k);
                        assert(keys[i as int] != k) by {
                            assert(old_view.orders[i as int].0.id@ == keys[i as int]);
                        }
                    }
                } else {
                    assert(nk[a] == keys[a - 1] && nk[b] == keys[b - 1]);
                }
            }
        }
        self.orders = orders;
    }

    /// Apply one lifecycle event to a known order.
    fn apply_transition(&mut self, id: ClientOrderId, ev: OrderEvent) -> (r: Result<(), EngineError>)
        ensures
            match advanced(old(self)@, id, ev) {
                Ok(v) => r is Ok && final(self)@ == v,
                Err(e) => r == Err::<(), EngineError>(e) && final(self)@ == old(self)@,
            },
    {
        proof {
            use_type_invariant(&*self);
        }
        let ghost old_view = self@;
        let i = match self.order_slot(id) {
            Some(i) => i,
            None => {
                return Err(EngineError::UnknownOrder(id));
            },
        };
        let next = match crate::lifecycle::apply(&self.orders[i].order.state, self.orders[i].order.qty, &ev) {
            Ok(s) => s,
            Err(e) => {
                return Err(EngineError::Transition(e));
            },
        };
        proof {
            assert(order_index(old_view.orders, id@ as int) == i) by {
                let j = order_index(old_view.orders, id@ as int);
                assert(has_order(old_view.orders, id@ as int));
                assert(old_view.orders[j].0.id@ == id@);
                assert(order_keys(old_view.orders)[j] == order_keys(old_view.orders)[i as int]);
                if j < i {
                    assert(order_keys(old_view.orders)[j] < order_keys(old_view.orders)[i as int]);
                } else if j > i {
                    assert(order_keys(old_view.orders)[i as int] < order_keys(old_view.orders)[j]);
                }
            }
        }
        let mut orders: Vec<OrderRecord> = Vec::new();
        std::mem::swap(&mut orders, &mut self.orders);
        let mut rec = orders.remove(i);
        rec.order.state = next;
        orders.insert(i, rec);
        proof {
            let f = |o: OrderRecord| o@;
            assert(orders@.map_values(f) =~= old_view.orders.update(
                i as int,
                (Order { state: next, ..old_view.orders[i as int].0 }, old_view.orders[i as int].1),
            ));
            assert(order_keys(orders@.map_values(f)) =~= order_keys(old_view.orders));
        }
        self.orders = orders;
        Ok(())
    }
}



// ---- what a command decides -------------------------------------------------------

/// The venue's verdict on an order's terms. An empty security master means
/// unrestricted: every well-formed symbol trades on the system's own grids.
pub open spec fn venue_verdict(ins: Seq<InstrumentSpec>, symbol: Seq<char>, px: int, qty: int) -> Option<
    RejectReason,
> {
    if ins.len() == 0 {
        None
    } else {
        match instrument_for(ins, symbol) {
            None => Some(RejectReason::UnknownSymbol),
            Some(spec) => if px % spec.tick@ != 0 {
                Some(RejectReason::PriceOffTick)
            } else if spec.lot@ == 0 || qty % spec.lot@ != 0 {
                Some(RejectReason::QtyOffLot)
            } else if spec.max_order_qty matches Some(cap) && qty > cap@ {
                Some(RejectReason::ExceedsSizeLimit)
            } else {
                None
            },
        }
    }
}

/// A working order of participant `k`, other than the one being replaced.
pub open spec fn reserves(o: Order, k: Seq<char>, excl: Option<ClientOrderId>) -> bool {
    &&& !is_terminal_state(o.state)
    &&& o.participant@ == k
    &&& excl != Some(o.id)
}

/// Cash committed to `k`'s working buy orders, notional plus fee, summed in id
/// order from `acc`.
pub open spec fn reserved_cash(
    orders: Seq<(Order, int)>,
    k: Seq<char>,
    excl: Option<ClientOrderId>,
    fees: spec_fn(int) -> Result<int, DomainError>,
    acc: int,
) -> Result<int, DomainError>
    decreases orders.len(),
{
    if orders.len() == 0 {
        Ok(acc)
    } else {
        let o = orders[0].0;
        if !reserves(o, k, excl) || o.side != Side::Buy {
            reserved_cash(orders.drop_first(), k, excl, fees, acc)
        } else {
            let rem = o.qty@ - filled_of(o.state);
            let n = o.limit_px@ * rem;
            if rem < 0 {
                Err(DomainError::NegativeQty(rem as i64))
            } else if !money_range(n) {
                Err(DomainError::Overflow("notional"))
            } else if !money_range(acc + n) {
                Err(DomainError::Overflow("cash addition"))
            } else {
                match fees(n) {
                    Err(e) => Err(e),
                    Ok(f) => if !money_range(acc + n + f) {
                        Err(DomainError::Overflow("cash addition"))
                    } else {
                        reserved_cash(orders.drop_first(), k, excl, fees, acc + n + f)
                    },
                }
            }
        }
    }
}

/// Cash not already committed to working buy orders.
pub open spec fn available_cash(
    s: EngineView,
    k: ParticipantId,
    excl: Option<ClientOrderId>,
    fees: spec_fn(int) -> Result<int, DomainError>,
) -> Result<int, EngineError> {
    match reserved_cash(s.orders, k@, excl, fees, 0) {
        Err(e) => Err(EngineError::Domain(e)),
        Ok(reserved) => match account_for(s.accounts, k@) {
            None => Err(EngineError::UnknownParticipant(k)),
            Some(a) => if money_range(a.book.cash - reserved) {
                Ok(a.book.cash - reserved)
            } else {
                Err(EngineError::Domain(DomainError::Overflow("cash subtraction")))
            },
        },
    }
}

/// Shares committed to `k`'s working sell orders in `sym`, summed in id order.
pub open spec fn reserved_qty(
    orders: Seq<(Order, int)>,
    k: Seq<char>,
    sym: Seq<char>,
    excl: Option<ClientOrderId>,
    acc: int,
) -> Result<int, DomainError>
    decreases orders.len(),
{
    if orders.len() == 0 {
        Ok(acc)
    } else {
        let o = orders[0].0;
        if !reserves(o, k, excl) || o.side != Side::Sell || o.symbol@ != sym {
            reserved_qty(orders.drop_first(), k, sym, excl, acc)
        } else {
            let rem = o.qty@ - filled_of(o.state);
            if rem < 0 {
                Err(DomainError::NegativeQty(rem as i64))
            } else if acc + rem > i64::MAX {
                Err(DomainError::Overflow("quantity addition"))
            } else {
                reserved_qty(orders.drop_first(), k, sym, excl, acc + rem)
            }
        }
    }
}

/// The quantity held of `sym`, zero when there is no position.
pub open spec fn held_of(book: PortfolioView, sym: Seq<char>) -> int {
    match pos_for(book.positions, sym) {
        Some(p) => p.held(),
        None => 0,
    }
}

/// Shares not already committed to working sell orders.
pub open spec fn available_qty(
    s: EngineView,
    k: ParticipantId,
    sym: Seq<char>,
    excl: Option<ClientOrderId>,
) -> Result<int, EngineError> {
    match account_for(s.accounts, k@) {
        None => Err(EngineError::UnknownParticipant(k)),
        Some(a) => match reserved_qty(s.orders, k@, sym, excl, 0) {
            Err(e) => Err(EngineError::Domain(e)),
            Ok(reserved) => {
                let held = held_of(a.book, sym);
                if held >= reserved {
                    Ok(held - reserved)
                } else {
                    Err(EngineError::Domain(DomainError::NegativeQty((held - reserved) as i64)))
                }
            },
        },
    }
}

/// The account-side pre-trade check: the order fits in what is not already
/// committed to other working orders.
pub open spec fn affordable(
    s: EngineView,
    fees: spec_fn(int) -> Result<int, DomainError>,
    o: Order,
    excl: Option<ClientOrderId>,
) -> Result<(), EngineError> {
    match o.side {
        Side::Buy => {
            let n = o.limit_px@ * o.qty@;
            if !money_range(n) {
                Err(EngineError::Domain(DomainError::Overflow("notional")))
            } else {
                match fees(n) {
                    Err(e) => Err(EngineError::Domain(e)),
                    Ok(f) => if !money_range(n + f) {
                        Err(EngineError::Domain(DomainError::Overflow("cash addition")))
                    } else {
                        match available_cash(s, o.participant, excl, fees) {
                            Err(e) => Err(e),
                            Ok(avail) => if n + f > avail {
                                Err(
                                    EngineError::InsufficientAvailableCash {
                                        need: Money::from_spec(n + f),
                                        available: Money::from_spec(avail),
                                    },
                                )
                            } else {
                                Ok(())
                            },
                        }
                    },
                }
            }
        },
        Side::Sell => match available_qty(s, o.participant, o.symbol@, excl) {
            Err(e) => Err(e),
            Ok(avail) => if o.qty@ > avail {
                Err(
                    EngineError::InsufficientAvailablePosition {
                        symbol: o.symbol,
                        want: o.qty@ as i64,
                        available: avail as i64,
                    },
                )
            } else {
                Ok(())
            },
        },
    }
}

/// The executions on `tape` that filled order `id`, in order.
pub open spec fn executions_for(tape: Seq<ExecRow>, id: ClientOrderId) -> Seq<ExecRow>
    decreases tape.len(),
{
    if tape.len() == 0 {
        Seq::empty()
    } else {
        let rest = executions_for(tape.drop_last(), id);
        if tape.last().order == id {
            rest.push(tape.last())
        } else {
            rest
        }
    }
}

/// The id the next execution is booked under: one more than the last on the
/// tape, one for the first; none once the last id is spent.
pub open spec fn next_exec_id(s: EngineView) -> Option<u64> {
    if s.executions.len() == 0 {
        Some(1)
    } else if s.executions.last().exec_id@ == u64::MAX {
        None
    } else {
        Some((s.executions.last().exec_id@ + 1) as u64)
    }
}

/// A fill is emitted only when the state could take it, under the next
/// execution id.
pub open spec fn fill_decision(s: EngineView, id: ClientOrderId, qty: Qty, px: Px, fee: Money) -> Result<
    Seq<Event>,
    EngineError,
> {
    match filled_after(s, id, qty, px, fee) {
        Err(e) => Err(e),
        Ok(_) => match next_exec_id(s) {
            None => Err(EngineError::Domain(DomainError::Overflow("execution id"))),
            Some(n) => Ok(
                seq![
                    Event::OrderFilled { id, exec_id: ExecutionId::from_spec(n), qty, px, fee },
                ],
            ),
        },
    }
}

/// What the broker's answer to a submission turns into. The port's contract
/// is ack-or-reject; anything else is a broker bug and fails here rather
/// than being folded into the log.
pub open spec fn answered(first: Event, id: ClientOrderId, resp: OrderEvent) -> Result<
    Seq<Event>,
    EngineError,
> {
    match resp {
        OrderEvent::Acknowledged { broker_id } => Ok(
            seq![first, Event::OrderAcknowledged { id, broker_id }],
        ),
        OrderEvent::Rejected { reason } => Ok(seq![first, Event::OrderRejected { id, reason }]),
        _ => Err(
            EngineError::Transition(
                TransitionError::Illegal { state: "NEW", event: event_name(resp) },
            ),
        ),
    }
}

/// How a command that may reach the broker turns out before it does.
pub ghost enum Plan {
    /// Refused, with this error.
    Refuse(EngineError),
    /// Decided without the broker.
    Done(Seq<Event>),
    /// `first` is recorded, then the broker's answer on `order`.
    AskBroker { order: Order, first: Event },
}

/// What the broker was asked and answered: where a plan asks it, the events
/// are the broker's answer on the planned order, an answer it may give,
/// leaving it as `b1`; where the plan does not, the broker is untouched.
pub open spec fn asked_broker<B: Broker>(
    p: Plan,
    id: ClientOrderId,
    r: Result<Vec<Event>, EngineError>,
    b0: B,
    b1: B,
) -> bool {
    match p {
        Plan::AskBroker { order, first } => exists|resp: OrderEvent|
            #[trigger] b0.answers(order, resp, b1) && events_are(r, answered(first, id, resp)),
        _ => b1 == b0,
    }
}

/// The broker's part in deciding `cmd`: a submission or replacement asks it
/// as planned, an automatic execution takes an execution it may produce on
/// the order, and nothing else touches it.
pub open spec fn brokered<B: Broker>(
    b0: B,
    s: EngineView,
    fees: spec_fn(int) -> Result<int, DomainError>,
    cmd: Command,
    at: Timestamp,
    r: Result<Vec<Event>, EngineError>,
    b1: B,
) -> bool {
    match cmd {
        Command::SubmitOrder { id, participant, symbol, side, qty, limit_px } => asked_broker(
            submit_plan(s, fees, NewOrder { id, participant, symbol, side, qty, limit_px, at }),
            id,
            r,
            b0,
            b1,
        ),
        Command::ReplaceOrder { id, replacement_id, qty, limit_px } => asked_broker(
            replace_plan(s, fees, id, replacement_id, qty, limit_px, at),
            replacement_id,
            r,
            b0,
            b1,
        ),
        Command::AutoExecute { id } => match order_for(s.orders, id@ as int) {
            None => b1 == b0,
            Some(rec) => exists|res: Result<Option<Execution>, BrokerError>|
                #[trigger] b0.executes(rec.0, res, b1) && events_are(r, auto_fill(s, id, res)),
        },
        _ => b1 == b0,
    }
}

pub open spec fn submit_plan(
    s: EngineView,
    fees: spec_fn(int) -> Result<int, DomainError>,
    req: NewOrder,
) -> Plan {
    if has_order(s.orders, req.id@ as int) {
        Plan::Refuse(EngineError::DuplicateOrder(req.id))
    } else if account_for(s.accounts, req.participant@) is None {
        Plan::Refuse(EngineError::UnknownParticipant(req.participant))
    } else if req.qty@ == 0 {
        Plan::Refuse(EngineError::Domain(DomainError::NonPositiveQty(0)))
    } else {
        let first = Event::OrderSubmitted { order: req };
        match venue_verdict(s.instruments, req.symbol@, req.limit_px@, req.qty@) {
            Some(reason) => Plan::Done(seq![first, Event::OrderRejected { id: req.id, reason }]),
            None => match affordable(s, fees, submitted(req), None) {
                Err(e) => Plan::Refuse(e),
                Ok(()) => Plan::AskBroker { order: submitted(req), first },
            },
        }
    }
}

pub open spec fn replace_plan(
    s: EngineView,
    fees: spec_fn(int) -> Result<int, DomainError>,
    id: ClientOrderId,
    replacement_id: ClientOrderId,
    qty: Qty,
    px: Px,
    at: Timestamp,
) -> Plan {
    if has_order(s.orders, replacement_id@ as int) {
        Plan::Refuse(EngineError::DuplicateOrder(replacement_id))
    } else {
        match order_for(s.orders, id@ as int) {
            None => Plan::Refuse(EngineError::UnknownOrder(id)),
            Some(rec) => {
                let o = rec.0;
                match transition(o.state, o.qty@, OrderEvent::Cancelled) {
                    Err(e) => Plan::Refuse(EngineError::Transition(e)),
                    Ok(_) => if qty@ == 0 {
                        Plan::Refuse(
                            EngineError::Transition(
                                TransitionError::Domain(DomainError::NonPositiveQty(0)),
                            ),
                        )
                    } else {
                        let req = NewOrder {
                            id: replacement_id,
                            participant: o.participant,
                            symbol: o.symbol,
                            side: o.side,
                            qty,
                            limit_px: px,
                            at,
                        };
                        let first = Event::OrderReplaced { original: id, replacement: req };
                        let fresh = Order { replaces: Some(id), ..submitted(req) };
                        match venue_verdict(s.instruments, o.symbol@, px@, qty@) {
                            Some(reason) => Plan::Done(
                                seq![first, Event::OrderRejected { id: replacement_id, reason }],
                            ),
                            None => match affordable(s, fees, fresh, Some(id)) {
                                Err(e) => Plan::Refuse(e),
                                Ok(()) => Plan::AskBroker { order: fresh, first },
                            },
                        }
                    },
                }
            },
        }
    }
}

/// A result as the events it carries.
pub open spec fn events_are(r: Result<Vec<Event>, EngineError>, x: Result<Seq<Event>, EngineError>) -> bool {
    match x {
        Ok(evs) => r matches Ok(v) && v@ == evs,
        Err(e) => r == Err::<Vec<Event>, EngineError>(e),
    }
}

/// A plan carried out: refused, done, or finished by some broker answer.
pub open spec fn plan_met(p: Plan, id: ClientOrderId, r: Result<Vec<Event>, EngineError>) -> bool {
    match p {
        Plan::Refuse(e) => r == Err::<Vec<Event>, EngineError>(e),
        Plan::Done(evs) => r matches Ok(v) && v@ == evs,
        Plan::AskBroker { order, first } => exists|resp: OrderEvent|
            #[trigger] answered(first, id, resp) == answered(first, id, resp) && events_are(
                r,
                answered(first, id, resp),
            ),
    }
}

/// An automatic execution, given what the broker produced.
pub open spec fn auto_fill(
    s: EngineView,
    id: ClientOrderId,
    res: Result<Option<Execution>, BrokerError>,
) -> Result<Seq<Event>, EngineError> {
    match res {
        Err(e) => Err(EngineError::Broker(e)),
        Ok(None) => Err(EngineError::NothingToExecute(id)),
        Ok(Some(x)) => fill_decision(s, id, x.qty, x.px, x.fee),
    }
}

pub open spec fn count_working_on(orders: Seq<(Order, int)>, sym: Seq<char>) -> int
    decreases orders.len(),
{
    if orders.len() == 0 {
        0
    } else {
        count_working_on(orders.drop_last(), sym) + if orders.last().0.symbol@ == sym
            && !is_terminal_state(orders.last().0.state) {
            1int
        } else {
            0int
        }
    }
}

pub open spec fn count_holders(accounts: Seq<AccountView>, sym: Seq<char>) -> int
    decreases accounts.len(),
{
    if accounts.len() == 0 {
        0
    } else {
        count_holders(accounts.drop_last(), sym) + if held_of(accounts.last().book, sym) != 0 {
            1int
        } else {
            0int
        }
    }
}

/// The facts one participant closes the day on.
pub open spec fn entry_of(a: AccountView, marks: Seq<(Symbol, Px)>) -> Result<DayInput, EngineError> {
    match total_value_of(a.book, marks) {
        Err(e) => Err(EngineError::Portfolio(e)),
        Ok(v) => Ok(
            DayInput {
                participant: a.owner,
                closing_value: Money::from_spec(v),
                prior_closing_value: Money::from_spec(
                    match a.last_close {
                        Some(c) => c,
                        None => a.book.starting_cash,
                    },
                ),
                turnover: Money::from_spec(a.turnover),
                active: a.traded || held_positions(a.book.positions).len() > 0,
            },
        ),
    }
}

/// Every participant's closing facts, in id order; the first valuation that
/// fails refuses them all.
pub open spec fn entries_of(accounts: Seq<AccountView>, marks: Seq<(Symbol, Px)>) -> Result<
    Seq<DayInput>,
    EngineError,
>
    decreases accounts.len(),
{
    if accounts.len() == 0 {
        Ok(Seq::empty())
    } else {
        match entry_of(accounts[0], marks) {
            Err(e) => Err(e),
            Ok(d) => match entries_of(accounts.drop_first(), marks) {
                Err(e) => Err(e),
                Ok(rest) => Ok(seq![d] + rest),
            },
        }
    }
}

pub open spec fn is_closed(c: Seq<(TradingDay, Seq<DayInput>)>, day: TradingDay) -> bool {
    exists|i: int| 0 <= i < c.len() && (#[trigger] c[i]).0 == day
}

/// Closing a day: nothing if it is already closed, refused if it is before
/// the latest close or nobody is competing, else everyone's closing facts.
pub open spec fn close_plan(s: EngineView, day: TradingDay) -> Result<Option<Seq<DayInput>>, EngineError> {
    let n = s.closed.len();
    if is_closed(s.closed, day) {
        Ok(None)
    } else if n > 0 && day_before(day@, s.closed[n - 1].0@) {
        Err(EngineError::DayOutOfOrder { day, latest: s.closed[n - 1].0 })
    } else if s.accounts.len() == 0 {
        Err(EngineError::Scoring(ScoringError::NoParticipants { day }))
    } else {
        match entries_of(s.accounts, s.marks) {
            Err(e) => Err(e),
            Ok(es) => Ok(Some(es)),
        }
    }
}

/// What `decide` returns for a command, given the state, the broker's fee
/// rule, and the broker's answers where it is asked.
pub open spec fn decided(
    s: EngineView,
    fees: spec_fn(int) -> Result<int, DomainError>,
    cmd: Command,
    at: Timestamp,
    r: Result<Vec<Event>, EngineError>,
) -> bool {
    match cmd {
        Command::CreateParticipant { participant, starting_cash } => if has_key(
            account_keys(s.accounts),
            participant@,
        ) {
            r == Err::<Vec<Event>, EngineError>(EngineError::DuplicateParticipant(participant))
        } else {
            r matches Ok(v) && v@ == seq![Event::ParticipantCreated { participant, starting_cash }]
        },
        Command::SubmitOrder { id, participant, symbol, side, qty, limit_px } => plan_met(
            submit_plan(
                s,
                fees,
                NewOrder { id, participant, symbol, side, qty, limit_px, at },
            ),
            id,
            r,
        ),
        Command::CancelOrder { id } => match order_for(s.orders, id@ as int) {
            None => r == Err::<Vec<Event>, EngineError>(EngineError::UnknownOrder(id)),
            Some(rec) => match transition(rec.0.state, rec.0.qty@, OrderEvent::Cancelled) {
                Err(e) => r == Err::<Vec<Event>, EngineError>(EngineError::Transition(e)),
                Ok(_) => r matches Ok(v) && v@ == seq![Event::OrderCancelled { id }],
            },
        },
        Command::ReplaceOrder { id, replacement_id, qty, limit_px } => plan_met(
            replace_plan(s, fees, id, replacement_id, qty, limit_px, at),
            replacement_id,
            r,
        ),
        Command::Execute { id, qty, px } => {
            let n = px@ * qty@;
            if !money_range(n) {
                r == Err::<Vec<Event>, EngineError>(
                    EngineError::Domain(DomainError::Overflow("notional")),
                )
            } else {
                match fees(n) {
                    Err(e) => r == Err::<Vec<Event>, EngineError>(EngineError::Domain(e)),
                    Ok(f) => events_are(r, fill_decision(s, id, qty, px, Money::from_spec(f))),
                }
            }
        },
        Command::AutoExecute { id } => match order_for(s.orders, id@ as int) {
            None => r == Err::<Vec<Event>, EngineError>(EngineError::UnknownOrder(id)),
            Some(_) => exists|res: Result<Option<Execution>, BrokerError>|
                #[trigger] auto_fill(s, id, res) == auto_fill(s, id, res) && events_are(
                    r,
                    auto_fill(s, id, res),
                ),
        },
        Command::UpdateMark { symbol, px } => r matches Ok(v) && v@ == seq![
            Event::MarkUpdated { symbol, px },
        ],
        Command::CreateInstrument { spec } => if has_key(
            instrument_keys(s.instruments),
            spec.symbol@,
        ) {
            r == Err::<Vec<Event>, EngineError>(EngineError::DuplicateInstrument(spec.symbol))
        } else {
            r matches Ok(v) && v@ == seq![Event::InstrumentUpserted { spec }]
        },
        Command::UpdateInstrument { spec } => if !has_key(
            instrument_keys(s.instruments),
            spec.symbol@,
        ) {
            r == Err::<Vec<Event>, EngineError>(EngineError::UnknownInstrument(spec.symbol))
        } else {
            r matches Ok(v) && v@ == seq![Event::InstrumentUpserted { spec }]
        },
        Command::RemoveInstrument { symbol } => if !has_key(
            instrument_keys(s.instruments),
            symbol@,
        ) {
            r == Err::<Vec<Event>, EngineError>(EngineError::UnknownInstrument(symbol))
        } else {
            let w = count_working_on(s.orders, symbol@);
            let h = count_holders(s.accounts, symbol@);
            if w > 0 || h > 0 {
                r == Err::<Vec<Event>, EngineError>(
                    EngineError::InstrumentInUse {
                        symbol,
                        working_orders: w as u64,
                        positions: h as u64,
                    },
                )
            } else {
                r matches Ok(v) && v@ == seq![Event::InstrumentRemoved { symbol }]
            }
        },
        Command::CloseDay { day } => match close_plan(s, day) {
            Err(e) => r == Err::<Vec<Event>, EngineError>(e),
            Ok(None) => r matches Ok(v) && v@.len() == 0,
            Ok(Some(entries)) => r matches Ok(v) && v@.len() == 1 && (v@[0] matches Event::DayClosed {
                day: d,
                entries: es,
            } && d == day && es@ == entries),
        },
    }
}


pub open spec fn fees_of<B: Broker>(b: B) -> spec_fn(int) -> Result<int, DomainError> {
    |n: int| b.fee_rule(n)
}

/// `Some(x)` names order `o` exactly when `x` is its id.
proof fn lemma_excluding(excl: Option<ClientOrderId>, id: ClientOrderId)
    ensures
        (match excl {
            Some(x) => x@ != id@,
            None => true,
        }) == (excl != Some(id)),
{
    if let Some(x) = excl {
        ClientOrderId::lemma_view_injective(x, id);
    }
}

impl Books {
    /// The venue's verdict on an order's terms.
    fn venue_check(&self, symbol: &Symbol, px: Px, qty: Qty) -> (r: Option<RejectReason>)
        ensures
            r == venue_verdict(self@.instruments, symbol@, px@, qty@),
    {
        if self.instruments.len() == 0 {
            return None;
        }
        match self.instrument_slot(symbol) {
            None => Some(RejectReason::UnknownSymbol),
            Some(i) => {
                let spec = &self.instruments[i];
                if !spec.px_on_tick(px) {
                    return Some(RejectReason::PriceOffTick);
                }
                if spec.lot.is_zero() {
                    return Some(RejectReason::QtyOffLot);
                }
                let _ = spec.lot.get();
                if !spec.qty_on_lot(qty) {
                    return Some(RejectReason::QtyOffLot);
                }
                match spec.max_order_qty {
                    Some(cap) => {
                        if qty.get() > cap.get() {
                            return Some(RejectReason::ExceedsSizeLimit);
                        }
                    },
                    None => {},
                }
                None
            },
        }
    }

    /// Whether order `o` counts against `id`'s free cash or shares.
    fn reserves_for(o: &Order, id: &ParticipantId, excluding: Option<ClientOrderId>) -> (b: bool)
        ensures
            b == reserves(*o, id@, excluding),
    {
        proof {
            lemma_excluding(excluding, o.id);
        }
        let other = match excluding {
            Some(x) => x.get() != o.id.get(),
            None => true,
        };
        !o.state.is_terminal() && o.participant.same(id) && other
    }

    /// Cash not already committed to working buy orders, derived from the
    /// orders every time rather than kept as a second copy of the same fact.
    fn available_cash<B: Broker>(
        &self,
        broker: &B,
        id: &ParticipantId,
        excluding: Option<ClientOrderId>,
    ) -> (r: Result<Money, EngineError>)
        ensures
            match available_cash(self@, *id, excluding, fees_of(*broker)) {
                Ok(v) => r matches Ok(m) && m@ == v,
                Err(e) => r == Err::<Money, EngineError>(e),
            },
    {
        let ghost fees = fees_of(*broker);
        let ghost all = self@.orders;
        let mut reserved = Money::zero();
        let mut i: usize = 0;
        assert(all.skip(0) =~= all);
        while i < self.orders.len()
            invariant
                i <= self.orders@.len(),
                all == self@.orders,
                all.len() == self.orders@.len(),
                fees == fees_of(*broker),
                reserved_cash(all, id@, excluding, fees, 0) == reserved_cash(
                    all.skip(i as int),
                    id@,
                    excluding,
                    fees,
                    reserved@,
                ),
            decreases self.orders@.len() - i,
        {
            let o = &self.orders[i].order;
            proof {
                assert(all.skip(i as int).drop_first() =~= all.skip(i + 1));
                assert(all.skip(i as int)[0] == all[i as int]);
                assert(all[i as int].0 == *o);
            }
            if Self::reserves_for(o, id, excluding) && o.side == Side::Buy {
                let rem = match o.remaining() {
                    Ok(q) => q,
                    Err(e) => {
                        return Err(EngineError::Domain(e));
                    },
                };
                let n = match o.limit_px.notional(rem) {
                    Ok(n) => n,
                    Err(e) => {
                        return Err(EngineError::Domain(e));
                    },
                };
                let acc = match reserved.checked_add(n) {
                    Ok(a) => a,
                    Err(e) => {
                        return Err(EngineError::Domain(e));
                    },
                };
                let f = match broker.fee_on(n) {
                    Ok(f) => f,
                    Err(e) => {
                        return Err(EngineError::Domain(e));
                    },
                };
                reserved = match acc.checked_add(f) {
                    Ok(a) => a,
                    Err(e) => {
                        return Err(EngineError::Domain(e));
                    },
                };
            }
            i = i + 1;
        }
        proof {
            assert(all.skip(i as int).len() == 0);
        }
        let j = match self.account_slot(id) {
            Some(j) => j,
            None => {
                return Err(EngineError::UnknownParticipant(id.clone()));
            },
        };
        match self.accounts[j].portfolio.cash().checked_sub(reserved) {
            Ok(m) => Ok(m),
            Err(e) => Err(EngineError::Domain(e)),
        }
    }

    /// Shares not already committed to working sell orders.
    fn available_qty(&self, id: &ParticipantId, symbol: &Symbol, excluding: Option<ClientOrderId>) -> (r:
        Result<Qty, EngineError>)
        ensures
            match available_qty(self@, *id, symbol@, excluding) {
                Ok(v) => r matches Ok(q) && q@ == v,
                Err(e) => r == Err::<Qty, EngineError>(e),
            },
    {
        let ghost all = self@.orders;
        let j = match self.account_slot(id) {
            Some(j) => j,
            None => {
                return Err(EngineError::UnknownParticipant(id.clone()));
            },
        };
        assert(self@.accounts[j as int] == self.accounts@[j as int]@);
        let held = match self.accounts[j].portfolio.position(symbol) {
            Some(p) => p.qty(),
            None => Qty::zero(),
        };
        assert(held@ == held_of(self@.accounts[j as int].book, symbol@));
        let mut reserved = Qty::zero();
        let mut i: usize = 0;
        assert(all.skip(0) =~= all);
        while i < self.orders.len()
            invariant
                i <= self.orders@.len(),
                all == self@.orders,
                all.len() == self.orders@.len(),
                reserved@ >= 0,
                account_for(self@.accounts, id@) is Some,
                reserved_qty(all, id@, symbol@, excluding, 0) == reserved_qty(
                    all.skip(i as int),
                    id@,
                    symbol@,
                    excluding,
                    reserved@,
                ),
            decreases self.orders@.len() - i,
        {
            let o = &self.orders[i].order;
            proof {
                assert(all.skip(i as int).drop_first() =~= all.skip(i + 1));
                assert(all.skip(i as int)[0] == all[i as int]);
                assert(all[i as int].0 == *o);
            }
            if Self::reserves_for(o, id, excluding) && o.side == Side::Sell && o.symbol.same(symbol) {
                let rem = match o.remaining() {
                    Ok(q) => q,
                    Err(e) => {
                        return Err(EngineError::Domain(e));
                    },
                };
                let _ = rem.get();
                reserved = match reserved.checked_add(rem) {
                    Ok(q) => q,
                    Err(e) => {
                        return Err(EngineError::Domain(e));
                    },
                };
            }
            i = i + 1;
        }
        proof {
            assert(all.skip(i as int).len() == 0);
        }
        let _ = held.get();
        let _ = reserved.get();
        match held.checked_sub(reserved) {
            Ok(q) => Ok(q),
            Err(e) => Err(EngineError::Domain(e)),
        }
    }

    /// The account-side pre-trade check, here and not in the broker: a broker
    /// does not know what a participant holds.
    fn check_affordable<B: Broker>(
        &self,
        broker: &B,
        order: &Order,
        excluding: Option<ClientOrderId>,
    ) -> (r: Result<(), EngineError>)
        ensures
            r == affordable(self@, fees_of(*broker), *order, excluding),
    {
        match order.side {
            Side::Buy => {
                let notional = match order.limit_px.notional(order.qty) {
                    Ok(n) => n,
                    Err(e) => {
                        return Err(EngineError::Domain(e));
                    },
                };
                let fee = match broker.fee_on(notional) {
                    Ok(f) => f,
                    Err(e) => {
                        return Err(EngineError::Domain(e));
                    },
                };
                let need = match notional.checked_add(fee) {
                    Ok(n) => n,
                    Err(e) => {
                        return Err(EngineError::Domain(e));
                    },
                };
                let available = self.available_cash(broker, &order.participant, excluding)?;
                if need.raw() > available.raw() {
                    proof {
                        Money::lemma_view_injective(available, Money::from_spec(available@));
                    }
                    return Err(EngineError::InsufficientAvailableCash { need, available });
                }
                Ok(())
            },
            Side::Sell => {
                let available = self.available_qty(&order.participant, &order.symbol, excluding)?;
                if order.qty.get() > available.get() {
                    return Err(
                        EngineError::InsufficientAvailablePosition {
                            symbol: order.symbol.clone(),
                            want: order.qty.get(),
                            available: available.get(),
                        },
                    );
                }
                Ok(())
            },
        }
    }
}


impl Books {
    /// Check a fill against both the order's lifecycle and the book, and only
    /// then emit it. The book is checked against a clone: the difference
    /// between "the command was refused" and "the order advanced but the cash
    /// did not".
    fn validated_fill(&self, id: ClientOrderId, qty: Qty, px: Px, fee: Money) -> (r: Result<
        Vec<Event>,
        EngineError,
    >)
        ensures
            events_are(r, fill_decision(self@, id, qty, px, fee)),
    {
        proof {
            use_type_invariant(self);
        }
        let ghost s = self@;
        let i = match self.order_slot(id) {
            Some(i) => i,
            None => {
                return Err(EngineError::UnknownOrder(id));
            },
        };
        match crate::lifecycle::apply(
            &self.orders[i].order.state,
            self.orders[i].order.qty,
            &OrderEvent::Fill { qty, px },
        ) {
            Ok(_) => {},
            Err(e) => {
                return Err(EngineError::Transition(e));
            },
        }
        let j = match self.account_slot(&self.orders[i].order.participant) {
            Some(j) => j,
            None => {
                return Err(EngineError::UnknownParticipant(self.orders[i].order.participant.clone()));
            },
        };
        let notional = match px.notional(qty) {
            Ok(n) => n,
            Err(e) => {
                return Err(EngineError::Domain(e));
            },
        };
        match self.accounts[j].day_turnover.checked_add(notional) {
            Ok(_) => {},
            Err(e) => {
                return Err(EngineError::Domain(e));
            },
        }
        match self.orders[i].fees.checked_add(fee) {
            Ok(_) => {},
            Err(e) => {
                return Err(EngineError::Domain(e));
            },
        }
        let fill = Fill {
            symbol: self.orders[i].order.symbol.clone(),
            side: self.orders[i].order.side,
            qty,
            px,
            fee,
        };
        proof {
            assert(fill == fill_of(s.orders[i as int].0, qty, px, fee));
            assert(s.accounts[j as int] == self.accounts@[j as int]@);
        }
        let mut probe = self.accounts[j].portfolio.clone();
        match probe.apply(&fill) {
            Ok(()) => {},
            Err(e) => {
                return Err(EngineError::Portfolio(e));
            },
        }
        let n = self.executions.len();
        let exec_id = if n == 0 {
            ExecutionId::new(1)
        } else {
            let last = self.executions[n - 1].exec_id.get();
            if last == u64::MAX {
                return Err(EngineError::Domain(DomainError::Overflow("execution id")));
            }
            ExecutionId::new(last + 1)
        };
        let events = vec![Event::OrderFilled { id, exec_id, qty, px, fee }];
        assert(events@ =~= seq![Event::OrderFilled { id, exec_id, qty, px, fee }]);
        Ok(events)
    }

    /// The facts each participant closes the day on, in id order. Fails
    /// closed if any held symbol lacks a mark: a wrong closing value corrupts
    /// a leaderboard that is then immutable.
    fn day_entries(&self) -> (r: Result<Vec<DayInput>, EngineError>)
        ensures
            match entries_of(self@.accounts, self@.marks) {
                Ok(es) => r matches Ok(v) && v@ == es,
                Err(e) => r == Err::<Vec<DayInput>, EngineError>(e),
            },
    {
        let ghost all = self@.accounts;
        let mut out: Vec<DayInput> = Vec::new();
        let mut i: usize = 0;
        assert(all.skip(0) =~= all);
        while i < self.accounts.len()
            invariant
                i <= self.accounts@.len(),
                all == self@.accounts,
                all.len() == self.accounts@.len(),
                entries_of(all, self@.marks) == match entries_of(all.skip(i as int), self@.marks) {
                    Ok(rest) => Ok(out@ + rest),
                    Err(e) => Err(e),
                },
            decreases self.accounts@.len() - i,
        {
            let a = &self.accounts[i];
            proof {
                assert(all.skip(i as int).drop_first() =~= all.skip(i + 1));
                assert(all.skip(i as int)[0] == all[i as int]);
                assert(all[i as int] == a@);
            }
            let closing_value = match a.portfolio.total_value(&self.marks) {
                Ok(v) => v,
                Err(e) => {
                    return Err(EngineError::Portfolio(e));
                },
            };
            let prior = match a.last_close {
                Some(c) => c,
                None => a.portfolio.starting_cash(),
            };
            let held = a.portfolio.positions();
            let entry = DayInput {
                participant: a.portfolio.participant().clone(),
                closing_value,
                prior_closing_value: prior,
                turnover: a.day_turnover,
                active: a.traded_today || held.len() > 0,
            };
            proof {
                Money::lemma_view_injective(closing_value, Money::from_spec(closing_value@));
                Money::lemma_view_injective(prior, Money::from_spec(prior@));
                Money::lemma_view_injective(a.day_turnover, Money::from_spec(a.day_turnover@));
                assert(entry_of(all[i as int], self@.marks) == Ok::<DayInput, EngineError>(entry));
                let rest = entries_of(all.skip(i + 1), self@.marks);
                if rest is Ok {
                    assert(out@.push(entry) + rest->Ok_0 =~= out@ + (seq![entry] + rest->Ok_0));
                }
            }
            out.push(entry);
            i = i + 1;
        }
        proof {
            assert(all.skip(i as int).len() == 0);
            assert(out@ + Seq::<DayInput>::empty() =~= out@);
        }
        Ok(out)
    }

    /// Working orders on `symbol`, and participants holding it.
    fn uses_of(&self, symbol: &Symbol) -> (r: (u64, u64))
        ensures
            r.0 == count_working_on(self@.orders, symbol@),
            r.1 == count_holders(self@.accounts, symbol@),
    {
        let ghost os = self@.orders;
        let ghost acs = self@.accounts;
        let mut w: u64 = 0;
        let mut i: usize = 0;
        while i < self.orders.len()
            invariant
                i <= self.orders@.len(),
                os == self@.orders,
                os.len() == self.orders@.len(),
                w == count_working_on(os.take(i as int), symbol@),
                w <= i,
            decreases self.orders@.len() - i,
        {
            proof {
                assert(os.take(i + 1).drop_last() =~= os.take(i as int));
                assert(os[i as int] == self.orders@[i as int]@);
            }
            let o = &self.orders[i].order;
            if o.symbol.same(symbol) && !o.state.is_terminal() {
                w = w + 1;
            }
            i = i + 1;
        }
        assert(os.take(i as int) =~= os);
        let mut h: u64 = 0;
        let mut j: usize = 0;
        while j < self.accounts.len()
            invariant
                j <= self.accounts@.len(),
                acs == self@.accounts,
                acs.len() == self.accounts@.len(),
                h == count_holders(acs.take(j as int), symbol@),
                h <= j,
            decreases self.accounts@.len() - j,
        {
            proof {
                assert(acs.take(j + 1).drop_last() =~= acs.take(j as int));
                assert(acs[j as int] == self.accounts@[j as int]@);
            }
            let held = match self.accounts[j].portfolio.position(symbol) {
                Some(p) => !p.is_flat(),
                None => false,
            };
            if held {
                h = h + 1;
            }
            j = j + 1;
        }
        assert(acs.take(j as int) =~= acs);
        (w, h)
    }
}


/// Turn the broker's answer to a submission into events.
fn broker_response(first: Event, id: ClientOrderId, resp: OrderEvent) -> (r: Result<
    Vec<Event>,
    EngineError,
>)
    ensures
        events_are(r, answered(first, id, resp)),
{
    match resp {
        OrderEvent::Acknowledged { broker_id } => {
            let ghost f = first;
            let v = vec![first, Event::OrderAcknowledged { id, broker_id }];
            assert(v@ =~= seq![f, Event::OrderAcknowledged { id, broker_id }]);
            Ok(v)
        },
        OrderEvent::Rejected { reason } => {
            let ghost f = first;
            let v = vec![first, Event::OrderRejected { id, reason }];
            assert(v@ =~= seq![f, Event::OrderRejected { id, reason }]);
            Ok(v)
        },
        other => Err(
            EngineError::Transition(TransitionError::Illegal { state: "NEW", event: other.name() }),
        ),
    }
}

impl<B: Broker> Engine<B> {
    fn decide_submit(&mut self, req: NewOrder) -> (r: Result<Vec<Event>, EngineError>)
        ensures
            fees_of(final(self).broker_value()) == fees_of(old(self).broker_value()),
            plan_met(submit_plan(old(self)@, fees_of(old(self).broker_value()), req), req.id, r),
            asked_broker(
                submit_plan(old(self)@, fees_of(old(self).broker_value()), req),
                req.id,
                r,
                old(self).broker_value(),
                final(self).broker_value(),
            ),
            final(self)@ == old(self)@,
    {
        let ghost s = self@;
        let ghost fees = fees_of(self.broker_value());
        proof {
            use_type_invariant(&self.books);
        }
        if self.books.order_slot(req.id).is_some() {
            return Err(EngineError::DuplicateOrder(req.id));
        }
        if self.books.account_slot(&req.participant).is_none() {
            return Err(EngineError::UnknownParticipant(req.participant.clone()));
        }
        let id = req.id;
        let order = match Order::submit(req.clone()) {
            Ok(o) => o,
            Err(e) => {
                return Err(EngineError::Domain(e));
            },
        };
        let ghost first = Event::OrderSubmitted { order: req };
        match self.books.venue_check(&order.symbol, order.limit_px, order.qty) {
            Some(reason) => {
                let v = vec![Event::OrderSubmitted { order: req }, Event::OrderRejected { id, reason }];
                assert(v@ =~= seq![first, Event::OrderRejected { id, reason }]);
                return Ok(v);
            },
            None => {},
        }
        match self.books.check_affordable(&self.broker, &order, None) {
            Ok(()) => {},
            Err(e) => {
                return Err(e);
            },
        }
        let response = self.broker.on_submit(&order);
        let r = broker_response(Event::OrderSubmitted { order: req }, id, response);
        assert(answered(first, id, response) == answered(first, id, response));
        r
    }

    fn decide_replace(
        &mut self,
        at: Timestamp,
        id: ClientOrderId,
        replacement_id: ClientOrderId,
        qty: Qty,
        limit_px: Px,
    ) -> (r: Result<Vec<Event>, EngineError>)
        ensures
            fees_of(final(self).broker_value()) == fees_of(old(self).broker_value()),
            plan_met(
                replace_plan(
                    old(self)@,
                    fees_of(old(self).broker_value()),
                    id,
                    replacement_id,
                    qty,
                    limit_px,
                    at,
                ),
                replacement_id,
                r,
            ),
            asked_broker(
                replace_plan(
                    old(self)@,
                    fees_of(old(self).broker_value()),
                    id,
                    replacement_id,
                    qty,
                    limit_px,
                    at,
                ),
                replacement_id,
                r,
                old(self).broker_value(),
                final(self).broker_value(),
            ),
            final(self)@ == old(self)@,
    {
        proof {
            use_type_invariant(&self.books);
        }
        if self.books.order_slot(replacement_id).is_some() {
            return Err(EngineError::DuplicateOrder(replacement_id));
        }
        let i = match self.books.order_slot(id) {
            Some(i) => i,
            None => {
                return Err(EngineError::UnknownOrder(id));
            },
        };
        assert(self@.orders[i as int] == self.books.orders@[i as int]@);
        let outcome = match self.books.orders[i].order.replace(replacement_id, qty, limit_px, at) {
            Ok(o) => o,
            Err(e) => {
                return Err(EngineError::Transition(e));
            },
        };
        let fresh = outcome.replacement;
        let req = fresh.terms();
        let ghost first = Event::OrderReplaced { original: id, replacement: req };
        match self.books.venue_check(&fresh.symbol, fresh.limit_px, fresh.qty) {
            Some(reason) => {
                let v = vec![
                    Event::OrderReplaced { original: id, replacement: req },
                    Event::OrderRejected { id: replacement_id, reason },
                ];
                assert(v@ =~= seq![first, Event::OrderRejected { id: replacement_id, reason }]);
                return Ok(v);
            },
            None => {},
        }
        match self.books.check_affordable(&self.broker, &fresh, Some(id)) {
            Ok(()) => {},
            Err(e) => {
                return Err(e);
            },
        }
        let response = self.broker.on_submit(&fresh);
        let r = broker_response(
            Event::OrderReplaced { original: id, replacement: req },
            replacement_id,
            response,
        );
        assert(answered(first, replacement_id, response) == answered(
            first,
            replacement_id,
            response,
        ));
        r
    }

    fn decide_execute(&self, id: ClientOrderId, qty: Qty, px: Px) -> (r: Result<Vec<Event>, EngineError>)
        ensures
            ({
                let n = px@ * qty@;
                if !money_range(n) {
                    r == Err::<Vec<Event>, EngineError>(
                        EngineError::Domain(DomainError::Overflow("notional")),
                    )
                } else {
                    match fees_of(self.broker_value())(n) {
                        Err(e) => r == Err::<Vec<Event>, EngineError>(EngineError::Domain(e)),
                        Ok(f) => events_are(r, fill_decision(self@, id, qty, px, Money::from_spec(f))),
                    }
                }
            }),
    {
        let notional = match px.notional(qty) {
            Ok(n) => n,
            Err(e) => {
                return Err(EngineError::Domain(e));
            },
        };
        let fee = match self.broker.fee_on(notional) {
            Ok(f) => f,
            Err(e) => {
                return Err(EngineError::Domain(e));
            },
        };
        proof {
            Money::lemma_view_injective(fee, Money::from_spec(fee@));
        }
        self.books.validated_fill(id, qty, px, fee)
    }

    fn decide_auto(&mut self, id: ClientOrderId) -> (r: Result<Vec<Event>, EngineError>)
        ensures
            fees_of(final(self).broker_value()) == fees_of(old(self).broker_value()),
            match order_for(old(self)@.orders, id@ as int) {
                None => r == Err::<Vec<Event>, EngineError>(EngineError::UnknownOrder(id)),
                Some(_) => exists|res: Result<Option<Execution>, BrokerError>|
                    #[trigger] auto_fill(old(self)@, id, res) == auto_fill(old(self)@, id, res)
                        && events_are(r, auto_fill(old(self)@, id, res)),
            },
            match order_for(old(self)@.orders, id@ as int) {
                None => final(self).broker_value() == old(self).broker_value(),
                Some(rec) => exists|res: Result<Option<Execution>, BrokerError>|
                    #[trigger] old(self).broker_value().executes(rec.0, res, final(self).broker_value())
                        && events_are(r, auto_fill(old(self)@, id, res)),
            },
            final(self)@ == old(self)@,
    {
        let i = match self.books.order_slot(id) {
            Some(i) => i,
            None => {
                return Err(EngineError::UnknownOrder(id));
            },
        };
        let order = self.books.orders[i].order.clone();
        let res = self.broker.next_execution(&order);
        let ghost g = res;
        assert(self@ == old(self)@);
        let r = match res {
            Err(e) => Err(EngineError::Broker(e)),
            Ok(None) => Err(EngineError::NothingToExecute(id)),
            Ok(Some(x)) => {
                let v = self.books.validated_fill(id, x.qty, x.px, x.fee);
                assert(events_are(v, fill_decision(old(self)@, id, x.qty, x.px, x.fee)));
                v
            },
        };
        assert(events_are(r, auto_fill(old(self)@, id, g)));
        assert(auto_fill(old(self)@, id, g) == auto_fill(old(self)@, id, g));
        r
    }

    fn decide_close(&self, day: TradingDay) -> (r: Result<Vec<Event>, EngineError>)
        ensures
            match close_plan(self@, day) {
                Err(e) => r == Err::<Vec<Event>, EngineError>(e),
                Ok(None) => r matches Ok(v) && v@.len() == 0,
                Ok(Some(entries)) => r matches Ok(v) && v@.len() == 1 && (v@[0] matches Event::DayClosed {
                    day: d,
                    entries: es,
                } && d == day && es@ == entries),
            },
    {
        let ghost c = self@.closed;
        let mut k: usize = 0;
        while k < self.books.closed.len()
            invariant
                k <= self.books.closed@.len(),
                c == self@.closed,
                c.len() == self.books.closed@.len(),
                forall|j: int| 0 <= j < k ==> (#[trigger] c[j]).0 != day,
            decreases self.books.closed@.len() - k,
        {
            assert(c[k as int] == self.books.closed@[k as int]@);
            if self.books.closed[k].day == day {
                assert(is_closed(c, day));
                return Ok(Vec::new());
            }
            k = k + 1;
        }
        let n = self.books.closed.len();
        if n > 0 {
            let latest = self.books.closed[n - 1].day;
            assert(c[n - 1] == self.books.closed@[n - 1]@);
            if day.before(latest) {
                return Err(EngineError::DayOutOfOrder { day, latest });
            }
        }
        if self.books.accounts.len() == 0 {
            return Err(EngineError::Scoring(ScoringError::NoParticipants { day }));
        }
        let entries = self.books.day_entries()?;
        let v = vec![Event::DayClosed { day, entries }];
        Ok(v)
    }

    /// Decide what a command does, without doing it: the events it produces,
    /// or why it is refused. Only the broker may move.
    fn decide(&mut self, at: Timestamp, command: Command) -> (r: Result<Vec<Event>, EngineError>)
        ensures
            fees_of(final(self).broker_value()) == fees_of(old(self).broker_value()),
            decided(old(self)@, fees_of(old(self).broker_value()), command, at, r),
            brokered(
                old(self).broker_value(),
                old(self)@,
                fees_of(old(self).broker_value()),
                command,
                at,
                r,
                final(self).broker_value(),
            ),
            final(self)@ == old(self)@,
    {
        proof {
            use_type_invariant(&self.books);
        }
        match command {
            Command::CreateParticipant { participant, starting_cash } => {
                if self.books.account_slot(&participant).is_some() {
                    return Err(EngineError::DuplicateParticipant(participant));
                }
                let ghost e = Event::ParticipantCreated { participant, starting_cash };
                let v = vec![Event::ParticipantCreated { participant, starting_cash }];
                assert(v@ =~= seq![e]);
                Ok(v)
            },
            Command::SubmitOrder { id, participant, symbol, side, qty, limit_px } => {
                self.decide_submit(NewOrder { id, participant, symbol, side, qty, limit_px, at })
            },
            Command::CancelOrder { id } => {
                let i = match self.books.order_slot(id) {
                    Some(i) => i,
                    None => {
                        return Err(EngineError::UnknownOrder(id));
                    },
                };
                assert(self@.orders[i as int] == self.books.orders@[i as int]@);
                match crate::lifecycle::apply(
                    &self.books.orders[i].order.state,
                    self.books.orders[i].order.qty,
                    &OrderEvent::Cancelled,
                ) {
                    Ok(_) => {},
                    Err(e) => {
                        return Err(EngineError::Transition(e));
                    },
                }
                let v = vec![Event::OrderCancelled { id }];
                assert(v@ =~= seq![Event::OrderCancelled { id }]);
                Ok(v)
            },
            Command::ReplaceOrder { id, replacement_id, qty, limit_px } => self.decide_replace(
                at,
                id,
                replacement_id,
                qty,
                limit_px,
            ),
            Command::Execute { id, qty, px } => self.decide_execute(id, qty, px),
            Command::AutoExecute { id } => self.decide_auto(id),
            Command::UpdateMark { symbol, px } => {
                let ghost e = Event::MarkUpdated { symbol, px };
                let v = vec![Event::MarkUpdated { symbol, px }];
                assert(v@ =~= seq![e]);
                Ok(v)
            },
            Command::CreateInstrument { spec } => {
                if self.books.instrument_slot(&spec.symbol).is_some() {
                    return Err(EngineError::DuplicateInstrument(spec.symbol));
                }
                let ghost e = Event::InstrumentUpserted { spec };
                let v = vec![Event::InstrumentUpserted { spec }];
                assert(v@ =~= seq![e]);
                Ok(v)
            },
            Command::UpdateInstrument { spec } => {
                if self.books.instrument_slot(&spec.symbol).is_none() {
                    return Err(EngineError::UnknownInstrument(spec.symbol));
                }
                let ghost e = Event::InstrumentUpserted { spec };
                let v = vec![Event::InstrumentUpserted { spec }];
                assert(v@ =~= seq![e]);
                Ok(v)
            },
            Command::RemoveInstrument { symbol } => {
                if self.books.instrument_slot(&symbol).is_none() {
                    return Err(EngineError::UnknownInstrument(symbol));
                }
                let (working_orders, positions) = self.books.uses_of(&symbol);
                if working_orders > 0 || positions > 0 {
                    return Err(EngineError::InstrumentInUse { symbol, working_orders, positions });
                }
                let ghost e = Event::InstrumentRemoved { symbol };
                let v = vec![Event::InstrumentRemoved { symbol }];
                assert(v@ =~= seq![e]);
                Ok(v)
            },
            Command::CloseDay { day } => self.decide_close(day),
        }
    }
}

/// The closing value filed for `k` in a day's entries (the last one, if
/// several).
fn closing_value_for(entries: &Vec<DayInput>, k: &ParticipantId) -> (r: Option<Money>)
    ensures
        match entry_for(entries@, k@) {
            Some(e) => r == Some(e.closing_value),
            None => r is None,
        },
{
    let mut i: usize = entries.len();
    assert(entries@.take(i as int) =~= entries@);
    while i > 0
        invariant
            i <= entries@.len(),
            entry_for(entries@, k@) == entry_for(entries@.take(i as int), k@),
        decreases i,
    {
        let ghost t = entries@.take(i as int);
        proof {
            assert(t.drop_last() =~= entries@.take(i - 1));
            assert(t.last() == entries@[i - 1]);
        }
        if entries[i - 1].participant.same(k) {
            return Some(entries[i - 1].closing_value);
        }
        i = i - 1;
    }
    None
}

impl Books {
    fn apply_replaced(&mut self, original: ClientOrderId, replacement: &NewOrder) -> (r: Result<
        (),
        EngineError,
    >)
        ensures
            folded(
                old(self)@,
                final(self)@,
                Event::OrderReplaced { original, replacement: *replacement },
                r,
            ),
    {
        proof {
            use_type_invariant(&*self);
        }
        let ghost old_view = self@;
        if self.order_slot(replacement.id).is_some() {
            return Err(EngineError::DuplicateOrder(replacement.id));
        }
        if replacement.qty.is_zero() {
            return Err(EngineError::Domain(DomainError::NonPositiveQty(0)));
        }
        match self.apply_transition(original, OrderEvent::Cancelled) {
            Ok(()) => {},
            Err(e) => {
                return Err(e);
            },
        }
        let ghost mid = self@;
        proof {
            assert(order_keys(mid.orders) =~= order_keys(old_view.orders));
            if has_order(mid.orders, replacement.id@ as int) {
                let j = order_index(mid.orders, replacement.id@ as int);
                assert(order_keys(mid.orders)[j] == replacement.id@);
                assert(old_view.orders[j].0.id@ == replacement.id@);
                assert(has_order(old_view.orders, replacement.id@ as int));
            }
        }
        let mut o = match Order::submit(replacement.clone()) {
            Ok(o) => o,
            Err(e) => {
                return Err(EngineError::Domain(e));
            },
        };
        o.replaces = Some(original);
        self.insert_order_record(OrderRecord { order: o, fees: Money::zero() });
        Ok(())
    }

    #[verifier::rlimit(40)]
    fn apply_filled(&mut self, id: ClientOrderId, qty: Qty, px: Px, fee: Money) -> (r: Result<
        (),
        EngineError,
    >)
        ensures
            match filled_after(old(self)@, id, qty, px, fee) {
                Ok(v) => r is Ok && final(self)@ == v,
                Err(err) => r == Err::<(), EngineError>(err) && final(self)@ == old(self)@,
            },
    {
        proof {
            use_type_invariant(&*self);
        }
        let ghost old_view = self@;
        let i = match self.order_slot(id) {
            Some(i) => i,
            None => {
                return Err(EngineError::UnknownOrder(id));
            },
        };
        let next = match crate::lifecycle::apply(
            &self.orders[i].order.state,
            self.orders[i].order.qty,
            &OrderEvent::Fill { qty, px },
        ) {
            Ok(s) => s,
            Err(e) => {
                return Err(EngineError::Transition(e));
            },
        };
        let j = match self.account_slot(&self.orders[i].order.participant) {
            Some(j) => j,
            None => {
                return Err(EngineError::UnknownParticipant(self.orders[i].order.participant.clone()));
            },
        };
        let notional = match px.notional(qty) {
            Ok(n) => n,
            Err(e) => {
                return Err(EngineError::Domain(e));
            },
        };
        let turnover = match self.accounts[j].day_turnover.checked_add(notional) {
            Ok(t) => t,
            Err(e) => {
                return Err(EngineError::Domain(e));
            },
        };
        let fees = match self.orders[i].fees.checked_add(fee) {
            Ok(f) => f,
            Err(e) => {
                return Err(EngineError::Domain(e));
            },
        };
        let fill = Fill {
            symbol: self.orders[i].order.symbol.clone(),
            side: self.orders[i].order.side,
            qty,
            px,
            fee,
        };
        proof {
            let keys = account_keys(old_view.accounts);
            assert(has_key(keys, old_view.accounts[j as int].book.participant));
            assert(keys[j as int] == old_view.orders[i as int].0.participant@);
            lemma_sorted_unique(keys, j as int, key_index(keys, old_view.orders[i as int].0.participant@));
            assert(order_index(old_view.orders, id@ as int) == i) by {
                let q = order_index(old_view.orders, id@ as int);
                assert(has_order(old_view.orders, id@ as int));
                assert(order_keys(old_view.orders)[q] == order_keys(old_view.orders)[i as int]);
                if q < i {
                    assert(order_keys(old_view.orders)[q] < order_keys(old_view.orders)[i as int]);
                } else if q > i {
                    assert(order_keys(old_view.orders)[i as int] < order_keys(old_view.orders)[q]);
                }
            }
            assert(fill == fill_of(old_view.orders[i as int].0, qty, px, fee));
        }
        let mut accounts: Vec<Account> = Vec::new();
        std::mem::swap(&mut accounts, &mut self.accounts);
        let mut acct = accounts.remove(j);
        match acct.portfolio.apply(&fill) {
            Ok(()) => {},
            Err(e) => {
                accounts.insert(j, acct);
                proof {
                    assert(accounts@ =~= old(self).accounts@);
                }
                self.accounts = accounts;
                return Err(EngineError::Portfolio(e));
            },
        }
        acct.day_turnover = turnover;
        acct.traded_today = true;
        accounts.insert(j, acct);
        proof {
            let f = |a: Account| a@;
            assert(accounts@.map_values(f) =~= old_view.accounts.update(j as int, acct@));
            assert(account_keys(accounts@.map_values(f)) =~= account_keys(old_view.accounts));
        }
        self.accounts = accounts;
        let mut orders: Vec<OrderRecord> = Vec::new();
        std::mem::swap(&mut orders, &mut self.orders);
        let mut rec = orders.remove(i);
        rec.order.state = next;
        rec.fees = fees;
        orders.insert(i, rec);
        proof {
            let f = |o: OrderRecord| o@;
            assert(orders@.map_values(f) =~= old_view.orders.update(i as int, rec@));
            assert(order_keys(orders@.map_values(f)) =~= order_keys(old_view.orders));
        }
        self.orders = orders;
        Ok(())
    }

    fn apply_closed(&mut self, day: TradingDay, entries: &Vec<DayInput>) -> (r: Result<
        (),
        EngineError,
    >)
        ensures
            match closed_after(old(self)@, day, entries@) {
                Ok(v) => r is Ok && final(self)@ == v,
                Err(e) => r == Err::<(), EngineError>(e) && final(self)@ == old(self)@,
            },
    {
        proof {
            use_type_invariant(&*self);
        }
        let ghost old_view = self@;
        let n = self.closed.len();
        let mut replace_last = false;
        if n > 0 {
            let last = self.closed[n - 1].day;
            assert(old_view.closed[n - 1].0 == last);
            if last == day {
                replace_last = true;
            } else if !last.before(day) {
                return Err(EngineError::DayOutOfOrder { day, latest: last });
            }
        }
        let mut accounts: Vec<Account> = Vec::new();
        std::mem::swap(&mut accounts, &mut self.accounts);
        let ghost f = |a: Account| a@;
        let mut i: usize = 0;
        while i < accounts.len()
            invariant
                i <= accounts@.len(),
                accounts@.len() == old_view.accounts.len(),
                forall|k: int|
                    0 <= k < i ==> (#[trigger] accounts@[k])@ == closed_account(
                        old_view.accounts[k],
                        entries@,
                    ),
                forall|k: int| i <= k < accounts@.len() ==> (#[trigger] accounts@[k])@ == old_view.accounts[k],
            decreases accounts@.len() - i,
        {
            let mut a = accounts.remove(i);
            let close = closing_value_for(entries, a.portfolio.participant());
            a.day_turnover = Money::zero();
            a.traded_today = false;
            match close {
                Some(c) => {
                    a.last_close = Some(c);
                },
                None => {},
            }
            accounts.insert(i, a);
            i = i + 1;
        }
        proof {
            assert(accounts@.map_values(f) =~= old_view.accounts.map_values(
                |a: AccountView| closed_account(a, entries@),
            ));
            assert(account_keys(accounts@.map_values(f)) =~= account_keys(old_view.accounts));
        }
        self.accounts = accounts;
        let record = ClosedDay { day, entries: crate::event::clone_entries(entries) };
        let mut closed: Vec<ClosedDay> = Vec::new();
        std::mem::swap(&mut closed, &mut self.closed);
        if replace_last {
            closed.set(n - 1, record);
            proof {
                assert(closed@.map_values(|c: ClosedDay| c@) =~= old_view.closed.update(
                    n - 1,
                    (day, entries@),
                ));
            }
        } else {
            closed.push(record);
            proof {
                assert(closed@.map_values(|c: ClosedDay| c@) =~= old_view.closed.push((day, entries@)));
            }
        }
        proof {
            let c = closed@.map_values(|c: ClosedDay| c@);
            assert forall|a: int, b: int| 0 <= a < b < c.len() implies day_before(
                #[trigger] c[a].0@,
                #[trigger] c[b].0@,
            ) by {
                if b == n as int && !replace_last {
                    if a < n - 1 {
                        crate::time::lemma_day_before_transitive(
                            old_view.closed[a].0@,
                            old_view.closed[n - 1].0@,
                            day@,
                        );
                    }
                } else {
                    assert(c[a].0 == old_view.closed[a].0);
                    assert(c[b].0 == old_view.closed[b].0);
                }
            }
        }
        self.closed = closed;
        Ok(())
    }

    /// Fold one event into state.
    ///
    /// The single mutator, and the one a replay uses. Errors here are
    /// invariant breaks rather than refusals — `decide` already established
    /// that the event is legal — so they are surfaced, never swallowed, and a
    /// refused event changes nothing.
    pub fn apply(&mut self, event: &Event) -> (r: Result<(), EngineError>)
        ensures
            folded(old(self)@, final(self)@, *event, r),
    {
        match event {
            Event::ParticipantCreated { participant, starting_cash } => self.apply_created(
                participant,
                *starting_cash,
            ),
            Event::OrderSubmitted { order } => self.apply_submitted(order),
            Event::OrderAcknowledged { id, broker_id } => self.apply_transition(
                *id,
                OrderEvent::Acknowledged { broker_id: *broker_id },
            ),
            Event::OrderRejected { id, reason } => self.apply_transition(
                *id,
                OrderEvent::Rejected { reason: *reason },
            ),
            Event::OrderCancelled { id } => self.apply_transition(*id, OrderEvent::Cancelled),
            Event::OrderReplaced { original, replacement } => self.apply_replaced(
                *original,
                replacement,
            ),
            Event::OrderFilled { id, exec_id, qty, px, fee } => {
                match self.apply_filled(*id, *qty, *px, *fee) {
                    Ok(()) => {},
                    Err(e) => return Err(e),
                }
                proof {
                    use_type_invariant(&*self);
                }
                let mut tape: Vec<ExecRow> = Vec::new();
                std::mem::swap(&mut tape, &mut self.executions);
                tape.push(ExecRow { exec_id: *exec_id, order: *id, qty: *qty, px: *px, fee: *fee });
                self.executions = tape;
                Ok(())
            },
            Event::MarkUpdated { symbol, px } => self.apply_mark(symbol, *px),
            Event::InstrumentUpserted { spec } => self.apply_listed(spec),
            Event::InstrumentRemoved { symbol } => self.apply_delisted(symbol),
            Event::DayClosed { day, entries } => self.apply_closed(*day, entries),
        }
    }
}

/// In increasing keys, the count of smaller keys is a slot: everything before
/// it is smaller and nothing from it on is.
pub proof fn lemma_slot_prefix_int(keys: Seq<int>, k: int, i: int)
    requires
        increasing(keys),
        i == count_below_int(keys, k),
    ensures
        0 <= i <= keys.len(),
        forall|j: int| 0 <= j < i ==> #[trigger] keys[j] < k,
        forall|j: int| i <= j < keys.len() ==> #[trigger] keys[j] >= k,
    decreases keys.len(),
{
    if keys.len() > 0 {
        let d = keys.drop_last();
        assert(increasing(d)) by {
            assert forall|a: int, b: int| 0 <= a < b < d.len() implies #[trigger] d[a] < #[trigger] d[b] by {
                assert(d[a] == keys[a] && d[b] == keys[b]);
            }
        }
        lemma_slot_prefix_int(d, k, count_below_int(d, k));
        let c = count_below_int(d, k);
        if keys.last() < k {
            assert forall|j: int| 0 <= j < i implies #[trigger] keys[j] < k by {
                if j < c {
                    assert(keys[j] == d[j]);
                } else if j < keys.len() - 1 {
                    assert(keys[j] < keys[keys.len() - 1]);
                }
            }
        } else {
            assert forall|j: int| 0 <= j < i implies #[trigger] keys[j] < k by {
                assert(keys[j] == d[j]);
            }
            assert forall|j: int| i <= j < keys.len() implies #[trigger] keys[j] >= k by {
                if j < keys.len() - 1 {
                    assert(keys[j] == d[j]);
                }
            }
        }
    }
}


// ---- the journal ------------------------------------------------------------------

/// Fold a run of events into a state.
pub open spec fn events_after(s: EngineView, evs: Seq<Event>) -> Result<EngineView, EngineError>
    decreases evs.len(),
{
    if evs.len() == 0 {
        Ok(s)
    } else {
        match events_after(s, evs.drop_last()) {
            Err(e) => Err(e),
            Ok(t) => after(t, evs.last()),
        }
    }
}

/// Fold journal entries into a state: each event applied, and the sequence
/// number taken from the entry.
pub open spec fn journal_after(s: EngineView, log: Seq<Journaled>) -> Result<EngineView, EngineError>
    decreases log.len(),
{
    if log.len() == 0 {
        Ok(s)
    } else {
        match journal_after(s, log.drop_last()) {
            Err(e) => Err(e),
            Ok(t) => match after(t, log.last().event) {
                Err(e) => Err(e),
                Ok(u) => Ok(EngineView { seq: log.last().seq as int, ..u }),
            },
        }
    }
}

/// `j` is `evs` journalled from sequence number `seq + 1` on, all at `at`.
pub open spec fn numbered(j: Seq<Journaled>, evs: Seq<Event>, seq: int, at: Timestamp) -> bool {
    &&& j.len() == evs.len()
    &&& forall|i: int|
        0 <= i < j.len() ==> (#[trigger] j[i]).seq == seq + i + 1 && j[i].at == at && same_event(
            j[i].event,
            evs[i],
        )
}

/// Two events that say the same thing do the same thing.
pub proof fn lemma_after_same(t: EngineView, a: Event, b: Event)
    requires
        same_event(a, b),
    ensures
        after(t, a) == after(t, b),
{
}

/// What a journalling of a decision looks like.
pub open spec fn journalled(
    evs: Result<Vec<Event>, EngineError>,
    r: Result<Vec<Journaled>, EngineError>,
    seq: int,
    at: Timestamp,
) -> bool {
    match evs {
        Err(e) => r == Err::<Vec<Journaled>, EngineError>(e),
        Ok(v) => r matches Ok(j) && numbered(j@, v@, seq, at),
    }
}

proof fn lemma_events_keep_seq(s: EngineView, evs: Seq<Event>)
    ensures
        events_after(s, evs) matches Ok(t) ==> t.seq == s.seq,
    decreases evs.len(),
{
    if evs.len() > 0 {
        lemma_events_keep_seq(s, evs.drop_last());
    }
}

/// A numbered journal of events folds to the same state as the events, with
/// the last sequence number.
pub proof fn lemma_journal_of_events(s: EngineView, j: Seq<Journaled>, evs: Seq<Event>, seq: int, at: Timestamp)
    requires
        numbered(j, evs, seq, at),
        s.seq == seq,
    ensures
        journal_after(s, j) == match events_after(s, evs) {
            Ok(t) => Ok(EngineView { seq: seq + evs.len(), ..t }),
            Err(e) => Err(e),
        },
    decreases j.len(),
{
    if j.len() > 0 {
        assert(numbered(j.drop_last(), evs.drop_last(), seq, at)) by {
            assert forall|i: int| 0 <= i < j.drop_last().len() implies (#[trigger] j.drop_last()[i]).seq
                == seq + i + 1 && j.drop_last()[i].at == at && same_event(
                j.drop_last()[i].event,
                evs.drop_last()[i],
            ) by {
                assert(j.drop_last()[i] == j[i]);
            }
        }
        lemma_journal_of_events(s, j.drop_last(), evs.drop_last(), seq, at);
        lemma_events_keep_seq(s, evs.drop_last());
        assert(j.last() == j[j.len() - 1]);
        assert(same_event(j[j.len() - 1].event, evs[evs.len() - 1]));
        if let Ok(t) = events_after(s, evs.drop_last()) {
            let t2 = EngineView { seq: seq + evs.drop_last().len(), ..t };
            lemma_after_same(t2, j.last().event, evs.last());
            let t2 = EngineView { seq: seq + evs.drop_last().len(), ..t };
            assert(after(t2, evs.last()) == match after(t, evs.last()) {
                Ok(u) => Ok(EngineView { seq: t2.seq, ..u }),
                Err(e) => Err(e),
            }) by {
                assert(t2 == EngineView { seq: t2.seq, ..t });
                lemma_after_reseq(t, evs.last(), t2.seq);
            }
        }
    }
}

/// Applying an event does not look at the sequence number.
proof fn lemma_after_reseq(t: EngineView, e: Event, n: int)
    ensures
        after(EngineView { seq: n, ..t }, e) == match after(t, e) {
            Ok(u) => Ok(EngineView { seq: n, ..u }),
            Err(err) => Err(err),
        },
{
}

/// Journals compose: folding `a` then `b` is folding `a + b`. With the
/// engine's own contracts — `execute` folds what it journals, `replay` folds
/// what it is given — this is why a replay of the whole log reproduces the
/// live state exactly.
pub proof fn law_journals_compose(s: EngineView, a: Seq<Journaled>, b: Seq<Journaled>)
    ensures
        journal_after(s, a + b) == match journal_after(s, a) {
            Ok(t) => journal_after(t, b),
            Err(e) => Err(e),
        },
    decreases b.len(),
{
    if b.len() == 0 {
        assert(a + b =~= a);
    } else {
        law_journals_compose(s, a, b.drop_last());
        assert((a + b).drop_last() =~= a + b.drop_last());
        assert((a + b).last() == b.last());
    }
}

/// Replaying what a run journalled reproduces the run: if each journal took
/// the state before it to the state after it, the journals one after another
/// take the first state to the last. With `Engine::execute` (each call's
/// journal takes its state to the next) and `Engine::replay` (the engine
/// rebuilt is the fold of the log from empty, whatever its broker), the log
/// of a live run replays to exactly the live state.
pub proof fn law_replay_reproduces_the_run(states: Seq<EngineView>, journals: Seq<Seq<Journaled>>)
    requires
        states.len() == journals.len() + 1,
        forall|i: int|
            0 <= i < journals.len() ==> journal_after(states[i], #[trigger] journals[i]) == Ok::<
                EngineView,
                EngineError,
            >(states[i + 1]),
    ensures
        journal_after(states[0], journals.flatten()) == Ok::<EngineView, EngineError>(states.last()),
    decreases journals.len(),
{
    if journals.len() == 0 {
        assert(journal_after(states[0], Seq::<Journaled>::empty()) == Ok::<EngineView, EngineError>(
            states[0],
        ));
    } else {
        let rest_states = states.drop_first();
        let rest = journals.drop_first();
        assert forall|i: int| 0 <= i < rest.len() implies journal_after(rest_states[i], #[trigger] rest[i])
            == Ok::<EngineView, EngineError>(rest_states[i + 1]) by {
            assert(rest[i] == journals[i + 1]);
        }
        law_replay_reproduces_the_run(rest_states, rest);
        assert(journal_after(states[0], journals[0]) == Ok::<EngineView, EngineError>(states[1]));
        law_journals_compose(states[0], journals.first(), rest.flatten());
        assert(rest_states.last() == states.last());
    }
}

impl Books {
    fn set_seq(&mut self, seq: u64)
        ensures
            final(self)@ == (EngineView { seq: seq as int, ..old(self)@ }),
    {
        proof {
            use_type_invariant(&*self);
        }
        self.seq = seq;
    }
}

impl<B: Broker> Engine<B> {
    /// Fold one event into state: the single mutator, and the one a replay
    /// uses. A refused event changes nothing.
    pub fn apply(&mut self, event: &Event) -> (r: Result<(), EngineError>)
        ensures
            folded(old(self)@, final(self)@, *event, r),
            final(self).broker_value() == old(self).broker_value(),
    {
        self.books.apply(event)
    }

    /// Apply journal entries in order, taking each one's sequence number. On a
    /// refusal, the entries before it stay applied and the rest are not.
    pub fn commit(&mut self, entries: &Vec<Journaled>) -> (r: Result<(), EngineError>)
        ensures
            final(self).broker_value() == old(self).broker_value(),
            match journal_after(old(self)@, entries@) {
                Ok(v) => r is Ok && final(self)@ == v,
                Err(e) => r == Err::<(), EngineError>(e),
            },
            r is Err ==> exists|k: int|
                0 <= k < entries@.len() && journal_after(old(self)@, entries@.take(k)) == Ok::<
                    EngineView,
                    EngineError,
                >(final(self)@) && #[trigger] after(final(self)@, entries@[k].event) == Err::<
                    EngineView,
                    EngineError,
                >(r->Err_0),
    {
        let ghost s0 = self@;
        let mut i: usize = 0;
        assert(entries@.take(0) =~= Seq::<Journaled>::empty());
        while i < entries.len()
            invariant
                i <= entries@.len(),
                journal_after(s0, entries@.take(i as int)) == Ok::<EngineView, EngineError>(self@),
                self.broker_value() == old(self).broker_value(),
                s0 == old(self)@,
            decreases entries@.len() - i,
        {
            proof {
                assert(entries@.take(i + 1).drop_last() =~= entries@.take(i as int));
                assert(entries@.take(i + 1).last() == entries@[i as int]);
            }
            let ghost before = self@;
            match self.books.apply(&entries[i].event) {
                Ok(()) => {},
                Err(e) => {
                    proof {
                        assert(self@ == before);
                        assert(after(self@, entries@[i as int].event) == Err::<EngineView, EngineError>(e));
                        lemma_journal_err_stays(s0, entries@, i as int);
                        assert(journal_after(s0, entries@.take(i as int)) == Ok::<EngineView, EngineError>(self@));
                    }
                    return Err(e);
                },
            }
            self.books.set_seq(entries[i].seq);
            i = i + 1;
        }
        assert(entries@.take(i as int) =~= entries@);
        Ok(())
    }

    /// Decide and number the events a command produces, without applying
    /// them: a caller that must persist before it applies takes these to its
    /// log, then to [`Engine::commit`].
    pub fn plan(&mut self, at: Timestamp, command: Command) -> (r: Result<Vec<Journaled>, EngineError>)
        requires
            old(self)@.seq + 2 <= u64::MAX,
        ensures
            fees_of(final(self).broker_value()) == fees_of(old(self).broker_value()),
            final(self)@ == old(self)@,
            exists|evs: Result<Vec<Event>, EngineError>|
                decided(old(self)@, fees_of(old(self).broker_value()), command, at, evs)
                    && brokered(
                    old(self).broker_value(),
                    old(self)@,
                    fees_of(old(self).broker_value()),
                    command,
                    at,
                    evs,
                    final(self).broker_value(),
                ) && #[trigger] journalled(evs, r, old(self)@.seq, at),
    {
        proof {
            use_type_invariant(&self.books);
        }
        let ghost cmd = command;
        let evs = self.decide(at, command);
        let ghost g = evs;
        let events = match evs {
            Ok(v) => v,
            Err(e) => {
                assert(journalled(g, Err(e), old(self)@.seq, at));
                return Err(e);
            },
        };
        proof {
            lemma_decided_short(old(self)@, fees_of(old(self).broker_value()), cmd, at, g);
        }
        let mut out: Vec<Journaled> = Vec::new();
        let mut seq = self.books.seq;
        let mut i: usize = 0;
        let ghost evs_seq = events@;
        while i < events.len()
            invariant
                i <= events@.len(),
                events@.len() <= 2,
                evs_seq == events@,
                self@.seq + 2 <= u64::MAX,
                seq == self@.seq + i,
                numbered(out@, events@.take(i as int), self@.seq, at),
            decreases events@.len() - i,
        {
            seq = seq + 1;
            let ghost before = out@;
            out.push(Journaled { seq, at, event: events[i].clone() });
            proof {
                assert forall|k: int| 0 <= k < out@.len() implies (#[trigger] out@[k]).seq == self@.seq
                    + k + 1 && out@[k].at == at && same_event(
                    out@[k].event,
                    events@.take(i + 1)[k],
                ) by {
                    if k < i {
                        assert(out@[k] == before[k]);
                        assert(events@.take(i + 1)[k] == events@.take(i as int)[k]);
                    }
                }
                assert(events@.take(i + 1) =~= events@.take(i as int).push(events@[i as int]));
            }
            i = i + 1;
        }
        proof {
            assert(events@.take(i as int) =~= events@);
        }
        let r = Ok(out);
        assert(journalled(g, r, old(self)@.seq, at));
        r
    }
}

proof fn lemma_journal_err_stays(s: EngineView, log: Seq<Journaled>, k: int)
    requires
        0 <= k < log.len(),
        journal_after(s, log.take(k)) is Ok,
        after(journal_after(s, log.take(k))->Ok_0, log[k].event) is Err,
    ensures
        journal_after(s, log) == Err::<EngineView, EngineError>(
            after(journal_after(s, log.take(k))->Ok_0, log[k].event)->Err_0,
        ),
{
    assert(log.take(k + 1).drop_last() =~= log.take(k));
    assert(log.take(k + 1).last() == log[k]);
    lemma_journal_err_extends(s, log, k + 1);
}

proof fn lemma_journal_err_extends(s: EngineView, log: Seq<Journaled>, k: int)
    requires
        0 <= k <= log.len(),
        journal_after(s, log.take(k)) is Err,
    ensures
        journal_after(s, log) == journal_after(s, log.take(k)),
    decreases log.len() - k,
{
    if k < log.len() {
        assert(log.take(k + 1).drop_last() =~= log.take(k));
        lemma_journal_err_extends(s, log, k + 1);
    } else {
        assert(log.take(k) =~= log);
    }
}


/// A command decides at most two events.
proof fn lemma_decided_short(
    s: EngineView,
    fees: spec_fn(int) -> Result<int, DomainError>,
    cmd: Command,
    at: Timestamp,
    r: Result<Vec<Event>, EngineError>,
)
    requires
        decided(s, fees, cmd, at, r),
    ensures
        r matches Ok(v) ==> v@.len() <= 2,
{
    match cmd {
        Command::SubmitOrder { id, participant, symbol, side, qty, limit_px } => {
            let p = submit_plan(s, fees, NewOrder { id, participant, symbol, side, qty, limit_px, at });
            if let Plan::AskBroker { order, first } = p {
                let resp = choose|resp: OrderEvent|
                    #[trigger] answered(first, id, resp) == answered(first, id, resp) && events_are(
                        r,
                        answered(first, id, resp),
                    );
            }
        },
        Command::ReplaceOrder { id, replacement_id, qty, limit_px } => {
            let p = replace_plan(s, fees, id, replacement_id, qty, limit_px, at);
            if let Plan::AskBroker { order, first } = p {
                let resp = choose|resp: OrderEvent|
                    #[trigger] answered(first, replacement_id, resp) == answered(
                        first,
                        replacement_id,
                        resp,
                    ) && events_are(r, answered(first, replacement_id, resp));
            }
        },
        Command::AutoExecute { id } => {
            if order_for(s.orders, id@ as int) is Some {
                let res = choose|res: Result<Option<Execution>, BrokerError>|
                    #[trigger] auto_fill(s, id, res) == auto_fill(s, id, res) && events_are(
                        r,
                        auto_fill(s, id, res),
                    );
            }
        },
        _ => {},
    }
}


// ---- a decided command applies ---------------------------------------------------

proof fn lemma_events_one(s: EngineView, a: Event)
    ensures
        events_after(s, seq![a]) == after(s, a),
{
    assert(seq![a].drop_last() =~= Seq::<Event>::empty());
    assert(seq![a].last() == a);
    assert(events_after(s, Seq::<Event>::empty()) == Ok::<EngineView, EngineError>(s));
}

proof fn lemma_events_two(s: EngineView, a: Event, b: Event)
    ensures
        events_after(s, seq![a, b]) == match after(s, a) {
            Ok(t) => after(t, b),
            Err(e) => Err(e),
        },
{
    assert(seq![a, b].drop_last() =~= seq![a]);
    assert(seq![a, b].last() == b);
    lemma_events_one(s, a);
}

/// Filing a new order keeps ids increasing, and the order is then found
/// under its id.
proof fn lemma_insert_order_found(o: Seq<(Order, int)>, rec: (Order, int))
    requires
        increasing(order_keys(o)),
        !has_order(o, rec.0.id@ as int),
    ensures
        increasing(order_keys(insert_order(o, rec))),
        order_for(insert_order(o, rec), rec.0.id@ as int) == Some(rec),
{
    let keys = order_keys(o);
    let k = rec.0.id@ as int;
    let c = count_below_int(keys, k);
    lemma_slot_prefix_int(keys, k, c);
    let n = insert_order(o, rec);
    let nk = order_keys(n);
    assert(nk =~= keys.insert(c, k));
    if c < keys.len() {
        assert(keys[c] != k) by {
            assert(o[c].0.id@ == keys[c]);
        }
    }
    assert forall|a: int, b: int| 0 <= a < b < nk.len() implies #[trigger] nk[a] < #[trigger] nk[b] by {
        if a < c && b < c {
        } else if a < c && b == c {
        } else if a < c {
            assert(nk[b] == keys[b - 1]);
        } else if a == c {
            assert(nk[b] == keys[b - 1]);
        } else {
            assert(nk[a] == keys[a - 1] && nk[b] == keys[b - 1]);
        }
    }
    assert(n[c].0.id@ == k);
    assert(has_order(n, k));
    let j = order_index(n, k);
    assert(nk[j] == nk[c]);
    if j < c {
        assert(nk[j] < nk[c]);
    } else if j > c {
        assert(nk[c] < nk[j]);
    }
}

/// An order advanced in place keeps every id where it was.
proof fn lemma_advanced_keeps_ids(s: EngineView, id: ClientOrderId, ev: OrderEvent)
    requires
        advanced(s, id, ev) is Ok,
        increasing(order_keys(s.orders)),
    ensures
        order_keys(advanced(s, id, ev)->Ok_0.orders) == order_keys(s.orders),
        forall|k: int| has_order(advanced(s, id, ev)->Ok_0.orders, k) == has_order(s.orders, k),
{
    let t = advanced(s, id, ev)->Ok_0;
    assert(order_keys(t.orders) =~= order_keys(s.orders));
    assert forall|k: int| has_order(t.orders, k) == has_order(s.orders, k) by {
        if has_order(t.orders, k) {
            let j = choose|j: int| 0 <= j < t.orders.len() && (#[trigger] t.orders[j]).0.id@ == k;
            assert(order_keys(t.orders)[j] == k);
            assert(s.orders[j].0.id@ == order_keys(s.orders)[j]);
        }
        if has_order(s.orders, k) {
            let j = choose|j: int| 0 <= j < s.orders.len() && (#[trigger] s.orders[j]).0.id@ == k;
            assert(order_keys(s.orders)[j] == k);
            assert(t.orders[j].0.id@ == order_keys(t.orders)[j]);
        }
    }
}

/// A new order, then the broker's (or the venue's) first word on it.
proof fn lemma_new_order_answered(s: EngineView, first: Event, rec: (Order, int), second: Event)
    requires
        increasing(order_keys(s.orders)),
        after(s, first) == Ok::<EngineView, EngineError>(
            EngineView { orders: insert_order(s.orders, rec), ..s },
        ),
        !has_order(s.orders, rec.0.id@ as int),
        rec.0.state == OrderState::New,
        (second matches Event::OrderAcknowledged { id, .. } && id == rec.0.id) || (
        second matches Event::OrderRejected { id, .. } && id == rec.0.id),
    ensures
        events_after(s, seq![first, second]) is Ok,
{
    lemma_events_two(s, first, second);
    lemma_insert_order_found(s.orders, rec);
}

proof fn lemma_submit_applies(
    s: EngineView,
    fees: spec_fn(int) -> Result<int, DomainError>,
    req: NewOrder,
    r: Result<Vec<Event>, EngineError>,
)
    requires
        well_formed(s),
        plan_met(submit_plan(s, fees, req), req.id, r),
        r is Ok,
    ensures
        events_after(s, r->Ok_0@) is Ok,
{
    let id = req.id;
    let first = Event::OrderSubmitted { order: req };
    let rec = (submitted(req), 0int);
    match submit_plan(s, fees, req) {
        Plan::Done(evs) => {
            let reason = venue_verdict(s.instruments, req.symbol@, req.limit_px@, req.qty@)->Some_0;
            lemma_new_order_answered(s, first, rec, Event::OrderRejected { id, reason });
        },
        Plan::AskBroker { order, first: f } => {
            let resp = choose|resp: OrderEvent|
                #[trigger] answered(f, id, resp) == answered(f, id, resp) && events_are(
                    r,
                    answered(f, id, resp),
                );
            match resp {
                OrderEvent::Acknowledged { broker_id } => {
                    lemma_new_order_answered(s, first, rec, Event::OrderAcknowledged { id, broker_id });
                },
                OrderEvent::Rejected { reason } => {
                    lemma_new_order_answered(s, first, rec, Event::OrderRejected { id, reason });
                },
                _ => {},
            }
        },
        _ => {},
    }
}

proof fn lemma_replace_applies(
    s: EngineView,
    fees: spec_fn(int) -> Result<int, DomainError>,
    id: ClientOrderId,
    replacement_id: ClientOrderId,
    qty: Qty,
    limit_px: Px,
    at: Timestamp,
    r: Result<Vec<Event>, EngineError>,
)
    requires
        well_formed(s),
        plan_met(replace_plan(s, fees, id, replacement_id, qty, limit_px, at), replacement_id, r),
        r is Ok,
    ensures
        events_after(s, r->Ok_0@) is Ok,
{
    let v = r->Ok_0@;
    let p = replace_plan(s, fees, id, replacement_id, qty, limit_px, at);
    let o = order_for(s.orders, id@ as int)->Some_0.0;
    let req = NewOrder {
        id: replacement_id,
        participant: o.participant,
        symbol: o.symbol,
        side: o.side,
        qty,
        limit_px,
        at,
    };
    let first = Event::OrderReplaced { original: id, replacement: req };
    let fresh = Order { replaces: Some(id), ..submitted(req) };
    let t = advanced(s, id, OrderEvent::Cancelled)->Ok_0;
    lemma_advanced_keeps_ids(s, id, OrderEvent::Cancelled);
    assert(after(s, first) == Ok::<EngineView, EngineError>(
        EngineView { orders: insert_order(t.orders, (fresh, 0int)), ..t },
    ));
    lemma_insert_order_found(t.orders, (fresh, 0int));
    match p {
        Plan::Done(evs) => {
            let reason = venue_verdict(s.instruments, o.symbol@, limit_px@, qty@)->Some_0;
            lemma_events_two(s, first, Event::OrderRejected { id: replacement_id, reason });
        },
        Plan::AskBroker { order, first: f } => {
            let resp = choose|resp: OrderEvent|
                #[trigger] answered(f, replacement_id, resp) == answered(f, replacement_id, resp)
                    && events_are(r, answered(f, replacement_id, resp));
            match resp {
                OrderEvent::Acknowledged { broker_id } => {
                    lemma_events_two(
                        s,
                        first,
                        Event::OrderAcknowledged { id: replacement_id, broker_id },
                    );
                },
                OrderEvent::Rejected { reason } => {
                    lemma_events_two(s, first, Event::OrderRejected { id: replacement_id, reason });
                },
                _ => {},
            }
        },
        _ => {},
    }
}

proof fn lemma_close_applies(s: EngineView, day: TradingDay, r: Result<Vec<Event>, EngineError>)
    requires
        r is Ok,
        match close_plan(s, day) {
            Err(e) => r == Err::<Vec<Event>, EngineError>(e),
            Ok(None) => r matches Ok(v) && v@.len() == 0,
            Ok(Some(entries)) => r matches Ok(v) && v@.len() == 1 && (v@[0] matches Event::DayClosed {
                day: d,
                entries: es,
            } && d == day && es@ == entries),
        },
    ensures
        events_after(s, r->Ok_0@) is Ok,
{
    let v = r->Ok_0@;
    if v.len() == 1 {
        lemma_events_one(s, v[0]);
        assert(v =~= seq![v[0]]);
        let n = s.closed.len();
        if n > 0 {
            let last = s.closed[n - 1].0;
            crate::time::lemma_day_order(last, day);
            if last == day {
                assert(is_closed(s.closed, day));
            }
        }
    } else {
        assert(v =~= Seq::<Event>::empty());
    }
}

/// Whatever `decide` returns, folding it succeeds: a decided command never
/// fails halfway through being applied.
/// A command the engine accepts always applies: everything `decide` lets
/// through folds into the state without error, so an error while applying is
/// an invariant break, never a refusal.
pub proof fn law_accepted_commands_apply(
    s: EngineView,
    fees: spec_fn(int) -> Result<int, DomainError>,
    cmd: Command,
    at: Timestamp,
    r: Result<Vec<Event>, EngineError>,
)
    requires
        well_formed(s),
        decided(s, fees, cmd, at, r),
        r is Ok,
    ensures
        events_after(s, r->Ok_0@) is Ok,
{
    match cmd {
        Command::CreateParticipant { participant, starting_cash } => {
            lemma_events_one(s, Event::ParticipantCreated { participant, starting_cash });
        },
        Command::SubmitOrder { id, participant, symbol, side, qty, limit_px } => {
            lemma_submit_applies(
                s,
                fees,
                NewOrder { id, participant, symbol, side, qty, limit_px, at },
                r,
            );
        },
        Command::CancelOrder { id } => {
            lemma_events_one(s, Event::OrderCancelled { id });
        },
        Command::ReplaceOrder { id, replacement_id, qty, limit_px } => {
            lemma_replace_applies(s, fees, id, replacement_id, qty, limit_px, at, r);
        },
        Command::Execute { id, qty, px } => {
            let f = fees(px@ * qty@)->Ok_0;
            let n = next_exec_id(s)->Some_0;
            lemma_events_one(
                s,
                Event::OrderFilled {
                    id,
                    exec_id: ExecutionId::from_spec(n),
                    qty,
                    px,
                    fee: Money::from_spec(f),
                },
            );
        },
        Command::AutoExecute { id } => {
            let res = choose|res: Result<Option<Execution>, BrokerError>|
                #[trigger] auto_fill(s, id, res) == auto_fill(s, id, res) && events_are(
                    r,
                    auto_fill(s, id, res),
                );
            let x = res->Ok_0->Some_0;
            let n = next_exec_id(s)->Some_0;
            lemma_events_one(
                s,
                Event::OrderFilled {
                    id,
                    exec_id: ExecutionId::from_spec(n),
                    qty: x.qty,
                    px: x.px,
                    fee: x.fee,
                },
            );
        },
        Command::UpdateMark { symbol, px } => {
            lemma_events_one(s, Event::MarkUpdated { symbol, px });
        },
        Command::CreateInstrument { spec } => {
            lemma_events_one(s, Event::InstrumentUpserted { spec });
        },
        Command::UpdateInstrument { spec } => {
            lemma_events_one(s, Event::InstrumentUpserted { spec });
        },
        Command::RemoveInstrument { symbol } => {
            lemma_events_one(s, Event::InstrumentRemoved { symbol });
        },
        Command::CloseDay { day } => {
            lemma_close_applies(s, day, r);
        },
    }
}

impl<B: Broker> Engine<B> {
    /// Decide, journal, apply: the only entry point for change.
    ///
    /// A refused command produces no events and leaves the state exactly as
    /// it was. An accepted one is journalled with the next sequence numbers,
    /// contiguous and at the caller's time, and the state becomes exactly the
    /// fold of that journal.
    pub fn execute(&mut self, at: Timestamp, command: Command) -> (r: Result<Vec<Journaled>, EngineError>)
        requires
            old(self)@.seq + 2 <= u64::MAX,
        ensures
            exists|evs: Result<Vec<Event>, EngineError>|
                decided(old(self)@, fees_of(old(self).broker_value()), command, at, evs)
                    && brokered(
                    old(self).broker_value(),
                    old(self)@,
                    fees_of(old(self).broker_value()),
                    command,
                    at,
                    evs,
                    final(self).broker_value(),
                ) && #[trigger] journalled(evs, r, old(self)@.seq, at),
            r is Err ==> final(self)@ == old(self)@,
            r matches Ok(j) ==> journal_after(old(self)@, j@) == Ok::<EngineView, EngineError>(
                final(self)@,
            ),
    {
        proof {
            use_type_invariant(&self.books);
        }
        let ghost s = self@;
        let ghost fees = fees_of(self.broker_value());
        let ghost cmd = command;
        let entries = match self.plan(at, command) {
            Ok(j) => j,
            Err(e) => {
                return Err(e);
            },
        };
        let ghost b1 = self.broker_value();
        proof {
            let evs = choose|evs: Result<Vec<Event>, EngineError>|
                decided(s, fees, cmd, at, evs) && brokered(old(self).broker_value(), s, fees, cmd, at, evs, b1)
                    && #[trigger] journalled(
                    evs,
                    Ok::<Vec<Journaled>, EngineError>(entries),
                    s.seq,
                    at,
                );
            law_accepted_commands_apply(s, fees, cmd, at, evs);
            lemma_journal_of_events(s, entries@, evs->Ok_0@, s.seq, at);
        }
        match self.commit(&entries) {
            Ok(()) => Ok(entries),
            Err(e) => Err(e),
        }
    }

    /// Rebuild state from a log. Never consults the broker: everything it
    /// decided is already recorded in the events.
    pub fn replay(broker: B, log: Vec<Journaled>) -> (r: Result<Engine<B>, EngineError>)
        ensures
            match journal_after(empty_view(), log@) {
                Ok(v) => r matches Ok(e) && e@ == v && e.broker_value() == broker,
                Err(err) => r matches Err(x) && x == err,
            },
    {
        let mut engine = Engine::new(broker);
        match engine.commit(&log) {
            Ok(()) => Ok(engine),
            Err(e) => Err(e),
        }
    }
}


// ---- reads --------------------------------------------------------------------

/// The orders in `os` placed by `k`, in id order; with `live_only`, only those
/// still working (submitted and not yet terminal).
pub open spec fn orders_placed_by(os: Seq<(Order, int)>, k: Seq<char>, live_only: bool) -> Seq<Order>
    decreases os.len(),
{
    if os.len() == 0 {
        Seq::empty()
    } else {
        let rest = orders_placed_by(os.drop_last(), k, live_only);
        let o = os.last().0;
        if o.participant@ == k && !(live_only && is_terminal_state(o.state)) {
            rest.push(o)
        } else {
            rest
        }
    }
}

/// The id the next order is minted with: one past the highest in use, or the
/// first id when there are none (held at the top of the range).
pub open spec fn next_id_after(os: Seq<(Order, int)>) -> int {
    if os.len() == 0 {
        1
    } else if os.last().0.id@ == u64::MAX {
        u64::MAX as int
    } else {
        os.last().0.id@ + 1
    }
}

impl<B: Broker> Engine<B> {
    pub fn portfolio(&self, id: &ParticipantId) -> (r: Result<&Portfolio, EngineError>)
        ensures
            match account_for(self@.accounts, id@) {
                Some(a) => r matches Ok(p) && p@ == a.book,
                None => r matches Err(e) && e == EngineError::UnknownParticipant(*id),
            },
    {
        match self.books.account_slot(id) {
            Some(i) => Ok(&self.books.accounts[i].portfolio),
            None => Err(EngineError::UnknownParticipant(id.clone())),
        }
    }

    /// Every participant's book, in participant-id order.
    pub fn participants(&self) -> (r: Vec<&Portfolio>)
        ensures
            r@.len() == self@.accounts.len(),
            forall|i: int| 0 <= i < r@.len() ==> (#[trigger] r@[i])@ == self@.accounts[i].book,
    {
        let mut out: Vec<&Portfolio> = Vec::new();
        let mut i: usize = 0;
        while i < self.books.accounts.len()
            invariant
                i <= self.books.accounts@.len(),
                self@.accounts.len() == self.books.accounts@.len(),
                out@.len() == i,
                forall|j: int| 0 <= j < i ==> (#[trigger] out@[j])@ == self@.accounts[j].book,
            decreases self.books.accounts@.len() - i,
        {
            assert(self@.accounts[i as int] == self.books.accounts@[i as int]@);
            out.push(&self.books.accounts[i].portfolio);
            i = i + 1;
        }
        out
    }

    pub fn order(&self, id: ClientOrderId) -> (r: Result<&Order, EngineError>)
        ensures
            match order_for(self@.orders, id@ as int) {
                Some(rec) => r matches Ok(o) && *o == rec.0,
                None => r == Err::<&Order, EngineError>(EngineError::UnknownOrder(id)),
            },
    {
        match self.books.order_slot(id) {
            Some(i) => {
                assert(self@.orders[i as int] == self.books.orders@[i as int]@);
                Ok(&self.books.orders[i].order)
            },
            None => Err(EngineError::UnknownOrder(id)),
        }
    }

    /// Every order, in id order.
    pub fn orders(&self) -> (r: Vec<&Order>)
        ensures
            r@.len() == self@.orders.len(),
            forall|i: int| 0 <= i < r@.len() ==> *(#[trigger] r@[i]) == self@.orders[i].0,
    {
        let mut out: Vec<&Order> = Vec::new();
        let mut i: usize = 0;
        while i < self.books.orders.len()
            invariant
                i <= self.books.orders@.len(),
                self@.orders.len() == self.books.orders@.len(),
                out@.len() == i,
                forall|j: int| 0 <= j < i ==> *(#[trigger] out@[j]) == self@.orders[j].0,
            decreases self.books.orders@.len() - i,
        {
            assert(self@.orders[i as int] == self.books.orders@[i as int]@);
            out.push(&self.books.orders[i].order);
            i = i + 1;
        }
        out
    }

    fn orders_placed(&self, id: &ParticipantId, live_only: bool) -> (r: Vec<&Order>)
        ensures
            r@.len() == orders_placed_by(self@.orders, id@, live_only).len(),
            forall|i: int|
                0 <= i < r@.len() ==> *(#[trigger] r@[i]) == orders_placed_by(
                    self@.orders,
                    id@,
                    live_only,
                )[i],
    {
        let ghost os = self@.orders;
        let mut out: Vec<&Order> = Vec::new();
        let mut i: usize = 0;
        assert(os.take(0) =~= Seq::<(Order, int)>::empty());
        while i < self.books.orders.len()
            invariant
                i <= self.books.orders@.len(),
                os == self@.orders,
                os.len() == self.books.orders@.len(),
                out@.len() == orders_placed_by(os.take(i as int), id@, live_only).len(),
                forall|j: int|
                    0 <= j < out@.len() ==> *(#[trigger] out@[j]) == orders_placed_by(
                        os.take(i as int),
                        id@,
                        live_only,
                    )[j],
            decreases self.books.orders@.len() - i,
        {
            proof {
                assert(os[i as int] == self.books.orders@[i as int]@);
                assert(os.take(i + 1).drop_last() =~= os.take(i as int));
                assert(os.take(i + 1).last() == os[i as int]);
            }
            let o = &self.books.orders[i].order;
            if o.participant.same(id) && !(live_only && o.state.is_terminal()) {
                out.push(o);
            }
            i = i + 1;
        }
        assert(os.take(i as int) =~= os);
        out
    }

    /// The orders `id` has placed, in id order.
    pub fn orders_of(&self, id: &ParticipantId) -> (r: Vec<&Order>)
        ensures
            r@.len() == orders_placed_by(self@.orders, id@, false).len(),
            forall|i: int|
                0 <= i < r@.len() ==> *(#[trigger] r@[i]) == orders_placed_by(
                    self@.orders,
                    id@,
                    false,
                )[i],
    {
        self.orders_placed(id, false)
    }

    /// The orders `id` has working: submitted and not yet terminal.
    pub fn working_orders_of(&self, id: &ParticipantId) -> (r: Vec<&Order>)
        ensures
            r@.len() == orders_placed_by(self@.orders, id@, true).len(),
            forall|i: int|
                0 <= i < r@.len() ==> *(#[trigger] r@[i]) == orders_placed_by(
                    self@.orders,
                    id@,
                    true,
                )[i],
    {
        self.orders_placed(id, true)
    }

    pub fn marks(&self) -> (r: &Marks)
        ensures
            r@ == self@.marks,
    {
        &self.books.marks
    }

    /// The sequence number of the last journalled event.
    pub fn seq(&self) -> (r: u64)
        ensures
            r == self@.seq,
    {
        self.books.seq
    }

    /// The fees charged on an order's fills so far; zero for an unknown order.
    pub fn fee_of(&self, id: ClientOrderId) -> (r: Money)
        ensures
            r@ == match order_for(self@.orders, id@ as int) {
                Some(rec) => rec.1,
                None => 0,
            },
    {
        match self.books.order_slot(id) {
            Some(i) => {
                assert(self@.orders[i as int] == self.books.orders@[i as int]@);
                self.books.orders[i].fees
            },
            None => Money::zero(),
        }
    }

    /// The broker's id for an order while it is live at the venue; none
    /// before the acknowledgement, after it ends, or for an unknown order.
    pub fn broker_id_of(&self, id: ClientOrderId) -> (r: Option<BrokerOrderId>)
        ensures
            r == match order_for(self@.orders, id@ as int) {
                Some(rec) => broker_id_of(rec.0.state),
                None => None,
            },
    {
        match self.books.order_slot(id) {
            Some(i) => {
                assert(self@.orders[i as int] == self.books.orders@[i as int]@);
                self.books.orders[i].order.state.broker_id()
            },
            None => None,
        }
    }

    /// The security master, in symbol order.
    pub fn instruments(&self) -> (r: Vec<&InstrumentSpec>)
        ensures
            r@.len() == self@.instruments.len(),
            forall|i: int| 0 <= i < r@.len() ==> *(#[trigger] r@[i]) == self@.instruments[i],
    {
        let mut out: Vec<&InstrumentSpec> = Vec::new();
        let mut i: usize = 0;
        while i < self.books.instruments.len()
            invariant
                i <= self.books.instruments@.len(),
                self@.instruments == self.books.instruments@,
                out@.len() == i,
                forall|j: int| 0 <= j < i ==> *(#[trigger] out@[j]) == self@.instruments[j],
            decreases self.books.instruments@.len() - i,
        {
            out.push(&self.books.instruments[i]);
            i = i + 1;
        }
        out
    }

    pub fn instrument(&self, symbol: &Symbol) -> (r: Option<&InstrumentSpec>)
        ensures
            match instrument_for(self@.instruments, symbol@) {
                Some(spec) => r matches Some(x) && *x == spec,
                None => r is None,
            },
    {
        match self.books.instrument_slot(symbol) {
            Some(i) => Some(&self.books.instruments[i]),
            None => None,
        }
    }

    /// The tape: every execution in the world, in the order booked (which is
    /// execution-id order).
    pub fn all_executions(&self) -> (r: Vec<ExecRow>)
        ensures
            r@ == self@.executions,
    {
        self.books.executions.clone()
    }

    /// The trade blotter of one order: its executions, in the order booked.
    pub fn executions_of(&self, id: ClientOrderId) -> (r: Vec<ExecRow>)
        ensures
            r@ == executions_for(self@.executions, id),
    {
        let tape = &self.books.executions;
        let mut out: Vec<ExecRow> = Vec::new();
        let mut i: usize = 0;
        while i < tape.len()
            invariant
                i <= tape@.len(),
                tape@ == self@.executions,
                out@ == executions_for(tape@.take(i as int), id),
            decreases tape@.len() - i,
        {
            assert(tape@.take(i + 1).drop_last() =~= tape@.take(i as int));
            if tape[i].order == id {
                out.push(tape[i]);
            }
            i = i + 1;
        }
        assert(tape@.take(tape@.len() as int) =~= tape@);
        out
    }

    /// Every closed day, oldest first.
    pub fn closed_days(&self) -> (r: Vec<TradingDay>)
        ensures
            r@.len() == self@.closed.len(),
            forall|i: int| 0 <= i < r@.len() ==> #[trigger] r@[i] == self@.closed[i].0,
    {
        let mut out: Vec<TradingDay> = Vec::new();
        let mut i: usize = 0;
        while i < self.books.closed.len()
            invariant
                i <= self.books.closed@.len(),
                self@.closed.len() == self.books.closed@.len(),
                out@.len() == i,
                forall|j: int| 0 <= j < i ==> #[trigger] out@[j] == self@.closed[j].0,
            decreases self.books.closed@.len() - i,
        {
            assert(self@.closed[i as int] == self.books.closed@[i as int]@);
            out.push(self.books.closed[i].day);
            i = i + 1;
        }
        out
    }

    /// The id to mint next: one past the highest in use, so a rebuilt engine
    /// never re-issues an id that is already resting.
    pub fn next_order_id(&self) -> (r: u64)
        ensures
            r == next_id_after(self@.orders),
    {
        let n = self.books.orders.len();
        if n == 0 {
            return 1;
        }
        assert(self@.orders[n - 1] == self.books.orders@[n - 1]@);
        let last = self.books.orders[n - 1].order.id.get();
        if last == u64::MAX {
            u64::MAX
        } else {
            last + 1
        }
    }
}


// ---- published results ------------------------------------------------------------

pub open spec fn closed_index(c: Seq<(TradingDay, Seq<DayInput>)>, day: TradingDay) -> int {
    choose|i: int| 0 <= i < c.len() && (#[trigger] c[i]).0 == day
}

/// The facts `day` closed on, if it is closed.
pub open spec fn closed_entries(c: Seq<(TradingDay, Seq<DayInput>)>, day: TradingDay) -> Option<
    Seq<DayInput>,
> {
    if is_closed(c, day) {
        Some(c[closed_index(c, day)].1)
    } else {
        None
    }
}

pub open spec fn has_repeat(inputs: Seq<DayInput>) -> bool {
    exists|i: int| 0 <= i < inputs.len() && repeats_earlier(inputs, i)
}

/// The first input whose participant appeared before it.
pub open spec fn first_repeat(inputs: Seq<DayInput>) -> int {
    choose|i: int|
        0 <= i < inputs.len() && repeats_earlier(inputs, i) && forall|k: int|
            0 <= k < i ==> !repeats_earlier(inputs, k)
}

/// Why a day closed on `entries` publishes no board, if it publishes none: a
/// participant twice, nobody at all, or more rows than ranks can number.
pub open spec fn board_error(day: TradingDay, entries: Seq<DayInput>) -> Option<EngineError> {
    if has_repeat(entries) {
        Some(
            EngineError::Scoring(
                ScoringError::DuplicateParticipant(entries[first_repeat(entries)].participant),
            ),
        )
    } else if entries.len() == 0 {
        Some(EngineError::Scoring(ScoringError::NoParticipants { day }))
    } else if entries.len() > u32::MAX {
        Some(EngineError::Domain(DomainError::Overflow("rank")))
    } else {
        None
    }
}

/// `b` is the board of `day` closed on `entries`: one row per entry, ranked
/// 1, 2, ... in rank order, holding exactly the entries' results.
pub open spec fn board_for(day: TradingDay, entries: Seq<DayInput>, b: Leaderboard) -> bool {
    &&& b.day == day
    &&& b.rows@.len() == entries.len()
    &&& forall|i: int| 0 <= i < b.rows@.len() ==> (#[trigger] b.rows@[i]).rank == i + 1
    &&& in_rank_order(results_of(b.rows@))
    &&& exists|v: Seq<DailyResult>|
        #![trigger v.to_multiset()]
        v.len() == entries.len() && (forall|i: int|
            0 <= i < v.len() ==> result_matches(#[trigger] v[i], entries[i]))
            && results_of(b.rows@).to_multiset() == v.to_multiset()
}

pub open spec fn board_outcome(day: TradingDay, entries: Seq<DayInput>, r: Result<
    Leaderboard,
    EngineError,
>) -> bool {
    match board_error(day, entries) {
        Some(e) => r == Err::<Leaderboard, EngineError>(e),
        None => r matches Ok(b) && board_for(day, entries, b),
    }
}

/// The first closed day, oldest first, that publishes no board.
pub open spec fn first_board_error(c: Seq<(TradingDay, Seq<DayInput>)>) -> Option<EngineError>
    decreases c.len(),
{
    if c.len() == 0 {
        None
    } else {
        match first_board_error(c.drop_last()) {
            Some(e) => Some(e),
            None => board_error(c.last().0, c.last().1),
        }
    }
}

/// `bs` are the boards of the closed days `c`, day by day.
pub open spec fn boards_of(c: Seq<(TradingDay, Seq<DayInput>)>, bs: Seq<Leaderboard>) -> bool {
    bs.len() == c.len() && forall|i: int|
        0 <= i < c.len() ==> board_for(c[i].0, c[i].1, #[trigger] bs[i])
}

/// `rows` is the ladder over the board rows `rs`: ordered and placed, one row
/// per participant who appears, each the compounding of their rows.
pub open spec fn ladder_of(rs: Seq<LeaderboardRow>, rows: Seq<LadderRow>) -> bool {
    &&& in_ladder_order(rows)
    &&& placed(rows)
    &&& distinct_ladder(rows)
    &&& forall|i: int| 0 <= i < rows.len() ==> ladder_row_matches(#[trigger] rows[i], rs)
    &&& forall|k: Seq<char>|
        appears(rs, k) ==> exists|i: int| 0 <= i < rows.len() && (#[trigger] rows[i]).participant@ == k
    &&& forall|k: Seq<char>| appears(rs, k) ==> !compounding_fails(rs, k)
}

/// The ladder over the board rows `rs`, or why there is none: more rows than
/// the points can count, or a participant whose compounding overflows.
pub open spec fn ladder_outcome(rs: Seq<LeaderboardRow>, r: Result<Vec<LadderRow>, EngineError>) -> bool {
    if 25 * (rs.len() + 1) > u32::MAX {
        r == Err::<Vec<LadderRow>, EngineError>(EngineError::Domain(DomainError::Overflow("points")))
    } else {
        match r {
            Ok(rows) => ladder_of(rs, rows@),
            Err(e) => e matches EngineError::Scoring(ScoringError::Overflow(p)) && appears(rs, p@)
                && compounding_fails(rs, p@),
        }
    }
}

pub proof fn lemma_first_error_prefix(c: Seq<(TradingDay, Seq<DayInput>)>, n: int)
    requires
        0 <= n <= c.len(),
        first_board_error(c.take(n)) is Some,
    ensures
        first_board_error(c) == first_board_error(c.take(n)),
    decreases c.len(),
{
    if n < c.len() {
        assert(c.drop_last().take(n) =~= c.take(n));
        lemma_first_error_prefix(c.drop_last(), n);
    } else {
        assert(c.take(n) =~= c);
    }
}

impl Books {
    fn closed_slot(&self, day: TradingDay) -> (r: Option<usize>)
        ensures
            match r {
                Some(i) => i < self@.closed.len() && self@.closed[i as int].0 == day && closed_entries(
                    self@.closed,
                    day,
                ) == Some(self@.closed[i as int].1),
                None => closed_entries(self@.closed, day) is None,
            },
    {
        proof {
            use_type_invariant(self);
        }
        let ghost c = self@.closed;
        let mut i: usize = 0;
        while i < self.closed.len()
            invariant
                i <= self.closed@.len(),
                c == self@.closed,
                c.len() == self.closed@.len(),
                closed_in_order(c),
                forall|j: int| 0 <= j < i ==> (#[trigger] c[j]).0 != day,
            decreases self.closed@.len() - i,
        {
            assert(c[i as int] == self.closed@[i as int]@);
            if self.closed[i].day == day {
                proof {
                    assert(is_closed(c, day));
                    let j = closed_index(c, day);
                    if j < i {
                        assert(c[j].0 != day);
                    } else if i < j {
                        assert(day_before(c[i as int].0@, c[j].0@));
                        lemma_day_before_irreflexive(day@);
                    }
                }
                return Some(i);
            }
            i = i + 1;
        }
        None
    }
}

/// The board a day closed on `entries` publishes, recomputed from the facts.
fn board(day: TradingDay, entries: &Vec<DayInput>) -> (r: Result<Leaderboard, EngineError>)
    ensures
        board_outcome(day, entries@, r),
{
    let inputs = clone_entries(entries);
    let results = match daily_results(inputs) {
        Ok(v) => v,
        Err(e) => {
            proof {
                let i = choose|i: int|
                    0 <= i < entries@.len() && repeats_earlier(entries@, i) && (forall|k: int|
                        0 <= k < i ==> !repeats_earlier(entries@, k)) && e
                        == ScoringError::DuplicateParticipant(entries@[i].participant);
                assert(has_repeat(entries@));
                let f = first_repeat(entries@);
                if f < i {
                    assert(!repeats_earlier(entries@, f));
                } else if i < f {
                    assert(!repeats_earlier(entries@, i));
                }
            }
            return Err(EngineError::Scoring(e));
        },
    };
    proof {
        if has_repeat(entries@) {
            let i = choose|i: int| 0 <= i < entries@.len() && repeats_earlier(entries@, i);
            assert(!repeats_earlier(entries@, i));
        }
    }
    if results.len() > 4294967295usize {
        return Err(EngineError::Domain(DomainError::Overflow("rank")));
    }
    let ghost v = results@;
    match crate::scoring::leaderboard(day, results) {
        Ok(b) => {
            assert(results_of(b.rows@).to_multiset() == v.to_multiset());
            Ok(b)
        },
        Err(e) => Err(EngineError::Scoring(e)),
    }
}

impl<B: Broker> Engine<B> {
    /// The published leaderboard for a closed day, recomputed from the stored
    /// facts. Refused for a day that is still open rather than invented.
    pub fn leaderboard(&self, day: TradingDay) -> (r: Result<Leaderboard, EngineError>)
        ensures
            match closed_entries(self@.closed, day) {
                None => r == Err::<Leaderboard, EngineError>(EngineError::DayNotClosed(day)),
                Some(es) => board_outcome(day, es, r),
            },
    {
        match self.books.closed_slot(day) {
            None => Err(EngineError::DayNotClosed(day)),
            Some(i) => {
                assert(self@.closed[i as int] == self.books.closed@[i as int]@);
                board(day, &self.books.closed[i].entries)
            },
        }
    }

    /// The overall ladder across every closed day, oldest first. The first
    /// day without a board refuses it.
    pub fn ladder(&self) -> (r: Result<Vec<LadderRow>, EngineError>)
        ensures
            match first_board_error(self@.closed) {
                Some(e) => r == Err::<Vec<LadderRow>, EngineError>(e),
                None => exists|bs: Seq<Leaderboard>|
                    #[trigger] boards_of(self@.closed, bs) && ladder_outcome(all_rows(bs), r),
            },
    {
        let ghost c = self@.closed;
        let mut boards: Vec<Leaderboard> = Vec::new();
        let mut total: u64 = 0;
        let mut i: usize = 0;
        assert(c.take(0) =~= Seq::<(TradingDay, Seq<DayInput>)>::empty());
        while i < self.books.closed.len()
            invariant
                i <= self.books.closed@.len(),
                c == self@.closed,
                c.len() == self.books.closed@.len(),
                first_board_error(c.take(i as int)) is None,
                boards@.len() == i,
                forall|j: int| 0 <= j < i ==> board_for(c[j].0, c[j].1, #[trigger] boards@[j]),
                total <= 8589934590,
                total == all_rows(boards@).len() || (total > u32::MAX && all_rows(boards@).len()
                    > u32::MAX),
            decreases self.books.closed@.len() - i,
        {
            proof {
                assert(c[i as int] == self.books.closed@[i as int]@);
                assert(c.take(i + 1).drop_last() =~= c.take(i as int));
                assert(c.take(i + 1).last() == c[i as int]);
            }
            let day = self.books.closed[i].day;
            let b = match board(day, &self.books.closed[i].entries) {
                Ok(b) => b,
                Err(e) => {
                    proof {
                        assert(first_board_error(c.take(i + 1)) == Some(e));
                        lemma_first_error_prefix(c, i + 1);
                    }
                    return Err(e);
                },
            };
            let n = b.rows.len();
            assert(n <= u32::MAX);
            if total <= 4294967295u64 {
                total = total + n as u64;
            }
            proof {
                assert(boards@.push(b).drop_last() =~= boards@);
            }
            boards.push(b);
            i = i + 1;
        }
        assert(c.take(i as int) =~= c);
        assert(boards_of(c, boards@));
        if 25 * (total + 1) > 4294967295u64 {
            return Err(EngineError::Domain(DomainError::Overflow("points")));
        }
        match crate::scoring::ladder(boards.as_slice()) {
            Ok(rows) => Ok(rows),
            Err(e) => Err(EngineError::Scoring(e)),
        }
    }
}


// ---- closed days stay closed ---------------------------------------------------------

/// `t` keeps every day `s` had closed, with the facts it closed on.
pub open spec fn keeps_closed(s: EngineView, t: EngineView) -> bool {
    &&& t.closed.len() >= s.closed.len()
    &&& forall|k: int| 0 <= k < s.closed.len() ==> #[trigger] t.closed[k] == s.closed[k]
}

/// Only a close touches the closed days.
proof fn lemma_after_keeps_closed(s: EngineView, e: Event)
    requires
        !(e is DayClosed),
        after(s, e) is Ok,
    ensures
        after(s, e)->Ok_0.closed == s.closed,
{
}

/// A decision emits a close only when asked to close a day.
proof fn lemma_decided_closes_only_on_close(
    s: EngineView,
    fees: spec_fn(int) -> Result<int, DomainError>,
    cmd: Command,
    at: Timestamp,
    r: Result<Vec<Event>, EngineError>,
)
    requires
        decided(s, fees, cmd, at, r),
        !(cmd is CloseDay),
    ensures
        r matches Ok(v) ==> forall|i: int| 0 <= i < v@.len() ==> !(#[trigger] v@[i] is DayClosed),
{
    match cmd {
        Command::SubmitOrder { id, participant, symbol, side, qty, limit_px } => {
            let p = submit_plan(s, fees, NewOrder { id, participant, symbol, side, qty, limit_px, at });
            if let Plan::AskBroker { order, first } = p {
                let resp = choose|resp: OrderEvent|
                    #[trigger] answered(first, id, resp) == answered(first, id, resp) && events_are(
                        r,
                        answered(first, id, resp),
                    );
            }
        },
        Command::ReplaceOrder { id, replacement_id, qty, limit_px } => {
            let p = replace_plan(s, fees, id, replacement_id, qty, limit_px, at);
            if let Plan::AskBroker { order, first } = p {
                let resp = choose|resp: OrderEvent|
                    #[trigger] answered(first, replacement_id, resp) == answered(
                        first,
                        replacement_id,
                        resp,
                    ) && events_are(r, answered(first, replacement_id, resp));
            }
        },
        Command::AutoExecute { id } => {
            if order_for(s.orders, id@ as int) is Some {
                let res = choose|res: Result<Option<Execution>, BrokerError>|
                    #[trigger] auto_fill(s, id, res) == auto_fill(s, id, res) && events_are(
                        r,
                        auto_fill(s, id, res),
                    );
            }
        },
        _ => {},
    }
}

proof fn lemma_events_keep_closed(s: EngineView, evs: Seq<Event>)
    requires
        forall|i: int| 0 <= i < evs.len() ==> !(#[trigger] evs[i] is DayClosed),
        events_after(s, evs) is Ok,
    ensures
        events_after(s, evs)->Ok_0.closed == s.closed,
    decreases evs.len(),
{
    if evs.len() > 0 {
        assert(evs.last() == evs[evs.len() - 1]);
        lemma_events_keep_closed(s, evs.drop_last());
        let t = events_after(s, evs.drop_last())->Ok_0;
        lemma_after_keeps_closed(t, evs.last());
    }
}

/// Closed days are immutable: whatever command is decided and applied, every
/// day already closed keeps exactly the facts it closed on. Re-closing a day
/// does nothing, a late day is refused, and a new day is filed after the
/// others.
pub proof fn law_closed_days_are_immutable(
    s: EngineView,
    fees: spec_fn(int) -> Result<int, DomainError>,
    cmd: Command,
    at: Timestamp,
    r: Result<Vec<Event>, EngineError>,
)
    requires
        well_formed(s),
        decided(s, fees, cmd, at, r),
        r is Ok,
        events_after(s, r->Ok_0@) is Ok,
    ensures
        keeps_closed(s, events_after(s, r->Ok_0@)->Ok_0),
{
    let v = r->Ok_0@;
    let t = events_after(s, v)->Ok_0;
    if let Command::CloseDay { day } = cmd {
        if v.len() == 1 {
            assert(v =~= seq![v[0]]);
            lemma_events_one(s, v[0]);
            let n = s.closed.len();
            assert(!is_closed(s.closed, day));
            if n > 0 {
                assert(s.closed[n - 1].0 != day);
                lemma_day_order(day, s.closed[n - 1].0);
            }
            if let Event::DayClosed { day: d, entries: es } = v[0] {
                assert(t.closed == s.closed.push((d, es@)));
            }
        } else {
            assert(v.len() == 0);
            assert(v =~= Seq::<Event>::empty());
            assert(t == s);
        }
    } else {
        lemma_decided_closes_only_on_close(s, fees, cmd, at, r);
        lemma_events_keep_closed(s, v);
    }
}

/// Closing a day that is already closed decides nothing at all: a published
/// ranking is never silently recomputed.
pub proof fn law_reclosing_decides_nothing(
    s: EngineView,
    fees: spec_fn(int) -> Result<int, DomainError>,
    day: TradingDay,
    at: Timestamp,
    r: Result<Vec<Event>, EngineError>,
)
    requires
        is_closed(s.closed, day),
        decided(s, fees, Command::CloseDay { day }, at, r),
    ensures
        r matches Ok(v) && v@.len() == 0,
{
}


// ---- from one close to the next ----------------------------------------------------

/// The notional `e` adds to participant `k`'s day turnover: a fill of one of
/// `k`'s orders adds `px × qty`, anything else nothing.
pub open spec fn turnover_of(s: EngineView, e: Event, k: Seq<char>) -> int {
    match e {
        Event::OrderFilled { id, qty, px, .. } => match order_for(s.orders, id@ as int) {
            Some(rec) => if rec.0.participant@ == k {
                px@ * qty@
            } else {
                0
            },
            None => 0,
        },
        _ => 0,
    }
}

/// Filing a new account under a new key leaves every other account found
/// where it was.
proof fn lemma_account_kept_by_insert(
    accs: Seq<AccountView>,
    p: Seq<char>,
    x: AccountView,
    k: Seq<char>,
)
    requires
        strictly_sorted(account_keys(accs)),
        !has_key(account_keys(accs), p),
        x.book.participant == p,
        k != p,
    ensures
        account_for(accs.insert(count_below(account_keys(accs), p), x), k) == account_for(accs, k),
{
    let keys = account_keys(accs);
    let c = count_below(keys, p);
    lemma_count_below_splits(keys, p);
    let accs2 = accs.insert(c, x);
    let keys2 = account_keys(accs2);
    assert(keys2 =~= keys.insert(c, p));
    if c < keys.len() {
        assert(keys[c] != p);
        lemma_lex_total(keys[c], p);
    }
    lemma_sorted_insert(keys, c, p);
    if has_key(keys, k) {
        let j = key_index(keys, k);
        let j2 = if j < c {
            j
        } else {
            j + 1
        };
        assert(keys2[j2] == k);
        assert(has_key(keys2, k));
        let i2 = key_index(keys2, k);
        lemma_sorted_unique(keys2, i2, j2);
        assert(accs2[j2] == accs[j]);
    } else {
        if has_key(keys2, k) {
            let i2 = key_index(keys2, k);
            if i2 < c {
                assert(keys[i2] == k);
            } else if i2 > c {
                assert(keys[i2 - 1] == k);
            }
        }
    }
}

/// Between two closes an account keeps the baseline its last close set, and
/// its day turnover grows by exactly the notional of its own fills: a day's
/// return is measured from the previous close, over that day's trading.
pub proof fn law_between_closes_the_baseline_stays(s: EngineView, e: Event, t: EngineView, k: Seq<char>)
    requires
        well_formed(s),
        after(s, e) == Ok::<EngineView, EngineError>(t),
        !(e is DayClosed),
        account_for(s.accounts, k) is Some,
    ensures
        account_for(t.accounts, k) matches Some(b) && b.last_close == account_for(
            s.accounts,
            k,
        )->Some_0.last_close && b.turnover == account_for(s.accounts, k)->Some_0.turnover
            + turnover_of(s, e, k),
{
    let keys = account_keys(s.accounts);
    match e {
        Event::ParticipantCreated { participant, starting_cash } => {
            let x = fresh_account(participant, starting_cash);
            assert(!has_key(keys, participant@));
            assert(participant@ != k);
            lemma_account_kept_by_insert(s.accounts, participant@, x, k);
        },
        Event::OrderFilled { id, qty, px, fee, .. } => {
            let rec = order_for(s.orders, id@ as int)->Some_0;
            let owner = rec.0.participant@;
            let a = account_for(s.accounts, owner)->Some_0;
            let i = key_index(keys, owner);
            let st = transition(rec.0.state, rec.0.qty@, OrderEvent::Fill { qty, px })->Ok_0;
            let eff = fill_effect(a.book, fill_of(rec.0, qty, px, fee))->Ok_0;
            let na = AccountView {
                book: booked(a.book, fill_of(rec.0, qty, px, fee), eff),
                turnover: a.turnover + px@ * qty@,
                traded: true,
                ..a
            };
            assert(t.accounts == s.accounts.update(i, na));
            assert(account_keys(t.accounts) =~= keys);
            let j = key_index(keys, k);
            if owner == k {
                assert(j == i);
            } else {
                if j == i {
                    assert(keys[j] == k && keys[i] == owner);
                }
                assert(t.accounts[j] == s.accounts[j]);
            }
        },
        _ => {
            assert(t.accounts == s.accounts);
        },
    }
}

/// A close sets every listed participant's next baseline to the closing
/// value it published, and starts the day's counters again: the next day's
/// entry measures from this close, over fresh turnover.
pub proof fn law_a_close_sets_the_next_baseline(
    s: EngineView,
    day: TradingDay,
    entries: Seq<DayInput>,
    t: EngineView,
    k: Seq<char>,
    x: DayInput,
)
    requires
        closed_after(s, day, entries) == Ok::<EngineView, EngineError>(t),
        account_for(s.accounts, k) is Some,
        entry_for(entries, k) == Some(x),
    ensures
        account_for(t.accounts, k) matches Some(b) && b.last_close == Some(x.closing_value@)
            && b.turnover == 0 && !b.traded,
        forall|marks: Seq<(Symbol, Px)>|
            #[trigger] entry_of(account_for(t.accounts, k)->Some_0, marks) matches Ok(d) ==> d.prior_closing_value@
                == x.closing_value@ && d.turnover@ == 0,
{
    let keys = account_keys(s.accounts);
    let a = account_for(s.accounts, k)->Some_0;
    let i = key_index(keys, k);
    assert(account_keys(t.accounts) =~= keys);
    assert(t.accounts[i] == closed_account(s.accounts[i], entries));
    assert(s.accounts[i].book.participant == k);
    let b = t.accounts[i];
    assert(account_for(t.accounts, k) == Some(b));
    Money::lemma_from_spec(x.closing_value@);
    Money::lemma_from_spec(0);
}


// ---- the venue's gate and the pre-trade check ----------------------------------------

/// The size cap binds: an order on an instrument in the security master, on
/// its price grid and its lot, but larger than its per-order cap, is refused
/// by the venue as exceeding the size limit.
pub proof fn law_orders_over_the_size_cap_are_refused(
    ins: Seq<InstrumentSpec>,
    symbol: Seq<char>,
    px: int,
    qty: int,
    spec: InstrumentSpec,
    cap: Qty,
)
    requires
        instrument_for(ins, symbol) == Some(spec),
        spec.tick@ > 0,
        px % spec.tick@ == 0,
        spec.lot@ > 0,
        qty % spec.lot@ == 0,
        spec.max_order_qty == Some(cap),
        qty > cap@,
    ensures
        venue_verdict(ins, symbol, px, qty) == Some(RejectReason::ExceedsSizeLimit),
{
}

/// What the venue lets through: with a security master, only orders on a
/// listed instrument, on its price grid and lot, and within its size cap.
pub proof fn law_the_venue_passes_only_conforming_orders(
    ins: Seq<InstrumentSpec>,
    symbol: Seq<char>,
    px: int,
    qty: int,
)
    requires
        ins.len() > 0,
        venue_verdict(ins, symbol, px, qty) is None,
    ensures
        instrument_for(ins, symbol) matches Some(spec) && px % spec.tick@ == 0 && spec.lot@ != 0
            && qty % spec.lot@ == 0 && (spec.max_order_qty matches Some(cap) ==> qty <= cap@),
{
}

/// Submitting an order over the size cap records it and rejects it at once:
/// the decision is exactly the submission and a rejection for exceeding the
/// size limit.
pub proof fn law_an_over_cap_submission_is_recorded_and_rejected(
    s: EngineView,
    fees: spec_fn(int) -> Result<int, DomainError>,
    req: NewOrder,
    r: Result<Vec<Event>, EngineError>,
    spec: InstrumentSpec,
    cap: Qty,
)
    requires
        decided(
            s,
            fees,
            Command::SubmitOrder {
                id: req.id,
                participant: req.participant,
                symbol: req.symbol,
                side: req.side,
                qty: req.qty,
                limit_px: req.limit_px,
            },
            req.at,
            r,
        ),
        !has_order(s.orders, req.id@ as int),
        account_for(s.accounts, req.participant@) is Some,
        req.qty@ > 0,
        instrument_for(s.instruments, req.symbol@) == Some(spec),
        spec.tick@ > 0,
        req.limit_px@ % spec.tick@ == 0,
        spec.lot@ > 0,
        req.qty@ % spec.lot@ == 0,
        spec.max_order_qty == Some(cap),
        req.qty@ > cap@,
    ensures
        r matches Ok(v) && v@ == seq![
            Event::OrderSubmitted { order: req },
            Event::OrderRejected { id: req.id, reason: RejectReason::ExceedsSizeLimit },
        ],
{
    law_orders_over_the_size_cap_are_refused(
        s.instruments,
        req.symbol@,
        req.limit_px@,
        req.qty@,
        spec,
        cap,
    );
    let req2 = NewOrder {
        id: req.id,
        participant: req.participant,
        symbol: req.symbol,
        side: req.side,
        qty: req.qty,
        limit_px: req.limit_px,
        at: req.at,
    };
    assert(req2 == req);
}

/// `k`'s own orders, in id order.
pub open spec fn own_orders(os: Seq<(Order, int)>, k: Seq<char>) -> Seq<(Order, int)>
    decreases os.len(),
{
    if os.len() == 0 {
        Seq::empty()
    } else if os[0].0.participant@ == k {
        seq![os[0]] + own_orders(os.drop_first(), k)
    } else {
        own_orders(os.drop_first(), k)
    }
}

proof fn lemma_reserved_only_own(
    os: Seq<(Order, int)>,
    k: Seq<char>,
    sym: Seq<char>,
    excl: Option<ClientOrderId>,
    fees: spec_fn(int) -> Result<int, DomainError>,
    acc: int,
)
    ensures
        reserved_cash(os, k, excl, fees, acc) == reserved_cash(own_orders(os, k), k, excl, fees, acc),
        reserved_qty(os, k, sym, excl, acc) == reserved_qty(own_orders(os, k), k, sym, excl, acc),
    decreases os.len(),
{
    if os.len() > 0 {
        let rest = os.drop_first();
        if os[0].0.participant@ == k {
            let own = own_orders(os, k);
            let o = os[0].0;
            assert(own[0] == os[0]);
            assert(own.drop_first() =~= own_orders(rest, k));
            let rem = o.qty@ - filled_of(o.state);
            let n = o.limit_px@ * rem;
            lemma_reserved_only_own(rest, k, sym, excl, fees, acc);
            lemma_reserved_only_own(rest, k, sym, excl, fees, acc + rem);
            if fees(n) is Ok {
                lemma_reserved_only_own(rest, k, sym, excl, fees, acc + n + fees(n)->Ok_0);
            }
        } else {
            lemma_reserved_only_own(rest, k, sym, excl, fees, acc);
        }
    }
}

/// A participant's available cash and shares are their own less what their
/// own working orders reserve: other participants' orders never count
/// against them.
pub proof fn law_only_own_orders_reserve(
    s: EngineView,
    k: ParticipantId,
    sym: Seq<char>,
    excl: Option<ClientOrderId>,
    fees: spec_fn(int) -> Result<int, DomainError>,
)
    ensures
        available_cash(s, k, excl, fees) == available_cash(
            EngineView { orders: own_orders(s.orders, k@), ..s },
            k,
            excl,
            fees,
        ),
        available_qty(s, k, sym, excl) == available_qty(
            EngineView { orders: own_orders(s.orders, k@), ..s },
            k,
            sym,
            excl,
        ),
{
    lemma_reserved_only_own(s.orders, k@, sym, excl, fees, 0);
}

} // verus!
