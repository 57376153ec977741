//! Request and response shapes, and the seam between them and the domain.
//!
//! The shapes are a contract with the outside world, kept apart from the
//! domain types so an internal rename is never a breaking change; the
//! functions here are the only place the outside shape is decided. Amounts
//! and returns cross as decimal text, never as floating-point numbers.
//!
//! Requests are parsed strictly: a malformed field is rejected, never
//! repaired into a guess.
use vstd::prelude::*;

use crate::command::Command;
use crate::error::DomainError;
use crate::ids::{
    ident_error, valid_participant, valid_symbol, BrokerOrderId, ClientOrderId, IdentKind,
    ParticipantId, Symbol,
};
use crate::instrument::InstrumentSpec;
use crate::lifecycle::{cost_of, filled_of, state_name};
use crate::money::{fault_matches, fixed_outcome, money_range, render_fixed, Money, Px, Qty};
use crate::order::{Order, Side};
use crate::portfolio::{
    held_positions, mark_for, total_value_of, valuation, Marks, Portfolio, PortfolioError,
    Valuation,
};
use crate::position::Position;
use crate::problem::AppError;
use crate::scoring::{decimal_text, LadderRow, Leaderboard, LeaderboardRow};
use crate::text::{chars_of, string_of};
use crate::time::iso_text;

verus! {

broadcast use crate::money::group_money;

// ---- requests -------------------------------------------------------------------

pub struct CreateParticipant {
    pub id: String,
    pub starting_cash: String,
}

pub struct SubmitOrder {
    pub participant: String,
    pub symbol: String,
    /// `"buy"` or `"sell"`.
    pub side: String,
    pub qty: i64,
    pub limit_px: String,
}

pub struct ReplaceOrder {
    pub qty: i64,
    pub limit_px: String,
}

/// Drive an execution. Omit both terms to let the broker's seeded policy
/// choose them.
pub struct Execute {
    pub client_order_id: u64,
    pub qty: Option<i64>,
    pub px: Option<String>,
}

pub struct MarkUpdate {
    pub symbol: String,
    pub px: String,
}

/// An instrument's terms; the lot defaults to one share.
pub struct InstrumentBody {
    pub tick: String,
    pub lot: Option<i64>,
    pub max_order_qty: Option<i64>,
}

pub struct CreateInstrument {
    pub symbol: String,
    pub spec: InstrumentBody,
}

// ---- parsing at the edge -----------------------------------------------------------

pub open spec fn participant_result(s: Seq<char>, r: Result<ParticipantId, AppError>) -> bool {
    if valid_participant(s) {
        r matches Ok(p) && p@ == s
    } else {
        r matches Err(AppError::Domain(e)) && ident_error(IdentKind::Participant, e, s)
    }
}

pub open spec fn symbol_result(s: Seq<char>, r: Result<Symbol, AppError>) -> bool {
    if valid_symbol(s) {
        r matches Ok(x) && x@ == s
    } else {
        r matches Err(AppError::Domain(e)) && ident_error(IdentKind::Symbol, e, s)
    }
}

pub open spec fn money_result(s: Seq<char>, r: Result<Money, AppError>) -> bool {
    match fixed_outcome(s, true) {
        Ok(v) => r matches Ok(m) && m@ == v,
        Err(f) => r matches Err(AppError::Domain(e)) && fault_matches(e, f, "cash", s),
    }
}

/// Price text is accepted: a decimal, positive, with at most four places.
pub open spec fn price_accepted(s: Seq<char>) -> bool {
    fixed_outcome(s, false) matches Ok(v) && v > 0
}

pub open spec fn price_result(s: Seq<char>, r: Result<Px, AppError>) -> bool {
    match fixed_outcome(s, false) {
        Ok(v) => if v > 0 {
            r matches Ok(p) && p@ == v
        } else {
            r == Err::<Px, AppError>(AppError::Domain(DomainError::NonPositivePx(v as i64)))
        },
        Err(f) => r matches Err(AppError::Domain(e)) && fault_matches(e, f, "price", s),
    }
}

pub open spec fn qty_result(n: i64, r: Result<Qty, AppError>) -> bool {
    if n >= 0 {
        r matches Ok(q) && q@ == n
    } else {
        r == Err::<Qty, AppError>(AppError::Domain(DomainError::NegativeQty(n)))
    }
}

/// Which side a request names: exactly `"buy"` or `"sell"`.
pub open spec fn side_named(s: Seq<char>) -> Option<Side> {
    if s == "buy"@ {
        Some(Side::Buy)
    } else if s == "sell"@ {
        Some(Side::Sell)
    } else {
        None
    }
}

pub fn participant(s: &str) -> (r: Result<ParticipantId, AppError>)
    ensures
        participant_result(s@, r),
{
    match ParticipantId::parse(s) {
        Ok(p) => Ok(p),
        Err(e) => Err(AppError::Domain(e)),
    }
}

pub fn symbol(s: &str) -> (r: Result<Symbol, AppError>)
    ensures
        symbol_result(s@, r),
{
    match Symbol::parse(s) {
        Ok(x) => Ok(x),
        Err(e) => Err(AppError::Domain(e)),
    }
}

pub fn money(s: &str) -> (r: Result<Money, AppError>)
    ensures
        money_result(s@, r),
{
    match Money::parse(s) {
        Ok(m) => Ok(m),
        Err(e) => Err(AppError::Domain(e)),
    }
}

pub fn price(s: &str) -> (r: Result<Px, AppError>)
    ensures
        price_result(s@, r),
{
    match Px::parse(s) {
        Ok(p) => Ok(p),
        Err(e) => Err(AppError::Domain(e)),
    }
}

pub fn quantity(n: i64) -> (r: Result<Qty, AppError>)
    ensures
        qty_result(n, r),
{
    match Qty::new(n) {
        Ok(q) => Ok(q),
        Err(e) => Err(AppError::Domain(e)),
    }
}

/// The text `{:?}` writes for a string: quoted, with quotes, backslashes
/// and non-printable characters escaped.
pub uninterp spec fn debug_quoted(s: Seq<char>) -> Seq<char>;

/// What refusing a side reports: the two accepted spellings, and the input
/// as written.
pub open spec fn side_refusal(s: Seq<char>) -> Seq<char> {
    r#"side must be "buy" or "sell", got "#@ + debug_quoted(s)
}

/// A side, parsed strictly: `"BUY"` is refused, not lower-cased.
pub fn side(s: &str) -> (r: Result<Side, AppError>)
    ensures
        match side_named(s@) {
            Some(x) => r == Ok::<Side, AppError>(x),
            None => r matches Err(AppError::BadRequest(m)) && m@ == side_refusal(s@),
        },
{
    proof {
        reveal_strlit("buy");
        reveal_strlit("sell");
    }
    let cs = chars_of(s);
    if cs.len() == 3 && cs[0] == 'b' && cs[1] == 'u' && cs[2] == 'y' {
        assert(s@ =~= "buy"@);
        return Ok(Side::Buy);
    }
    if cs.len() == 4 && cs[0] == 's' && cs[1] == 'e' && cs[2] == 'l' && cs[3] == 'l' {
        assert(s@ =~= "sell"@);
        return Ok(Side::Sell);
    }
    assert(s@ != "buy"@) by {
        if s@ == "buy"@ {
            assert(cs@[0] == 'b' && cs@[1] == 'u' && cs@[2] == 'y');
        }
    }
    assert(s@ != "sell"@) by {
        if s@ == "sell"@ {
            assert(cs@[0] == 's' && cs@[1] == 'e' && cs@[2] == 'l' && cs@[3] == 'l');
        }
    }
    let mut text = chars_of(r#"side must be "buy" or "sell", got "#);
    let quoted = debug_text(s);
    let tail = chars_of(quoted.as_str());
    let mut i: usize = 0;
    let ghost head = text@;
    while i < tail.len()
        invariant
            i <= tail@.len(),
            text@ == head + tail@.take(i as int),
        decreases tail@.len() - i,
    {
        text.push(tail[i]);
        i = i + 1;
        assert(text@ =~= head + tail@.take(i as int));
    }
    assert(tail@.take(tail@.len() as int) =~= tail@);
    Err(AppError::BadRequest(string_of(&text)))
}

/// std's `format!` with `{:?}` of a string: its quoted, escaped `Debug` text,
/// named `debug_quoted`.
#[verifier::external_body]
fn debug_text(s: &str) -> (r: String)
    ensures
        r@ == debug_quoted(s@),
{
    format!("{s:?}")
}

// ---- requests into commands ---------------------------------------------------------

/// What a participant-creation request comes to: the first field that does
/// not parse refuses it, and a balance of zero or less is refused as such.
pub open spec fn create_outcome(req: CreateParticipant, r: Result<Command, AppError>) -> bool {
    if !valid_participant(req.id@) {
        r matches Err(e) && participant_result(req.id@, Err(e))
    } else if fixed_outcome(req.starting_cash@, true) is Err {
        r matches Err(e) && money_result(req.starting_cash@, Err(e))
    } else if fixed_outcome(req.starting_cash@, true)->Ok_0 <= 0 {
        r matches Err(AppError::BadRequest(_))
    } else {
        r matches Ok(Command::CreateParticipant { participant, starting_cash }) && participant@
            == req.id@ && starting_cash@ == fixed_outcome(req.starting_cash@, true)->Ok_0
    }
}

impl CreateParticipant {
    pub fn command(&self) -> (r: Result<Command, AppError>)
        ensures
            create_outcome(*self, r),
    {
        let participant = participant(self.id.as_str())?;
        let starting_cash = money(self.starting_cash.as_str())?;
        if starting_cash.raw() <= 0 {
            return Err(AppError::BadRequest("startingCash must be greater than zero".to_owned()));
        }
        Ok(Command::CreateParticipant { participant, starting_cash })
    }
}

pub open spec fn submit_outcome(req: SubmitOrder, id: ClientOrderId, r: Result<Command, AppError>) -> bool {
    if !valid_participant(req.participant@) {
        r matches Err(e) && participant_result(req.participant@, Err(e))
    } else if !valid_symbol(req.symbol@) {
        r matches Err(e) && symbol_result(req.symbol@, Err(e))
    } else if side_named(req.side@) is None {
        r matches Err(AppError::BadRequest(m)) && m@ == side_refusal(req.side@)
    } else if req.qty < 0 {
        r matches Err(e) && qty_result(req.qty, Err(e))
    } else if !price_accepted(req.limit_px@) {
        r matches Err(e) && price_result(req.limit_px@, Err(e))
    } else {
        r matches Ok(Command::SubmitOrder { id: i, participant, symbol, side, qty, limit_px }) && i
            == id && participant@ == req.participant@ && symbol@ == req.symbol@ && Some(side)
            == side_named(req.side@) && qty@ == req.qty && limit_px@ == fixed_outcome(
            req.limit_px@,
            false,
        )->Ok_0
    }
}

impl SubmitOrder {
    /// The submission this request asks for, under the id minted for it.
    pub fn command(&self, id: ClientOrderId) -> (r: Result<Command, AppError>)
        ensures
            submit_outcome(*self, id, r),
    {
        let participant = participant(self.participant.as_str())?;
        let symbol = symbol(self.symbol.as_str())?;
        let side = side(self.side.as_str())?;
        let qty = quantity(self.qty)?;
        let limit_px = price(self.limit_px.as_str())?;
        Ok(Command::SubmitOrder { id, participant, symbol, side, qty, limit_px })
    }
}

pub open spec fn replace_outcome(
    req: ReplaceOrder,
    id: ClientOrderId,
    replacement_id: ClientOrderId,
    r: Result<Command, AppError>,
) -> bool {
    if req.qty < 0 {
        r matches Err(e) && qty_result(req.qty, Err(e))
    } else if !price_accepted(req.limit_px@) {
        r matches Err(e) && price_result(req.limit_px@, Err(e))
    } else {
        r matches Ok(Command::ReplaceOrder { id: i, replacement_id: j, qty, limit_px }) && i == id
            && j == replacement_id && qty@ == req.qty && limit_px@ == fixed_outcome(
            req.limit_px@,
            false,
        )->Ok_0
    }
}

impl ReplaceOrder {
    /// The cancel-replace this request asks for, the replacement under the id
    /// minted for it.
    pub fn command(&self, id: ClientOrderId, replacement_id: ClientOrderId) -> (r: Result<
        Command,
        AppError,
    >)
        ensures
            replace_outcome(*self, id, replacement_id, r),
    {
        let qty = quantity(self.qty)?;
        let limit_px = price(self.limit_px.as_str())?;
        Ok(Command::ReplaceOrder { id, replacement_id, qty, limit_px })
    }
}

pub open spec fn execute_outcome(req: Execute, r: Result<Command, AppError>) -> bool {
    match (req.qty, req.px) {
        (Some(q), Some(p)) => if q < 0 {
            r matches Err(e) && qty_result(q, Err(e))
        } else if !price_accepted(p@) {
            r matches Err(e) && price_result(p@, Err(e))
        } else {
            r matches Ok(Command::Execute { id, qty, px }) && id@ == req.client_order_id && qty@
                == q && px@ == fixed_outcome(p@, false)->Ok_0
        },
        (None, None) => r matches Ok(Command::AutoExecute { id }) && id@ == req.client_order_id,
        _ => r matches Err(AppError::BadRequest(_)),
    }
}

impl Execute {
    /// Explicit terms when both are given, the broker's policy when neither
    /// is; half a manual execution is refused rather than half-guessed.
    pub fn command(&self) -> (r: Result<Command, AppError>)
        ensures
            execute_outcome(*self, r),
    {
        let id = ClientOrderId::new(self.client_order_id);
        match (self.qty, &self.px) {
            (Some(q), Some(p)) => {
                let qty = quantity(q)?;
                let px = price(p.as_str())?;
                Ok(Command::Execute { id, qty, px })
            },
            (None, None) => Ok(Command::AutoExecute { id }),
            _ => Err(
                AppError::BadRequest(
                    "supply both qty and px, or neither to let the broker decide".to_owned(),
                ),
            ),
        }
    }
}

pub open spec fn mark_outcome(req: MarkUpdate, r: Result<Command, AppError>) -> bool {
    if !valid_symbol(req.symbol@) {
        r matches Err(e) && symbol_result(req.symbol@, Err(e))
    } else if !price_accepted(req.px@) {
        r matches Err(e) && price_result(req.px@, Err(e))
    } else {
        r matches Ok(Command::UpdateMark { symbol, px }) && symbol@ == req.symbol@ && px@
            == fixed_outcome(req.px@, false)->Ok_0
    }
}

impl MarkUpdate {
    pub fn command(&self) -> (r: Result<Command, AppError>)
        ensures
            mark_outcome(*self, r),
    {
        let symbol = symbol(self.symbol.as_str())?;
        let px = price(self.px.as_str())?;
        Ok(Command::UpdateMark { symbol, px })
    }
}

/// Every mark in a batch parses, or the first that does not refuses it:
/// a batch with one malformed price updates nothing.
pub fn mark_commands(reqs: &Vec<MarkUpdate>) -> (r: Result<Vec<Command>, AppError>)
    ensures
        match r {
            Ok(cs) => cs@.len() == reqs@.len() && forall|i: int|
                0 <= i < reqs@.len() ==> mark_outcome(#[trigger] reqs@[i], Ok(cs@[i])),
            Err(e) => exists|i: int|
                0 <= i < reqs@.len() && mark_outcome(#[trigger] reqs@[i], Err(e)) && forall|k: int|
                    0 <= k < i ==> mark_outcome(#[trigger] reqs@[k], Ok(mark_ok_command(reqs@[k]))),
        },
{
    let mut out: Vec<Command> = Vec::new();
    let mut i: usize = 0;
    while i < reqs.len()
        invariant
            i <= reqs@.len(),
            out@.len() == i,
            forall|k: int| 0 <= k < i ==> mark_outcome(#[trigger] reqs@[k], Ok(out@[k])),
        decreases reqs@.len() - i,
    {
        match reqs[i].command() {
            Ok(c) => out.push(c),
            Err(e) => {
                proof {
                    assert forall|k: int| 0 <= k < i implies mark_outcome(
                        #[trigger] reqs@[k],
                        Ok(mark_ok_command(reqs@[k])),
                    ) by {
                        lemma_mark_ok_command(reqs@[k], out@[k]);
                    }
                }
                return Err(e);
            },
        }
        i = i + 1;
    }
    Ok(out)
}

/// The command an accepted mark update comes to.
pub open spec fn mark_ok_command(req: MarkUpdate) -> Command {
    choose|c: Command| mark_outcome(req, Ok(c))
}

proof fn lemma_mark_ok_command(req: MarkUpdate, c: Command)
    requires
        mark_outcome(req, Ok(c)),
    ensures
        mark_outcome(req, Ok(mark_ok_command(req))),
{
}

pub open spec fn spec_outcome(sym: Seq<char>, body: InstrumentBody, r: Result<InstrumentSpec, AppError>) -> bool {
    let lot = match body.lot {
        Some(n) => n,
        None => 1,
    };
    if !valid_symbol(sym) {
        r matches Err(e) && symbol_result(sym, Err(e))
    } else if !price_accepted(body.tick@) {
        r matches Err(e) && price_result(body.tick@, Err(e))
    } else if lot < 0 {
        r matches Err(e) && qty_result(lot, Err(e))
    } else if body.max_order_qty matches Some(m) && m < 0 {
        r == Err::<InstrumentSpec, AppError>(
            AppError::Domain(DomainError::NegativeQty(body.max_order_qty->Some_0)),
        )
    } else if lot == 0 {
        r == Err::<InstrumentSpec, AppError>(AppError::Domain(DomainError::NonPositiveQty(0)))
    } else {
        r matches Ok(spec) && spec.symbol@ == sym && spec.tick@ == fixed_outcome(body.tick@, false)->Ok_0
            && spec.lot@ == lot && match (body.max_order_qty, spec.max_order_qty) {
            (Some(a), Some(b)) => b@ == a,
            (None, None) => true,
            _ => false,
        }
    }
}

impl InstrumentBody {
    /// The instrument these terms describe for `sym`.
    pub fn spec(&self, sym: &str) -> (r: Result<InstrumentSpec, AppError>)
        ensures
            spec_outcome(sym@, *self, r),
    {
        let symbol = symbol(sym)?;
        let tick = price(self.tick.as_str())?;
        let lot = quantity(
            match self.lot {
                Some(n) => n,
                None => 1,
            },
        )?;
        let max_order_qty = match self.max_order_qty {
            Some(m) => Some(quantity(m)?),
            None => None,
        };
        domain(InstrumentSpec::new(symbol, tick, lot, max_order_qty))
    }
}

fn domain<T>(r: Result<T, DomainError>) -> (out: Result<T, AppError>)
    ensures
        match r {
            Ok(v) => out == Ok::<T, AppError>(v),
            Err(e) => out == Err::<T, AppError>(AppError::Domain(e)),
        },
{
    match r {
        Ok(v) => Ok(v),
        Err(e) => Err(AppError::Domain(e)),
    }
}


// ---- responses ------------------------------------------------------------------

pub struct OrderView {
    pub id: u64,
    pub participant: String,
    pub symbol: String,
    pub side: &'static str,
    pub qty: i64,
    pub limit_px: String,
    pub state: &'static str,
    pub filled_qty: i64,
    /// Gross notional executed, fees excluded.
    pub filled_cost: String,
    /// Fees accrued on this order's fills, reported beside the gross figure,
    /// never inside it.
    pub fees: String,
    pub remaining_qty: i64,
    pub broker_order_id: Option<u64>,
    /// The order this one replaced.
    pub replaces: Option<u64>,
    pub submitted_at: i64,
}

pub open spec fn side_text(s: Side) -> &'static str {
    match s {
        Side::Buy => "buy",
        Side::Sell => "sell",
    }
}

/// `v` shows order `o` with its fees and broker id.
pub open spec fn order_shown(v: OrderView, o: Order, fees: int, broker_id: Option<BrokerOrderId>) -> bool {
    let filled = filled_of(o.state);
    &&& v.id == o.id@
    &&& v.participant@ == o.participant@
    &&& v.symbol@ == o.symbol@
    &&& v.side == side_text(o.side)
    &&& v.qty == o.qty@
    &&& v.limit_px@ == render_fixed(o.limit_px@)
    &&& v.state == state_name(o.state)
    &&& v.filled_qty == filled
    &&& v.filled_cost@ == render_fixed(cost_of(o.state))
    &&& v.fees@ == render_fixed(fees)
    &&& v.remaining_qty == (if o.qty@ >= filled {
        o.qty@ - filled
    } else {
        0
    })
    &&& v.broker_order_id == match broker_id {
        Some(b) => Some(b@),
        None => None::<u64>,
    }
    &&& v.replaces == match o.replaces {
        Some(r) => Some(r@),
        None => None::<u64>,
    }
    &&& v.submitted_at == o.submitted_at@
}

/// Built with the engine-held fee figure and broker id as explicit arguments,
/// so no caller can forget them and silently show zero.
pub fn order_view(o: &Order, fees: Money, broker_id: Option<BrokerOrderId>) -> (v: OrderView)
    ensures
        order_shown(v, *o, fees@, broker_id),
{
    OrderView {
        id: o.id.get(),
        participant: o.participant.render(),
        symbol: o.symbol.render(),
        side: match o.side {
            Side::Buy => "buy",
            Side::Sell => "sell",
        },
        qty: o.qty.get(),
        limit_px: o.limit_px.render(),
        state: o.state.name(),
        filled_qty: o.state.filled().get(),
        filled_cost: o.state.cost().render(),
        fees: fees.render(),
        remaining_qty: match o.remaining() {
            Ok(q) => q.get(),
            Err(_) => 0,
        },
        broker_order_id: match broker_id {
            Some(b) => Some(b.get()),
            None => None,
        },
        replaces: match o.replaces {
            Some(r) => Some(r.get()),
            None => None,
        },
        submitted_at: o.submitted_at.as_millis(),
    }
}

pub struct PositionView {
    pub symbol: String,
    pub qty: i64,
    /// Average price, derived from cost and quantity for display; never
    /// stored, so it cannot drift.
    pub avg_price: Option<String>,
    pub cost_basis: String,
    pub mark: Option<String>,
    pub market_value: Option<String>,
    pub unrealized_pnl: Option<String>,
}

/// The average price shown for a position: cost over shares, none when
/// nothing is held or it comes to no positive price.
pub open spec fn avg_of(p: Position) -> Option<int> {
    if p.held() == 0 || p.basis() <= 0 || p.basis() / p.held() == 0 {
        None
    } else {
        Some(p.basis() / p.held())
    }
}

pub open spec fn text_of(t: Option<String>, v: Option<int>) -> bool {
    match v {
        Some(x) => t matches Some(s) && s@ == render_fixed(x),
        None => t is None,
    }
}

/// `v` shows position `p` valued at the marks: no mark, no valuation.
pub open spec fn position_shown(v: PositionView, p: Position, marks: Seq<(Symbol, Px)>) -> bool {
    &&& v.symbol@ == p.sym()
    &&& v.qty == p.held()
    &&& v.cost_basis@ == render_fixed(p.basis())
    &&& text_of(v.avg_price, avg_of(p))
    &&& match mark_for(marks, p.sym()) {
        None => v.mark is None && v.market_value is None && v.unrealized_pnl is None,
        Some(m) => {
            let mv = m@ * p.held();
            &&& text_of(v.mark, Some(m@))
            &&& text_of(
                v.market_value,
                if money_range(mv) {
                    Some(mv)
                } else {
                    None
                },
            )
            &&& text_of(
                v.unrealized_pnl,
                if money_range(mv) && money_range(mv - p.basis()) {
                    Some(mv - p.basis())
                } else {
                    None
                },
            )
        },
    }
}

pub fn position_view(p: &Position, marks: &Marks) -> (v: PositionView)
    ensures
        position_shown(v, *p, marks@),
{
    let mark = marks.get(p.symbol());
    PositionView {
        symbol: p.symbol().render(),
        qty: p.qty().get(),
        avg_price: match p.avg_cost() {
            Some(a) => Some(a.render()),
            None => None,
        },
        cost_basis: p.cost().render(),
        mark: match mark {
            Some(m) => Some(m.render()),
            None => None,
        },
        market_value: match mark {
            Some(m) => match p.market_value(m) {
                Ok(v) => Some(v.render()),
                Err(_) => None,
            },
            None => None,
        },
        unrealized_pnl: match mark {
            Some(m) => match p.unrealized(m) {
                Ok(v) => Some(v.render()),
                Err(_) => None,
            },
            None => None,
        },
    }
}

pub struct PortfolioView {
    pub participant: String,
    pub starting_cash: String,
    pub cash: String,
    pub realized_pnl: String,
    /// Kept apart from the basis it was capitalised into.
    pub fees_paid: String,
    /// Absent when a held symbol has no mark: fail closed means never a
    /// wrong number, not never a response.
    pub unrealized_pnl: Option<String>,
    pub total_value: Option<String>,
    /// Why the book could not be valued, when it could not.
    pub valuation_error: Option<PortfolioError>,
    pub positions: Vec<PositionView>,
    pub active_orders: Vec<OrderView>,
}

pub fn portfolio_view(portfolio: &Portfolio, marks: &Marks, active_orders: Vec<OrderView>) -> (v:
    PortfolioView)
    ensures
        v.participant@ == portfolio@.participant,
        v.starting_cash@ == render_fixed(portfolio@.starting_cash),
        v.cash@ == render_fixed(portfolio@.cash),
        v.realized_pnl@ == render_fixed(portfolio@.realized_pnl),
        v.fees_paid@ == render_fixed(portfolio@.fees_paid),
        v.positions@.len() == held_positions(portfolio@.positions).len(),
        forall|i: int|
            0 <= i < v.positions@.len() ==> position_shown(
                #[trigger] v.positions@[i],
                held_positions(portfolio@.positions)[i],
                marks@,
            ),
        match valuation(portfolio@, marks@, Valuation::Unrealized) {
            Err(e) => v.unrealized_pnl is None && v.total_value is None && v.valuation_error == Some(
                e,
            ),
            Ok(u) => match total_value_of(portfolio@, marks@) {
                Err(e) => v.unrealized_pnl is None && v.total_value is None && v.valuation_error
                    == Some(e),
                Ok(t) => text_of(v.unrealized_pnl, Some(u)) && text_of(v.total_value, Some(t))
                    && v.valuation_error is None,
            },
        },
        v.active_orders@ == active_orders@,
{
    let held = portfolio.positions();
    let mut positions: Vec<PositionView> = Vec::new();
    let mut i: usize = 0;
    while i < held.len()
        invariant
            i <= held@.len(),
            positions@.len() == i,
            forall|k: int| 0 <= k < i ==> position_shown(#[trigger] positions@[k], held@[k], marks@),
        decreases held@.len() - i,
    {
        positions.push(position_view(&held[i], marks));
        i = i + 1;
    }
    let (unrealized_pnl, total_value, valuation_error) = match portfolio.unrealized_pnl(marks) {
        Err(e) => (None, None, Some(e)),
        Ok(u) => match portfolio.total_value(marks) {
            Err(e) => (None, None, Some(e)),
            Ok(t) => (Some(u.render()), Some(t.render()), None),
        },
    };
    PortfolioView {
        participant: portfolio.participant().render(),
        starting_cash: portfolio.starting_cash().render(),
        cash: portfolio.cash().render(),
        realized_pnl: portfolio.realized_pnl().render(),
        fees_paid: portfolio.fees_paid().render(),
        unrealized_pnl,
        total_value,
        valuation_error,
        positions,
        active_orders,
    }
}

pub struct LeaderboardRowView {
    pub rank: u32,
    pub participant: String,
    pub closing_value: String,
    pub daily_pnl: String,
    /// A fraction, not a percentage: `0.02` is +2%.
    pub daily_return: String,
    pub turnover: String,
    pub active: bool,
    pub bust: bool,
}

pub struct LeaderboardView {
    pub day: String,
    /// Stated in the payload so a consumer never has to infer the rules.
    pub ranked_by: &'static str,
    pub tiebreaks: Vec<&'static str>,
    pub rows: Vec<LeaderboardRowView>,
}

/// `v` shows the board row `r`.
pub open spec fn board_row_shown(v: LeaderboardRowView, r: LeaderboardRow) -> bool {
    &&& v.rank == r.rank
    &&& v.participant@ == r.result.participant@
    &&& v.closing_value@ == render_fixed(r.result.closing_value@)
    &&& v.daily_pnl@ == render_fixed(r.result.daily_pnl@)
    &&& v.daily_return@ == decimal_text(r.result.daily_return@.0, r.result.daily_return@.1)
    &&& v.turnover@ == render_fixed(r.result.turnover@)
    &&& v.active == r.result.active
    &&& v.bust == r.result.bust
}

impl LeaderboardView {
    pub fn new(b: &Leaderboard) -> (v: LeaderboardView)
        ensures
            v.day@ == iso_text(b.day@.0, b.day@.1, b.day@.2),
            v.ranked_by == "dailyReturn descending",
            v.tiebreaks@ == seq!["turnover ascending", "participantId ascending"],
            v.rows@.len() == b.rows@.len(),
            forall|i: int| 0 <= i < v.rows@.len() ==> board_row_shown(#[trigger] v.rows@[i], b.rows@[i]),
    {
        let mut rows: Vec<LeaderboardRowView> = Vec::new();
        let mut i: usize = 0;
        while i < b.rows.len()
            invariant
                i <= b.rows@.len(),
                rows@.len() == i,
                forall|k: int| 0 <= k < i ==> board_row_shown(#[trigger] rows@[k], b.rows@[k]),
            decreases b.rows@.len() - i,
        {
            let r = &b.rows[i];
            rows.push(
                LeaderboardRowView {
                    rank: r.rank,
                    participant: r.result.participant.render(),
                    closing_value: r.result.closing_value.render(),
                    daily_pnl: r.result.daily_pnl.render(),
                    daily_return: r.result.daily_return.render(),
                    turnover: r.result.turnover.render(),
                    active: r.result.active,
                    bust: r.result.bust,
                },
            );
            i = i + 1;
        }
        let mut tiebreaks: Vec<&'static str> = Vec::new();
        tiebreaks.push("turnover ascending");
        tiebreaks.push("participantId ascending");
        assert(tiebreaks@ =~= seq!["turnover ascending", "participantId ascending"]);
        LeaderboardView { day: b.day.render(), ranked_by: "dailyReturn descending", tiebreaks, rows }
    }
}

pub struct LadderRowView {
    /// Absent for a participant who has never been active: listed, not
    /// placed.
    pub rank: Option<u32>,
    pub participant: String,
    pub cumulative_return: String,
    pub daily_wins: u32,
    pub active_days: u32,
    /// Formula-1 style points: a secondary view, never the sort key.
    pub points: u32,
    pub eligible: bool,
}

pub struct LadderView {
    pub ranked_by: &'static str,
    pub tiebreaks: Vec<&'static str>,
    pub eligibility: &'static str,
    pub rows: Vec<LadderRowView>,
}

/// `v` shows the ladder row `r`.
pub open spec fn ladder_row_shown(v: LadderRowView, r: LadderRow) -> bool {
    &&& v.rank == r.rank
    &&& v.participant@ == r.participant@
    &&& v.cumulative_return@ == decimal_text(r.cumulative_return@.0, r.cumulative_return@.1)
    &&& v.daily_wins == r.daily_wins
    &&& v.active_days == r.active_days
    &&& v.points == r.points
    &&& v.eligible == r.eligible
}

impl LadderView {
    pub fn new(rows: &[LadderRow]) -> (v: LadderView)
        ensures
            v.ranked_by == "cumulativeReturn descending (geometric compound of daily returns)",
            v.tiebreaks@ == seq![
                "dailyWins descending",
                "activeDays descending",
                "participantId ascending",
            ],
            v.eligibility
                == "at least one active day; ineligible participants are listed with rank null",
            v.rows@.len() == rows@.len(),
            forall|i: int| 0 <= i < v.rows@.len() ==> ladder_row_shown(#[trigger] v.rows@[i], rows@[i]),
    {
        let mut out: Vec<LadderRowView> = Vec::new();
        let mut i: usize = 0;
        while i < rows.len()
            invariant
                i <= rows@.len(),
                out@.len() == i,
                forall|k: int| 0 <= k < i ==> ladder_row_shown(#[trigger] out@[k], rows@[k]),
            decreases rows@.len() - i,
        {
            let r = &rows[i];
            out.push(
                LadderRowView {
                    rank: r.rank,
                    participant: r.participant.render(),
                    cumulative_return: r.cumulative_return.render(),
                    daily_wins: r.daily_wins,
                    active_days: r.active_days,
                    points: r.points,
                    eligible: r.eligible,
                },
            );
            i = i + 1;
        }
        let mut tiebreaks: Vec<&'static str> = Vec::new();
        tiebreaks.push("dailyWins descending");
        tiebreaks.push("activeDays descending");
        tiebreaks.push("participantId ascending");
        assert(tiebreaks@ =~= seq![
            "dailyWins descending",
            "activeDays descending",
            "participantId ascending",
        ]);
        LadderView {
            ranked_by: "cumulativeReturn descending (geometric compound of daily returns)",
            tiebreaks,
            eligibility: "at least one active day; ineligible participants are listed with rank null",
            rows: out,
        }
    }
}

} // verus!
