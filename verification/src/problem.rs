//! Failures as problem reports.
//!
//! Each failure carries a stable machine-readable slug, so a client can branch
//! on it without parsing prose, and the members that make it actionable: an
//! illegal transition names the order's current state, a refusal for want of
//! cash names the amounts. Anything that is not the caller's fault is
//! `internal`.
use vstd::prelude::*;

use crate::engine::EngineError;
use crate::error::DomainError;
use crate::lifecycle::TransitionError;
use crate::money::render_fixed;
use crate::portfolio::PortfolioError;
use crate::position::PositionError;
use crate::store::StoreError;
use crate::text::{chars_of, string_of};
use crate::time::iso_text;

verus! {

/// Every way a request can fail.
#[derive(Debug)]
pub enum AppError {
    Engine(EngineError),
    Store(StoreError),
    Domain(DomainError),
    /// A request that does not have the required shape.
    BadRequest(String),
}

/// The value of one extra member of a problem report.
#[derive(Debug, PartialEq, Eq)]
pub enum Member {
    Text(String),
    Int(i64),
    Count(u64),
}

pub ghost enum MemberView {
    Text(Seq<char>),
    Int(int),
    Count(int),
}

impl View for Member {
    type V = MemberView;

    open spec fn view(&self) -> MemberView {
        match self {
            Member::Text(s) => MemberView::Text(s@),
            Member::Int(n) => MemberView::Int(*n as int),
            Member::Count(n) => MemberView::Count(*n as int),
        }
    }
}

/// A failure, classified: the HTTP status, the slug naming the failure, and
/// its extra members in order.
pub struct Problem {
    pub status: u16,
    pub slug: &'static str,
    pub members: Vec<(&'static str, Member)>,
}

pub open spec fn members_view(ms: Seq<(&'static str, Member)>) -> Seq<(&'static str, MemberView)> {
    ms.map_values(|m: (&'static str, Member)| (m.0, m.1@))
}

/// How each failure is reported.
pub open spec fn problem_of(e: AppError) -> (int, &'static str, Seq<(&'static str, MemberView)>) {
    match e {
        AppError::BadRequest(_) => (400, "malformed-request", seq![]),
        AppError::Domain(_) => (400, "invalid-value", seq![]),
        AppError::Store(_) => (500, "internal", seq![]),
        AppError::Engine(x) => match x {
            EngineError::UnknownParticipant(_) => (404, "unknown-participant", seq![]),
            EngineError::UnknownOrder(_) => (404, "unknown-order", seq![]),
            EngineError::UnknownInstrument(_) => (404, "unknown-instrument", seq![]),
            EngineError::DayNotClosed(_) => (404, "day-not-closed", seq![]),
            EngineError::DayOutOfOrder { day, latest } => (
                409,
                "day-out-of-order",
                seq![
                    ("day", MemberView::Text(iso_text(day@.0, day@.1, day@.2))),
                    ("latestClosed", MemberView::Text(iso_text(latest@.0, latest@.1, latest@.2))),
                ],
            ),
            EngineError::DuplicateParticipant(_) => (409, "duplicate-participant", seq![]),
            EngineError::DuplicateOrder(_) => (409, "duplicate-order", seq![]),
            EngineError::DuplicateInstrument(_) => (409, "duplicate-instrument", seq![]),
            EngineError::InstrumentInUse { symbol, working_orders, positions } => (
                409,
                "instrument-in-use",
                seq![
                    ("symbol", MemberView::Text(symbol@)),
                    ("workingOrders", MemberView::Count(working_orders as int)),
                    ("positions", MemberView::Count(positions as int)),
                ],
            ),
            EngineError::Transition(t) => match t {
                TransitionError::Illegal { state, event } => (
                    409,
                    "illegal-transition",
                    seq![
                        ("currentState", MemberView::Text(state@)),
                        ("attempted", MemberView::Text(event@)),
                    ],
                ),
                TransitionError::Overfill { fill, total, ordered } => (
                    422,
                    "overfill",
                    seq![
                        ("fill", MemberView::Int(fill as int)),
                        ("wouldTotal", MemberView::Int(total as int)),
                        ("ordered", MemberView::Int(ordered as int)),
                    ],
                ),
                _ => (422, "invalid-execution", seq![]),
            },
            EngineError::InsufficientAvailableCash { need, available } => (
                422,
                "insufficient-cash",
                seq![
                    ("need", MemberView::Text(render_fixed(need@))),
                    ("available", MemberView::Text(render_fixed(available@))),
                ],
            ),
            EngineError::InsufficientAvailablePosition { symbol, want, available } => (
                422,
                "insufficient-position",
                seq![
                    ("symbol", MemberView::Text(symbol@)),
                    ("want", MemberView::Int(want as int)),
                    ("available", MemberView::Int(available as int)),
                ],
            ),
            EngineError::Portfolio(PortfolioError::MissingMark { symbol }) => (
                409,
                "missing-mark",
                seq![("symbol", MemberView::Text(symbol@))],
            ),
            EngineError::Portfolio(
                PortfolioError::Position(PositionError::InsufficientPosition { symbol, held, sell }),
            ) => (
                422,
                "insufficient-position",
                seq![
                    ("symbol", MemberView::Text(symbol@)),
                    ("held", MemberView::Int(held as int)),
                    ("sell", MemberView::Int(sell as int)),
                ],
            ),
            EngineError::NothingToExecute(_) => (409, "nothing-to-execute", seq![]),
            EngineError::Scoring(_) => (409, "cannot-rank", seq![]),
            _ => (500, "internal", seq![]),
        },
    }
}

fn text(s: String) -> (m: Member)
    ensures
        m@ == MemberView::Text(s@),
{
    Member::Text(s)
}

fn named(name: &'static str, m: Member) -> (r: (&'static str, Member))
    ensures
        r.0 == name,
        r.1 == m,
{
    (name, m)
}

fn one(a: (&'static str, Member)) -> (v: Vec<(&'static str, Member)>)
    ensures
        v@ == seq![a],
{
    let mut v = Vec::new();
    v.push(a);
    assert(v@ =~= seq![a]);
    v
}

fn two(a: (&'static str, Member), b: (&'static str, Member)) -> (v: Vec<(&'static str, Member)>)
    ensures
        v@ == seq![a, b],
{
    let mut v = Vec::new();
    v.push(a);
    v.push(b);
    assert(v@ =~= seq![a, b]);
    v
}

fn three(a: (&'static str, Member), b: (&'static str, Member), c: (&'static str, Member)) -> (v: Vec<
    (&'static str, Member),
>)
    ensures
        v@ == seq![a, b, c],
{
    let mut v = Vec::new();
    v.push(a);
    v.push(b);
    v.push(c);
    assert(v@ =~= seq![a, b, c]);
    v
}

impl AppError {
    /// The status, slug and extra members this failure is reported with.
    pub fn classify(&self) -> (p: Problem)
        ensures
            p.status as int == problem_of(*self).0,
            p.slug == problem_of(*self).1,
            members_view(p.members@) == problem_of(*self).2,
    {
        let (status, slug, members): (u16, &'static str, Vec<(&'static str, Member)>) = match self {
            AppError::BadRequest(_) => (400, "malformed-request", Vec::new()),
            AppError::Domain(_) => (400, "invalid-value", Vec::new()),
            AppError::Store(_) => (500, "internal", Vec::new()),
            AppError::Engine(x) => match x {
                EngineError::UnknownParticipant(_) => (404, "unknown-participant", Vec::new()),
                EngineError::UnknownOrder(_) => (404, "unknown-order", Vec::new()),
                EngineError::UnknownInstrument(_) => (404, "unknown-instrument", Vec::new()),
                EngineError::DayNotClosed(_) => (404, "day-not-closed", Vec::new()),
                EngineError::DayOutOfOrder { day, latest } => (
                    409,
                    "day-out-of-order",
                    two(
                        named("day", text(day.render())),
                        named("latestClosed", text(latest.render()))),
                ),
                EngineError::DuplicateParticipant(_) => (409, "duplicate-participant", Vec::new()),
                EngineError::DuplicateOrder(_) => (409, "duplicate-order", Vec::new()),
                EngineError::DuplicateInstrument(_) => (409, "duplicate-instrument", Vec::new()),
                EngineError::InstrumentInUse { symbol, working_orders, positions } => (
                    409,
                    "instrument-in-use",
                    three(
                        named("symbol", text(symbol.render())),
                        named("workingOrders", Member::Count(*working_orders)),
                        named("positions", Member::Count(*positions)),
                    ),
                ),
                EngineError::Transition(t) => match t {
                    TransitionError::Illegal { state, event } => (
                        409,
                        "illegal-transition",
                        two(
                            named("currentState", text(str::to_owned(*state))),
                            named("attempted", text(str::to_owned(*event)))),
                    ),
                    TransitionError::Overfill { fill, total, ordered } => (
                        422,
                        "overfill",
                        three(
                            named("fill", Member::Int(*fill)),
                            named("wouldTotal", Member::Int(*total)),
                            named("ordered", Member::Int(*ordered))),
                    ),
                    _ => (422, "invalid-execution", Vec::new()),
                },
                EngineError::InsufficientAvailableCash { need, available } => (
                    422,
                    "insufficient-cash",
                    two(
                        named("need", text(need.render())),
                        named("available", text(available.render()))),
                ),
                EngineError::InsufficientAvailablePosition { symbol, want, available } => (
                    422,
                    "insufficient-position",
                    three(
                        named("symbol", text(symbol.render())),
                        named("want", Member::Int(*want)),
                        named("available", Member::Int(*available))),
                ),
                EngineError::Portfolio(PortfolioError::MissingMark { symbol }) => (
                    409,
                    "missing-mark",
                    one(named("symbol", text(symbol.render()))),
                ),
                EngineError::Portfolio(
                    PortfolioError::Position(
                        PositionError::InsufficientPosition { symbol, held, sell },
                    ),
                ) => (
                    422,
                    "insufficient-position",
                    three(
                        named("symbol", text(symbol.render())),
                        named("held", Member::Int(*held)),
                        named("sell", Member::Int(*sell))),
                ),
                EngineError::NothingToExecute(_) => (409, "nothing-to-execute", Vec::new()),
                EngineError::Scoring(_) => (409, "cannot-rank", Vec::new()),
                _ => (500, "internal", Vec::new()),
            },
        };
        let p = Problem { status, slug, members };
        assert(members_view(p.members@) =~= problem_of(*self).2);
        p
    }
}

/// A slug as a title: each `-` read as a space.
pub open spec fn title_text(slug: Seq<char>) -> Seq<char> {
    slug.map_values(|c: char| if c == '-' { ' ' } else { c })
}

pub fn title(slug: &str) -> (t: String)
    ensures
        t@ == title_text(slug@),
{
    let cs = chars_of(slug);
    let mut out: Vec<char> = Vec::new();
    let mut i: usize = 0;
    while i < cs.len()
        invariant
            i <= cs@.len(),
            cs@ == slug@,
            out@ == title_text(cs@.take(i as int)),
        decreases cs@.len() - i,
    {
        let c = cs[i];
        out.push(if c == '-' { ' ' } else { c });
        i = i + 1;
        assert(out@ =~= title_text(cs@.take(i as int)));
    }
    assert(cs@.take(i as int) =~= cs@);
    string_of(&out)
}

} // verus!
