//! Identity types.
//!
//! Ids are the keys everything else is filed under, so they are parsed into a
//! single canonical form and never repaired into one: a key that two writers
//! can spell differently is not a key.
use vstd::prelude::*;

use crate::error::DomainError;
use crate::text::{chars_lt, chars_of, lex_lt, push_decimal, nat_digits, string_of};

verus! {

/// A competition participant. Ids sort as a total order (`lex_lt`), which the
/// ranking tiebreak relies on as its final level.
#[derive(Debug, PartialEq, Eq, PartialOrd, Ord, Hash)]
pub struct ParticipantId(String);

/// A tradable instrument. Canonical form is upper-case.
#[derive(Debug, PartialEq, Eq, PartialOrd, Ord, Hash)]
pub struct Symbol(String);

/// Our order id (FIX `ClOrdID`), minted before the broker has acked.
#[derive(Debug, Clone, Copy, PartialEq, Eq, Structural, PartialOrd, Ord, Hash)]
pub struct ClientOrderId(u64);

/// The venue's id for one execution (FIX `ExecID`): every fill has its own,
/// minted in one sequence per competition.
#[derive(Debug, Clone, Copy, PartialEq, Eq, Structural, PartialOrd, Ord, Hash)]
pub struct ExecutionId(u64);

/// The broker's order id (FIX `OrderID`), recorded once known.
#[derive(Debug, Clone, Copy, PartialEq, Eq, Structural, PartialOrd, Ord, Hash)]
pub struct BrokerOrderId(u64);

impl View for ParticipantId {
    type V = Seq<char>;

    closed spec fn view(&self) -> Seq<char> {
        self.0@
    }
}

impl View for Symbol {
    type V = Seq<char>;

    closed spec fn view(&self) -> Seq<char> {
        self.0@
    }
}

impl View for ClientOrderId {
    type V = u64;

    closed spec fn view(&self) -> u64 {
        self.0
    }
}

impl View for ExecutionId {
    type V = u64;

    closed spec fn view(&self) -> u64 {
        self.0
    }
}

impl View for BrokerOrderId {
    type V = u64;

    closed spec fn view(&self) -> u64 {
        self.0
    }
}

pub open spec fn is_ascii_alnum(c: char) -> bool {
    ('a' <= c && c <= 'z') || ('A' <= c && c <= 'Z') || ('0' <= c && c <= '9')
}

/// Characters a participant id may hold: ASCII letters, digits, `-` or `_`.
pub open spec fn participant_char(c: char) -> bool {
    is_ascii_alnum(c) || c == '-' || c == '_'
}

/// Characters a symbol may hold: upper-case ASCII, digits or `.`.
pub open spec fn symbol_char(c: char) -> bool {
    ('A' <= c && c <= 'Z') || ('0' <= c && c <= '9') || c == '.'
}

/// Which identifier grammar applies.
pub enum IdentKind {
    Participant,
    Symbol,
}

pub open spec fn ident_char(kind: IdentKind, c: char) -> bool {
    match kind {
        IdentKind::Participant => participant_char(c),
        IdentKind::Symbol => symbol_char(c),
    }
}

pub open spec fn ident_max(kind: IdentKind) -> nat {
    match kind {
        IdentKind::Participant => 64,
        IdentKind::Symbol => 16,
    }
}

/// `s` is a canonical identifier of the given kind: 1..=max allowed characters.
pub open spec fn valid_ident(kind: IdentKind, s: Seq<char>) -> bool {
    &&& 0 < s.len() <= ident_max(kind)
    &&& forall|i: int| 0 <= i < s.len() ==> ident_char(kind, #[trigger] s[i])
}

pub open spec fn valid_participant(s: Seq<char>) -> bool {
    valid_ident(IdentKind::Participant, s)
}

pub open spec fn valid_symbol(s: Seq<char>) -> bool {
    valid_ident(IdentKind::Symbol, s)
}

fn ident_char_ok(kind: &IdentKind, c: char) -> (b: bool)
    ensures
        b == ident_char(*kind, c),
{
    match kind {
        IdentKind::Participant => ('a' <= c && c <= 'z') || ('A' <= c && c <= 'Z') || ('0' <= c
            && c <= '9') || c == '-' || c == '_',
        IdentKind::Symbol => ('A' <= c && c <= 'Z') || ('0' <= c && c <= '9') || c == '.',
    }
}

/// The error an identifier refusal reports.
pub open spec fn ident_error(kind: IdentKind, e: DomainError, s: Seq<char>) -> bool {
    match kind {
        IdentKind::Participant => e matches DomainError::ParseIdent { field, max, allowed, input }
            && field == "participant id" && max == 64 && allowed
            == "ASCII letters, digits, '-' or '_'" && input@ == s,
        IdentKind::Symbol => e matches DomainError::ParseIdent { field, max, allowed, input }
            && field == "symbol" && max == 16 && allowed == "upper-case ASCII, digits or '.'"
            && input@ == s,
    }
}

fn parse_ident(kind: IdentKind, s: &str) -> (r: Result<String, DomainError>)
    ensures
        valid_ident(kind, s@) ==> r is Ok && r->Ok_0@ == s@,
        !valid_ident(kind, s@) ==> r is Err && ident_error(kind, r->Err_0, s@),
{
    let cs = chars_of(s);
    let max: usize = match kind {
        IdentKind::Participant => 64,
        IdentKind::Symbol => 16,
    };
    let mut ok = cs.len() > 0 && cs.len() <= max;
    let mut i: usize = 0;
    while ok && i < cs.len()
        invariant
            cs@ == s@,
            i <= cs@.len(),
            max == ident_max(kind),
            ok ==> 0 < cs@.len() <= max,
            ok ==> forall|j: int| 0 <= j < i ==> ident_char(kind, #[trigger] cs@[j]),
            !ok ==> !valid_ident(kind, s@),
        decreases cs@.len() - i,
    {
        if !ident_char_ok(&kind, cs[i]) {
            ok = false;
        }
        i = i + 1;
    }
    if ok {
        Ok(s.to_owned())
    } else {
        match kind {
            IdentKind::Participant => Err(
                DomainError::ParseIdent {
                    field: "participant id",
                    max: 64,
                    allowed: "ASCII letters, digits, '-' or '_'",
                    input: s.to_owned(),
                },
            ),
            IdentKind::Symbol => Err(
                DomainError::ParseIdent {
                    field: "symbol",
                    max: 16,
                    allowed: "upper-case ASCII, digits or '.'",
                    input: s.to_owned(),
                },
            ),
        }
    }
}

impl Clone for ParticipantId {
    fn clone(&self) -> (r: Self)
        ensures
            r == *self,
    {
        ParticipantId(self.0.clone())
    }
}

impl Clone for Symbol {
    fn clone(&self) -> (r: Self)
        ensures
            r == *self,
    {
        Symbol(self.0.clone())
    }
}

impl ParticipantId {
    pub fn parse(s: &str) -> (r: Result<ParticipantId, DomainError>)
        ensures
            valid_participant(s@) ==> r is Ok && r->Ok_0@ == s@,
            !valid_participant(s@) ==> r is Err && ident_error(
                IdentKind::Participant,
                r->Err_0,
                s@,
            ),
    {
        match parse_ident(IdentKind::Participant, s) {
            Ok(v) => Ok(ParticipantId(v)),
            Err(e) => Err(e),
        }
    }

    pub fn as_str(&self) -> (r: &str)
        ensures
            r@ == self@,
    {
        self.0.as_str()
    }

    /// Equal ids: the same spelling.
    pub fn same(&self, other: &ParticipantId) -> (b: bool)
        ensures
            b == (self@ == other@),
    {
        self.0 == other.0
    }

    /// This id sorts strictly before `other`.
    pub fn precedes(&self, other: &ParticipantId) -> (b: bool)
        ensures
            b == lex_lt(self@, other@),
    {
        let a = chars_of(self.0.as_str());
        let b = chars_of(other.0.as_str());
        chars_lt(&a, &b)
    }

    pub fn render(&self) -> (s: String)
        ensures
            s@ == self@,
    {
        self.0.clone()
    }
}

impl Symbol {
    /// Parses only the canonical upper-case form: `"aapl"` is rejected, not
    /// upper-cased, because normalising a key on the way in means two callers
    /// can disagree about it and neither is wrong.
    pub fn parse(s: &str) -> (r: Result<Symbol, DomainError>)
        ensures
            valid_symbol(s@) ==> r is Ok && r->Ok_0@ == s@,
            !valid_symbol(s@) ==> r is Err && ident_error(IdentKind::Symbol, r->Err_0, s@),
    {
        match parse_ident(IdentKind::Symbol, s) {
            Ok(v) => Ok(Symbol(v)),
            Err(e) => Err(e),
        }
    }

    pub fn as_str(&self) -> (r: &str)
        ensures
            r@ == self@,
    {
        self.0.as_str()
    }

    pub fn same(&self, other: &Symbol) -> (b: bool)
        ensures
            b == (self@ == other@),
    {
        self.0 == other.0
    }

    pub fn precedes(&self, other: &Symbol) -> (b: bool)
        ensures
            b == lex_lt(self@, other@),
    {
        let a = chars_of(self.0.as_str());
        let b = chars_of(other.0.as_str());
        chars_lt(&a, &b)
    }

    pub fn render(&self) -> (s: String)
        ensures
            s@ == self@,
    {
        self.0.clone()
    }
}

impl ClientOrderId {
    /// Ids with the same number are the same id.
    pub proof fn lemma_view_injective(a: ClientOrderId, b: ClientOrderId)
        ensures
            a@ == b@ ==> a == b,
    {
    }

    pub fn new(n: u64) -> (id: ClientOrderId)
        ensures
            id@ == n,
    {
        ClientOrderId(n)
    }

    pub fn get(self) -> (n: u64)
        ensures
            n == self@,
    {
        self.0
    }

    pub fn render(self) -> (s: String)
        ensures
            s@ == nat_digits(self@ as nat),
    {
        let mut out: Vec<char> = Vec::new();
        push_decimal(&mut out, self.0);
        string_of(&out)
    }
}

impl BrokerOrderId {
    pub fn new(n: u64) -> (id: BrokerOrderId)
        ensures
            id@ == n,
    {
        BrokerOrderId(n)
    }

    pub fn get(self) -> (n: u64)
        ensures
            n == self@,
    {
        self.0
    }

    pub fn render(self) -> (s: String)
        ensures
            s@ == nat_digits(self@ as nat),
    {
        let mut out: Vec<char> = Vec::new();
        push_decimal(&mut out, self.0);
        string_of(&out)
    }
}

impl ExecutionId {
    /// The id with the given number.
    pub closed spec fn from_spec(n: u64) -> ExecutionId {
        ExecutionId(n)
    }

    pub broadcast proof fn lemma_from_spec(n: u64)
        ensures
            #[trigger] ExecutionId::from_spec(n)@ == n,
    {
    }

    /// Ids with the same number are the same id.
    pub proof fn lemma_view_injective(a: ExecutionId, b: ExecutionId)
        ensures
            a@ == b@ ==> a == b,
    {
    }

    pub fn new(n: u64) -> (id: ExecutionId)
        ensures
            id@ == n,
            id == ExecutionId::from_spec(n),
    {
        ExecutionId(n)
    }

    pub fn get(self) -> (n: u64)
        ensures
            n == self@,
    {
        self.0
    }

    pub fn render(self) -> (s: String)
        ensures
            s@ == nat_digits(self@ as nat),
    {
        let mut out: Vec<char> = Vec::new();
        push_decimal(&mut out, self.0);
        string_of(&out)
    }
}

} // verus!
