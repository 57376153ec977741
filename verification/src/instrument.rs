//! The instrument specification — the security master's row: the price grid a
//! venue accepts (tick), the quantity grid (lot), and any size cap.
use vstd::prelude::*;

use crate::error::DomainError;
use crate::ids::{ident_error, valid_symbol, IdentKind, Symbol};
use crate::keyed::{lemma_sorted_insert, strictly_sorted};
use crate::money::{Px, Qty};
use crate::text::{chars_of, lemma_lex_total, lex_lt, string_of, trim, trim_bounds};

verus! {

#[derive(Debug, PartialEq, Eq)]
pub struct InstrumentSpec {
    pub symbol: Symbol,
    /// Minimum price increment: an order's limit must sit on this grid.
    pub tick: Px,
    /// Quantity step: orders must be whole multiples.
    pub lot: Qty,
    /// Per-order size cap, if any.
    pub max_order_qty: Option<Qty>,
}

impl Clone for InstrumentSpec {
    fn clone(&self) -> (r: Self)
        ensures
            r == *self,
    {
        InstrumentSpec {
            symbol: self.symbol.clone(),
            tick: self.tick,
            lot: self.lot,
            max_order_qty: self.max_order_qty,
        }
    }
}

impl InstrumentSpec {
    pub fn new(symbol: Symbol, tick: Px, lot: Qty, max_order_qty: Option<Qty>) -> (r: Result<
        InstrumentSpec,
        DomainError,
    >)
        ensures
            lot@ == 0 ==> r == Err::<InstrumentSpec, DomainError>(DomainError::NonPositiveQty(0)),
            lot@ != 0 ==> r == Ok::<InstrumentSpec, DomainError>(
                InstrumentSpec { symbol, tick, lot, max_order_qty },
            ),
    {
        if lot.is_zero() {
            return Err(DomainError::NonPositiveQty(0));
        }
        Ok(InstrumentSpec { symbol, tick, lot, max_order_qty })
    }

    /// The spec for an unrestricted world: the system's own grids (tick
    /// 0.0001, lot 1, no cap).
    pub fn permissive(symbol: Symbol) -> (r: InstrumentSpec)
        ensures
            r.symbol == symbol,
            r.tick@ == 1,
            r.lot@ == 1,
            r.max_order_qty is None,
    {
        InstrumentSpec { symbol, tick: Px::min_tick(), lot: Qty::one(), max_order_qty: None }
    }

    /// Is this limit price on the instrument's grid?
    pub fn px_on_tick(&self, px: Px) -> (b: bool)
        ensures
            b == (px@ % self.tick@ == 0),
    {
        let t = self.tick.raw();
        let p = px.raw();
        p % t == 0
    }

    /// Is this quantity a whole number of lots? (A lot of zero shares is not a
    /// grid; `new` refuses it.)
    pub fn qty_on_lot(&self, qty: Qty) -> (b: bool)
        requires
            self.lot@ > 0,
        ensures
            b == (qty@ % self.lot@ == 0),
    {
        let l = self.lot.get();
        let q = qty.get();
        q % l == 0
    }
}


// ---- symbol lists -------------------------------------------------------------

/// The fields of `s` between commas, as `str::split(',')` yields them: an
/// empty text is one empty field, and `"A,,B"` has an empty middle field.
pub open spec fn comma_fields(s: Seq<char>) -> Seq<Seq<char>>
    decreases s.len(),
{
    if s.len() == 0 {
        seq![Seq::<char>::empty()]
    } else {
        let fs = comma_fields(s.drop_last());
        if s.last() == ',' {
            fs.push(Seq::<char>::empty())
        } else {
            fs.update(fs.len() - 1, fs.last().push(s.last()))
        }
    }
}

/// The fields, each trimmed, with the empty ones dropped.
pub open spec fn listed(fields: Seq<Seq<char>>) -> Seq<Seq<char>>
    decreases fields.len(),
{
    if fields.len() == 0 {
        Seq::empty()
    } else {
        let items = listed(fields.drop_last());
        let t = trim(fields.last());
        if t.len() > 0 {
            items.push(t)
        } else {
            items
        }
    }
}

/// The items of a comma-separated list, in the order written.
pub open spec fn list_items(s: Seq<char>) -> Seq<Seq<char>> {
    listed(comma_fields(s))
}

pub open spec fn symbol_views(v: Seq<Symbol>) -> Seq<Seq<char>> {
    v.map_values(|x: Symbol| x@)
}

/// `views` holds each of `items`, each once, in strictly increasing order.
pub open spec fn sorted_set_of(views: Seq<Seq<char>>, items: Seq<Seq<char>>) -> bool {
    &&& strictly_sorted(views)
    &&& forall|j: int| 0 <= j < views.len() ==> items.contains(#[trigger] views[j])
    &&& forall|k: int| 0 <= k < items.len() ==> views.contains(#[trigger] items[k])
}

/// Item `k` is the first of `items` that is not a symbol.
pub open spec fn first_bad_symbol(items: Seq<Seq<char>>, k: int) -> bool {
    &&& 0 <= k < items.len()
    &&& !valid_symbol(items[k])
    &&& forall|j: int| 0 <= j < k ==> valid_symbol(#[trigger] items[j])
}

/// `after` is `before` with `t` added: sorted, holding `t` and everything
/// `before` held, and nothing else.
pub open spec fn filed(before: Seq<Seq<char>>, t: Seq<char>, after: Seq<Seq<char>>) -> bool {
    &&& strictly_sorted(after)
    &&& after.contains(t)
    &&& forall|j: int| 0 <= j < before.len() ==> after.contains(#[trigger] before[j])
    &&& forall|j: int| 0 <= j < after.len() ==> #[trigger] after[j] == t || before.contains(after[j])
}

pub open spec fn prefix_of(p: Seq<Seq<char>>, q: Seq<Seq<char>>) -> bool {
    p.len() <= q.len() && forall|k: int| 0 <= k < p.len() ==> #[trigger] p[k] == q[k]
}

proof fn lemma_fields_nonempty(s: Seq<char>)
    ensures
        comma_fields(s).len() >= 1,
    decreases s.len(),
{
    if s.len() > 0 {
        lemma_fields_nonempty(s.drop_last());
    }
}

/// Reading on never changes a field already closed by a comma.
proof fn lemma_closed_fields_stay(s: Seq<char>, j: int)
    requires
        0 <= j <= s.len(),
    ensures
        comma_fields(s.take(j)).len() <= comma_fields(s).len(),
        prefix_of(comma_fields(s.take(j)).drop_last(), comma_fields(s)),
    decreases s.len(),
{
    lemma_fields_nonempty(s.take(j));
    if j == s.len() {
        assert(s.take(j) =~= s);
    } else {
        let d = s.drop_last();
        assert(d.take(j) =~= s.take(j));
        lemma_closed_fields_stay(d, j);
        lemma_fields_nonempty(d);
        let f = comma_fields(s.take(j)).drop_last();
        let g0 = comma_fields(d);
        let g = comma_fields(s);
        assert(g.len() >= g0.len());
        assert forall|k: int| 0 <= k < f.len() implies #[trigger] f[k] == g[k] by {
            assert(f[k] == g0[k]);
            assert(k < g0.len() - 1);
        }
    }
}

/// Listing a prefix of the fields lists a prefix of the items.
proof fn lemma_listed_prefix(fields: Seq<Seq<char>>, m: int)
    requires
        0 <= m <= fields.len(),
    ensures
        prefix_of(listed(fields.take(m)), listed(fields)),
    decreases fields.len(),
{
    if m == fields.len() {
        assert(fields.take(m) =~= fields);
    } else {
        let d = fields.drop_last();
        assert(d.take(m) =~= fields.take(m));
        lemma_listed_prefix(d, m);
    }
}

proof fn lemma_filed_extends(before: Seq<Seq<char>>, after: Seq<Seq<char>>, items: Seq<Seq<char>>, t: Seq<char>)
    requires
        sorted_set_of(before, items),
        filed(before, t, after),
    ensures
        sorted_set_of(after, items.push(t)),
{
    let grown = items.push(t);
    assert(grown[items.len() as int] == t);
    assert forall|j: int| 0 <= j < after.len() implies grown.contains(#[trigger] after[j]) by {
        if after[j] != t {
            let m = choose|m: int| 0 <= m < before.len() && before[m] == after[j];
            assert(items.contains(before[m]));
            let k = choose|k: int| 0 <= k < items.len() && items[k] == before[m];
            assert(grown[k] == items[k]);
        }
    }
    assert forall|k: int| 0 <= k < grown.len() implies after.contains(#[trigger] grown[k]) by {
        if k < items.len() {
            assert(grown[k] == items[k]);
            assert(before.contains(items[k]));
            let m = choose|m: int| 0 <= m < before.len() && before[m] == items[k];
            assert(after.contains(before[m]));
        }
    }
}

/// Add `sym` to a strictly sorted list of symbols, unless it is there already.
fn insert_symbol(out: &mut Vec<Symbol>, sym: Symbol)
    requires
        strictly_sorted(symbol_views(old(out)@)),
    ensures
        filed(symbol_views(old(out)@), sym@, symbol_views(final(out)@)),
{
    let ghost before = symbol_views(out@);
    let mut p: usize = 0;
    while p < out.len() && out[p].precedes(&sym)
        invariant
            p <= out@.len(),
            before == symbol_views(out@),
            strictly_sorted(before),
            forall|j: int| 0 <= j < p ==> lex_lt(#[trigger] before[j], sym@),
        decreases out@.len() - p,
    {
        p = p + 1;
    }
    if p < out.len() && out[p].same(&sym) {
        assert(before[p as int] == sym@);
        assert forall|j: int| 0 <= j < before.len() implies before.contains(#[trigger] before[j]) by {}
        return;
    }
    if p < out.len() {
        proof {
            lemma_lex_total(before[p as int], sym@);
        }
    }
    let ghost k = sym@;
    proof {
        lemma_sorted_insert(before, p as int, k);
    }
    out.insert(p, sym);
    assert(symbol_views(out@) =~= before.insert(p as int, k));
    let ghost after = symbol_views(out@);
    assert(after[p as int] == k);
    assert forall|j: int| 0 <= j < before.len() implies after.contains(#[trigger] before[j]) by {
        if j < p {
            assert(after[j] == before[j]);
        } else {
            assert(after[j + 1] == before[j]);
        }
    }
    assert forall|j: int| 0 <= j < after.len() implies #[trigger] after[j] == k || before.contains(
        after[j],
    ) by {
        if j < p {
            assert(after[j] == before[j]);
        } else if j > p {
            assert(after[j] == before[j - 1]);
        }
    }
}

/// File one field of the list: trimmed, skipped when empty, refused when it
/// is not a symbol.
fn file_field(out: &mut Vec<Symbol>, field: &Vec<char>) -> (r: Result<(), DomainError>)
    requires
        strictly_sorted(symbol_views(old(out)@)),
    ensures
        trim(field@).len() == 0 ==> r is Ok && final(out)@ == old(out)@,
        trim(field@).len() > 0 && valid_symbol(trim(field@)) ==> r is Ok && filed(
            symbol_views(old(out)@),
            trim(field@),
            symbol_views(final(out)@),
        ),
        trim(field@).len() > 0 && !valid_symbol(trim(field@)) ==> r is Err && ident_error(
            IdentKind::Symbol,
            r->Err_0,
            trim(field@),
        ),
{
    let (lo, hi) = trim_bounds(field);
    if lo == hi {
        return Ok(());
    }
    let mut piece: Vec<char> = Vec::new();
    let mut i: usize = lo;
    while i < hi
        invariant
            lo <= i <= hi <= field@.len(),
            piece@ == field@.subrange(lo as int, i as int),
        decreases hi - i,
    {
        piece.push(field[i]);
        i = i + 1;
        assert(piece@ =~= field@.subrange(lo as int, i as int));
    }
    let text = string_of(&piece);
    match Symbol::parse(text.as_str()) {
        Ok(sym) => {
            insert_symbol(out, sym);
            Ok(())
        },
        Err(e) => Err(e),
    }
}

/// A comma-separated list of symbols, as an operator writes one in
/// configuration: each field trimmed, empty fields skipped, and the symbols
/// returned in order with repeats dropped. The first item that is not a
/// symbol refuses the whole list.
pub fn parse_symbol_list(text: &str) -> (r: Result<Vec<Symbol>, DomainError>)
    ensures
        match r {
            Ok(v) => (forall|k: int|
                0 <= k < list_items(text@).len() ==> valid_symbol(#[trigger] list_items(text@)[k]))
                && sorted_set_of(symbol_views(v@), list_items(text@)),
            Err(e) => exists|k: int|
                first_bad_symbol(list_items(text@), k) && ident_error(
                    IdentKind::Symbol,
                    e,
                    #[trigger] list_items(text@)[k],
                ),
        },
{
    let cs = chars_of(text);
    let mut out: Vec<Symbol> = Vec::new();
    let mut cur: Vec<char> = Vec::new();
    let ghost mut done: Seq<Seq<char>> = Seq::empty();
    assert(comma_fields(cs@.take(0)) =~= done.push(cur@));
    let mut i: usize = 0;
    while i < cs.len()
        invariant
            cs@ == text@,
            i <= cs@.len(),
            comma_fields(cs@.take(i as int)) == done.push(cur@),
            forall|k: int| 0 <= k < listed(done).len() ==> valid_symbol(#[trigger] listed(done)[k]),
            sorted_set_of(symbol_views(out@), listed(done)),
        decreases cs@.len() - i,
    {
        let c = cs[i];
        assert(cs@.take(i + 1).drop_last() =~= cs@.take(i as int));
        if c == ',' {
            let ghost before = symbol_views(out@);
            let ghost closed = done.push(cur@);
            let filing = file_field(&mut out, &cur);
            proof {
                assert(closed.drop_last() =~= done);
                assert(listed(closed) == if trim(cur@).len() > 0 {
                    listed(done).push(trim(cur@))
                } else {
                    listed(done)
                });
            }
            match filing {
                Err(e) => {
                    proof {
                        let fields_now = comma_fields(cs@.take(i + 1));
                        assert(fields_now == closed.push(Seq::<char>::empty()));
                        assert(fields_now.drop_last() =~= closed);
                        lemma_closed_fields_stay(cs@, i + 1);
                        assert(cs@ =~= text@);
                        let all = comma_fields(text@);
                        assert(all.take(closed.len() as int) =~= closed);
                        lemma_listed_prefix(all, closed.len() as int);
                        let k0 = listed(done).len() as int;
                        assert(listed(closed)[k0] == trim(cur@));
                        assert(list_items(text@)[k0] == trim(cur@));
                        assert forall|j: int| 0 <= j < k0 implies valid_symbol(
                            #[trigger] list_items(text@)[j],
                        ) by {
                            assert(listed(closed)[j] == listed(done)[j]);
                        }
                        assert(first_bad_symbol(list_items(text@), k0));
                    }
                    return Err(e);
                },
                Ok(()) => {},
            }
            proof {
                if trim(cur@).len() > 0 {
                    lemma_filed_extends(before, symbol_views(out@), listed(done), trim(cur@));
                    assert forall|k: int| 0 <= k < listed(closed).len() implies valid_symbol(
                        #[trigger] listed(closed)[k],
                    ) by {
                        if k < listed(done).len() {
                            assert(listed(closed)[k] == listed(done)[k]);
                        }
                    }
                } else {
                    assert(symbol_views(out@) =~= before);
                }
                done = closed;
            }
            cur = Vec::new();
            assert(comma_fields(cs@.take(i + 1)) =~= done.push(cur@));
        } else {
            proof {
                lemma_fields_nonempty(cs@.take(i as int));
            }
            cur.push(c);
            assert(comma_fields(cs@.take(i + 1)) =~= done.push(cur@));
        }
        i = i + 1;
    }
    assert(cs@.take(cs@.len() as int) =~= cs@);
    let ghost before = symbol_views(out@);
    let ghost closed = done.push(cur@);
    assert(closed == comma_fields(text@));
    assert(closed.drop_last() =~= done);
    let filing = file_field(&mut out, &cur);
    match filing {
        Err(e) => {
            proof {
                let k0 = listed(done).len() as int;
                assert(listed(closed)[k0] == trim(cur@));
                assert forall|j: int| 0 <= j < k0 implies valid_symbol(
                    #[trigger] list_items(text@)[j],
                ) by {
                    assert(listed(closed)[j] == listed(done)[j]);
                }
                assert(first_bad_symbol(list_items(text@), k0));
            }
            Err(e)
        },
        Ok(()) => {
            proof {
                if trim(cur@).len() > 0 {
                    lemma_filed_extends(before, symbol_views(out@), listed(done), trim(cur@));
                    assert forall|k: int| 0 <= k < listed(closed).len() implies valid_symbol(
                        #[trigger] listed(closed)[k],
                    ) by {
                        if k < listed(done).len() {
                            assert(listed(closed)[k] == listed(done)[k]);
                        }
                    }
                } else {
                    assert(symbol_views(out@) =~= before);
                }
            }
            Ok(out)
        },
    }
}

} // verus!
