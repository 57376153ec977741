//! The append-only event log.
//!
//! The log is the database: positions, cash and P&L are not stored, they are
//! a fold over these entries, recomputed by replaying them. Nothing here
//! writes a projection, which is why nothing here can write one that
//! disagrees with the log.
//!
//! Appends are idempotent: an entry whose sequence number is already logged
//! is skipped, so re-appending a batch after a crash mid-write duplicates
//! nothing. A duplicated fill is a real position and real money.
use vstd::prelude::*;

use crate::error::DomainError;
use crate::event::{same_entry, Journaled};
use crate::keyed::{count_below_int, increasing, lemma_slot_is_count_int};

verus! {

/// A database error.
#[verifier::external_type_specification]
#[verifier::external_body]
pub struct ExSqliteError(rusqlite::Error);

/// A payload that is not the stored shape.
#[verifier::external_type_specification]
#[verifier::external_body]
pub struct ExJsonError(serde_json::Error);

#[derive(Debug)]
pub enum StoreError {
    Sqlite(rusqlite::Error),
    Json(serde_json::Error),
    /// A stored event that is not valid domain data.
    Domain(DomainError),
}

/// The port the engine's owner depends on: something you add to, and
/// something you read back in order.
pub trait EventLog {
    fn append(&mut self, entries: &[Journaled]) -> Result<(), StoreError>;

    fn read_all(&self) -> Result<Vec<Journaled>, StoreError>;

    /// Discard every entry: the competition itself is the operator's to
    /// throw away, though within one the log only grows.
    fn clear(&mut self) -> Result<(), StoreError>;

    /// The sequence number of the last entry, or zero for an empty log.
    /// What the log holds is the implementation's; what is made of a read
    /// is `last_seq_of`.
    fn last_seq(&self) -> (r: Result<u64, StoreError>) {
        match self.read_all() {
            Ok(v) => Ok(last_seq_of(&v)),
            Err(e) => Err(e),
        }
    }
}

/// The last sequence number in a journal, zero for an empty one.
pub open spec fn last_seq_in(s: Seq<Journaled>) -> u64 {
    if s.len() == 0 {
        0
    } else {
        s.last().seq
    }
}

/// The sequence number of the last entry of a journal read back, or zero
/// when it is empty.
pub fn last_seq_of(entries: &Vec<Journaled>) -> (n: u64)
    ensures
        n == last_seq_in(entries@),
{
    if entries.len() == 0 {
        0
    } else {
        entries[entries.len() - 1].seq
    }
}

// ---- the model ------------------------------------------------------------------

pub open spec fn seqs_of(s: Seq<Journaled>) -> Seq<int> {
    s.map_values(|j: Journaled| j.seq as int)
}

pub open spec fn holds_seq(s: Seq<Journaled>, n: int) -> bool {
    exists|i: int| 0 <= i < s.len() && (#[trigger] s[i]).seq == n
}

/// A log holding `s`, in sequence order, after `batch` is appended: each
/// entry whose sequence number is not yet logged is filed in order, the rest
/// are skipped.
pub open spec fn logged(s: Seq<Journaled>, batch: Seq<Journaled>) -> Seq<Journaled>
    decreases batch.len(),
{
    if batch.len() == 0 {
        s
    } else {
        let t = logged(s, batch.drop_last());
        let e = batch.last();
        if holds_seq(t, e.seq as int) {
            t
        } else {
            t.insert(count_below_int(seqs_of(t), e.seq as int), e)
        }
    }
}

/// Two runs of entries that say the same thing, entry by entry.
pub open spec fn agree(a: Seq<Journaled>, b: Seq<Journaled>) -> bool {
    a.len() == b.len() && forall|i: int| 0 <= i < a.len() ==> same_entry(#[trigger] a[i], b[i])
}

/// The entries of `s` numbered above `after` (every entry for none), in
/// log order.
pub open spec fn tail_after(s: Seq<Journaled>, after: Option<u64>) -> Seq<Journaled>
    decreases s.len(),
{
    if s.len() == 0 {
        s
    } else {
        let kept = tail_after(s.drop_last(), after);
        let keep = match after {
            Some(n) => s.last().seq > n,
            None => true,
        };
        if keep {
            kept.push(s.last())
        } else {
            kept
        }
    }
}

/// The part of a journal after sequence number `after`: every entry for
/// `None`, else those numbered above it, in order.
pub fn entries_after(all: &Vec<Journaled>, after: Option<u64>) -> (out: Vec<Journaled>)
    ensures
        agree(out@, tail_after(all@, after)),
        forall|i: int|
            0 <= i < out@.len() ==> (after matches Some(n) ==> (#[trigger] out@[i]).seq > n),
{
    let mut out: Vec<Journaled> = Vec::new();
    let mut i: usize = 0;
    while i < all.len()
        invariant
            i <= all@.len(),
            agree(out@, tail_after(all@.take(i as int), after)),
            forall|k: int|
                0 <= k < out@.len() ==> (after matches Some(n) ==> (#[trigger] out@[k]).seq > n),
        decreases all@.len() - i,
    {
        assert(all@.take(i + 1).drop_last() =~= all@.take(i as int));
        let keep = match after {
            Some(n) => all[i].seq > n,
            None => true,
        };
        let ghost before = out@;
        if keep {
            out.push(all[i].clone());
            assert forall|k: int| 0 <= k < out@.len() implies same_entry(
                #[trigger] out@[k],
                tail_after(all@.take(i + 1), after)[k],
            ) by {
                if k < before.len() {
                    assert(out@[k] == before[k]);
                }
            }
        }
        i = i + 1;
    }
    assert(all@.take(all@.len() as int) =~= all@);
    out
}

proof fn lemma_agree_seqs(a: Seq<Journaled>, b: Seq<Journaled>)
    requires
        agree(a, b),
    ensures
        seqs_of(a) == seqs_of(b),
{
    assert(seqs_of(a) =~= seqs_of(b)) by {
        assert forall|i: int| 0 <= i < a.len() implies seqs_of(a)[i] == seqs_of(b)[i] by {
            assert(same_entry(a[i], b[i]));
        }
    }
}

/// Filing keeps a log in strictly increasing sequence order.
proof fn lemma_logged_increasing(s: Seq<Journaled>, batch: Seq<Journaled>)
    requires
        increasing(seqs_of(s)),
    ensures
        increasing(seqs_of(logged(s, batch))),
    decreases batch.len(),
{
    if batch.len() > 0 {
        lemma_logged_increasing(s, batch.drop_last());
        let t = logged(s, batch.drop_last());
        let e = batch.last();
        if !holds_seq(t, e.seq as int) {
            lemma_file_in_order(t, e);
        }
    }
}

proof fn lemma_file_in_order(t: Seq<Journaled>, e: Journaled)
    requires
        increasing(seqs_of(t)),
        !holds_seq(t, e.seq as int),
    ensures
        increasing(seqs_of(t.insert(count_below_int(seqs_of(t), e.seq as int), e))),
{
    let keys = seqs_of(t);
    let p = count_below_int(keys, e.seq as int);
    lemma_count_slot(keys, e.seq as int);
    let u = t.insert(p, e);
    assert forall|i: int, j: int| 0 <= i < j < u.len() implies #[trigger] seqs_of(u)[i]
        < #[trigger] seqs_of(u)[j] by {
        if j < p {
            assert(seqs_of(u)[i] == keys[i] && seqs_of(u)[j] == keys[j]);
        } else if j == p {
            assert(seqs_of(u)[i] == keys[i]);
        } else if i < p {
            assert(seqs_of(u)[i] == keys[i] && seqs_of(u)[j] == keys[j - 1]);
        } else if i == p {
            assert(seqs_of(u)[j] == keys[j - 1]);
            assert(keys[j - 1] >= e.seq);
            assert(keys[j - 1] != e.seq as int) by {
                assert(t[j - 1].seq == keys[j - 1]);
            }
        } else {
            assert(seqs_of(u)[i] == keys[i - 1] && seqs_of(u)[j] == keys[j - 1]);
        }
    }
}

/// In increasing keys, the count of smaller keys splits them: everything
/// before it is smaller, nothing from it on is.
proof fn lemma_count_slot(keys: Seq<int>, k: int)
    requires
        increasing(keys),
    ensures
        0 <= count_below_int(keys, k) <= keys.len(),
        forall|j: int| 0 <= j < count_below_int(keys, k) ==> #[trigger] keys[j] < k,
        forall|j: int| count_below_int(keys, k) <= j < keys.len() ==> #[trigger] keys[j] >= k,
    decreases keys.len(),
{
    if keys.len() > 0 {
        let d = keys.drop_last();
        let n = keys.len() - 1;
        assert forall|i: int, j: int| 0 <= i < j < d.len() implies #[trigger] d[i] < #[trigger] d[j] by {
            assert(d[i] == keys[i] && d[j] == keys[j]);
        }
        lemma_count_slot(d, k);
        let c = count_below_int(d, k);
        if keys[n] < k {
            assert forall|j: int| 0 <= j < d.len() implies #[trigger] d[j] < k by {
                assert(d[j] == keys[j]);
                assert(keys[j] < keys[n]);
            }
            assert(c == d.len()) by {
                if c < d.len() {
                    assert(d[c] >= k);
                }
            }
            assert forall|j: int| 0 <= j < count_below_int(keys, k) implies #[trigger] keys[j] < k by {
                if j < n {
                    assert(d[j] == keys[j]);
                }
            }
        } else {
            assert forall|j: int| 0 <= j < count_below_int(keys, k) implies #[trigger] keys[j] < k by {
                assert(d[j] == keys[j]);
            }
            assert forall|j: int| count_below_int(keys, k) <= j < keys.len() implies #[trigger] keys[j] >= k by {
                if j < n {
                    assert(d[j] == keys[j]);
                }
            }
        }
    }
}

/// Every sequence number of the log or the batch is logged afterwards.
proof fn lemma_logged_holds(s: Seq<Journaled>, batch: Seq<Journaled>, n: int)
    requires
        holds_seq(s, n) || holds_seq(batch, n),
    ensures
        holds_seq(logged(s, batch), n),
    decreases batch.len(),
{
    if batch.len() > 0 {
        let d = batch.drop_last();
        let t = logged(s, d);
        let e = batch.last();
        let in_rest = holds_seq(s, n) || holds_seq(d, n);
        if in_rest {
            lemma_logged_holds(s, d, n);
        } else {
            let i = choose|i: int| 0 <= i < batch.len() && (#[trigger] batch[i]).seq == n;
            if i < batch.len() - 1 {
                assert(d[i] == batch[i]);
                assert(holds_seq(d, n));
            }
            assert(e.seq == n);
        }
        if !holds_seq(t, e.seq as int) {
            let p = count_below_int(seqs_of(t), e.seq as int);
            lemma_count_bounded(seqs_of(t), e.seq as int);
            let u = t.insert(p, e);
            if in_rest {
                let i = choose|i: int| 0 <= i < t.len() && (#[trigger] t[i]).seq == n;
                if i < p {
                    assert(u[i] == t[i]);
                } else {
                    assert(u[i + 1] == t[i]);
                }
            } else {
                assert(u[p] == e);
            }
        }
    }
}

proof fn lemma_count_bounded(keys: Seq<int>, k: int)
    ensures
        0 <= count_below_int(keys, k) <= keys.len(),
    decreases keys.len(),
{
    if keys.len() > 0 {
        lemma_count_bounded(keys.drop_last(), k);
    }
}

/// A batch whose every sequence number is already logged changes nothing.
proof fn lemma_logged_all_present(s: Seq<Journaled>, batch: Seq<Journaled>)
    requires
        forall|i: int| 0 <= i < batch.len() ==> holds_seq(s, (#[trigger] batch[i]).seq as int),
    ensures
        logged(s, batch) == s,
    decreases batch.len(),
{
    if batch.len() > 0 {
        let d = batch.drop_last();
        assert forall|i: int| 0 <= i < d.len() implies holds_seq(s, (#[trigger] d[i]).seq as int) by {
            assert(d[i] == batch[i]);
        }
        lemma_logged_all_present(s, d);
        assert(holds_seq(s, batch[batch.len() - 1].seq as int));
    }
}

/// Appends are idempotent: re-appending a batch that has landed changes
/// nothing, so a redelivered batch duplicates no entry.
pub proof fn law_reappending_is_a_no_op(s: Seq<Journaled>, batch: Seq<Journaled>)
    ensures
        logged(logged(s, batch), batch) == logged(s, batch),
{
    let t = logged(s, batch);
    assert forall|i: int| 0 <= i < batch.len() implies holds_seq(t, (#[trigger] batch[i]).seq as int) by {
        lemma_logged_holds(s, batch, batch[i].seq as int);
    }
    lemma_logged_all_present(t, batch);
}

// ---- an in-memory log -----------------------------------------------------------

/// A log held in memory, behaving like a durable one down to the idempotent
/// append: a fake rather than a mock, so what is tested against it is
/// behaviour.
pub struct InMemoryLog {
    /// In strictly increasing sequence order.
    entries: Vec<Journaled>,
}

impl View for InMemoryLog {
    type V = Seq<Journaled>;

    closed spec fn view(&self) -> Seq<Journaled> {
        self.entries@
    }
}

impl InMemoryLog {
    #[verifier::type_invariant]
    spec fn inv(self) -> bool {
        increasing(seqs_of(self.entries@))
    }

    pub fn new() -> (l: InMemoryLog)
        ensures
            l@ == Seq::<Journaled>::empty(),
    {
        InMemoryLog { entries: Vec::new() }
    }

    /// The log is in strictly increasing sequence order.
    pub fn facts(&self)
        ensures
            increasing(seqs_of(self@)),
    {
        proof {
            use_type_invariant(self);
        }
    }
}

/// File `e` into `v` unless its sequence number is already there.
fn file(v: &mut Vec<Journaled>, e: &Journaled)
    requires
        increasing(seqs_of(old(v)@)),
    ensures
        increasing(seqs_of(final(v)@)),
        agree(
            final(v)@,
            if holds_seq(old(v)@, e.seq as int) {
                old(v)@
            } else {
                old(v)@.insert(count_below_int(seqs_of(old(v)@), e.seq as int), *e)
            },
        ),
{
    let ghost keys = seqs_of(v@);
    let mut p: usize = 0;
    loop
        invariant
            p <= v@.len(),
            keys == seqs_of(v@),
            v@ == old(v)@,
            increasing(keys),
            forall|j: int| 0 <= j < p ==> #[trigger] keys[j] < e.seq,
        ensures
            p <= v@.len(),
            v@ == old(v)@,
            forall|j: int| 0 <= j < p ==> #[trigger] keys[j] < e.seq,
            p < v@.len() ==> keys[p as int] >= e.seq,
        decreases v@.len() - p,
    {
        if p >= v.len() {
            break;
        }
        assert(keys[p as int] == v@[p as int].seq);
        if v[p].seq >= e.seq {
            break;
        }
        p = p + 1;
    }
    proof {
        lemma_slot_is_count_int(keys, e.seq as int, p as int);
    }
    if p < v.len() && v[p].seq == e.seq {
        proof {
            assert(keys[p as int] == v@[p as int].seq);
            assert(holds_seq(v@, e.seq as int));
        }
        assert(agree(v@, v@));
        return;
    }
    proof {
        if p < v@.len() {
            assert(keys[p as int] == v@[p as int].seq);
            assert(keys[p as int] > e.seq);
        }
        if holds_seq(v@, e.seq as int) {
            let i = choose|i: int| 0 <= i < v@.len() && (#[trigger] v@[i]).seq == e.seq;
            assert(keys[i] == v@[i].seq);
            if i < p {
                assert(keys[i] < e.seq);
            } else if i > p {
                assert(keys[p as int] < keys[i]);
            }
        }
        lemma_file_in_order(v@, *e);
    }
    let ghost before = v@;
    let c = e.clone();
    v.insert(p, c);
    proof {
        let target = before.insert(p as int, *e);
        assert forall|i: int| 0 <= i < v@.len() implies same_entry(#[trigger] v@[i], target[i]) by {
            if i < p {
                assert(v@[i] == before[i] && target[i] == before[i]);
            } else if i > p {
                assert(v@[i] == before[i - 1] && target[i] == before[i - 1]);
            }
        }
        assert(seqs_of(v@) =~= seqs_of(target)) by {
            assert forall|i: int| 0 <= i < v@.len() implies seqs_of(v@)[i] == seqs_of(target)[i] by {
                assert(same_entry(v@[i], target[i]));
            }
        }
    }
}

impl EventLog for InMemoryLog {
    fn append(&mut self, entries: &[Journaled]) -> (r: Result<(), StoreError>)
        ensures
            r is Ok,
            agree(final(self)@, logged(old(self)@, entries@)),
    {
        proof {
            use_type_invariant(&*self);
        }
        let ghost s0 = self@;
        let mut v: Vec<Journaled> = Vec::new();
        std::mem::swap(&mut v, &mut self.entries);
        let mut i: usize = 0;
        assert(entries@.take(0) =~= Seq::<Journaled>::empty());
        assert(agree(v@, v@));
        while i < entries.len()
            invariant
                i <= entries@.len(),
                s0 == old(self)@,
                increasing(seqs_of(s0)),
                increasing(seqs_of(v@)),
                agree(v@, logged(s0, entries@.take(i as int))),
                increasing(seqs_of(logged(s0, entries@.take(i as int)))),
            decreases entries@.len() - i,
        {
            let ghost t = logged(s0, entries@.take(i as int));
            proof {
                assert(entries@.take(i + 1).drop_last() =~= entries@.take(i as int));
                assert(entries@.take(i + 1).last() == entries@[i as int]);
                lemma_agree_seqs(v@, t);
                lemma_logged_increasing(s0, entries@.take(i + 1));
                let n = entries@[i as int].seq as int;
                if holds_seq(t, n) {
                    let k = choose|k: int| 0 <= k < t.len() && (#[trigger] t[k]).seq == n;
                    assert(same_entry(v@[k], t[k]));
                    assert(holds_seq(v@, n));
                }
                if holds_seq(v@, n) {
                    let k = choose|k: int| 0 <= k < v@.len() && (#[trigger] v@[k]).seq == n;
                    assert(same_entry(v@[k], t[k]));
                    assert(holds_seq(t, n));
                }
            }
            let ghost vb = v@;
            file(&mut v, &entries[i]);
            proof {
                let n = entries@[i as int].seq as int;
                let u = logged(s0, entries@.take(i + 1));
                if !holds_seq(vb, n) {
                    let p = count_below_int(seqs_of(vb), n);
                    lemma_count_bounded(seqs_of(vb), n);
                    let w = vb.insert(p, entries@[i as int]);
                    assert(u == t.insert(p, entries@[i as int]));
                    assert forall|k: int| 0 <= k < v@.len() implies same_entry(#[trigger] v@[k], u[k]) by {
                        assert(same_entry(v@[k], w[k]));
                        if k < p {
                            assert(same_entry(vb[k], t[k]));
                        } else if k > p {
                            assert(same_entry(vb[k - 1], t[k - 1]));
                        }
                    }
                }
            }
            i = i + 1;
        }
        assert(entries@.take(i as int) =~= entries@);
        self.entries = v;
        Ok(())
    }

    fn clear(&mut self) -> (r: Result<(), StoreError>)
        ensures
            r is Ok,
            final(self)@ == Seq::<Journaled>::empty(),
    {
        self.entries = Vec::new();
        Ok(())
    }

    fn read_all(&self) -> (r: Result<Vec<Journaled>, StoreError>)
        ensures
            r matches Ok(v) && agree(v@, self@),
    {
        let mut out: Vec<Journaled> = Vec::new();
        let mut i: usize = 0;
        while i < self.entries.len()
            invariant
                i <= self.entries@.len(),
                out@.len() == i,
                forall|k: int| 0 <= k < i ==> same_entry(#[trigger] out@[k], self.entries@[k]),
            decreases self.entries@.len() - i,
        {
            out.push(self.entries[i].clone());
            i = i + 1;
        }
        Ok(out)
    }
}

} // verus!
