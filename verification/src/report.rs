//! The summary projector.
//!
//! A [`Summary`] is the book's outward face: at most `reporting_levels`
//! quotes per side, bids walked from the best (greatest) key downward, asks
//! from the best (least) key upward, the quotes of each price level arranged
//! by descending amount with equal amounts kept in their resting order, and
//! the inside spread — absent, not fabricated, whenever a side is empty.

use vstd::prelude::*;
use crate::codec::{dec_lt, lemma_le_lt_trans, SignedDec};
use crate::ladder::{lemma_views_push, views, Ladder, Level, LevelV, PriceLevel};
use crate::orderbook::OrderBook;

verus! {

/// The projected view of the merged book, handed to subscribers.
#[derive(Debug)]
pub struct Summary {
    /// Best ask minus best bid, or nothing while either side is empty.
    pub spread: Option<SignedDec>,
    /// Top bid quotes, most aggressive (greatest) price first.
    pub bids: Vec<Level>,
    /// Top ask quotes, most aggressive (least) price first.
    pub asks: Vec<Level>,
}

/// Quote `a` rests a strictly smaller amount than quote `b`.
pub open spec fn amount_lt(a: LevelV, b: LevelV) -> bool {
    a.amount.lt_value(b.amount)
}

/// Descending by amount; equal amounts in their given order.
pub open spec fn sorted_desc(s: Seq<LevelV>) -> bool {
    forall|j1: int, j2: int| 0 <= j1 < j2 < s.len() ==> !amount_lt(#[trigger] s[j1], #[trigger] s[j2])
}

/// Stable insertion of `q` into `s`: after every quote resting at least
/// `q`'s amount, before the first resting strictly less.
pub open spec fn insert_desc(s: Seq<LevelV>, q: LevelV) -> Seq<LevelV>
    decreases s.len(),
{
    if s.len() == 0 {
        seq![q]
    } else if amount_lt(s[0], q) {
        seq![q] + s
    } else {
        seq![s[0]] + insert_desc(s.drop_first(), q)
    }
}

/// The position `insert_desc` puts `q` at.
pub open spec fn pos_desc(s: Seq<LevelV>, q: LevelV) -> int
    decreases s.len(),
{
    if s.len() == 0 {
        0
    } else if amount_lt(s[0], q) {
        0
    } else {
        1 + pos_desc(s.drop_first(), q)
    }
}

/// The stable descending-by-amount arrangement of `s`.
pub open spec fn sort_desc(s: Seq<LevelV>) -> Seq<LevelV>
    decreases s.len(),
{
    if s.len() == 0 {
        Seq::empty()
    } else {
        insert_desc(sort_desc(s.drop_last()), s.last())
    }
}

pub proof fn lemma_insert_desc_split(s: Seq<LevelV>, q: LevelV)
    ensures
        0 <= pos_desc(s, q) <= s.len(),
        insert_desc(s, q) == s.take(pos_desc(s, q)) + seq![q] + s.skip(pos_desc(s, q)),
        forall|j: int| 0 <= j < pos_desc(s, q) ==> !amount_lt(#[trigger] s[j], q),
        pos_desc(s, q) < s.len() ==> amount_lt(s[pos_desc(s, q)], q),
    decreases s.len(),
{
    if s.len() == 0 {
        assert(insert_desc(s, q) =~= s.take(0) + seq![q] + s.skip(0));
    } else if amount_lt(s[0], q) {
        assert(insert_desc(s, q) =~= s.take(0) + seq![q] + s.skip(0));
    } else {
        let rest = s.drop_first();
        lemma_insert_desc_split(rest, q);
        let p = pos_desc(rest, q);
        assert(insert_desc(s, q) =~= s.take(p + 1) + seq![q] + s.skip(p + 1)) by {
            assert(insert_desc(s, q) == seq![s[0]] + (rest.take(p) + seq![q] + rest.skip(p)));
        }
        assert forall|j: int| 0 <= j < p + 1 implies !amount_lt(#[trigger] s[j], q) by {
            if j > 0 {
                assert(rest[j - 1] == s[j]);
                assert(!amount_lt(rest[j - 1], q));
            }
        }
        if p + 1 < s.len() {
            assert(s[p + 1] == rest[p]);
        }
    }
}

/// The first position whose quote rests strictly less than `q` is where the
/// stable insertion goes.
pub proof fn lemma_pos_desc_is(s: Seq<LevelV>, q: LevelV, p: int)
    requires
        0 <= p <= s.len(),
        forall|p0: int| 0 <= p0 < p ==> !amount_lt(#[trigger] s[p0], q),
        p < s.len() ==> amount_lt(s[p], q),
    ensures
        pos_desc(s, q) == p,
    decreases s.len(),
{
    if s.len() > 0 && !amount_lt(s[0], q) {
        let rest = s.drop_first();
        assert(forall|p0: int| 0 <= p0 < p - 1 ==> !amount_lt(#[trigger] rest[p0], q));
        if p - 1 < rest.len() {
            assert(rest[p - 1] == s[p]);
        }
        lemma_pos_desc_is(rest, q, p - 1);
    }
}

/// Inserting into a descending arrangement keeps it descending.
pub proof fn lemma_insert_desc_sorted(s: Seq<LevelV>, q: LevelV)
    requires
        sorted_desc(s),
    ensures
        sorted_desc(insert_desc(s, q)),
{
    lemma_insert_desc_split(s, q);
    let p = pos_desc(s, q);
    let r = insert_desc(s, q);
    assert forall|j1: int, j2: int|
        0 <= j1 < j2 < r.len() implies !amount_lt(#[trigger] r[j1], #[trigger] r[j2]) by {
        if j1 < p {
            assert(r[j1] == s[j1]);
        } else if j1 == p {
            assert(r[j1] == q);
        } else {
            assert(r[j1] == s[j1 - 1]);
        }
        if j2 < p {
            assert(r[j2] == s[j2]);
        } else if j2 == p {
            assert(r[j2] == q);
        } else {
            assert(r[j2] == s[j2 - 1]);
        }
        if j1 < p && j2 == p {
            // s[j1] rests at least q's amount.
        } else if j1 == p && j2 > p {
            // q rests strictly more than s[p], which rests at least s[j2-1]:
            // so s[j2-1] rests strictly less than q.
            assert(amount_lt(s[p], q));
            if p < j2 - 1 {
                assert(!amount_lt(s[p], s[j2 - 1]));
            }
            lemma_le_lt_trans(s[j2 - 1].amount, s[p].amount, q.amount);
            assert(amount_lt(s[j2 - 1], q));
        }
    }
}

/// A stable descending sort is descending.
pub proof fn lemma_sort_desc_sorted(s: Seq<LevelV>)
    ensures
        sorted_desc(sort_desc(s)),
    decreases s.len(),
{
    if s.len() > 0 {
        lemma_sort_desc_sorted(s.drop_last());
        lemma_insert_desc_sorted(sort_desc(s.drop_last()), s.last());
    }
}

/// Sorting neither invents, drops nor rewrites quotes.
pub proof fn lemma_sort_desc_contains(s: Seq<LevelV>, q: LevelV)
    ensures
        sort_desc(s).contains(q) <==> s.contains(q),
    decreases s.len(),
{
    if s.len() > 0 {
        let rest = s.drop_last();
        lemma_sort_desc_contains(rest, q);
        lemma_insert_desc_split(sort_desc(rest), s.last());
        let sorted_rest = sort_desc(rest);
        let p = pos_desc(sorted_rest, s.last());
        let r = sort_desc(s);
        assert(r == sorted_rest.take(p) + seq![s.last()] + sorted_rest.skip(p));
        if r.contains(q) {
            let j = choose|j: int| 0 <= j < r.len() && r[j] == q;
            if j < p {
                assert(sorted_rest[j] == q);
                assert(sorted_rest.contains(q));
                assert(s[choose|j0: int| 0 <= j0 < rest.len() && rest[j0] == q] == q);
                assert(s.contains(q));
            } else if j == p {
                assert(q == s.last());
                assert(s.contains(q));
            } else {
                assert(sorted_rest[j - 1] == q);
                assert(sorted_rest.contains(q));
                assert(s[choose|j0: int| 0 <= j0 < rest.len() && rest[j0] == q] == q);
                assert(s.contains(q));
            }
        }
        if s.contains(q) {
            let j = choose|j: int| 0 <= j < s.len() && s[j] == q;
            if j == s.len() - 1 {
                assert(r[p] == q);
                assert(r.contains(q));
            } else {
                assert(rest[j] == q);
                assert(rest.contains(q));
                assert(sorted_rest.contains(q));
                let j2 = choose|j2: int| 0 <= j2 < sorted_rest.len() && sorted_rest[j2] == q;
                if j2 < p {
                    assert(r[j2] == q);
                } else {
                    assert(r[j2 + 1] == q);
                }
                assert(r.contains(q));
            }
        }
    }
}

/// All quotes of the given levels in ask display order: level after level by
/// ascending key, each level arranged by descending amount.
pub open spec fn report_asc(entries: Seq<PriceLevel>) -> Seq<LevelV>
    decreases entries.len(),
{
    if entries.len() == 0 {
        Seq::empty()
    } else {
        report_asc(entries.drop_last()) + sort_desc(views(entries.last().quotes@))
    }
}

/// All quotes of the given levels in bid display order: level after level by
/// descending key, each level arranged by descending amount.
pub open spec fn report_desc(entries: Seq<PriceLevel>) -> Seq<LevelV>
    decreases entries.len(),
{
    if entries.len() == 0 {
        Seq::empty()
    } else {
        report_desc(entries.drop_first()) + sort_desc(views(entries[0].quotes@))
    }
}

/// The first `n` quotes, or all of them when fewer exist.
pub open spec fn clamp_take(s: Seq<LevelV>, n: int) -> Seq<LevelV> {
    if n <= s.len() {
        s.take(n)
    } else {
        s
    }
}

/// The ask report of a longer prefix of levels extends that of a shorter one.
pub proof fn lemma_report_asc_extend(entries: Seq<PriceLevel>, i: int)
    requires
        0 <= i < entries.len(),
    ensures
        report_asc(entries.take(i + 1)) == report_asc(entries.take(i)) + sort_desc(
            views(entries[i].quotes@),
        ),
{
    let t = entries.take(i + 1);
    assert(t.drop_last() =~= entries.take(i));
    assert(t.last() == entries[i]);
}

/// The bid report of a longer suffix of levels extends that of a shorter one.
pub proof fn lemma_report_desc_extend(entries: Seq<PriceLevel>, i: int)
    requires
        0 <= i < entries.len(),
    ensures
        report_desc(entries.skip(i)) == report_desc(entries.skip(i + 1)) + sort_desc(
            views(entries[i].quotes@),
        ),
{
    let t = entries.skip(i);
    assert(t.drop_first() =~= entries.skip(i + 1));
    assert(t[0] == entries[i]);
}

/// An ask report can also be peeled from the front.
pub proof fn lemma_report_asc_head(entries: Seq<PriceLevel>)
    requires
        entries.len() > 0,
    ensures
        report_asc(entries) == sort_desc(views(entries[0].quotes@)) + report_asc(
            entries.drop_first(),
        ),
    decreases entries.len(),
{
    if entries.len() == 1 {
        assert(entries.drop_last() =~= entries.drop_first());
        assert(report_asc(entries) =~= sort_desc(views(entries[0].quotes@)) + report_asc(
            entries.drop_first(),
        ));
    } else {
        lemma_report_asc_head(entries.drop_last());
        assert(entries.drop_last()[0] == entries[0]);
        assert(entries.drop_last().drop_first() =~= entries.drop_first().drop_last());
        assert(entries.drop_first().last() == entries.last());
        assert(report_asc(entries) =~= sort_desc(views(entries[0].quotes@)) + report_asc(
            entries.drop_first(),
        ));
    }
}

/// An ask report splits at any level boundary.
pub proof fn lemma_report_asc_split(entries: Seq<PriceLevel>, i: int)
    requires
        0 <= i <= entries.len(),
    ensures
        report_asc(entries) == report_asc(entries.take(i)) + report_asc(entries.skip(i)),
    decreases entries.len() - i,
{
    if i == entries.len() {
        assert(entries.take(i) =~= entries);
        assert(entries.skip(i).len() == 0);
        assert(report_asc(entries) =~= report_asc(entries.take(i)) + report_asc(entries.skip(i)));
    } else {
        lemma_report_asc_split(entries, i + 1);
        lemma_report_asc_extend(entries, i);
        let s2 = entries.skip(i);
        lemma_report_asc_head(s2);
        assert(s2.drop_first() =~= entries.skip(i + 1));
        assert(s2[0] == entries[i]);
        assert(report_asc(entries) =~= report_asc(entries.take(i)) + report_asc(entries.skip(i)));
    }
}

/// A bid report can also be peeled from the back.
pub proof fn lemma_report_desc_back(entries: Seq<PriceLevel>)
    requires
        entries.len() > 0,
    ensures
        report_desc(entries) == sort_desc(views(entries.last().quotes@)) + report_desc(
            entries.drop_last(),
        ),
    decreases entries.len(),
{
    if entries.len() == 1 {
        assert(entries.drop_first() =~= entries.drop_last());
        assert(report_desc(entries) =~= sort_desc(views(entries.last().quotes@)) + report_desc(
            entries.drop_last(),
        ));
    } else {
        lemma_report_desc_back(entries.drop_first());
        assert(entries.drop_first().last() == entries.last());
        assert(entries.drop_first().drop_last() =~= entries.drop_last().drop_first());
        assert(entries.drop_last()[0] == entries[0]);
        assert(report_desc(entries) =~= sort_desc(views(entries.last().quotes@)) + report_desc(
            entries.drop_last(),
        ));
    }
}

/// A bid report splits at any level boundary: the levels from `i` upward
/// come first, the levels below `i` after them.
pub proof fn lemma_report_desc_split(entries: Seq<PriceLevel>, i: int)
    requires
        0 <= i <= entries.len(),
    ensures
        report_desc(entries) == report_desc(entries.skip(i)) + report_desc(entries.take(i)),
    decreases i,
{
    if i == 0 {
        assert(entries.skip(0) =~= entries);
        assert(entries.take(0).len() == 0);
        assert(report_desc(entries) =~= report_desc(entries.skip(0)) + report_desc(
            entries.take(0),
        ));
    } else {
        lemma_report_desc_split(entries, i - 1);
        lemma_report_desc_extend(entries, i - 1);
        let t = entries.take(i);
        lemma_report_desc_back(t);
        assert(t.drop_last() =~= entries.take(i - 1));
        assert(t.last() == entries[i - 1]);
        assert(report_desc(entries) =~= report_desc(entries.skip(i)) + report_desc(
            entries.take(i),
        ));
    }
}

/// Shrinking the reporting depth only shortens a side's report: the report
/// at a smaller depth is a prefix of the report at a larger depth, so
/// truncation removes the least aggressive tail and never drops a more
/// aggressive price level in favor of a less aggressive one.
pub proof fn lemma_shrinking_depth_keeps_prefix(s: Seq<LevelV>, d1: int, d2: int)
    requires
        0 <= d1 <= d2,
    ensures
        clamp_take(s, d1).is_prefix_of(clamp_take(s, d2)),
{
    assert(clamp_take(s, d1) =~= clamp_take(s, d2).take(clamp_take(s, d1).len() as int));
}

/// Cross-exchange merge keeps every quote visible: whatever rests at any
/// (key, exchange) slot of the ask ladder appears in the side's untruncated
/// report, so exchanges sharing a price never overwrite one another.
pub proof fn lemma_report_asc_contains_quote(lad: Ladder, k: int, x: Seq<char>)
    requires
        lad.wf(),
        lad.has_quote(k, x),
    ensures
        report_asc(lad.entries@).contains(lad.quote_at(k, x)),
{
    let i = lad.key_index(k);
    lemma_report_asc_split(lad.entries@, i);
    lemma_report_asc_head(lad.entries@.skip(i));
    let e = lad.entries@[i];
    assert(lad.entries@.skip(i)[0] == e);
    assert(lad.entries@.skip(i).drop_first() =~= lad.entries@.skip(i + 1));
    let q = lad.quote_at(k, x);
    let j = e.source_index(x);
    assert(views(e.quotes@)[j] == q);
    assert(views(e.quotes@).contains(q));
    lemma_sort_desc_contains(views(e.quotes@), q);
    let block = sort_desc(views(e.quotes@));
    let jb = choose|t: int| 0 <= t < block.len() && block[t] == q;
    let pre = report_asc(lad.entries@.take(i));
    assert(report_asc(lad.entries@)[pre.len() + jb] == q);
    assert(report_asc(lad.entries@).contains(q));
}

/// The bid-side counterpart: whatever rests at any (key, exchange) slot of
/// the bid ladder appears in the side's untruncated report.
pub proof fn lemma_report_desc_contains_quote(lad: Ladder, k: int, x: Seq<char>)
    requires
        lad.wf(),
        lad.has_quote(k, x),
    ensures
        report_desc(lad.entries@).contains(lad.quote_at(k, x)),
{
    let i = lad.key_index(k);
    lemma_report_desc_split(lad.entries@, i + 1);
    lemma_report_desc_back(lad.entries@.take(i + 1));
    let e = lad.entries@[i];
    assert(lad.entries@.take(i + 1).last() == e);
    assert(lad.entries@.take(i + 1).drop_last() =~= lad.entries@.take(i));
    let q = lad.quote_at(k, x);
    let j = e.source_index(x);
    assert(views(e.quotes@)[j] == q);
    assert(views(e.quotes@).contains(q));
    lemma_sort_desc_contains(views(e.quotes@), q);
    let block = sort_desc(views(e.quotes@));
    let jb = choose|t: int| 0 <= t < block.len() && block[t] == q;
    let pre = report_desc(lad.entries@.skip(i + 1));
    assert(report_desc(lad.entries@)[pre.len() + jb] == q);
    assert(report_desc(lad.entries@).contains(q));
}

/// Arranges one price level's quotes for display: descending amount, equal
/// amounts kept in their resting order.
fn sorted_by_amount_desc(qs: &Vec<Level>) -> (r: Vec<Level>)
    requires
        forall|j: int| 0 <= j < qs.len() ==> (#[trigger] qs[j])@.wf(),
    ensures
        views(r@) == sort_desc(views(qs@)),
{
    let mut r: Vec<Level> = Vec::new();
    let mut i: usize = 0;
    while i < qs.len()
        invariant
            i <= qs.len(),
            forall|j: int| 0 <= j < qs.len() ==> (#[trigger] qs[j])@.wf(),
            views(r@) == sort_desc(views(qs@).take(i as int)),
            forall|j: int| 0 <= j < r.len() ==> (#[trigger] r[j])@.wf(),
        decreases qs.len() - i,
    {
        let q = qs[i].duplicate();
        let mut p: usize = 0;
        while p < r.len() && !dec_lt(&r[p].amount, &q.amount)
            invariant
                p <= r.len(),
                q@.wf(),
                forall|j: int| 0 <= j < r.len() ==> (#[trigger] r[j])@.wf(),
                forall|p0: int| 0 <= p0 < p ==> !amount_lt((#[trigger] r[p0])@, q@),
            decreases r.len() - p,
        {
            p = p + 1;
        }
        let ghost r0 = views(r@);
        proof {
            assert forall|p0: int| 0 <= p0 < p implies !amount_lt(#[trigger] r0[p0], q@) by {
                assert(r0[p0] == r[p0]@);
            }
            if (p as int) < r0.len() {
                assert(amount_lt(r0[p as int], q@));
            }
            lemma_pos_desc_is(r0, q@, p as int);
            lemma_insert_desc_split(r0, q@);
        }
        r.insert(p, q);
        proof {
            assert(views(r@) =~= insert_desc(r0, qs[i as int]@));
            let t1 = views(qs@).take(i as int + 1);
            assert(t1.drop_last() =~= views(qs@).take(i as int));
            assert(t1.last() == qs[i as int]@);
            assert(views(r@) == sort_desc(t1));
            assert forall|j: int| 0 <= j < r.len() implies (#[trigger] r[j])@.wf() by {
                if j < p {
                    assert(r[j]@ == r0[j]);
                } else if j > p {
                    assert(r[j]@ == r0[j - 1]);
                }
            }
        }
        i = i + 1;
    }
    proof {
        assert(views(qs@).take(qs.len() as int) =~= views(qs@));
    }
    r
}

impl OrderBook {
    /// The top ask quotes: levels walked from `best_ask_key` upward, each
    /// level's quotes by descending amount, truncated to `reporting_levels`.
    pub fn get_asks_reporting_levels(&self) -> (r: Vec<Level>)
        requires
            self.wf(),
        ensures
            views(r@) == clamp_take(
                report_asc(self.ask_ladder.entries@),
                self.reporting_levels as int,
            ),
    {
        let ghost entries = self.ask_ladder.entries@;
        let d = self.reporting_levels as usize;
        let mut out: Vec<Level> = Vec::new();
        let mut i: usize = 0;
        while i < self.ask_ladder.entries.len() && out.len() < d
            invariant
                self.wf(),
                i <= self.ask_ladder.entries.len(),
                entries == self.ask_ladder.entries@,
                d == self.reporting_levels as usize,
                out.len() <= d,
                views(out@) == clamp_take(report_asc(entries.take(i as int)), d as int),
                out.len() < d ==> views(out@) == report_asc(entries.take(i as int)),
            decreases self.ask_ladder.entries.len() - i,
        {
            proof {
                assert(self.ask_ladder.entries[i as int].wf());
            }
            let sorted = sorted_by_amount_desc(&self.ask_ladder.entries[i].quotes);
            let ghost svs = views(sorted@);
            append_up_to(&mut out, &sorted, d);
            proof {
                lemma_report_asc_extend(entries, i as int);
                assert(report_asc(entries.take(i as int + 1)) == report_asc(
                    entries.take(i as int),
                ) + svs);
                assert(views(out@) =~= clamp_take(report_asc(entries.take(i as int + 1)), d as int));
                if out.len() < d {
                    assert(views(out@) =~= report_asc(entries.take(i as int + 1)));
                }
            }
            i = i + 1;
        }
        proof {
            if i == self.ask_ladder.entries.len() {
                assert(entries.take(i as int) =~= entries);
            } else {
                lemma_report_asc_split(entries, i as int);
                assert(views(out@) =~= clamp_take(report_asc(entries), d as int));
            }
        }
        out
    }

    /// The top bid quotes: levels walked from `best_bid_key` downward, each
    /// level's quotes by descending amount, truncated to `reporting_levels`.
    pub fn get_bids_reporting_levels(&self) -> (r: Vec<Level>)
        requires
            self.wf(),
        ensures
            views(r@) == clamp_take(
                report_desc(self.bid_ladder.entries@),
                self.reporting_levels as int,
            ),
    {
        let ghost entries = self.bid_ladder.entries@;
        let d = self.reporting_levels as usize;
        let mut out: Vec<Level> = Vec::new();
        let mut i: usize = self.bid_ladder.entries.len();
        while i > 0 && out.len() < d
            invariant
                self.wf(),
                i <= self.bid_ladder.entries.len(),
                entries == self.bid_ladder.entries@,
                d == self.reporting_levels as usize,
                out.len() <= d,
                views(out@) == clamp_take(report_desc(entries.skip(i as int)), d as int),
                out.len() < d ==> views(out@) == report_desc(entries.skip(i as int)),
            decreases i,
        {
            i = i - 1;
            proof {
                assert(self.bid_ladder.entries[i as int].wf());
            }
            let sorted = sorted_by_amount_desc(&self.bid_ladder.entries[i].quotes);
            let ghost svs = views(sorted@);
            append_up_to(&mut out, &sorted, d);
            proof {
                lemma_report_desc_extend(entries, i as int);
                assert(report_desc(entries.skip(i as int)) == report_desc(
                    entries.skip(i as int + 1),
                ) + svs);
                assert(views(out@) =~= clamp_take(report_desc(entries.skip(i as int)), d as int));
                if out.len() < d {
                    assert(views(out@) =~= report_desc(entries.skip(i as int)));
                }
            }
        }
        proof {
            if i == 0 {
                assert(entries.skip(0) =~= entries);
            } else {
                lemma_report_desc_split(entries, i as int);
                assert(views(out@) =~= clamp_take(report_desc(entries), d as int));
            }
        }
        out
    }

    /// Projects the whole book: both reported sides and the inside spread,
    /// which is absent — never a made-up number — while either side is empty.
    pub fn get_summary(&self) -> (r: Summary)
        requires
            self.wf(),
        ensures
            views(r.bids@) == clamp_take(
                report_desc(self.bid_ladder.entries@),
                self.reporting_levels as int,
            ),
            views(r.asks@) == clamp_take(
                report_asc(self.ask_ladder.entries@),
                self.reporting_levels as int,
            ),
            r.spread == match (self.best_bid_key, self.best_ask_key) {
                (Some(b), Some(a)) => Some(
                    SignedDec { mantissa: (a - b) as i128, scale: self.scale_exp },
                ),
                _ => None::<SignedDec>,
            },
    {
        let bids = self.get_bids_reporting_levels();
        let asks = self.get_asks_reporting_levels();
        let spread = match (self.best_bid_key, self.best_ask_key) {
            (Some(b), Some(a)) => Some(crate::codec::spread_from_keys(a, b, self.scale_exp)),
            _ => None,
        };
        Summary { spread, bids, asks }
    }
}

/// Moves quotes from `src_quotes` onto the end of `out` until `out` holds
/// `d` quotes or the level is exhausted.
fn append_up_to(out: &mut Vec<Level>, src_quotes: &Vec<Level>, d: usize)
    requires
        old(out).len() <= d,
    ensures
        final(out).len() <= d,
        views(final(out)@) == clamp_take(views(old(out)@) + views(src_quotes@), d as int),
        final(out).len() < d ==> views(final(out)@) == views(old(out)@) + views(src_quotes@),
{
    let mut j: usize = 0;
    while j < src_quotes.len() && out.len() < d
        invariant
            j <= src_quotes.len(),
            out.len() <= d,
            out.len() == old(out).len() + j,
            views(out@) == views(old(out)@) + views(src_quotes@).take(j as int),
        decreases src_quotes.len() - j,
    {
        let q = src_quotes[j].duplicate();
        proof {
            assert(q@ == views(src_quotes@)[j as int]);
        }
        let ghost prev = out@;
        out.push(q);
        proof {
            lemma_views_push(prev, q);
            assert(views(src_quotes@).take(j as int + 1) =~= views(src_quotes@).take(
                j as int,
            ).push(q@));
            assert(views(out@) =~= views(old(out)@) + views(src_quotes@).take(j as int + 1));
        }
        j = j + 1;
    }
    proof {
        if j == src_quotes.len() {
            assert(views(src_quotes@).take(j as int) =~= views(src_quotes@));
        }
        assert(views(out@) =~~= clamp_take(views(old(out)@) + views(src_quotes@), d as int));
    }
}

} // verus!
