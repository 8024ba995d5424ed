//! One side of the book: a price ladder.
//!
//! A ladder is a strictly key-sorted vector of price levels; each level holds
//! the quotes of the exchanges resting at that price, one per exchange, all
//! with a non-zero amount. A level with no quotes is pruned at once, so every
//! key present in the ladder carries live interest and the best price of a
//! side is simply the ladder's extreme key.

use vstd::prelude::*;
use crate::codec::Dec;

verus! {

/// One exchange's resting interest at one price on one side of the book.
#[derive(Debug)]
pub struct Level {
    pub price: Dec,
    pub amount: Dec,
    pub exchange: String,
}

/// The mathematical value of a [`Level`]: the exchange name as a sequence of
/// characters, prices and amounts as the decimals they already are.
pub struct LevelV {
    pub price: Dec,
    pub amount: Dec,
    pub exchange: Seq<char>,
}

impl View for Level {
    type V = LevelV;

    open spec fn view(&self) -> LevelV {
        LevelV { price: self.price, amount: self.amount, exchange: self.exchange@ }
    }
}

impl LevelV {
    /// Both decimals carry a representable scale.
    pub open spec fn wf(self) -> bool {
        self.price.wf() && self.amount.wf()
    }
}

/// The values of a sequence of quotes.
pub open spec fn views(s: Seq<Level>) -> Seq<LevelV> {
    s.map_values(|l: Level| l@)
}

/// Taking values distributes over appending one quote.
pub proof fn lemma_views_push(s: Seq<Level>, l: Level)
    ensures
        views(s.push(l)) == views(s).push(l@),
{
    assert forall|t: int| 0 <= t < s.len() + 1 implies views(s.push(l))[t] == views(s).push(l@)[t] by {
        if t < s.len() {
            assert(s.push(l)[t] == s[t]);
        }
    }
    assert(views(s.push(l)) =~= views(s).push(l@));
}

impl Level {
    /// A fresh quote equal in value to this one.
    pub fn duplicate(&self) -> (r: Level)
        ensures
            r@ == self@,
    {
        Level { price: self.price, amount: self.amount, exchange: self.exchange.clone() }
    }
}

/// All resting interest at one exact price: at most one quote per exchange.
#[derive(Debug)]
pub struct PriceLevel {
    pub key: u64,
    pub quotes: Vec<Level>,
}

impl PriceLevel {
    /// Some quote of exchange `x` rests at this level.
    pub open spec fn has_source(self, x: Seq<char>) -> bool {
        exists|j: int| 0 <= j < self.quotes.len() && (#[trigger] self.quotes[j])@.exchange == x
    }

    /// The position of exchange `x`'s quote.
    pub open spec fn source_index(self, x: Seq<char>) -> int {
        choose|j: int| 0 <= j < self.quotes.len() && (#[trigger] self.quotes[j])@.exchange == x
    }

    /// The quote exchange `x` rests at this level.
    pub open spec fn quote_of(self, x: Seq<char>) -> LevelV {
        self.quotes[self.source_index(x)]@
    }

    /// Non-empty, one quote per exchange, every quote live and well-formed.
    pub open spec fn wf(self) -> bool {
        &&& self.quotes.len() > 0
        &&& forall|j1: int, j2: int|
            0 <= j1 < j2 < self.quotes.len() ==> (#[trigger] self.quotes[j1])@.exchange != (
            #[trigger] self.quotes[j2])@.exchange
        &&& forall|j: int|
            0 <= j < self.quotes.len() ==> (#[trigger] self.quotes[j])@.wf() && !self.quotes[j]@.amount.is_zero()
    }

    /// With distinct exchanges, any index holding `x` is `source_index(x)`.
    pub proof fn lemma_source_index_is(self, j: int)
        requires
            self.wf(),
            0 <= j < self.quotes.len(),
        ensures
            self.has_source(self.quotes[j]@.exchange),
            self.source_index(self.quotes[j]@.exchange) == j,
    {
        let x = self.quotes[j]@.exchange;
        assert(self.has_source(x));
        let j2 = self.source_index(x);
        if j2 < j {
            assert(self.quotes[j2]@.exchange != self.quotes[j]@.exchange);
        } else if j < j2 {
            assert(self.quotes[j]@.exchange != self.quotes[j2]@.exchange);
        }
    }

    /// Finds the position of exchange `x`'s quote at this level, if any.
    pub fn find_source(&self, x: &String) -> (r: Option<usize>)
        ensures
            match r {
                Some(j) => j < self.quotes.len() && self.quotes[j as int]@.exchange == x@,
                None => !self.has_source(x@),
            },
    {
        let mut j: usize = 0;
        while j < self.quotes.len()
            invariant
                j <= self.quotes.len(),
                forall|j0: int| 0 <= j0 < j ==> (#[trigger] self.quotes[j0])@.exchange != x@,
            decreases self.quotes.len() - j,
        {
            if self.quotes[j].exchange == *x {
                return Some(j);
            }
            j = j + 1;
        }
        None
    }
}

/// The position, before a removal at `j`, of the element that a removal at
/// `j` leaves at position `j0`.
pub open spec fn old_pos(j0: int, j: int) -> int {
    if j0 < j {
        j0
    } else {
        j0 + 1
    }
}

/// One side's ladder: price levels in strictly ascending key order.
#[derive(Debug)]
pub struct Ladder {
    pub entries: Vec<PriceLevel>,
}

/// The one-slot difference a successful upsert makes: `q` now rests at
/// `(key, q.exchange)` and every other slot reads exactly as before.
pub open spec fn upserted(l0: Ladder, l1: Ladder, key: int, q: LevelV) -> bool {
    &&& l1.has_quote(key, q.exchange)
    &&& l1.quote_at(key, q.exchange) == q
    &&& forall|k: int, x: Seq<char>|
        !(k == key && x == q.exchange) ==> (#[trigger] l1.has_quote(k, x) <==> l0.has_quote(k, x))
    &&& forall|k: int, x: Seq<char>|
        !(k == key && x == q.exchange) && l0.has_quote(k, x) ==> #[trigger] l1.quote_at(k, x)
            == l0.quote_at(k, x)
    &&& forall|k: int| k != key ==> (#[trigger] l1.has_key(k) <==> l0.has_key(k))
    &&& l1.has_key(key)
}

/// The one-slot difference a removal makes: nothing of exchange `x` rests at
/// `key` any more, every other slot reads exactly as before, and the level
/// at `key` survives exactly when another exchange was resting there.
pub open spec fn removed(l0: Ladder, l1: Ladder, key: int, x: Seq<char>) -> bool {
    &&& !l1.has_quote(key, x)
    &&& forall|k: int, x2: Seq<char>|
        !(k == key && x2 == x) ==> (#[trigger] l1.has_quote(k, x2) <==> l0.has_quote(k, x2))
    &&& forall|k: int, x2: Seq<char>|
        !(k == key && x2 == x) && l0.has_quote(k, x2) ==> #[trigger] l1.quote_at(k, x2)
            == l0.quote_at(k, x2)
    &&& forall|k: int| k != key ==> (#[trigger] l1.has_key(k) <==> l0.has_key(k))
    &&& (l1.has_key(key) <==> exists|x2: Seq<char>| x2 != x && l0.has_quote(key, x2))
}

impl Ladder {
    /// Keys strictly ascending; every level well-formed (hence non-empty).
    pub open spec fn wf(self) -> bool {
        &&& forall|i1: int, i2: int|
            0 <= i1 < i2 < self.entries.len() ==> (#[trigger] self.entries[i1]).key < (
            #[trigger] self.entries[i2]).key
        &&& forall|i: int| 0 <= i < self.entries.len() ==> (#[trigger] self.entries[i]).wf()
    }

    /// Some level rests at key `k`.
    pub open spec fn has_key(self, k: int) -> bool {
        exists|i: int| 0 <= i < self.entries.len() && (#[trigger] self.entries[i]).key == k
    }

    /// The position of the level at key `k`.
    pub open spec fn key_index(self, k: int) -> int {
        choose|i: int| 0 <= i < self.entries.len() && (#[trigger] self.entries[i]).key == k
    }

    /// Exchange `x` has a quote resting at key `k`.
    pub open spec fn has_quote(self, k: int, x: Seq<char>) -> bool {
        self.has_key(k) && self.entries[self.key_index(k)].has_source(x)
    }

    /// The quote exchange `x` rests at key `k`.
    pub open spec fn quote_at(self, k: int, x: Seq<char>) -> LevelV {
        self.entries[self.key_index(k)].quote_of(x)
    }

    /// With strictly sorted keys, any index holding `k` is `key_index(k)`.
    pub proof fn lemma_key_index_is(self, i: int)
        requires
            self.wf(),
            0 <= i < self.entries.len(),
        ensures
            self.has_key(self.entries[i].key as int),
            self.key_index(self.entries[i].key as int) == i,
    {
        let k = self.entries[i].key as int;
        assert(self.has_key(k));
        let i2 = self.key_index(k);
        if i2 < i {
            assert(self.entries[i2].key < self.entries[i].key);
        } else if i < i2 {
            assert(self.entries[i].key < self.entries[i2].key);
        }
    }

    /// An empty ladder: no resting interest at all.
    pub fn empty() -> (r: Ladder)
        ensures
            r.wf(),
            forall|k: int| !r.has_key(k),
            r.entries@.len() == 0,
    {
        Ladder { entries: Vec::new() }
    }

    /// Finds the position of the level at `key`, if any.
    pub fn find_key(&self, key: u64) -> (r: Option<usize>)
        ensures
            match r {
                Some(i) => i < self.entries.len() && self.entries[i as int].key == key,
                None => !self.has_key(key as int),
            },
    {
        let mut i: usize = 0;
        while i < self.entries.len()
            invariant
                i <= self.entries.len(),
                forall|i0: int| 0 <= i0 < i ==> (#[trigger] self.entries[i0]).key != key,
            decreases self.entries.len() - i,
        {
            if self.entries[i].key == key {
                return Some(i);
            }
            i = i + 1;
        }
        None
    }

    /// Whether any level rests at `key`.
    pub fn has_level(&self, key: u64) -> (r: bool)
        ensures
            r == self.has_key(key as int),
    {
        match self.find_key(key) {
            Some(i) => {
                proof {
                    assert(0 <= i < self.entries.len() && (self.entries[i as int]).key == key as int);
                }
                true
            },
            None => false,
        }
    }

    /// The greatest key with resting interest, or nothing on an empty side.
    pub fn max_key(&self) -> (r: Option<u64>)
        requires
            self.wf(),
        ensures
            match r {
                Some(b) => self.has_key(b as int) && forall|k: int| self.has_key(k) ==> k <= b,
                None => forall|k: int| !self.has_key(k),
            },
    {
        let n = self.entries.len();
        if n == 0 {
            None
        } else {
            let b = self.entries[n - 1].key;
            proof {
                self.lemma_key_index_is(n - 1);
                assert forall|k: int| self.has_key(k) implies k <= b by {
                    let i = choose|i: int|
                        0 <= i < self.entries.len() && (#[trigger] self.entries[i]).key == k;
                    if i < n - 1 {
                        assert(self.entries[i].key < self.entries[n - 1].key);
                    }
                };
            }
            Some(b)
        }
    }

    /// Inserts or overwrites exchange `quote.exchange`'s quote at `key`,
    /// leaving every other (key, exchange) slot untouched.
    pub fn upsert(&mut self, key: u64, quote: Level)
        requires
            old(self).wf(),
            quote@.wf(),
            !quote@.amount.is_zero(),
        ensures
            final(self).wf(),
            upserted(*old(self), *final(self), key as int, quote@),
    {
        let ghost l0 = *self;
        let ghost qx = quote@.exchange;
        match self.find_key(key) {
            Some(i) => {
                proof {
                    l0.lemma_key_index_is(i as int);
                }
                let mut entry = self.entries.remove(i);
                let ghost e0 = entry;
                match entry.find_source(&quote.exchange) {
                    Some(j) => {
                        let _ = entry.quotes.remove(j);
                        entry.quotes.insert(j, quote);
                        proof {
                            assert(entry.quotes@ =~= e0.quotes@.update(j as int, quote));
                        }
                    },
                    None => {
                        entry.quotes.push(quote);
                    },
                }
                let ghost e1 = entry;
                self.entries.insert(i, entry);
                proof {
                    assert(self.entries@ =~= l0.entries@.update(i as int, e1));
                    assert(e1.key == e0.key);
                    // The exchanges at every slot of the level determine its shape.
                    assert forall|j0: int| 0 <= j0 < e0.quotes.len() implies (
                    #[trigger] e1.quotes[j0])@.exchange == e0.quotes[j0]@.exchange by {}
                    // Well-formedness of the rebuilt level.
                    assert(e1.wf()) by {
                        assert forall|j1: int, j2: int|
                            0 <= j1 < j2 < e1.quotes.len() implies (
                        #[trigger] e1.quotes[j1])@.exchange != (
                        #[trigger] e1.quotes[j2])@.exchange by {
                            if j2 < e0.quotes.len() {
                                assert(e0.quotes[j1]@.exchange != e0.quotes[j2]@.exchange);
                            } else {
                                // j2 is a pushed quote: its exchange was absent before.
                                assert(e0.quotes[j1]@.exchange != qx);
                            }
                        }
                    }
                    assert(self.wf()) by {
                        assert forall|i1: int, i2: int|
                            0 <= i1 < i2 < self.entries.len() implies (
                        #[trigger] self.entries[i1]).key < (#[trigger] self.entries[i2]).key by {
                            assert(l0.entries[i1].key < l0.entries[i2].key);
                        }
                    }
                    // Key set unchanged.
                    assert forall|k: int| #[trigger]
                        self.has_key(k) <==> l0.has_key(k) by {
                        if self.has_key(k) {
                            let i0 = self.key_index(k);
                            assert(l0.entries[i0].key == k);
                        }
                        if l0.has_key(k) {
                            let i0 = l0.key_index(k);
                            assert(self.entries[i0].key == k);
                        }
                    }
                    self.lemma_key_index_is(i as int);
                    // The written slot.
                    if e1.quotes.len() == e0.quotes.len() {
                        // overwrite at position j
                        let j = choose|j: int|
                            0 <= j < e0.quotes.len() && (#[trigger] e0.quotes[j])@.exchange == qx;
                        assert(e1.quotes[j]@ == quote@);
                        e1.lemma_source_index_is(j);
                    } else {
                        assert(e1.quotes[e0.quotes.len() as int]@ == quote@);
                        e1.lemma_source_index_is(e0.quotes.len() as int);
                    }
                    assert(self.quote_at(key as int, qx) == quote@);
                    // Untouched slots.
                    assert forall|k: int, x: Seq<char>|
                        !(k == key as int && x == qx) implies (#[trigger] self.has_quote(k, x)
                        <==> l0.has_quote(k, x)) by {
                        if k == key as int {
                            self.lemma_same_level_other_sources(l0, i as int, e0, e1, x);
                        } else {
                            self.lemma_other_key_unchanged(l0, i as int, k, x);
                        }
                    }
                    assert forall|k: int, x: Seq<char>|
                        !(k == key as int && x == qx) && l0.has_quote(k, x) implies #[trigger] self
                        .quote_at(k, x) == l0.quote_at(k, x) by {
                        if k == key as int {
                            self.lemma_same_level_other_sources(l0, i as int, e0, e1, x);
                        } else {
                            self.lemma_other_key_unchanged(l0, i as int, k, x);
                        }
                    }
                }
            },
            None => {
                // No level at `key` yet: insert a fresh one at its sorted slot.
                let mut p: usize = 0;
                while p < self.entries.len() && self.entries[p].key < key
                    invariant
                        p <= self.entries.len(),
                        forall|i0: int| 0 <= i0 < p ==> (#[trigger] self.entries[i0]).key < key,
                        *self == l0,
                    decreases self.entries.len() - p,
                {
                    p = p + 1;
                }
                proof {
                    assert forall|i0: int|
                        p <= i0 < self.entries.len() implies (
                    #[trigger] self.entries[i0]).key > key by {
                        if i0 > p {
                            assert(self.entries[p as int].key < self.entries[i0].key);
                        }
                        assert(self.entries[i0].key != key);
                    }
                }
                let mut quotes: Vec<Level> = Vec::new();
                quotes.push(quote);
                let entry = PriceLevel { key, quotes };
                let ghost e1 = entry;
                self.entries.insert(p, entry);
                proof {
                    assert(self.entries@ == l0.entries@.insert(p as int, e1));
                    assert(e1.wf());
                    assert(self.wf()) by {
                        assert forall|i1: int, i2: int|
                            0 <= i1 < i2 < self.entries.len() implies (
                        #[trigger] self.entries[i1]).key < (#[trigger] self.entries[i2]).key by {
                            if i2 < p {
                                assert(l0.entries[i1].key < l0.entries[i2].key);
                            } else if i1 > p {
                                assert(l0.entries[i1 - 1].key < l0.entries[i2 - 1].key);
                            } else if i1 < p && i2 > p {
                                assert(l0.entries[i1].key < key);
                                assert(l0.entries[i2 - 1].key > key);
                            }
                        }
                    }
                    self.lemma_key_index_is(p as int);
                    e1.lemma_source_index_is(0);
                    assert(self.quote_at(key as int, qx) == quote@);
                    // Key set grows by exactly `key`.
                    assert forall|k: int|
                        k != key as int implies (#[trigger] self.has_key(k) <==> l0.has_key(
                            k,
                        )) by {
                        if self.has_key(k) {
                            let i0 = self.key_index(k);
                            if i0 < p {
                                assert(l0.entries[i0].key == k);
                            } else {
                                assert(l0.entries[i0 - 1].key == k);
                            }
                        }
                        if l0.has_key(k) {
                            let i0 = l0.key_index(k);
                            if i0 < p {
                                assert(self.entries[i0].key == k);
                            } else {
                                assert(self.entries[i0 + 1].key == k);
                            }
                        }
                    }
                    assert forall|k: int, x: Seq<char>|
                        !(k == key as int && x == qx) implies (#[trigger] self.has_quote(k, x)
                        <==> l0.has_quote(k, x)) by {
                        if k == key as int {
                            assert(!l0.has_key(k));
                            if self.has_quote(k, x) {
                                let j0 = e1.source_index(x);
                                assert(e1.quotes[j0]@.exchange == qx);
                            }
                        } else {
                            self.lemma_new_key_other_unchanged(l0, p as int, k, x);
                        }
                    }
                    assert forall|k: int, x: Seq<char>|
                        !(k == key as int && x == qx) && l0.has_quote(k, x) implies #[trigger] self
                        .quote_at(k, x) == l0.quote_at(k, x) by {
                        self.lemma_new_key_other_unchanged(l0, p as int, k, x);
                    }
                }
            },
        }
    }

    /// After an entry-in-place rewrite at `i` that kept every slot's exchange,
    /// level `l0.entries[i].key` serves all exchanges other than those whose
    /// quote changed exactly as before.
    proof fn lemma_same_level_other_sources(
        self,
        l0: Ladder,
        i: int,
        e0: PriceLevel,
        e1: PriceLevel,
        x: Seq<char>,
    )
        requires
            self.wf(),
            l0.wf(),
            0 <= i < l0.entries.len(),
            self.entries@ == l0.entries@.update(i, e1),
            l0.entries[i] == e0,
            e1.key == e0.key,
            e0.quotes.len() <= e1.quotes.len(),
            forall|j0: int|
                0 <= j0 < e0.quotes.len() ==> (#[trigger] e1.quotes[j0])@.exchange
                    == e0.quotes[j0]@.exchange,
            forall|j0: int|
                0 <= j0 < e0.quotes.len() && e0.quotes[j0]@.exchange == x ==> (
                #[trigger] e1.quotes[j0])@ == e0.quotes[j0]@,
            forall|j0: int|
                e0.quotes.len() <= j0 < e1.quotes.len() ==> (#[trigger] e1.quotes[j0])@.exchange
                    != x,
        ensures
            self.has_quote(e0.key as int, x) <==> l0.has_quote(e0.key as int, x),
            l0.has_quote(e0.key as int, x) ==> self.quote_at(e0.key as int, x) == l0.quote_at(
                e0.key as int,
                x,
            ),
    {
        let k = e0.key as int;
        self.lemma_key_index_is(i);
        l0.lemma_key_index_is(i);
        if l0.has_quote(k, x) {
            let j0 = e0.source_index(x);
            assert(e0.quotes[j0]@.exchange == x);
            assert(e1.quotes[j0]@.exchange == x);
            assert(self.has_quote(k, x));
            e1.lemma_source_index_is(j0);
            assert(self.quote_at(k, x) == e1.quotes[j0]@);
        }
        if self.has_quote(k, x) {
            let j0 = e1.source_index(x);
            assert(e1.quotes[j0]@.exchange == x);
            assert(j0 < e0.quotes.len());
            assert(e0.quotes[j0]@.exchange == x);
            assert(l0.has_quote(k, x));
        }
    }

    /// After a rewrite of the single entry at `i`, every other key's level is
    /// the very same value.
    proof fn lemma_other_key_unchanged(self, l0: Ladder, i: int, k: int, x: Seq<char>)
        requires
            self.wf(),
            l0.wf(),
            0 <= i < l0.entries.len(),
            self.entries@.len() == l0.entries@.len(),
            forall|i0: int|
                0 <= i0 < l0.entries.len() && i0 != i ==> #[trigger] self.entries[i0]
                    == l0.entries[i0],
            self.entries[i].key == l0.entries[i].key,
            k != l0.entries[i].key,
        ensures
            self.has_quote(k, x) <==> l0.has_quote(k, x),
            l0.has_quote(k, x) ==> self.quote_at(k, x) == l0.quote_at(k, x),
    {
        if self.has_key(k) {
            let i0 = self.key_index(k);
            assert(i0 != i);
            assert(l0.entries[i0].key == k);
            l0.lemma_key_index_is(i0);
            assert(self.entries[i0] == l0.entries[i0]);
        }
        if l0.has_key(k) {
            let i0 = l0.key_index(k);
            assert(i0 != i);
            assert(self.entries[i0].key == k);
            self.lemma_key_index_is(i0);
            assert(self.entries[i0] == l0.entries[i0]);
        }
    }

    /// After a fresh level is inserted at position `p`, every other key's
    /// level is the very same value.
    proof fn lemma_new_key_other_unchanged(self, l0: Ladder, p: int, k: int, x: Seq<char>)
        requires
            self.wf(),
            l0.wf(),
            0 <= p <= l0.entries.len(),
            p < self.entries.len(),
            self.entries@ == l0.entries@.insert(p, self.entries[p]),
            k != self.entries[p].key,
        ensures
            self.has_quote(k, x) <==> l0.has_quote(k, x),
            l0.has_quote(k, x) ==> self.quote_at(k, x) == l0.quote_at(k, x),
    {
        if self.has_key(k) {
            let i0 = self.key_index(k);
            assert(i0 != p);
            if i0 < p {
                assert(l0.entries[i0].key == k);
                l0.lemma_key_index_is(i0);
                assert(self.entries[i0] == l0.entries[i0]);
            } else {
                assert(l0.entries[i0 - 1].key == k);
                l0.lemma_key_index_is(i0 - 1);
                assert(self.entries[i0] == l0.entries[i0 - 1]);
            }
        }
        if l0.has_key(k) {
            let i0 = l0.key_index(k);
            if i0 < p {
                assert(self.entries[i0].key == k);
                self.lemma_key_index_is(i0);
                assert(self.entries[i0] == l0.entries[i0]);
            } else {
                assert(self.entries[i0 + 1].key == k);
                self.lemma_key_index_is(i0 + 1);
                assert(self.entries[i0 + 1] == l0.entries[i0]);
            }
        }
    }

    /// Deletes exchange `x`'s quote at `key` if present, pruning the level
    /// when it empties; every other (key, exchange) slot is untouched.
    pub fn remove(&mut self, key: u64, x: &String)
        requires
            old(self).wf(),
        ensures
            final(self).wf(),
            removed(*old(self), *final(self), key as int, x@),
    {
        let ghost l0 = *self;
        match self.find_key(key) {
            None => {
                proof {
                    assert forall|x2: Seq<char>| !(x2 != x@ && l0.has_quote(key as int, x2)) by {}
                }
            },
            Some(i) => {
                proof {
                    l0.lemma_key_index_is(i as int);
                }
                match self.entries[i].find_source(x) {
                    None => {
                        proof {
                            let e = l0.entries[i as int];
                            let x2 = e.quotes[0]@.exchange;
                            assert(l0.has_quote(key as int, x2) && x2 != x@) by {
                                assert(e.has_source(x2));
                            }
                        }
                    },
                    Some(j) => {
                        if self.entries[i].quotes.len() == 1 {
                            // Sole quote at this price: the level goes with it.
                            let _ = self.entries.remove(i);
                            proof {
                                assert(self.entries@ == l0.entries@.remove(i as int));
                                let e0 = l0.entries[i as int];
                                assert(self.wf()) by {
                                    assert forall|i1: int, i2: int|
                                        0 <= i1 < i2 < self.entries.len() implies (
                                    #[trigger] self.entries[i1]).key < (
                                    #[trigger] self.entries[i2]).key by {
                                        let o1: int = if i1 < i { i1 } else { i1 + 1 };
                                        let o2: int = if i2 < i { i2 } else { i2 + 1 };
                                        assert(l0.entries[o1].key < l0.entries[o2].key);
                                    }
                                }
                                // `key` is gone from the key set; others shift.
                                assert(!self.has_key(key as int)) by {
                                    if self.has_key(key as int) {
                                        let i0 = self.key_index(key as int);
                                        let o0: int = if i0 < i { i0 } else { i0 + 1 };
                                        assert(l0.entries[o0].key == key);
                                        l0.lemma_key_index_is(o0);
                                    }
                                }
                                assert forall|k: int|
                                    k != key as int implies (#[trigger] self.has_key(k)
                                    <==> l0.has_key(k)) by {
                                    if self.has_key(k) {
                                        let i0 = self.key_index(k);
                                        let o0: int = if i0 < i { i0 } else { i0 + 1 };
                                        assert(l0.entries[o0].key == k);
                                    }
                                    if l0.has_key(k) {
                                        let i0 = l0.key_index(k);
                                        assert(i0 != i);
                                        let n0: int = if i0 < i { i0 } else { i0 - 1 };
                                        assert(self.entries[n0].key == k);
                                    }
                                }
                                assert forall|k: int, x2: Seq<char>|
                                    !(k == key as int && x2 == x@) implies (
                                #[trigger] self.has_quote(k, x2) <==> l0.has_quote(k, x2)) by {
                                    if k == key as int {
                                        assert(!self.has_quote(k, x2));
                                        if l0.has_quote(k, x2) {
                                            let j0 = e0.source_index(x2);
                                            assert(j0 == 0);
                                            assert(x2 == x@);
                                        }
                                    } else {
                                        self.lemma_removed_key_other_unchanged(
                                            l0,
                                            i as int,
                                            k,
                                            x2,
                                        );
                                    }
                                }
                                assert forall|k: int, x2: Seq<char>|
                                    !(k == key as int && x2 == x@) && l0.has_quote(k, x2)
                                    implies #[trigger] self.quote_at(k, x2) == l0.quote_at(
                                    k,
                                    x2,
                                ) by {
                                    self.lemma_removed_key_other_unchanged(l0, i as int, k, x2);
                                }
                                assert forall|x2: Seq<char>|
                                    !(x2 != x@ && l0.has_quote(key as int, x2)) by {
                                    if l0.has_quote(key as int, x2) {
                                        let j0 = e0.source_index(x2);
                                        assert(j0 == 0);
                                    }
                                }
                            }
                        } else {
                            // Other exchanges stay: drop just this quote.
                            let mut entry = self.entries.remove(i);
                            let ghost e0 = entry;
                            let _ = entry.quotes.remove(j);
                            let ghost e1 = entry;
                            self.entries.insert(i, entry);
                            proof {
                                assert(self.entries@ =~= l0.entries@.update(i as int, e1));
                                assert(e1.quotes@ == e0.quotes@.remove(j as int));
                                // Every surviving slot comes from a distinct old slot.
                                assert forall|j0: int|
                                    0 <= j0 < e1.quotes.len() implies #[trigger] e1.quotes[j0]
                                    == e0.quotes[old_pos(j0, j as int)] && old_pos(j0, j as int)
                                    != j as int && 0 <= old_pos(j0, j as int)
                                    < e0.quotes.len() by {}
                                assert(e1.wf()) by {
                                    assert forall|j1: int, j2: int|
                                        0 <= j1 < j2 < e1.quotes.len() implies (
                                    #[trigger] e1.quotes[j1])@.exchange != (
                                    #[trigger] e1.quotes[j2])@.exchange by {
                                        let o1 = old_pos(j1, j as int);
                                        let o2 = old_pos(j2, j as int);
                                        assert(e0.quotes[o1]@.exchange != e0.quotes[o2]@.exchange);
                                    }
                                }
                                assert(self.wf()) by {
                                    assert forall|i1: int, i2: int|
                                        0 <= i1 < i2 < self.entries.len() implies (
                                    #[trigger] self.entries[i1]).key < (
                                    #[trigger] self.entries[i2]).key by {
                                        assert(l0.entries[i1].key < l0.entries[i2].key);
                                    }
                                }
                                assert forall|k: int| #[trigger]
                                    self.has_key(k) <==> l0.has_key(k) by {
                                    if self.has_key(k) {
                                        let i0 = self.key_index(k);
                                        assert(l0.entries[i0].key == k);
                                    }
                                    if l0.has_key(k) {
                                        let i0 = l0.key_index(k);
                                        assert(self.entries[i0].key == k);
                                    }
                                }
                                self.lemma_key_index_is(i as int);
                                // `x` is gone from the level.
                                assert(!self.has_quote(key as int, x@)) by {
                                    if self.has_quote(key as int, x@) {
                                        let j0 = e1.source_index(x@);
                                        let o0 = old_pos(j0, j as int);
                                        assert(e0.quotes[o0]@.exchange == e0.quotes[
                                            j as int]@.exchange);
                                        if o0 < j as int {
                                            assert(e0.quotes[o0]@.exchange != e0.quotes[
                                                j as int]@.exchange);
                                        } else {
                                            assert(e0.quotes[j as int]@.exchange != e0.quotes[
                                                o0]@.exchange);
                                        }
                                    }
                                }
                                assert forall|k: int, x2: Seq<char>|
                                    !(k == key as int && x2 == x@) implies (
                                #[trigger] self.has_quote(k, x2) <==> l0.has_quote(k, x2)) by {
                                    if k == key as int {
                                        self.lemma_level_lost_one_source(
                                            l0,
                                            i as int,
                                            e0,
                                            e1,
                                            j as int,
                                            x2,
                                        );
                                    } else {
                                        self.lemma_other_key_unchanged(l0, i as int, k, x2);
                                    }
                                }
                                assert forall|k: int, x2: Seq<char>|
                                    !(k == key as int && x2 == x@) && l0.has_quote(k, x2)
                                    implies #[trigger] self.quote_at(k, x2) == l0.quote_at(
                                    k,
                                    x2,
                                ) by {
                                    if k == key as int {
                                        self.lemma_level_lost_one_source(
                                            l0,
                                            i as int,
                                            e0,
                                            e1,
                                            j as int,
                                            x2,
                                        );
                                    } else {
                                        self.lemma_other_key_unchanged(l0, i as int, k, x2);
                                    }
                                }
                                // The level survives, so some other exchange rests at `key`.
                                let xw = e1.quotes[0]@.exchange;
                                assert(e0.quotes[old_pos(0, j as int)]@.exchange == xw);
                                e0.lemma_source_index_is(old_pos(0, j as int));
                                assert(xw != x@) by {
                                    if xw == x@ {
                                        e0.lemma_source_index_is(j as int);
                                    }
                                }
                                assert(xw != x@ && l0.has_quote(key as int, xw));
                            }
                        }
                    },
                }
            },
        }
    }

    /// After the whole entry at `i` is removed, every other key's level is
    /// the very same value.
    proof fn lemma_removed_key_other_unchanged(self, l0: Ladder, i: int, k: int, x: Seq<char>)
        requires
            self.wf(),
            l0.wf(),
            0 <= i < l0.entries.len(),
            self.entries@ == l0.entries@.remove(i),
            k != l0.entries[i].key,
        ensures
            self.has_quote(k, x) <==> l0.has_quote(k, x),
            l0.has_quote(k, x) ==> self.quote_at(k, x) == l0.quote_at(k, x),
    {
        if self.has_key(k) {
            let i0 = self.key_index(k);
            let o0: int = if i0 < i { i0 } else { i0 + 1 };
            assert(l0.entries[o0].key == k);
            l0.lemma_key_index_is(o0);
            assert(self.entries[i0] == l0.entries[o0]);
        }
        if l0.has_key(k) {
            let i0 = l0.key_index(k);
            assert(i0 != i);
            let n0: int = if i0 < i { i0 } else { i0 - 1 };
            assert(self.entries[n0].key == k);
            self.lemma_key_index_is(n0);
            assert(self.entries[n0] == l0.entries[i0]);
        }
    }

    /// After one quote leaves the entry at `i`, the level serves every other
    /// exchange exactly as before.
    proof fn lemma_level_lost_one_source(
        self,
        l0: Ladder,
        i: int,
        e0: PriceLevel,
        e1: PriceLevel,
        j: int,
        x: Seq<char>,
    )
        requires
            self.wf(),
            l0.wf(),
            0 <= i < l0.entries.len(),
            self.entries@ == l0.entries@.update(i, e1),
            l0.entries[i] == e0,
            e1.key == e0.key,
            0 <= j < e0.quotes.len(),
            e1.quotes@ == e0.quotes@.remove(j),
            x != e0.quotes[j]@.exchange,
        ensures
            self.has_quote(e0.key as int, x) <==> l0.has_quote(e0.key as int, x),
            l0.has_quote(e0.key as int, x) ==> self.quote_at(e0.key as int, x) == l0.quote_at(
                e0.key as int,
                x,
            ),
    {
        let k = e0.key as int;
        self.lemma_key_index_is(i);
        l0.lemma_key_index_is(i);
        if l0.has_quote(k, x) {
            let j0 = e0.source_index(x);
            assert(e0.quotes[j0]@.exchange == x);
            assert(j0 != j);
            let n0: int = if j0 < j { j0 } else { j0 - 1 };
            assert(e1.quotes[n0] == e0.quotes[j0]);
            e1.lemma_source_index_is(n0);
            assert(self.has_quote(k, x));
            assert(self.quote_at(k, x) == e1.quotes[n0]@);
            e0.lemma_source_index_is(j0);
        }
        if self.has_quote(k, x) {
            let j0 = e1.source_index(x);
            let o0 = old_pos(j0, j);
            assert(e1.quotes[j0] == e0.quotes[o0]);
            assert(e0.quotes[o0]@.exchange == x);
            assert(l0.has_quote(k, x));
        }
    }

    /// The least key with resting interest, or nothing on an empty side.
    pub fn min_key(&self) -> (r: Option<u64>)
        requires
            self.wf(),
        ensures
            match r {
                Some(b) => self.has_key(b as int) && forall|k: int| self.has_key(k) ==> k >= b,
                None => forall|k: int| !self.has_key(k),
            },
    {
        let n = self.entries.len();
        if n == 0 {
            None
        } else {
            let b = self.entries[0].key;
            proof {
                self.lemma_key_index_is(0);
                assert forall|k: int| self.has_key(k) implies k >= b by {
                    let i = choose|i: int|
                        0 <= i < self.entries.len() && (#[trigger] self.entries[i]).key == k;
                    if 0 < i {
                        assert(self.entries[0].key < self.entries[i].key);
                    }
                };
            }
            Some(b)
        }
    }
}

} // verus!
