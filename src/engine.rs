use crate::orderbook::{book_ok, submit_spec, BidOrAsk, BookView, LevelView, MatchResult, Orderbook};
use vstd::prelude::*;
use vstd::string::StringExecFns;

verus! {

/// An instrument pair, such as a base asset quoted in another.
#[derive(Debug, Eq, Hash)]
pub struct TradingPair {
    base: String,
    quote: String,
}

/// Model of a pair: the base symbol and the quote symbol.
pub type PairView = (Seq<char>, Seq<char>);

impl View for TradingPair {
    type V = PairView;

    closed spec fn view(&self) -> PairView {
        (self.base@, self.quote@)
    }
}

impl TradingPair {
    pub fn new(base: String, quote: String) -> (r: TradingPair)
        ensures
            r@ == (base@, quote@),
    {
        TradingPair { base, quote }
    }

    /// The label `BASE_QUOTE`.
    pub fn to_string(&self) -> (r: String)
        ensures
            r@ == self@.0 + seq!['_'] + self@.1,
    {
        let mut s = self.base.clone();
        s.append("_");
        s.append(self.quote.as_str());
        proof {
            reveal_strlit("_");
        }
        s
    }

}

impl PartialEq for TradingPair {
    fn eq(&self, other: &TradingPair) -> (r: bool) {
        self.base == other.base && self.quote == other.quote
    }
}

impl vstd::std_specs::cmp::PartialEqSpecImpl for TradingPair {
    open spec fn obeys_eq_spec() -> bool {
        true
    }

    open spec fn eq_spec(&self, other: &TradingPair) -> bool {
        self@ == other@
    }
}

impl Clone for TradingPair {
    fn clone(&self) -> (r: TradingPair)
        ensures
            r@ == self@,
    {
        TradingPair { base: self.base.clone(), quote: self.quote.clone() }
    }
}

/// Why a submission was refused; the registry is left unchanged.
#[derive(Debug, Clone, Copy, PartialEq, Eq, Structural)]
pub enum EngineError {
    /// No market has this identifier.
    MarketNotFound,
    /// The price is zero.
    ZeroPrice,
    /// The quantity is zero.
    ZeroQuantity,
    /// The market has handed out every order id.
    OrderIdsExhausted,
}

/// Model of the registry: market `i` trades `pairs[i]` on `books[i]`.
pub struct EngineView {
    pub pairs: Seq<PairView>,
    pub books: Seq<BookView>,
}

/// The book of a market that has just been created.
pub open spec fn empty_book() -> BookView {
    BookView { asks: Seq::empty(), bids: Seq::empty(), next_id: 1 }
}

/// Index of the first market of `pair`, or the number of markets if none.
pub open spec fn pair_pos(pairs: Seq<PairView>, pair: PairView) -> nat
    decreases pairs.len(),
{
    if pairs.len() == 0 || pairs[0] == pair {
        0
    } else {
        1 + pair_pos(pairs.drop_first(), pair)
    }
}

/// Registering `pair`: its existing identifier, or a new market with an
/// empty book under the next identifier.
pub open spec fn register_spec(e: EngineView, pair: PairView) -> (EngineView, nat) {
    let p = pair_pos(e.pairs, pair);
    if p < e.pairs.len() {
        (e, p)
    } else {
        (EngineView { pairs: e.pairs.push(pair), books: e.books.push(empty_book()) }, e.pairs.len())
    }
}

/// The registry is well formed: one book per pair, each book well formed.
pub open spec fn engine_ok(e: EngineView) -> bool {
    &&& e.pairs.len() == e.books.len()
    &&& forall|i: int| 0 <= i < e.books.len() ==> book_ok(#[trigger] e.books[i])
}

/// What a submission to market `id` gives: an error, or the events, with the
/// market's book replaced by the book after the submission.
pub open spec fn place_spec(e: EngineView, id: nat, side: BidOrAsk, price: u64, qty: u64) -> Result<
    (EngineView, Seq<crate::orderbook::MatchEvent>),
    EngineError,
> {
    if id >= e.books.len() {
        Err(EngineError::MarketNotFound)
    } else if price == 0 {
        Err(EngineError::ZeroPrice)
    } else if qty == 0 {
        Err(EngineError::ZeroQuantity)
    } else if e.books[id as int].next_id >= u64::MAX {
        Err(EngineError::OrderIdsExhausted)
    } else {
        let (nb, evs) = submit_spec(e.books[id as int], side, price, qty);
        Ok((EngineView { pairs: e.pairs, books: e.books.update(id as int, nb) }, evs))
    }
}

proof fn lemma_pair_pos(pairs: Seq<PairView>, pair: PairView)
    ensures
        pair_pos(pairs, pair) <= pairs.len(),
        forall|j: int| 0 <= j < pair_pos(pairs, pair) ==> #[trigger] pairs[j] != pair,
        pair_pos(pairs, pair) < pairs.len() ==> pairs[pair_pos(pairs, pair) as int] == pair,
    decreases pairs.len(),
{
    if pairs.len() > 0 && pairs[0] != pair {
        let tail = pairs.drop_first();
        lemma_pair_pos(tail, pair);
        assert forall|j: int| 0 <= j < pair_pos(pairs, pair) implies #[trigger] pairs[j] != pair by {
            if j > 0 {
                assert(pairs[j] == tail[j - 1]);
            }
        }
    }
}

proof fn lemma_pair_pos_exact(pairs: Seq<PairView>, pair: PairView, i: int)
    requires
        0 <= i <= pairs.len(),
        forall|j: int| 0 <= j < i ==> #[trigger] pairs[j] != pair,
        i < pairs.len() ==> pairs[i] == pair,
    ensures
        pair_pos(pairs, pair) == i,
    decreases pairs.len(),
{
    if i > 0 {
        let tail = pairs.drop_first();
        assert forall|j: int| 0 <= j < i - 1 implies #[trigger] tail[j] != pair by {
            assert(tail[j] == pairs[j + 1]);
        }
        lemma_pair_pos_exact(tail, pair, i - 1);
    }
}

/// Registration is idempotent: registering a pair a second time returns the
/// identifier of the first time and changes nothing, so no second book is
/// created.
pub proof fn lemma_registration_idempotent(e: EngineView, pair: PairView)
    ensures
        ({
            let (e1, id1) = register_spec(e, pair);
            let (e2, id2) = register_spec(e1, pair);
            &&& id2 == id1
            &&& e2 == e1
            &&& e1.pairs[id1 as int] == pair
        }),
{
    lemma_pair_pos(e.pairs, pair);
    let p = pair_pos(e.pairs, pair);
    if p >= e.pairs.len() {
        let np = e.pairs.push(pair);
        assert forall|j: int| 0 <= j < e.pairs.len() implies #[trigger] np[j] != pair by {
            assert(np[j] == e.pairs[j]);
        }
        lemma_pair_pos_exact(np, pair, e.pairs.len() as int);
    }
}

/// The registry of markets; a market's identifier is its position.
pub struct MachiningEngine {
    pairs: Vec<TradingPair>,
    orderbooks: Vec<Orderbook>,
}

impl View for MachiningEngine {
    type V = EngineView;

    closed spec fn view(&self) -> EngineView {
        EngineView {
            pairs: self.pairs@.map_values(|p: TradingPair| p@),
            books: self.orderbooks@.map_values(|b: Orderbook| b@),
        }
    }
}

impl MachiningEngine {
    /// The registry is well formed.
    pub open spec fn wf(&self) -> bool {
        engine_ok(self@)
    }

    /// A registry with no market.
    pub fn new() -> (r: MachiningEngine)
        ensures
            r.wf(),
            r@.pairs.len() == 0,
            r@.books.len() == 0,
    {
        let r = MachiningEngine { pairs: Vec::new(), orderbooks: Vec::new() };
        assert(r@.pairs =~= Seq::<PairView>::empty());
        assert(r@.books =~= Seq::<BookView>::empty());
        r
    }

    /// The identifier of the market of `trading_pair`, created with an empty
    /// book if the pair was not registered yet.
    pub fn add_new_market(&mut self, trading_pair: TradingPair) -> (id: usize)
        requires
            old(self).wf(),
        ensures
            final(self).wf(),
            (final(self)@, id as nat) == register_spec(old(self)@, trading_pair@),
    {
        let ghost pv = self@.pairs;
        let mut i: usize = 0;
        while i < self.pairs.len()
            invariant
                i <= self.pairs.len(),
                self@ == old(self)@,
                self.wf(),
                pv == self@.pairs,
                forall|j: int| 0 <= j < i ==> #[trigger] pv[j] != trading_pair@,
            decreases self.pairs.len() - i,
        {
            assert(pv[i as int] == self.pairs@[i as int]@);
            if self.pairs[i] == trading_pair {
                proof {
                    lemma_pair_pos_exact(pv, trading_pair@, i as int);
                }
                return i;
            }
            i = i + 1;
        }
        proof {
            lemma_pair_pos_exact(pv, trading_pair@, i as int);
        }
        let ghost old_view = self@;
        let ghost tp = trading_pair@;
        self.pairs.push(trading_pair);
        let book = Orderbook::new();
        assert(book@.asks =~= Seq::<LevelView>::empty());
        assert(book@.bids =~= Seq::<LevelView>::empty());
        self.orderbooks.push(book);
        assert(self@.pairs =~= old_view.pairs.push(tp));
        assert(self@.books =~= old_view.books.push(empty_book()));
        i
    }

    /// Submits a limit order to market `market_id`. Refused, with the registry
    /// unchanged, for an unknown market, a zero price or a zero quantity.
    pub fn place_limit_order(&mut self, market_id: usize, side: BidOrAsk, price: u64, qty: u64) -> (r: Result<MatchResult, EngineError>)
        requires
            old(self).wf(),
        ensures
            final(self).wf(),
            match place_spec(old(self)@, market_id as nat, side, price, qty) {
                Ok((e, evs)) => r matches Ok(m) && m.events@ == evs && final(self)@ == e,
                Err(err) => r == Err::<MatchResult, EngineError>(err) && final(self)@ == old(self)@,
            },
    {
        if market_id >= self.orderbooks.len() {
            return Err(EngineError::MarketNotFound);
        }
        if price == 0 {
            return Err(EngineError::ZeroPrice);
        }
        if qty == 0 {
            return Err(EngineError::ZeroQuantity);
        }
        let ghost old_view = self@;
        assert(book_ok(old_view.books[market_id as int]));
        let mut book = self.orderbooks.remove(market_id);
        assert(book@ == old_view.books[market_id as int]);
        if book.next_order_id() == u64::MAX {
            self.orderbooks.insert(market_id, book);
            assert(self@.books =~= old_view.books);
            return Err(EngineError::OrderIdsExhausted);
        }
        let m = book.execute_limit_order(side, price, qty);
        let ghost nb = book@;
        self.orderbooks.insert(market_id, book);
        assert(self@.books =~= old_view.books.update(market_id as int, nb));
        Ok(m)
    }

    /// The book of market `market_id`, if there is one.
    pub fn orderbook(&self, market_id: usize) -> (r: Option<&Orderbook>)
        ensures
            match r {
                Some(b) => market_id < self@.books.len() && b@ == self@.books[market_id as int],
                None => market_id >= self@.books.len(),
            },
    {
        if market_id < self.orderbooks.len() {
            Some(&self.orderbooks[market_id])
        } else {
            None
        }
    }
}

} // verus!
