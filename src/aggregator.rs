//! The aggregator's state: the latest snapshot of each exchange, and the
//! summary published for it.
use vstd::prelude::*;

pub use crate::merge::{sort_merged, Level, Side};

use crate::merge::{
    lemma_merge_top_is_top_n, lemma_pool_contains, merge_top, pooled, price_at_least, slices_view, sorted_on,
};
use crate::orderbook;

verus! {

/// The latest snapshot of one exchange: bids best first (descending price),
/// asks best first (ascending price).
#[derive(Debug, Clone)]
pub struct ExchangeOrders {
    pub exchange_name: String,
    pub asks: Vec<Level>,
    pub bids: Vec<Level>,
}

impl ExchangeOrders {
    /// Both sides are in side order and every level names this exchange.
    pub open spec fn wf(&self) -> bool {
        &&& sorted_on(Side::Bid, self.bids@)
        &&& sorted_on(Side::Ask, self.asks@)
        &&& forall|i: int| 0 <= i < self.bids@.len() ==> (#[trigger] self.bids@[i]).exchange_name@ == self.exchange_name@
        &&& forall|i: int| 0 <= i < self.asks@.len() ==> (#[trigger] self.asks@[i]).exchange_name@ == self.exchange_name@
    }
}

/// A level in its published form.
pub open spec fn published(l: Level) -> orderbook::Level {
    orderbook::Level { price: l.price, amount: l.amount, exchange: l.exchange_name }
}

impl Level {
    /// The published form of this level.
    pub fn to_summary_level(&self) -> (r: orderbook::Level)
        ensures
            r == published(*self),
    {
        orderbook::Level { price: self.price, amount: self.amount, exchange: self.exchange_name.clone() }
    }
}

/// The bid sides of all snapshots of a table.
pub open spec fn bid_inputs(table: Seq<ExchangeOrders>) -> Seq<Seq<Level>> {
    Seq::new(table.len(), |i: int| table[i].bids@)
}

/// The ask sides of all snapshots of a table.
pub open spec fn ask_inputs(table: Seq<ExchangeOrders>) -> Seq<Seq<Level>> {
    Seq::new(table.len(), |i: int| table[i].asks@)
}

/// The published bids of a table: its merged top `n` bid levels.
pub open spec fn summary_bids(table: Seq<ExchangeOrders>, n: nat) -> Seq<orderbook::Level> {
    merge_top(bid_inputs(table), Side::Bid, n).map_values(|l: Level| published(l))
}

/// The published asks of a table: its merged top `n` ask levels.
pub open spec fn summary_asks(table: Seq<ExchangeOrders>, n: nat) -> Seq<orderbook::Level> {
    merge_top(ask_inputs(table), Side::Ask, n).map_values(|l: Level| published(l))
}

/// First ask price minus first bid price, or 0 when either side is empty.
pub open spec fn spread_of(bids: Seq<orderbook::Level>, asks: Seq<orderbook::Level>) -> int {
    if bids.len() > 0 && asks.len() > 0 {
        asks[0].price - bids[0].price
    } else {
        0
    }
}

/// Publishes a merged side.
fn publish_side(levels: &Vec<Level>) -> (r: Vec<orderbook::Level>)
    ensures
        r@ == levels@.map_values(|l: Level| published(l)),
{
    let mut r: Vec<orderbook::Level> = Vec::new();
    let mut i: usize = 0;
    while i < levels.len()
        invariant
            i <= levels@.len(),
            r@ =~= levels@.take(i as int).map_values(|l: Level| published(l)),
        decreases levels@.len() - i,
    {
        r.push(levels[i].to_summary_level());
        assert(levels@.take(i + 1) =~= levels@.take(i as int).push(levels@[i as int]));
        i = i + 1;
    }
    assert(levels@.take(i as int) =~= levels@);
    r
}

/// Merges the bid and ask sides of every snapshot of `exchanges` into their
/// top `max_levels` levels and computes the spread. The table is only read.
pub fn sort_orders_and_calculate_spread(exchanges: &Vec<ExchangeOrders>, max_levels: usize) -> (r: orderbook::Summary)
    ensures
        r.bids@ == summary_bids(exchanges@, max_levels as nat),
        r.asks@ == summary_asks(exchanges@, max_levels as nat),
        r.spread == spread_of(r.bids@, r.asks@),
{
    let mut all_bids: Vec<&[Level]> = Vec::new();
    let mut all_asks: Vec<&[Level]> = Vec::new();
    let mut i: usize = 0;
    while i < exchanges.len()
        invariant
            i <= exchanges@.len(),
            all_bids@.len() == i,
            all_asks@.len() == i,
            forall|t: int| 0 <= t < i ==> (#[trigger] all_bids@[t])@ == exchanges@[t].bids@,
            forall|t: int| 0 <= t < i ==> (#[trigger] all_asks@[t])@ == exchanges@[t].asks@,
        decreases exchanges@.len() - i,
    {
        all_bids.push(exchanges[i].bids.as_slice());
        all_asks.push(exchanges[i].asks.as_slice());
        i = i + 1;
    }
    assert(slices_view(all_bids@) =~= bid_inputs(exchanges@));
    assert(slices_view(all_asks@) =~= ask_inputs(exchanges@));
    let sorted_bids = sort_merged(all_bids.as_slice(), max_levels, Side::Bid);
    let sorted_asks = sort_merged(all_asks.as_slice(), max_levels, Side::Ask);
    let bids = publish_side(&sorted_bids);
    let asks = publish_side(&sorted_asks);
    let spread: i128 = if bids.len() > 0 && asks.len() > 0 {
        asks[0].price as i128 - bids[0].price as i128
    } else {
        0
    };
    orderbook::Summary { spread, bids, asks }
}

/// Index of the last snapshot of `table` named `name`, or -1 when none is.
pub open spec fn index_of(table: Seq<ExchangeOrders>, name: Seq<char>) -> int
    decreases table.len(),
{
    if table.len() == 0 {
        -1
    } else if table.last().exchange_name@ == name {
        table.len() - 1
    } else {
        index_of(table.drop_last(), name)
    }
}

/// The table after `orders` arrives: it overwrites the snapshot of its
/// exchange, or is added after the others when its exchange is new.
pub open spec fn table_insert(table: Seq<ExchangeOrders>, orders: ExchangeOrders) -> Seq<ExchangeOrders> {
    let i = index_of(table, orders.exchange_name@);
    if i >= 0 {
        table.update(i, orders)
    } else {
        table.push(orders)
    }
}

/// Every snapshot of the table is well formed.
pub open spec fn snapshots_wf(table: Seq<ExchangeOrders>) -> bool {
    forall|i: int| 0 <= i < table.len() ==> (#[trigger] table[i]).wf()
}

/// No two snapshots of the table belong to the same exchange.
pub open spec fn names_unique(table: Seq<ExchangeOrders>) -> bool {
    forall|i: int, j: int|
        0 <= i < j < table.len() ==> (#[trigger] table[i]).exchange_name@ != (#[trigger] table[j]).exchange_name@
}

proof fn lemma_index_of(table: Seq<ExchangeOrders>, name: Seq<char>)
    ensures
        -1 <= index_of(table, name) < table.len(),
        index_of(table, name) >= 0 ==> table[index_of(table, name)].exchange_name@ == name,
        index_of(table, name) < 0 ==> forall|t: int| 0 <= t < table.len() ==> (#[trigger] table[t]).exchange_name@ != name,
        forall|t: int| index_of(table, name) < t < table.len() ==> (#[trigger] table[t]).exchange_name@ != name,
    decreases table.len(),
{
    if table.len() > 0 {
        let init = table.drop_last();
        lemma_index_of(init, name);
        assert forall|t: int| 0 <= t < init.len() implies #[trigger] table[t] == init[t] by {}
    }
}

/// The latest snapshot of each exchange that has reported, one per exchange.
pub struct ExchangeTable {
    exchanges: Vec<ExchangeOrders>,
}

impl View for ExchangeTable {
    type V = Seq<ExchangeOrders>;

    closed spec fn view(&self) -> Seq<ExchangeOrders> {
        self.exchanges@
    }
}

impl ExchangeTable {
    /// One snapshot per exchange.
    pub closed spec fn wf(&self) -> bool {
        names_unique(self.exchanges@)
    }

    /// The table before any exchange has reported.
    pub fn new() -> (r: ExchangeTable)
        ensures
            r.wf(),
            r@.len() == 0,
            snapshots_wf(r@),
    {
        ExchangeTable { exchanges: Vec::new() }
    }

    /// Stores `orders` as the latest snapshot of its exchange, replacing the
    /// previous one whole.
    pub fn insert(&mut self, orders: ExchangeOrders)
        requires
            old(self).wf(),
        ensures
            final(self).wf(),
            final(self)@ == table_insert(old(self)@, orders),
            snapshots_wf(old(self)@) && orders.wf() ==> snapshots_wf(final(self)@),
    {
        let ghost before = self.exchanges@;
        proof {
            lemma_index_of(before, orders.exchange_name@);
        }
        let mut i: usize = 0;
        while i < self.exchanges.len()
            invariant
                self.exchanges@ == before,
                names_unique(before),
                before == old(self)@,
                i <= self.exchanges@.len(),
                forall|t: int| 0 <= t < i ==> (#[trigger] self.exchanges@[t]).exchange_name@ != orders.exchange_name@,
            decreases self.exchanges@.len() - i,
        {
            if self.exchanges[i].exchange_name == orders.exchange_name {
                proof {
                    lemma_index_of(before, orders.exchange_name@);
                }
                assert(index_of(before, orders.exchange_name@) == i);
                self.exchanges.set(i, orders);
                assert(self.exchanges@ == before.update(i as int, orders));
                return;
            }
            i = i + 1;
        }
        proof {
            lemma_index_of(before, orders.exchange_name@);
        }
        self.exchanges.push(orders);
    }

    /// Merged view of the table: the top `max_levels` bids and asks and the
    /// spread. The table is only read.
    pub fn summary(&self, max_levels: usize) -> (r: orderbook::Summary)
        ensures
            r.bids@ == summary_bids(self@, max_levels as nat),
            r.asks@ == summary_asks(self@, max_levels as nat),
            r.spread == spread_of(r.bids@, r.asks@),
    {
        sort_orders_and_calculate_spread(&self.exchanges, max_levels)
    }

    /// One step of the aggregator: stores `orders` and returns the summary to
    /// publish for the table as it now stands.
    pub fn update(&mut self, orders: ExchangeOrders, max_levels: usize) -> (r: orderbook::Summary)
        requires
            old(self).wf(),
        ensures
            final(self).wf(),
            final(self)@ == table_insert(old(self)@, orders),
            snapshots_wf(old(self)@) && orders.wf() ==> snapshots_wf(final(self)@),
            r.bids@ == summary_bids(final(self)@, max_levels as nat),
            r.asks@ == summary_asks(final(self)@, max_levels as nat),
            r.spread == spread_of(r.bids@, r.asks@),
    {
        self.insert(orders);
        self.summary(max_levels)
    }
}

/// Sides of a published book of well-formed snapshots hold at most `n`
/// levels each; bid prices never increase and ask prices never decrease.
pub proof fn lemma_summary_ordered(table: Seq<ExchangeOrders>, n: nat)
    requires
        snapshots_wf(table),
    ensures
        summary_bids(table, n).len() <= n,
        summary_asks(table, n).len() <= n,
        forall|i: int, j: int|
            0 <= i < j < summary_bids(table, n).len() ==> (#[trigger] summary_bids(table, n)[i]).price
                >= (#[trigger] summary_bids(table, n)[j]).price,
        forall|i: int, j: int|
            0 <= i < j < summary_asks(table, n).len() ==> (#[trigger] summary_asks(table, n)[i]).price
                <= (#[trigger] summary_asks(table, n)[j]).price,
{
    assert forall|i: int| 0 <= i < table.len() implies sorted_on(Side::Bid, #[trigger] bid_inputs(table)[i]) by {
        assert(table[i].wf());
    }
    assert forall|i: int| 0 <= i < table.len() implies sorted_on(Side::Ask, #[trigger] ask_inputs(table)[i]) by {
        assert(table[i].wf());
    }
    lemma_merge_top_is_top_n(bid_inputs(table), Side::Bid, n);
    lemma_merge_top_is_top_n(ask_inputs(table), Side::Ask, n);
    let b = merge_top(bid_inputs(table), Side::Bid, n);
    let a = merge_top(ask_inputs(table), Side::Ask, n);
    assert forall|i: int, j: int| 0 <= i < j < b.len() implies (#[trigger] summary_bids(table, n)[i]).price
        >= (#[trigger] summary_bids(table, n)[j]).price by {
        assert(price_at_least(Side::Bid, b[i], b[j]));
    }
    assert forall|i: int, j: int| 0 <= i < j < a.len() implies (#[trigger] summary_asks(table, n)[i]).price
        <= (#[trigger] summary_asks(table, n)[j]).price by {
        assert(price_at_least(Side::Ask, a[i], a[j]));
    }
}

proof fn lemma_merged_from_inputs(inputs: Seq<Seq<Level>>, side: Side, n: nat, k: int)
    requires
        forall|i: int| 0 <= i < inputs.len() ==> sorted_on(side, #[trigger] inputs[i]),
        0 <= k < merge_top(inputs, side, n).len(),
    ensures
        exists|i: int, j: int|
            0 <= i < inputs.len() && 0 <= j < inputs[i].len() && #[trigger] inputs[i][j] == merge_top(
                inputs,
                side,
                n,
            )[k],
{
    broadcast use vstd::seq_lib::group_to_multiset_ensures;

    let r = merge_top(inputs, side, n);
    lemma_merge_top_is_top_n(inputs, side, n);
    assert(r.contains(r[k]));
    assert(r.to_multiset().count(r[k]) <= pooled(inputs).count(r[k]));
    lemma_pool_contains(inputs, r[k]);
}

/// `l` is the published form of a bid of some snapshot of `table`.
pub open spec fn is_table_bid(table: Seq<ExchangeOrders>, l: orderbook::Level) -> bool {
    exists|i: int, j: int|
        0 <= i < table.len() && 0 <= j < table[i].bids@.len() && published(#[trigger] table[i].bids@[j]) == l
}

/// `l` is the published form of an ask of some snapshot of `table`.
pub open spec fn is_table_ask(table: Seq<ExchangeOrders>, l: orderbook::Level) -> bool {
    exists|i: int, j: int|
        0 <= i < table.len() && 0 <= j < table[i].asks@.len() && published(#[trigger] table[i].asks@[j]) == l
}

/// Every published bid is a bid of some snapshot in the table, and every
/// published ask an ask of some snapshot in the table.
pub proof fn lemma_summary_levels_from_table(table: Seq<ExchangeOrders>, n: nat)
    requires
        snapshots_wf(table),
    ensures
        forall|k: int| 0 <= k < summary_bids(table, n).len() ==> is_table_bid(table, #[trigger] summary_bids(table, n)[k]),
        forall|k: int| 0 <= k < summary_asks(table, n).len() ==> is_table_ask(table, #[trigger] summary_asks(table, n)[k]),
{
    let bi = bid_inputs(table);
    let ai = ask_inputs(table);
    assert forall|i: int| 0 <= i < table.len() implies sorted_on(Side::Bid, #[trigger] bi[i]) by {
        assert(table[i].wf());
    }
    assert forall|i: int| 0 <= i < table.len() implies sorted_on(Side::Ask, #[trigger] ai[i]) by {
        assert(table[i].wf());
    }
    assert forall|k: int| 0 <= k < summary_bids(table, n).len() implies is_table_bid(table, #[trigger] summary_bids(table, n)[k]) by {
        lemma_merged_from_inputs(bi, Side::Bid, n, k);
        let (i, j) = choose|i: int, j: int|
            0 <= i < bi.len() && 0 <= j < bi[i].len() && #[trigger] bi[i][j] == merge_top(bi, Side::Bid, n)[k];
        assert(table[i].bids@[j] == bi[i][j]);
        assert(published(table[i].bids@[j]) == summary_bids(table, n)[k]);
    }
    assert forall|k: int| 0 <= k < summary_asks(table, n).len() implies is_table_ask(table, #[trigger] summary_asks(table, n)[k]) by {
        lemma_merged_from_inputs(ai, Side::Ask, n, k);
        let (i, j) = choose|i: int, j: int|
            0 <= i < ai.len() && 0 <= j < ai[i].len() && #[trigger] ai[i][j] == merge_top(ai, Side::Ask, n)[k];
        assert(table[i].asks@[j] == ai[i][j]);
        assert(published(table[i].asks@[j]) == summary_asks(table, n)[k]);
    }
}

/// Storing the same snapshot twice leaves the table as storing it once, so
/// the two summaries published for it are identical.
pub proof fn lemma_resubmit_same_summary(table: Seq<ExchangeOrders>, orders: ExchangeOrders, n: nat)
    requires
        names_unique(table),
    ensures
        table_insert(table_insert(table, orders), orders) == table_insert(table, orders),
        summary_bids(table_insert(table_insert(table, orders), orders), n) == summary_bids(table_insert(table, orders), n),
        summary_asks(table_insert(table_insert(table, orders), orders), n) == summary_asks(table_insert(table, orders), n),
{
    let name = orders.exchange_name@;
    let once = table_insert(table, orders);
    lemma_index_of(table, name);
    lemma_index_of(once, name);
    let i = index_of(table, name);
    if i >= 0 {
        assert(once[i].exchange_name@ == name);
        assert forall|t: int| i < t < once.len() implies (#[trigger] once[t]).exchange_name@ != name by {
            assert(once[t] == table[t]);
        }
        assert(index_of(once, name) == i);
        assert(once.update(i, orders) =~= once);
    } else {
        assert(index_of(once, name) == table.len());
        assert(once.update(table.len() as int, orders) =~= once);
    }
}

} // verus!
