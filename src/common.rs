use vstd::prelude::*;

use vstd::string::StringSliceAdditionalSpecFns;

use crate::aggregator::{self, ExchangeOrders, Side};
use crate::merge;

verus! {

/// A level as an exchange sends it, before it is tagged with the exchange.
#[derive(Debug, Clone, Copy, PartialEq, Eq, Structural)]
pub struct Level {
    pub price: i64,
    pub quantity: u64,
}

/// One depth snapshot as an exchange sends it.
#[derive(Debug, Clone)]
pub struct OrderBookData {
    pub bids: Vec<Level>,
    pub asks: Vec<Level>,
}

/// A raw level tagged with the exchange it came from.
pub open spec fn tagged(l: Level, exchange_name: String) -> aggregator::Level {
    aggregator::Level { price: l.price, amount: l.quantity, exchange_name }
}

/// The first `max_levels` levels of `side`, tagged with `exchange_name`.
pub open spec fn trimmed(side: Seq<Level>, exchange_name: String, max_levels: nat) -> Seq<aggregator::Level> {
    let n = if side.len() <= max_levels { side.len() } else { max_levels };
    side.take(n as int).map_values(|l: Level| tagged(l, exchange_name))
}

/// Raw levels whose prices never get worse along the sequence.
pub open spec fn raw_sorted(side: Side, s: Seq<Level>) -> bool {
    forall|i: int, j: int|
        0 <= i < j < s.len() ==> match side {
            Side::Bid => (#[trigger] s[i]).price >= (#[trigger] s[j]).price,
            Side::Ask => s[i].price <= s[j].price,
        }
}

/// `a` may stand before `b` on the given side: it is priced at least as well.
pub open spec fn raw_in_order(side: Side, a: Level, b: Level) -> bool {
    match side {
        Side::Bid => a.price >= b.price,
        Side::Ask => a.price <= b.price,
    }
}

fn in_order(side: Side, a: &Level, b: &Level) -> (r: bool)
    ensures
        r == raw_in_order(side, *a, *b),
{
    match side {
        Side::Bid => a.price >= b.price,
        Side::Ask => a.price <= b.price,
    }
}

/// Sorts `levels` best price first on `side` (insertion sort).
fn sort_side(levels: &mut Vec<Level>, side: Side)
    ensures
        final(levels)@.to_multiset() == old(levels)@.to_multiset(),
        raw_sorted(side, final(levels)@),
{
    broadcast use vstd::seq_lib::group_to_multiset_ensures;

    let ghost contents = levels@.to_multiset();
    let n = levels.len();
    let mut i: usize = 0;
    while i < n
        invariant
            n == levels@.len(),
            i <= n,
            levels@.to_multiset() == contents,
            forall|p: int, q: int| 0 <= p < q < i ==> raw_in_order(side, #[trigger] levels@[p], #[trigger] levels@[q]),
        decreases n - i,
    {
        let mut j: usize = i;
        while j > 0 && !in_order(side, &levels[j - 1], &levels[j])
            invariant
                n == levels@.len(),
                j <= i < n,
                levels@.to_multiset() == contents,
                forall|p: int, q: int| 0 <= p < q < j ==> raw_in_order(side, #[trigger] levels@[p], #[trigger] levels@[q]),
                forall|p: int, q: int|
                    j <= p < q <= i ==> raw_in_order(side, #[trigger] levels@[p], #[trigger] levels@[q]),
                forall|p: int, q: int|
                    0 <= p < j < q <= i ==> raw_in_order(side, #[trigger] levels@[p], #[trigger] levels@[q]),
            decreases j,
        {
            let x = levels[j];
            let y = levels[j - 1];
            let ghost s0 = levels@;
            levels.set(j - 1, x);
            let ghost s1 = levels@;
            levels.set(j, y);
            proof {
                broadcast use vstd::multiset::group_multiset_axioms;

                assert(x == s0[j as int] && y == s0[j - 1]);
                assert(s1 == s0.update(j - 1, x));
                vstd::seq_lib::to_multiset_update(s0, j - 1, x);
                vstd::seq_lib::to_multiset_update(s1, j as int, y);
                s0.to_multiset_ensures();
                assert(s0.contains(x));
                assert(levels@.to_multiset() =~= s0.to_multiset());
            }
            j = j - 1;
        }
        assert forall|p: int, q: int| 0 <= p < q <= i implies raw_in_order(side, #[trigger] levels@[p], #[trigger] levels@[q]) by {
            if p < j && q == j {
                assert(raw_in_order(side, levels@[p], levels@[j - 1]) || p == j - 1);
            }
        }
        i = i + 1;
    }
}

impl Level {
    /// This level, tagged with the exchange it came from.
    pub fn into_aggregator_level(self, exchange_name: String) -> (r: aggregator::Level)
        ensures
            r == tagged(self, exchange_name),
    {
        aggregator::Level { exchange_name, price: self.price, amount: self.quantity }
    }
}

fn trim_side(side: &Vec<Level>, exchange_name: &String, max_levels: usize) -> (r: Vec<aggregator::Level>)
    ensures
        r@ == trimmed(side@, *exchange_name, max_levels as nat),
{
    let n = if side.len() <= max_levels { side.len() } else { max_levels };
    let mut r: Vec<aggregator::Level> = Vec::new();
    let mut i: usize = 0;
    while i < n
        invariant
            n <= side@.len(),
            n == if side@.len() <= max_levels { side@.len() } else { max_levels as nat },
            i <= n,
            r@ =~= side@.take(i as int).map_values(|l: Level| tagged(l, *exchange_name)),
        decreases n - i,
    {
        r.push(side[i].into_aggregator_level(exchange_name.clone()));
        assert(side@.take(i + 1) =~= side@.take(i as int).push(side@[i as int]));
        i = i + 1;
    }
    r
}

impl OrderBookData {
    /// Sorts the bids by descending and the asks by ascending price, for
    /// exchanges whose snapshots are not guaranteed to come sorted.
    pub fn sort_sides(&mut self)
        ensures
            final(self).bids@.to_multiset() == old(self).bids@.to_multiset(),
            final(self).asks@.to_multiset() == old(self).asks@.to_multiset(),
            raw_sorted(Side::Bid, final(self).bids@),
            raw_sorted(Side::Ask, final(self).asks@),
    {
        sort_side(&mut self.bids, Side::Bid);
        sort_side(&mut self.asks, Side::Ask);
    }

    /// The snapshot as the aggregator takes it: each side trimmed to its
    /// first `max_levels` levels and every level tagged with the exchange.
    /// A snapshot whose sides come sorted gives a well-formed one.
    pub fn into_exchange_orders(self, exchange_name: String, max_levels: usize) -> (r: ExchangeOrders)
        ensures
            r.exchange_name == exchange_name,
            r.asks@ == trimmed(self.asks@, exchange_name, max_levels as nat),
            r.bids@ == trimmed(self.bids@, exchange_name, max_levels as nat),
            raw_sorted(Side::Bid, self.bids@) && raw_sorted(Side::Ask, self.asks@) ==> r.wf(),
    {
        let asks = trim_side(&self.asks, &exchange_name, max_levels);
        let bids = trim_side(&self.bids, &exchange_name, max_levels);
        let r = ExchangeOrders { asks, bids, exchange_name };
        assert(raw_sorted(Side::Bid, self.bids@) ==> merge::sorted_on(Side::Bid, r.bids@)) by {
            if raw_sorted(Side::Bid, self.bids@) {
                assert forall|i: int, j: int| 0 <= i < j < r.bids@.len() implies merge::price_at_least(
                    Side::Bid,
                    #[trigger] r.bids@[i],
                    #[trigger] r.bids@[j],
                ) by {
                    assert(self.bids@[i].price >= self.bids@[j].price);
                }
            }
        }
        assert(raw_sorted(Side::Ask, self.asks@) ==> merge::sorted_on(Side::Ask, r.asks@)) by {
            if raw_sorted(Side::Ask, self.asks@) {
                assert forall|i: int, j: int| 0 <= i < j < r.asks@.len() implies merge::price_at_least(
                    Side::Ask,
                    #[trigger] r.asks@[i],
                    #[trigger] r.asks@[j],
                ) by {
                    assert(self.asks@[i].price <= self.asks@[j].price);
                }
            }
        }
        r
    }
}

/// Number of decimals kept by the fixed-point prices and quantities.
pub const DECIMALS: usize = 8;

/// `10` to the power `n`.
pub open spec fn pow10(n: nat) -> int
    decreases n,
{
    if n == 0 {
        1
    } else {
        10 * pow10((n - 1) as nat)
    }
}

/// An ASCII decimal digit.
pub open spec fn is_digit(b: u8) -> bool {
    48 <= b <= 57
}

/// Reads decimal text left to right: the value of all its digits as one
/// integer, whether a point was seen, how many digits follow the point, and
/// whether the text so far holds only digits and at most one point.
pub open spec fn scan_decimal(s: Seq<u8>) -> (int, bool, nat, bool)
    decreases s.len(),
{
    if s.len() == 0 {
        (0, false, 0, true)
    } else {
        let (value, dot, frac, ok) = scan_decimal(s.drop_last());
        let c = s.last();
        if c == 46 {
            (value, true, frac, ok && !dot)
        } else if is_digit(c) {
            (value * 10 + (c - 48), dot, if dot { frac + 1 } else { frac }, ok)
        } else {
            (value, dot, frac, false)
        }
    }
}

/// The value of decimal text such as `0.06543000` in units of `10^-DECIMALS`:
/// one or more digits, then optionally a point and at most `DECIMALS` digits.
/// `None` for any other text and for values above `max`.
pub open spec fn fixed_point_of(s: Seq<u8>, max: int) -> Option<int> {
    let (value, dot, frac, ok) = scan_decimal(s);
    if ok && s.len() > 0 && is_digit(s[0]) && frac <= DECIMALS && value * pow10((DECIMALS - frac) as nat) <= max {
        Some(value * pow10((DECIMALS - frac) as nat))
    } else {
        None
    }
}

proof fn lemma_scan_prefix(s: Seq<u8>, i: int, j: int)
    requires
        0 <= i <= j <= s.len(),
    ensures
        !scan_decimal(s.take(i)).3 ==> !scan_decimal(s.take(j)).3,
        scan_decimal(s.take(j)).0 >= scan_decimal(s.take(i)).0,
        scan_decimal(s.take(j)).2 >= scan_decimal(s.take(i)).2,
    decreases j - i,
{
    if i < j {
        lemma_scan_prefix(s, i, j - 1);
        assert(s.take(j).drop_last() =~= s.take(j - 1));
        lemma_scan_nonneg(s.take(j - 1));
    }
}

proof fn lemma_scan_nonneg(s: Seq<u8>)
    ensures
        scan_decimal(s).0 >= 0,
    decreases s.len(),
{
    if s.len() > 0 {
        lemma_scan_nonneg(s.drop_last());
    }
}

proof fn lemma_pow10_positive(n: nat)
    ensures
        pow10(n) >= 1,
    decreases n,
{
    if n > 0 {
        lemma_pow10_positive((n - 1) as nat);
    }
}

/// Reads decimal text as a fixed-point value no larger than `max`.
pub fn parse_fixed_point(text: &str, max: u64) -> (r: Option<u64>)
    ensures
        match fixed_point_of(text.spec_bytes(), max as int) {
            Some(v) => 0 <= v <= max && r == Some(v as u64),
            None => r.is_none(),
        },
{
    let bytes = text.as_bytes();
    let ghost s = bytes@;
    let mut value: u64 = 0;
    let mut dot = false;
    let mut frac: usize = 0;
    let mut i: usize = 0;
    assert(s.take(0) =~= Seq::<u8>::empty());
    while i < bytes.len()
        invariant
            s == bytes@,
            s == text.spec_bytes(),
            i <= s.len(),
            frac <= DECIMALS,
            scan_decimal(s.take(i as int)) == (value as int, dot, frac as nat, true),
        decreases s.len() - i,
    {
        let c = bytes[i];
        assert(s.take(i + 1).drop_last() =~= s.take(i as int));
        proof {
            lemma_scan_prefix(s, i + 1, s.len() as int);
            lemma_pow10_positive((DECIMALS - scan_decimal(s).2) as nat);
            assert(s.take(s.len() as int) =~= s);
        }
        if c == 46u8 {
            if dot {
                return None;
            }
            dot = true;
        } else if 48u8 <= c && c <= 57u8 {
            if dot {
                if frac == DECIMALS {
                    return None;
                }
                frac = frac + 1;
            }
            let d = (c - 48u8) as u64;
            if value > (u64::MAX - d) / 10 {
                proof {
                    let v = scan_decimal(s).0;
                    let p = pow10((DECIMALS - scan_decimal(s).2) as nat);
                    assert(v * p >= v) by (nonlinear_arith)
                        requires
                            v >= 0,
                            p >= 1,
                    ;
                }
                return None;
            }
            value = value * 10 + d;
        } else {
            return None;
        }
        i = i + 1;
    }
    assert(s.take(s.len() as int) =~= s);
    if bytes.len() == 0 || !(48u8 <= bytes[0] && bytes[0] <= 57u8) {
        return None;
    }
    let ghost digits = value as int;
    let mut k: usize = frac;
    while k < DECIMALS
        invariant
            s == text.spec_bytes(),
            s.len() > 0,
            is_digit(s[0]),
            scan_decimal(s) == (digits, dot, frac as nat, true),
            frac <= k <= DECIMALS,
            value as int == digits * pow10((k - frac) as nat),
            digits >= 0,
        decreases DECIMALS - k,
    {
        proof {
            lemma_pow10_positive((k - frac) as nat);
            lemma_pow10_positive((DECIMALS - k - 1) as nat);
            lemma_pow10_split((DECIMALS - frac) as nat, (k - frac) as nat);
        }
        if value > max / 10 {
            proof {
                let a = value as int;
                let rest = pow10((DECIMALS - k - 1) as nat);
                let done = pow10((k - frac) as nat);
                assert(pow10((DECIMALS - k) as nat) == 10 * rest);
                assert(digits * (done * (10 * rest)) == a * 10 * rest) by (nonlinear_arith)
                    requires
                        a == digits * done,
                ;
                assert(a * 10 * rest >= a * 10) by (nonlinear_arith)
                    requires
                        a >= 0,
                        rest >= 1,
                ;
                assert(a * 10 > max);
            }
            return None;
        }
        proof {
            let p = pow10((k - frac) as nat);
            assert(pow10((k + 1 - frac) as nat) == 10 * p);
            assert(digits * p * 10 == digits * (10 * p)) by (nonlinear_arith);
        }
        value = value * 10;
        k = k + 1;
    }
    assert(k == DECIMALS);
    if value > max {
        return None;
    }
    Some(value)
}

proof fn lemma_pow10_split(n: nat, m: nat)
    requires
        m <= n,
    ensures
        pow10(n) == pow10(m) * pow10((n - m) as nat),
    decreases m,
{
    if m > 0 {
        lemma_pow10_split((n - 1) as nat, (m - 1) as nat);
        let a = pow10((m - 1) as nat);
        let b = pow10((n - m) as nat);
        assert(10 * (a * b) == (10 * a) * b) by (nonlinear_arith);
    }
}

impl Level {
    /// Reads a level from the `[price, quantity]` text pair of an exchange
    /// message; `None` when either is not decimal text or does not fit.
    pub fn try_from_strings(price: &str, quantity: &str) -> (r: Option<Level>)
        ensures
            match (fixed_point_of(price.spec_bytes(), i64::MAX as int), fixed_point_of(quantity.spec_bytes(), u64::MAX as int)) {
                (Some(p), Some(q)) => r == Some(Level { price: p as i64, quantity: q as u64 }),
                _ => r.is_none(),
            },
    {
        let price = match parse_fixed_point(price, i64::MAX as u64) {
            Some(p) => p as i64,
            None => return None,
        };
        let quantity = match parse_fixed_point(quantity, u64::MAX) {
            Some(q) => q,
            None => return None,
        };
        Some(Level { price, quantity })
    }
}

} // verus!
