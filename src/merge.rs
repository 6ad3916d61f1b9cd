//! Levels, their order on each side of the book, and the bounded k-way merge
//! of sorted level sequences.
use vstd::prelude::*;
use vstd::multiset::Multiset;

verus! {

/// One price level of one exchange. Prices are fixed-point ticks and amounts
/// are non-negative fixed-point units, so that every comparison is total.
#[derive(Debug, Clone, PartialEq, Eq)]
pub struct Level {
    pub price: i64,
    pub amount: u64,
    pub exchange_name: String,
}

/// Which side of the book a sequence of levels belongs to.
#[derive(Debug, Clone, Copy, PartialEq, Eq, Structural)]
pub enum Side {
    /// Buy side: best price is the highest.
    Bid,
    /// Sell side: best price is the lowest.
    Ask,
}

/// Lexicographic order on byte strings, the order of `String` in Rust.
pub open spec fn bytes_lt(a: Seq<u8>, b: Seq<u8>) -> bool
    decreases a.len(),
{
    if a.len() == 0 {
        b.len() > 0
    } else if b.len() == 0 {
        false
    } else if a[0] != b[0] {
        a[0] < b[0]
    } else {
        bytes_lt(a.drop_first(), b.drop_first())
    }
}

/// The bytes of an exchange name, as `str::as_bytes` gives them.
pub open spec fn name_bytes(l: Level) -> Seq<u8> {
    vstd::utf8::encode_utf8(l.exchange_name@)
}

/// The total order on levels: by price, then amount, then exchange name.
pub open spec fn level_lt(a: Level, b: Level) -> bool {
    a.price < b.price || (a.price == b.price && (a.amount < b.amount || (a.amount == b.amount
        && bytes_lt(name_bytes(a), name_bytes(b)))))
}

/// `a` comes strictly before `b` on the given side of the book.
pub open spec fn better(side: Side, a: Level, b: Level) -> bool {
    match side {
        Side::Bid => level_lt(b, a),
        Side::Ask => level_lt(a, b),
    }
}

/// `a` is priced at least as well as `b` on the given side of the book.
pub open spec fn price_at_least(side: Side, a: Level, b: Level) -> bool {
    match side {
        Side::Bid => a.price >= b.price,
        Side::Ask => a.price <= b.price,
    }
}

fn bytes_less(a: &[u8], b: &[u8]) -> (r: bool)
    ensures
        r == bytes_lt(a@, b@),
{
    let mut i: usize = 0;
    assert(a@.skip(0) =~= a@);
    assert(b@.skip(0) =~= b@);
    while i < a.len() && i < b.len()
        invariant
            i <= a@.len(),
            i <= b@.len(),
            bytes_lt(a@, b@) == bytes_lt(a@.skip(i as int), b@.skip(i as int)),
        decreases a@.len() - i,
    {
        if a[i] != b[i] {
            return a[i] < b[i];
        }
        assert(a@.skip(i as int).drop_first() =~= a@.skip(i + 1));
        assert(b@.skip(i as int).drop_first() =~= b@.skip(i + 1));
        i = i + 1;
    }
    assert(a@.skip(i as int).len() == 0 || b@.skip(i as int).len() == 0);
    i == a.len() && i < b.len()
}

/// A copy of a level.
fn copy_level(l: &Level) -> (r: Level)
    ensures
        r == *l,
{
    Level { price: l.price, amount: l.amount, exchange_name: l.exchange_name.clone() }
}

/// Decides `better(side, a, b)`.
fn is_better(side: Side, a: &Level, b: &Level) -> (r: bool)
    ensures
        r == better(side, *a, *b),
{
    let (lo, hi) = match side {
        Side::Bid => (b, a),
        Side::Ask => (a, b),
    };
    if lo.price != hi.price {
        lo.price < hi.price
    } else if lo.amount != hi.amount {
        lo.amount < hi.amount
    } else {
        bytes_less(lo.exchange_name.as_str().as_bytes(), hi.exchange_name.as_str().as_bytes())
    }
}

/// The contents of a list of level slices.
pub open spec fn slices_view(levels: Seq<&[Level]>) -> Seq<Seq<Level>> {
    Seq::new(levels.len(), |i: int| levels[i]@)
}

/// Index among the first `j` inputs of the non-empty input whose head is best
/// on `side`, the earliest one on a tie; `-1` when all of them are empty.
pub open spec fn best_head(inputs: Seq<Seq<Level>>, side: Side, j: int) -> int
    decreases j,
{
    if j <= 0 {
        -1
    } else {
        let b = best_head(inputs, side, j - 1);
        if inputs[j - 1].len() > 0 && (b < 0 || better(side, inputs[j - 1][0], inputs[b][0])) {
            j - 1
        } else {
            b
        }
    }
}

/// The first `n` levels of the merge of `inputs`: the best head is taken, its
/// input advances by one, and the rest follows from what remains.
pub open spec fn merge_top(inputs: Seq<Seq<Level>>, side: Side, n: nat) -> Seq<Level>
    decreases n,
{
    if n == 0 {
        Seq::empty()
    } else {
        let b = best_head(inputs, side, inputs.len() as int);
        if b < 0 {
            Seq::empty()
        } else {
            seq![inputs[b][0]] + merge_top(inputs.update(b, inputs[b].drop_first()), side, (n - 1) as nat)
        }
    }
}

/// What remains of each input once `cursors[i]` of its levels are consumed.
pub open spec fn remaining(inputs: Seq<Seq<Level>>, cursors: Seq<usize>) -> Seq<Seq<Level>> {
    Seq::new(inputs.len(), |i: int| inputs[i].subrange(cursors[i] as int, inputs[i].len() as int))
}

proof fn lemma_best_head_range(inputs: Seq<Seq<Level>>, side: Side, j: int)
    requires
        0 <= j <= inputs.len(),
    ensures
        -1 <= best_head(inputs, side, j) < j,
        best_head(inputs, side, j) >= 0 ==> inputs[best_head(inputs, side, j)].len() > 0,
        best_head(inputs, side, j) < 0 ==> forall|i: int| 0 <= i < j ==> inputs[i].len() == 0,
    decreases j,
{
    if j > 0 {
        lemma_best_head_range(inputs, side, j - 1);
    }
}

/// Input `a` comes before input `b` in the merge queue: its head is better on
/// `side`, or the two heads tie and `a` is the earlier input.
pub open spec fn precedes(inputs: Seq<Seq<Level>>, side: Side, a: int, b: int) -> bool {
    better(side, inputs[a][0], inputs[b][0]) || (!better(side, inputs[b][0], inputs[a][0]) && a < b)
}

/// The merge queue holds non-empty inputs, worst head first and best last.
pub open spec fn queue_ordered(inputs: Seq<Seq<Level>>, side: Side, queue: Seq<usize>) -> bool {
    &&& forall|a: int| 0 <= a < queue.len() ==> (#[trigger] queue[a]) < inputs.len() && inputs[queue[a] as int].len() > 0
    &&& forall|a: int, b: int|
        0 <= a < b < queue.len() ==> precedes(inputs, side, #[trigger] queue[b] as int, #[trigger] queue[a] as int)
}

proof fn lemma_precedes_order(inputs: Seq<Seq<Level>>, side: Side, a: int, b: int, c: int)
    requires
        0 <= a < inputs.len() && inputs[a].len() > 0,
        0 <= b < inputs.len() && inputs[b].len() > 0,
        0 <= c < inputs.len() && inputs[c].len() > 0,
    ensures
        !(precedes(inputs, side, a, b) && precedes(inputs, side, b, a)),
        precedes(inputs, side, a, b) && precedes(inputs, side, b, c) ==> precedes(inputs, side, a, c),
        a != b ==> precedes(inputs, side, a, b) || precedes(inputs, side, b, a),
{
    let (x, y, z) = (inputs[a][0], inputs[b][0], inputs[c][0]);
    lemma_level_order(x, y, z);
    lemma_level_order(x, z, y);
    lemma_level_order(y, x, z);
    lemma_level_order(y, z, x);
    lemma_level_order(z, x, y);
    lemma_level_order(z, y, x);
    lemma_level_order(x, y, x);
    lemma_level_order(y, x, y);
}

proof fn lemma_best_head_first(inputs: Seq<Seq<Level>>, side: Side, j: int)
    requires
        0 <= j <= inputs.len(),
    ensures
        best_head(inputs, side, j) >= 0 ==> forall|i: int|
            0 <= i < j && i != best_head(inputs, side, j) && inputs[i].len() > 0 ==> #[trigger] precedes(
                inputs,
                side,
                best_head(inputs, side, j),
                i,
            ),
    decreases j,
{
    if j > 0 {
        lemma_best_head_first(inputs, side, j - 1);
        lemma_best_head_range(inputs, side, j - 1);
        let b = best_head(inputs, side, j - 1);
        if b >= 0 && best_head(inputs, side, j) == j - 1 {
            assert forall|i: int| 0 <= i < j - 1 && inputs[i].len() > 0 implies #[trigger] precedes(
                inputs,
                side,
                j - 1,
                i,
            ) by {
                if i != b {
                    lemma_precedes_order(inputs, side, j - 1, b, i);
                }
            }
        }
    }
}

/// An input that comes before every other non-empty input is the best head.
proof fn lemma_first_is_best_head(inputs: Seq<Seq<Level>>, side: Side, f: int)
    requires
        0 <= f < inputs.len(),
        inputs[f].len() > 0,
        forall|i: int| 0 <= i < inputs.len() && i != f && inputs[i].len() > 0 ==> #[trigger] precedes(inputs, side, f, i),
    ensures
        best_head(inputs, side, inputs.len() as int) == f,
{
    let n = inputs.len() as int;
    lemma_best_head_range(inputs, side, n);
    lemma_best_head_first(inputs, side, n);
    let b = best_head(inputs, side, n);
    if b != f {
        assert(precedes(inputs, side, b, f));
        assert(precedes(inputs, side, f, b));
        lemma_precedes_order(inputs, side, b, f, f);
    }
}

/// Decides `precedes` on what remains of the inputs.
fn precedes_exec(levels: &[&[Level]], cursors: &Vec<usize>, side: Side, a: usize, b: usize) -> (r: bool)
    requires
        cursors@.len() == levels@.len(),
        a < levels@.len() && cursors@[a as int] < levels@[a as int]@.len(),
        b < levels@.len() && cursors@[b as int] < levels@[b as int]@.len(),
    ensures
        r == precedes(remaining(slices_view(levels@), cursors@), side, a as int, b as int),
{
    let ghost rest = remaining(slices_view(levels@), cursors@);
    let x = &levels[a][cursors[a]];
    let y = &levels[b][cursors[b]];
    assert(*x == rest[a as int][0] && *y == rest[b as int][0]);
    if is_better(side, x, y) {
        true
    } else if is_better(side, y, x) {
        false
    } else {
        a < b
    }
}

/// Puts input `f` into the merge queue at its place.
fn queue_insert(levels: &[&[Level]], cursors: &Vec<usize>, side: Side, queue: &mut Vec<usize>, f: usize)
    requires
        cursors@.len() == levels@.len(),
        forall|t: int| 0 <= t < levels@.len() ==> cursors@[t] <= levels@[t]@.len(),
        f < levels@.len() && cursors@[f as int] < levels@[f as int]@.len(),
        queue_ordered(remaining(slices_view(levels@), cursors@), side, old(queue)@),
        forall|a: int| 0 <= a < old(queue)@.len() ==> old(queue)@[a] != f,
    ensures
        queue_ordered(remaining(slices_view(levels@), cursors@), side, final(queue)@),
        exists|p: int| 0 <= p <= old(queue)@.len() && final(queue)@ == old(queue)@.insert(p, f),
{
    let ghost rest = remaining(slices_view(levels@), cursors@);
    let ghost q = queue@;
    let mut lo: usize = 0;
    let mut hi: usize = queue.len();
    while lo < hi
        invariant
            q == queue@,
            rest == remaining(slices_view(levels@), cursors@),
            cursors@.len() == levels@.len(),
            forall|t: int| 0 <= t < levels@.len() ==> cursors@[t] <= levels@[t]@.len(),
            f < levels@.len() && cursors@[f as int] < levels@[f as int]@.len(),
            queue_ordered(rest, side, q),
            forall|a: int| 0 <= a < q.len() ==> q[a] != f,
            lo <= hi <= q.len(),
            forall|a: int| 0 <= a < lo ==> #[trigger] precedes(rest, side, f as int, q[a] as int),
            forall|a: int| hi <= a < q.len() ==> #[trigger] precedes(rest, side, q[a] as int, f as int),
        decreases hi - lo,
    {
        let mid = lo + (hi - lo) / 2;
        let m = queue[mid];
        assert(q[mid as int] == m);
        if precedes_exec(levels, cursors, side, f, m) {
            assert forall|a: int| 0 <= a < mid + 1 implies #[trigger] precedes(rest, side, f as int, q[a] as int) by {
                if a < mid {
                    lemma_precedes_order(rest, side, f as int, m as int, q[a] as int);
                }
            }
            lo = mid + 1;
        } else {
            proof {
                lemma_precedes_order(rest, side, f as int, m as int, m as int);
            }
            assert forall|a: int| mid <= a < q.len() implies #[trigger] precedes(rest, side, q[a] as int, f as int) by {
                if a > mid {
                    lemma_precedes_order(rest, side, q[a] as int, m as int, f as int);
                }
            }
            hi = mid;
        }
    }
    queue.insert(lo, f);
    assert(queue@ == q.insert(lo as int, f));
    assert forall|a: int, b: int| 0 <= a < b < queue@.len() implies precedes(
        rest,
        side,
        #[trigger] queue@[b] as int,
        #[trigger] queue@[a] as int,
    ) by {
        if b < lo {
        } else if b == lo {
        } else if a < lo {
            lemma_precedes_order(rest, side, q[b - 1] as int, f as int, q[a] as int);
        } else if a == lo {
        } else {
            assert(queue@[a] == q[a - 1] && queue@[b] == q[b - 1]);
        }
    }
}

/// Bounded k-way merge: the first `max_levels` levels of the merge of the
/// inputs on `side`. A queue keeps the inputs that still have levels, ordered
/// by their next level; each step takes the best one and puts its input back
/// at its place with binary search. The inputs are only read.
pub fn sort_merged(levels: &[&[Level]], max_levels: usize, side: Side) -> (r: Vec<Level>)
    ensures
        r@ == merge_top(slices_view(levels@), side, max_levels as nat),
{
    let ghost inputs = slices_view(levels@);
    let k = levels.len();
    let mut cursors: Vec<usize> = Vec::new();
    let mut i: usize = 0;
    while i < k
        invariant
            k == levels@.len(),
            i <= k,
            cursors@.len() == i,
            forall|t: int| 0 <= t < i ==> cursors@[t] == 0,
        decreases k - i,
    {
        cursors.push(0);
        i = i + 1;
    }
    assert forall|t: int| 0 <= t < inputs.len() implies #[trigger] remaining(inputs, cursors@)[t] =~= inputs[t] by {}
    assert(remaining(inputs, cursors@) =~= inputs);
    let mut queue: Vec<usize> = Vec::new();
    let mut i: usize = 0;
    while i < k
        invariant
            k == levels@.len(),
            inputs == slices_view(levels@),
            remaining(inputs, cursors@) == inputs,
            cursors@.len() == k,
            forall|t: int| 0 <= t < k ==> cursors@[t] == 0,
            i <= k,
            queue_ordered(inputs, side, queue@),
            forall|a: int| 0 <= a < queue@.len() ==> queue@[a] < i,
            forall|t: int| 0 <= t < i && inputs[t].len() > 0 ==> exists|a: int| 0 <= a < queue@.len() && #[trigger] queue@[a] == t,
        decreases k - i,
    {
        if levels[i].len() > 0 {
            let ghost q = queue@;
            queue_insert(levels, &cursors, side, &mut queue, i);
            let ghost p = choose|p: int| 0 <= p <= q.len() && queue@ == q.insert(p, i);
            assert forall|t: int| 0 <= t < i + 1 && inputs[t].len() > 0 implies exists|a: int|
                0 <= a < queue@.len() && #[trigger] queue@[a] == t by {
                if t == i {
                    assert(queue@[p] == t);
                } else {
                    let a = choose|a: int| 0 <= a < q.len() && #[trigger] q[a] == t;
                    if a < p {
                        assert(queue@[a] == t);
                    } else {
                        assert(queue@[a + 1] == t);
                    }
                }
            }
        }
        i = i + 1;
    }
    let mut result: Vec<Level> = Vec::new();
    loop
        invariant_except_break
            k == levels@.len(),
            inputs == slices_view(levels@),
            result@.len() <= max_levels,
            cursors@.len() == k,
            forall|t: int| 0 <= t < k ==> cursors@[t] <= levels@[t]@.len(),
            queue_ordered(remaining(inputs, cursors@), side, queue@),
            forall|t: int|
                0 <= t < k && remaining(inputs, cursors@)[t].len() > 0 ==> exists|a: int|
                    0 <= a < queue@.len() && #[trigger] queue@[a] == t,
            result@ + merge_top(remaining(inputs, cursors@), side, (max_levels - result@.len()) as nat)
                == merge_top(inputs, side, max_levels as nat),
        ensures
            result@ == merge_top(inputs, side, max_levels as nat),
        decreases max_levels - result@.len(),
    {
        let ghost rest = remaining(inputs, cursors@);
        let ghost m = (max_levels - result@.len()) as nat;
        let ghost before = result@;
        let ghost q = queue@;
        if result.len() == max_levels {
            assert(result@ + merge_top(rest, side, m) =~= result@);
            break;
        }
        match queue.pop() {
            None => {
                proof {
                    lemma_best_head_range(rest, side, rest.len() as int);
                }
                assert forall|t: int| 0 <= t < rest.len() implies #[trigger] rest[t].len() == 0 by {
                    if rest[t].len() > 0 {
                        let a = choose|a: int| 0 <= a < q.len() && #[trigger] q[a] == t;
                    }
                }
                assert(result@ + merge_top(rest, side, m) =~= result@);
                break;
            },
            Some(b) => {
                let ghost last: int = q.len() - 1;
                assert(q[last] == b);
                assert forall|t: int| 0 <= t < rest.len() && t != b && rest[t].len() > 0 implies #[trigger] precedes(
                    rest,
                    side,
                    b as int,
                    t,
                ) by {
                    let a = choose|a: int| 0 <= a < q.len() && #[trigger] q[a] == t;
                    assert(a != last);
                    assert(precedes(rest, side, q[last] as int, q[a] as int));
                }
                proof {
                    lemma_first_is_best_head(rest, side, b as int);
                }
                let c = cursors[b];
                let item = copy_level(&levels[b][c]);
                assert(item == rest[b as int][0]);
                result.push(item);
                cursors.set(b, c + 1);
                let ghost rest2 = remaining(inputs, cursors@);
                assert forall|t: int| 0 <= t < inputs.len() implies #[trigger] rest2[t]
                    =~= rest.update(b as int, rest[b as int].drop_first())[t] by {}
                assert(rest2 =~= rest.update(b as int, rest[b as int].drop_first()));
                assert(merge_top(rest, side, m) == seq![item] + merge_top(rest2, side, (m - 1) as nat));
                assert(result@ + merge_top(rest2, side, (m - 1) as nat) =~= before + merge_top(rest, side, m));
                let ghost q2 = queue@;
                assert(q2 =~= q.drop_last());
                assert forall|a: int| 0 <= a < q2.len() implies q2[a] != b by {
                    assert(precedes(rest, side, q[last] as int, q[a] as int));
                    lemma_precedes_order(rest, side, b as int, b as int, b as int);
                }
                assert forall|a: int| 0 <= a < q2.len() implies #[trigger] rest2[q2[a] as int] == rest[q2[a] as int] by {}
                assert(queue_ordered(rest2, side, q2));
                if c + 1 < levels[b].len() {
                    queue_insert(levels, &cursors, side, &mut queue, b);
                }
                assert forall|t: int| 0 <= t < k && rest2[t].len() > 0 implies exists|a: int|
                    0 <= a < queue@.len() && #[trigger] queue@[a] == t by {
                    if t == b {
                        let p = choose|p: int| 0 <= p <= q2.len() && queue@ == q2.insert(p, b);
                        assert(queue@[p] == t);
                    } else {
                        assert(rest2[t] == rest[t]);
                        let a = choose|a: int| 0 <= a < q.len() && #[trigger] q[a] == t;
                        assert(a < last);
                        assert(q2[a] == t);
                        if c + 1 < levels@[b as int]@.len() {
                            let p = choose|p: int| 0 <= p <= q2.len() && queue@ == q2.insert(p, b);
                            if a < p {
                                assert(queue@[a] == t);
                            } else {
                                assert(queue@[a + 1] == t);
                            }
                        } else {
                            assert(queue@[a] == t);
                        }
                    }
                }
            },
        }
    }
    result
}

proof fn lemma_bytes_lt_irreflexive(a: Seq<u8>)
    ensures
        !bytes_lt(a, a),
    decreases a.len(),
{
    if a.len() > 0 {
        lemma_bytes_lt_irreflexive(a.drop_first());
    }
}

proof fn lemma_bytes_lt_transitive(a: Seq<u8>, b: Seq<u8>, c: Seq<u8>)
    requires
        bytes_lt(a, b),
        bytes_lt(b, c),
    ensures
        bytes_lt(a, c),
    decreases a.len(),
{
    if a.len() > 0 && a[0] == b[0] && b[0] == c[0] {
        lemma_bytes_lt_transitive(a.drop_first(), b.drop_first(), c.drop_first());
    }
}

proof fn lemma_bytes_lt_total(a: Seq<u8>, b: Seq<u8>)
    ensures
        bytes_lt(a, b) || bytes_lt(b, a) || a == b,
    decreases a.len(),
{
    if a.len() > 0 && b.len() > 0 && a[0] == b[0] {
        lemma_bytes_lt_total(a.drop_first(), b.drop_first());
        if a.drop_first() == b.drop_first() {
            assert(a =~= seq![a[0]] + a.drop_first());
            assert(b =~= seq![b[0]] + b.drop_first());
        }
    } else if a.len() == 0 && b.len() == 0 {
        assert(a =~= b);
    }
}

/// Levels that neither order before the other have the same price, amount
/// and exchange name bytes.
proof fn lemma_level_order(a: Level, b: Level, c: Level)
    ensures
        !level_lt(a, a),
        level_lt(a, b) && level_lt(b, c) ==> level_lt(a, c),
        !level_lt(a, b) && !level_lt(b, a) ==> a.price == b.price && a.amount == b.amount && name_bytes(a)
            == name_bytes(b),
{
    lemma_bytes_lt_irreflexive(name_bytes(a));
    lemma_bytes_lt_total(name_bytes(a), name_bytes(b));
    if level_lt(a, b) && level_lt(b, c) && a.price == b.price && b.price == c.price && a.amount == b.amount
        && b.amount == c.amount {
        lemma_bytes_lt_transitive(name_bytes(a), name_bytes(b), name_bytes(c));
    }
}

/// Every level of `s` is priced at least as well as each level after it.
pub open spec fn sorted_on(side: Side, s: Seq<Level>) -> bool {
    forall|i: int, j: int| 0 <= i < j < s.len() ==> price_at_least(side, #[trigger] s[i], #[trigger] s[j])
}

/// All levels of all inputs, with multiplicity.
pub open spec fn pooled(inputs: Seq<Seq<Level>>) -> Multiset<Level>
    decreases inputs.len(),
{
    if inputs.len() == 0 {
        Multiset::empty()
    } else {
        pooled(inputs.drop_last()).add(inputs.last().to_multiset())
    }
}

proof fn lemma_better_price(side: Side, a: Level, b: Level)
    ensures
        better(side, a, b) ==> price_at_least(side, a, b),
        !better(side, a, b) ==> price_at_least(side, b, a),
{
}

proof fn lemma_best_head_prices(inputs: Seq<Seq<Level>>, side: Side, j: int)
    requires
        0 <= j <= inputs.len(),
    ensures
        best_head(inputs, side, j) >= 0 ==> forall|i: int|
            0 <= i < j && inputs[i].len() > 0 ==> price_at_least(
                side,
                inputs[best_head(inputs, side, j)][0],
                #[trigger] inputs[i][0],
            ),
    decreases j,
{
    if j > 0 {
        lemma_best_head_prices(inputs, side, j - 1);
        lemma_best_head_range(inputs, side, j - 1);
        let b = best_head(inputs, side, j - 1);
        if b >= 0 {
            lemma_better_price(side, inputs[j - 1][0], inputs[b][0]);
        }
    }
}

proof fn lemma_head_dominates(inputs: Seq<Seq<Level>>, side: Side, v: Level)
    requires
        forall|i: int| 0 <= i < inputs.len() ==> sorted_on(side, #[trigger] inputs[i]),
        best_head(inputs, side, inputs.len() as int) >= 0,
        pooled(inputs).count(v) > 0,
    ensures
        price_at_least(side, inputs[best_head(inputs, side, inputs.len() as int)][0], v),
{
    lemma_pool_contains(inputs, v);
    let (i, j) = choose|i: int, j: int| 0 <= i < inputs.len() && 0 <= j < inputs[i].len() && inputs[i][j] == v;
    lemma_best_head_prices(inputs, side, inputs.len() as int);
    assert(price_at_least(side, inputs[i][0], inputs[i][j]) || j == 0);
}

pub(crate) proof fn lemma_pool_contains(inputs: Seq<Seq<Level>>, v: Level)
    requires
        pooled(inputs).count(v) > 0,
    ensures
        exists|i: int, j: int| 0 <= i < inputs.len() && 0 <= j < inputs[i].len() && #[trigger] inputs[i][j] == v,
    decreases inputs.len(),
{
    broadcast use vstd::multiset::group_multiset_axioms;
    broadcast use vstd::seq_lib::group_to_multiset_ensures;

    if inputs.len() > 0 {
        let init = inputs.drop_last();
        if pooled(init).count(v) > 0 {
            lemma_pool_contains(init, v);
            let (i, j) = choose|i: int, j: int| 0 <= i < init.len() && 0 <= j < init[i].len() && init[i][j] == v;
            assert(inputs[i][j] == v);
        } else {
            inputs.last().to_multiset_ensures();
            assert(inputs.last().contains(v));
            let j = choose|j: int| 0 <= j < inputs.last().len() && inputs.last()[j] == v;
            assert(inputs[inputs.len() - 1][j] == v);
        }
    }
}

proof fn lemma_pool_update(inputs: Seq<Seq<Level>>, b: int, x: Seq<Level>)
    requires
        0 <= b < inputs.len(),
    ensures
        pooled(inputs.update(b, x)).add(inputs[b].to_multiset()) =~= pooled(inputs).add(x.to_multiset()),
    decreases inputs.len(),
{
    broadcast use vstd::multiset::group_multiset_axioms;

    let u = inputs.update(b, x);
    assert(pooled(u) == pooled(u.drop_last()).add(u.last().to_multiset()));
    assert(pooled(inputs) == pooled(inputs.drop_last()).add(inputs.last().to_multiset()));
    if b == inputs.len() - 1 {
        assert(u.drop_last() =~= inputs.drop_last());
        assert(u.last() == x);
    } else {
        assert(u.drop_last() =~= inputs.drop_last().update(b, x));
        assert(u.last() == inputs.last());
        lemma_pool_update(inputs.drop_last(), b, x);
        assert(inputs.drop_last()[b] == inputs[b]);
        assert forall|v: Level| #[trigger] pooled(u.drop_last()).count(v) + inputs[b].to_multiset().count(v)
            == pooled(inputs.drop_last()).count(v) + x.to_multiset().count(v) by {
            assert(pooled(u.drop_last()).add(inputs[b].to_multiset()).count(v)
                == pooled(inputs.drop_last()).add(x.to_multiset()).count(v));
        }
    }
    assert forall|v: Level| #[trigger] pooled(u).add(inputs[b].to_multiset()).count(v)
        == pooled(inputs).add(x.to_multiset()).count(v) by {
        assert(pooled(u).count(v) == pooled(u.drop_last()).count(v) + u.last().to_multiset().count(v));
        assert(pooled(inputs).count(v) == pooled(inputs.drop_last()).count(v) + inputs.last().to_multiset().count(v));
    }
}

proof fn lemma_multiset_drop_first(s: Seq<Level>)
    requires
        s.len() > 0,
    ensures
        s.to_multiset() =~= s.drop_first().to_multiset().insert(s[0]),
{
    broadcast use vstd::multiset::group_multiset_axioms;

    s.to_multiset_ensures();
    assert(s.remove(0) =~= s.drop_first());
    assert(s.contains(s[0]));
}

/// The bounded merge of sorted inputs holds `min(n, M)` levels, `M` being the
/// number of input levels; it is sorted; each of its levels comes from an
/// input (with multiplicity); and no level left out is priced better than the
/// last level taken. So it is the first `min(n, M)` levels in side order.
pub proof fn lemma_merge_top_is_top_n(inputs: Seq<Seq<Level>>, side: Side, n: nat)
    requires
        forall|i: int| 0 <= i < inputs.len() ==> sorted_on(side, #[trigger] inputs[i]),
    ensures
        ({
            let r = merge_top(inputs, side, n);
            let pool = pooled(inputs);
            &&& r.len() == if n <= pool.len() { n } else { pool.len() }
            &&& sorted_on(side, r)
            &&& forall|v: Level| #[trigger] r.to_multiset().count(v) <= pool.count(v)
            &&& forall|v: Level|
                #![trigger pool.count(v)]
                pool.count(v) > r.to_multiset().count(v) && r.len() > 0 ==> price_at_least(side, r.last(), v)
            &&& forall|v: Level|
                #![trigger pool.count(v)]
                pool.count(v) > 0 && r.len() > 0 ==> price_at_least(side, r[0], v)
        }),
    decreases n,
{
    broadcast use vstd::multiset::group_multiset_axioms;
    broadcast use vstd::seq_lib::group_to_multiset_ensures;

    let r = merge_top(inputs, side, n);
    let pool = pooled(inputs);
    let b = best_head(inputs, side, inputs.len() as int);
    lemma_best_head_range(inputs, side, inputs.len() as int);
    if n == 0 || b < 0 {
        assert(r.len() == 0);
        assert(r.to_multiset() =~= Multiset::empty());
        if n > 0 {
            assert forall|v: Level| pool.count(v) == 0 by {
                if pool.count(v) > 0 {
                    lemma_pool_contains(inputs, v);
                }
            }
            assert(pool =~= Multiset::empty());
        }
    } else {
        let h = inputs[b][0];
        let tail = inputs[b].drop_first();
        let rest = inputs.update(b, tail);
        let r2 = merge_top(rest, side, (n - 1) as nat);
        let pool2 = pooled(rest);
        assert forall|i: int| 0 <= i < rest.len() implies sorted_on(side, #[trigger] rest[i]) by {
            if i == b {
                assert(sorted_on(side, inputs[b]));
                assert forall|p: int, q: int| 0 <= p < q < tail.len() implies price_at_least(
                    side,
                    #[trigger] tail[p],
                    #[trigger] tail[q],
                ) by {
                    assert(tail[p] == inputs[b][p + 1] && tail[q] == inputs[b][q + 1]);
                }
            }
        }
        lemma_merge_top_is_top_n(rest, side, (n - 1) as nat);
        lemma_pool_update(inputs, b, tail);
        lemma_multiset_drop_first(inputs[b]);
        assert(pooled(rest).add(inputs[b].to_multiset()) =~= pool.add(tail.to_multiset()));
        assert forall|v: Level| #[trigger] pool.count(v) == pool2.insert(h).count(v) by {
            assert(pool2.add(inputs[b].to_multiset()).count(v) == pool.add(tail.to_multiset()).count(v));
            assert(inputs[b].to_multiset().count(v) == tail.to_multiset().insert(h).count(v));
        }
        assert(pool =~= pool2.insert(h));
        assert(r == seq![h] + r2);
        assert(r.drop_first() =~= r2);
        lemma_multiset_drop_first(r);
        assert(r.to_multiset() =~= r2.to_multiset().insert(h));
        assert forall|v: Level| #![trigger pool.count(v)] pool.count(v) > 0 implies price_at_least(side, h, v) by {
            lemma_head_dominates(inputs, side, v);
        }
        assert forall|p: int, q: int| 0 <= p < q < r.len() implies price_at_least(
            side,
            #[trigger] r[p],
            #[trigger] r[q],
        ) by {
            if p == 0 {
                assert(r[q] == r2[q - 1]);
                assert(r2.contains(r2[q - 1]));
                assert(pool.count(r[q]) > 0);
            } else {
                assert(r[p] == r2[p - 1] && r[q] == r2[q - 1]);
            }
        }
        assert forall|v: Level|
            #![trigger pool.count(v)]
            pool.count(v) > r.to_multiset().count(v) && r.len() > 0 implies price_at_least(side, r.last(), v) by {
            if r2.len() > 0 {
                assert(r.last() == r2.last());
                assert(pool2.count(v) > r2.to_multiset().count(v));
            } else {
                assert(r.last() == h);
            }
        }
    }
}

} // verus!
