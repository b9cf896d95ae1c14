use vstd::prelude::*;

use crate::order_book::{Exchange, Order};

verus! {

/// What one exchange contributed to a walk: the quantity taken from its
/// levels, and the price of the last of its levels that the walk reached.
#[derive(Clone, Copy, Debug, PartialEq, Eq, Structural)]
pub struct SourceFill {
    pub source: Exchange,
    pub quantity: u64,
    pub worst_price: u64,
}

/// The outcome of walking a book for a target quantity.
#[derive(Clone, Debug)]
pub struct PriceWalk {
    /// Sum of price times quantity taken, in units of `1 / SCALE^2`.
    pub notional: u128,
    /// Quantity taken: the target, or all the book holds where that is less.
    pub filled: u64,
    /// Whether the book held enough to fill the whole target.
    pub complete: bool,
    /// One entry per exchange whose levels the walk reached.
    pub per_source: Vec<SourceFill>,
}

/// Total quantity of the first `n` levels.
pub open spec fn prefix_quantity(s: Seq<Order>, n: int) -> int
    decreases n,
{
    if n <= 0 {
        0
    } else {
        prefix_quantity(s, n - 1) + s[n - 1].quantity
    }
}

/// Total quantity that the book holds.
pub open spec fn total_quantity(s: Seq<Order>) -> int {
    prefix_quantity(s, s.len() as int)
}

/// A walk for `target` reaches level `i` when the levels before it hold less
/// than `target`.
pub open spec fn reached(s: Seq<Order>, target: int, i: int) -> bool {
    prefix_quantity(s, i) < target
}

/// Quantity that a walk for `target` takes from level `i`: all of it while
/// the levels up to it stay below the target, the remainder still needed at
/// the level that meets the target, nothing after that.
pub open spec fn taken(s: Seq<Order>, target: int, i: int) -> int {
    let need = target - prefix_quantity(s, i);
    if need <= 0 {
        0
    } else if s[i].quantity <= need {
        s[i].quantity as int
    } else {
        need
    }
}

/// Notional of what a walk for `target` takes from the first `n` levels.
pub open spec fn notional_upto(s: Seq<Order>, target: int, n: int) -> int
    decreases n,
{
    if n <= 0 {
        0
    } else {
        notional_upto(s, target, n - 1) + s[n - 1].price * taken(s, target, n - 1)
    }
}

/// Quantity that a walk for `target` takes from the first `n` levels.
pub open spec fn filled_upto(s: Seq<Order>, target: int, n: int) -> int
    decreases n,
{
    if n <= 0 {
        0
    } else {
        filled_upto(s, target, n - 1) + taken(s, target, n - 1)
    }
}

/// Quantity that a walk for `target` takes from the levels of exchange `e`
/// among the first `n`.
pub open spec fn source_filled(s: Seq<Order>, target: int, e: Exchange, n: int) -> int
    decreases n,
{
    if n <= 0 {
        0
    } else if s[n - 1].source == Some(e) {
        source_filled(s, target, e, n - 1) + taken(s, target, n - 1)
    } else {
        source_filled(s, target, e, n - 1)
    }
}

/// Price of the last level of exchange `e` among the first `n` that a walk
/// for `target` reaches, if it reaches any.
pub open spec fn last_reached_price(s: Seq<Order>, target: int, e: Exchange, n: int) -> Option<
    u64,
>
    decreases n,
{
    if n <= 0 {
        None
    } else if s[n - 1].source == Some(e) && reached(s, target, n - 1) {
        Some(s[n - 1].price)
    } else {
        last_reached_price(s, target, e, n - 1)
    }
}

/// `stats` holds one entry for each exchange reached among the first `n`
/// levels, with what the walk took from it and its last price reached.
pub open spec fn per_source_agrees(stats: Seq<SourceFill>, s: Seq<Order>, target: int, n: int) -> bool {
    &&& sources_distinct(stats)
    &&& forall|a: int|
        0 <= a < stats.len() ==> {
            &&& (#[trigger] stats[a]).quantity == source_filled(s, target, stats[a].source, n)
            &&& last_reached_price(s, target, stats[a].source, n) == Some(stats[a].worst_price)
        }
    &&& forall|e: Exchange|
        (#[trigger] last_reached_price(s, target, e, n)) is Some ==> exists|a: int|
            0 <= a < stats.len() && (#[trigger] stats[a]).source == e
}

proof fn lemma_prefix_monotone(s: Seq<Order>, i: int, j: int)
    requires
        0 <= i <= j <= s.len(),
    ensures
        prefix_quantity(s, i) <= prefix_quantity(s, j),
    decreases j - i,
{
    if i < j {
        lemma_prefix_monotone(s, i, j - 1);
    }
}

/// Once the first `n` levels hold the target, the walk takes nothing further.
proof fn lemma_nothing_after_fill(s: Seq<Order>, target: int, n: int, m: int)
    requires
        0 <= n <= m <= s.len(),
        prefix_quantity(s, n) >= target,
    ensures
        notional_upto(s, target, m) == notional_upto(s, target, n),
        filled_upto(s, target, m) == filled_upto(s, target, n),
        forall|e: Exchange|
            source_filled(s, target, e, m) == source_filled(s, target, e, n)
                && last_reached_price(s, target, e, m) == last_reached_price(s, target, e, n),
    decreases m - n,
{
    if n < m {
        lemma_nothing_after_fill(s, target, n, m - 1);
        lemma_prefix_monotone(s, n, m - 1);
    }
}

/// A walk takes from an exchange only where it reached one of its levels.
proof fn lemma_unreached_source_empty(s: Seq<Order>, target: int, e: Exchange, n: int)
    requires
        0 <= n <= s.len(),
        last_reached_price(s, target, e, n) is None,
    ensures
        source_filled(s, target, e, n) == 0,
    decreases n,
{
    if n > 0 {
        lemma_unreached_source_empty(s, target, e, n - 1);
    }
}

/// What one exchange gave never exceeds what the walk took in all.
proof fn lemma_source_within_fill(s: Seq<Order>, target: int, e: Exchange, n: int)
    requires
        0 <= n <= s.len(),
    ensures
        0 <= source_filled(s, target, e, n) <= filled_upto(s, target, n),
    decreases n,
{
    if n > 0 {
        lemma_source_within_fill(s, target, e, n - 1);
    }
}

/// The quantity that a walk takes from the first `n` levels is the target, or
/// what those levels hold where that is less.
pub proof fn lemma_filled_upto(s: Seq<Order>, target: int, n: int)
    requires
        0 <= n <= s.len(),
        target >= 0,
    ensures
        filled_upto(s, target, n) == if prefix_quantity(s, n) < target {
            prefix_quantity(s, n)
        } else {
            target
        },
    decreases n,
{
    if n > 0 {
        lemma_filled_upto(s, target, n - 1);
    }
}

/// Position of exchange `e`'s entry in `stats`, if it has one.
pub open spec fn source_position(stats: Seq<SourceFill>, e: Exchange) -> Option<int> {
    if exists|j: int| 0 <= j < stats.len() && (#[trigger] stats[j]).source == e {
        Some(choose|j: int| 0 <= j < stats.len() && (#[trigger] stats[j]).source == e)
    } else {
        None
    }
}

/// No two entries of `stats` are for the same exchange.
pub open spec fn sources_distinct(stats: Seq<SourceFill>) -> bool {
    forall|a: int, b: int|
        0 <= a < stats.len() && 0 <= b < stats.len() && a != b ==> (#[trigger] stats[a]).source
            != (#[trigger] stats[b]).source
}

/// The per-exchange accounting after `take` units at `price` from `e`.
pub open spec fn recorded(stats: Seq<SourceFill>, e: Exchange, take: int, price: u64) -> Seq<
    SourceFill,
> {
    match source_position(stats, e) {
        Some(j) => stats.update(
            j,
            SourceFill { source: e, quantity: (stats[j].quantity + take) as u64, worst_price: price },
        ),
        None => stats.push(SourceFill { source: e, quantity: take as u64, worst_price: price }),
    }
}

/// Adds `take` units at `price` from exchange `e` to the per-exchange
/// accounting, making `e`'s entry if it has none yet.
fn record_fill(stats: &mut Vec<SourceFill>, e: Exchange, take: u64, price: u64)
    requires
        sources_distinct(old(stats)@),
        forall|a: int|
            0 <= a < old(stats)@.len() && (#[trigger] old(stats)@[a]).source == e
                ==> old(stats)@[a].quantity + take <= u64::MAX,
    ensures
        final(stats)@ == recorded(old(stats)@, e, take as int, price),
{
    let mut j: usize = 0;
    while j < stats.len()
        invariant
            j <= stats@.len(),
            stats@ == old(stats)@,
            sources_distinct(stats@),
            forall|a: int|
                0 <= a < stats@.len() && (#[trigger] stats@[a]).source == e ==> stats@[a].quantity
                    + take <= u64::MAX,
            forall|a: int| 0 <= a < j ==> (#[trigger] stats@[a]).source != e,
        decreases stats@.len() - j,
    {
        if stats[j].source == e {
            let entry = SourceFill {
                source: e,
                quantity: stats[j].quantity + take,
                worst_price: price,
            };
            let ghost k = choose|k: int| 0 <= k < stats@.len() && (#[trigger] stats@[k]).source == e;
            assert(stats@[j as int].source == e);
            assert(k == j);
            stats.set(j, entry);
            return ;
        }
        j = j + 1;
    }
    stats.push(SourceFill { source: e, quantity: take, worst_price: price });
}

/// One more level reached: what `record_fill` does to the accounting keeps it
/// in step with the walk.
proof fn lemma_agrees_step(stats: Seq<SourceFill>, s: Seq<Order>, target: int, i: int)
    requires
        0 <= i < s.len(),
        reached(s, target, i),
        per_source_agrees(stats, s, target, i),
        0 < target <= u64::MAX,
    ensures
        match s[i].source {
            None => per_source_agrees(stats, s, target, i + 1),
            Some(e) => per_source_agrees(
                recorded(stats, e, taken(s, target, i), s[i].price),
                s,
                target,
                i + 1,
            ),
        },
{
    let take = taken(s, target, i);
    match s[i].source {
        None => {
            assert forall|e: Exchange|
                #[trigger] source_filled(s, target, e, i + 1) == source_filled(s, target, e, i) by {}
            assert forall|e: Exchange|
                #[trigger] last_reached_price(s, target, e, i + 1) == last_reached_price(
                    s,
                    target,
                    e,
                    i,
                ) by {}
        },
        Some(e) => {
            let entry_price = s[i].price;
            let new = recorded(stats, e, take, entry_price);
            assert forall|f: Exchange| f != e implies source_filled(s, target, f, i + 1)
                == source_filled(s, target, f, i) && last_reached_price(s, target, f, i + 1)
                == last_reached_price(s, target, f, i) by {}
            assert(last_reached_price(s, target, e, i + 1) == Some(entry_price));
            assert(source_filled(s, target, e, i + 1) == source_filled(s, target, e, i) + take);
            lemma_source_within_fill(s, target, e, i + 1);
            lemma_filled_upto(s, target, i + 1);
            match source_position(stats, e) {
                Some(j) => {
                    assert(0 <= j < stats.len() && stats[j].source == e);
                    assert forall|a: int| 0 <= a < new.len() implies {
                        &&& (#[trigger] new[a]).quantity == source_filled(s, target, new[a].source, i + 1)
                        &&& last_reached_price(s, target, new[a].source, i + 1) == Some(new[a].worst_price)
                    } by {
                        if a != j {
                            assert(new[a] == stats[a]);
                        }
                    }
                    assert forall|f: Exchange|
                        (#[trigger] last_reached_price(s, target, f, i + 1)) is Some implies exists|
                        a: int,
                    | 0 <= a < new.len() && (#[trigger] new[a]).source == f by {
                        if f == e {
                            assert(new[j].source == f);
                        } else {
                            assert(last_reached_price(s, target, f, i) is Some);
                            let a = choose|a: int| 0 <= a < stats.len() && (#[trigger] stats[a]).source == f;
                            assert(new[a].source == f);
                        }
                    }
                },
                None => {
                    let n = stats.len() as int;
                    assert forall|a: int| 0 <= a < stats.len() implies (#[trigger] stats[a]).source != e by {}
                    assert(last_reached_price(s, target, e, i) is None);
                    lemma_unreached_source_empty(s, target, e, i);
                    assert forall|a: int| 0 <= a < new.len() implies {
                        &&& (#[trigger] new[a]).quantity == source_filled(s, target, new[a].source, i + 1)
                        &&& last_reached_price(s, target, new[a].source, i + 1) == Some(new[a].worst_price)
                    } by {
                        if a < n {
                            assert(new[a] == stats[a]);
                        }
                    }
                    assert forall|f: Exchange|
                        (#[trigger] last_reached_price(s, target, f, i + 1)) is Some implies exists|
                        a: int,
                    | 0 <= a < new.len() && (#[trigger] new[a]).source == f by {
                        if f == e {
                            assert(new[n].source == f);
                        } else {
                            assert(last_reached_price(s, target, f, i) is Some);
                            let a = choose|a: int| 0 <= a < stats.len() && (#[trigger] stats[a]).source == f;
                            assert(new[a].source == f);
                        }
                    }
                    assert(sources_distinct(new)) by {
                        assert forall|a: int, b: int|
                            0 <= a < new.len() && 0 <= b < new.len() && a != b implies (
                            #[trigger] new[a]).source != (#[trigger] new[b]).source by {
                            if a < n && b < n {
                                assert(new[a] == stats[a] && new[b] == stats[b]);
                            } else if a < n {
                                assert(new[a] == stats[a]);
                            } else {
                                assert(new[b] == stats[b]);
                            }
                        }
                    }
                },
            }
        },
    }
}

/// A walk consumes a prefix of the book: a level gives something only where
/// every level before it was taken whole, so only the last level touched can
/// be cut to the remainder; and the quantity taken in all is the target, or
/// the whole book where it holds less.
pub proof fn lemma_walk_takes_prefix(s: Seq<Order>, target: int)
    requires
        target > 0,
    ensures
        forall|i: int, j: int|
            0 <= i < j < s.len() && taken(s, target, j) > 0 ==> #[trigger] taken(s, target, i)
                == s[i].quantity && #[trigger] taken(s, target, j) <= s[j].quantity,
        filled_upto(s, target, s.len() as int) == if total_quantity(s) < target {
            total_quantity(s)
        } else {
            target
        },
{
    assert forall|i: int, j: int|
        0 <= i < j < s.len() && taken(s, target, j) > 0 implies #[trigger] taken(s, target, i)
        == s[i].quantity && #[trigger] taken(s, target, j) <= s[j].quantity by {
        lemma_prefix_monotone(s, i + 1, j);
    }
    lemma_filled_upto(s, target, s.len() as int);
}

/// Walks `order_book` from the front to fill `quantity` units: each level is
/// taken whole while that leaves the target unmet, the level that meets the
/// target gives only the remainder, and the walk stops there. Where the book
/// holds less than the target, everything is taken and `complete` is false.
///
/// The result also gives, per exchange reached, the quantity taken from it
/// and the price of its last level reached.
pub fn calculate_price(order_book: &[Order], quantity: u64) -> (r: PriceWalk)
    requires
        quantity > 0,
    ensures
        r.notional == notional_upto(order_book@, quantity as int, order_book@.len() as int),
        r.filled == filled_upto(order_book@, quantity as int, order_book@.len() as int),
        r.filled == if total_quantity(order_book@) < quantity {
            total_quantity(order_book@)
        } else {
            quantity as int
        },
        r.complete == (total_quantity(order_book@) >= quantity),
        per_source_agrees(r.per_source@, order_book@, quantity as int, order_book@.len() as int),
{
    let ghost s = order_book@;
    let ghost t = quantity as int;
    let mut filled: u64 = 0;
    let mut notional: u128 = 0;
    let mut per_source: Vec<SourceFill> = Vec::new();
    let mut complete = false;
    let mut i: usize = 0;
    while i < order_book.len()
        invariant_except_break
            !complete,
            filled == prefix_quantity(s, i as int),
            filled < quantity,
            notional == notional_upto(s, t, i as int),
            notional <= (u64::MAX as int) * (filled as int),
            per_source_agrees(per_source@, s, t, i as int),
        invariant
            s == order_book@,
            t == quantity as int,
            quantity > 0,
            i <= s.len(),
        ensures
            complete ==> filled == quantity && prefix_quantity(s, s.len() as int) >= t,
            !complete ==> i == s.len() && filled == prefix_quantity(s, s.len() as int) && filled
                < quantity,
            notional == notional_upto(s, t, s.len() as int),
            per_source_agrees(per_source@, s, t, s.len() as int),
        decreases s.len() - i,
    {
        let order = order_book[i];
        let need: u64 = quantity - filled;
        let take: u64 = if order.quantity >= need {
            need
        } else {
            order.quantity
        };
        assert(take == taken(s, t, i as int));
        proof {
            let m = u64::MAX as int;
            assert((order.price as int) * (take as int) <= m * (take as int)) by (nonlinear_arith)
                requires
                    order.price <= m,
                    take >= 0,
            ;
            assert(m * (filled as int) + m * (take as int) == m * (filled + take)) by (nonlinear_arith);
            assert(m * (filled + take) <= m * m) by (nonlinear_arith)
                requires
                    filled + take <= m,
            ;
        }
        notional = notional + (order.price as u128) * (take as u128);
        proof {
            lemma_agrees_step(per_source@, s, t, i as int);
        }
        match order.source {
            Some(e) => {
                proof {
                    lemma_filled_upto(s, t, i as int);
                    lemma_source_within_fill(s, t, e, i as int);
                }
                record_fill(&mut per_source, e, take, order.price);
            },
            None => {},
        }
        if order.quantity >= need {
            filled = quantity;
            complete = true;
            proof {
                lemma_nothing_after_fill(s, t, i + 1, s.len() as int);
                lemma_prefix_monotone(s, i + 1, s.len() as int);
            }
            break;
        }
        filled = filled + order.quantity;
        i = i + 1;
    }
    proof {
        lemma_filled_upto(s, t, s.len() as int);
    }
    PriceWalk { notional, filled, complete, per_source }
}

} // verus!
