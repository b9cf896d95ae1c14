use vstd::prelude::*;
use vstd::seq_lib::group_to_multiset_ensures;

use crate::order_book::{Order, OrderBook};

verus! {

broadcast use group_to_multiset_ensures;

/// `a` may stand before `b` in execution order: for bids (`descending`) a
/// price at least as high, for asks a price at most as high.
pub open spec fn precedes(a: Order, b: Order, descending: bool) -> bool {
    if descending {
        a.price >= b.price
    } else {
        a.price <= b.price
    }
}

/// `s` is in execution order for its side.
pub open spec fn in_execution_order(s: Seq<Order>, descending: bool) -> bool {
    forall|i: int, j: int| 0 <= i < j < s.len() ==> precedes(#[trigger] s[i], #[trigger] s[j], descending)
}

/// Bids in execution order: price non-increasing.
pub open spec fn bids_ordered(s: Seq<Order>) -> bool {
    in_execution_order(s, true)
}

/// Asks in execution order: price non-decreasing.
pub open spec fn asks_ordered(s: Seq<Order>) -> bool {
    in_execution_order(s, false)
}

/// The bids of the first `n` books, one book after another.
pub open spec fn concat_bids(books: Seq<OrderBook>, n: int) -> Seq<Order>
    decreases n,
{
    if n <= 0 {
        Seq::empty()
    } else {
        concat_bids(books, n - 1) + books[n - 1].bids@
    }
}

/// The asks of the first `n` books, one book after another.
pub open spec fn concat_asks(books: Seq<OrderBook>, n: int) -> Seq<Order>
    decreases n,
{
    if n <= 0 {
        Seq::empty()
    } else {
        concat_asks(books, n - 1) + books[n - 1].asks@
    }
}

/// The orders of `s` whose price is `p`, in the order they have in `s`.
pub open spec fn at_price(s: Seq<Order>, p: u64) -> Seq<Order>
    decreases s.len(),
{
    if s.len() == 0 {
        Seq::empty()
    } else if s.last().price == p {
        at_price(s.drop_last(), p).push(s.last())
    } else {
        at_price(s.drop_last(), p)
    }
}

proof fn lemma_at_price_add(a: Seq<Order>, b: Seq<Order>, p: u64)
    ensures
        at_price(a + b, p) == at_price(a, p) + at_price(b, p),
    decreases b.len(),
{
    if b.len() == 0 {
        assert(a + b =~= a);
        assert(at_price(a, p) + at_price(b, p) =~= at_price(a, p));
    } else {
        lemma_at_price_add(a, b.drop_last(), p);
        assert((a + b).drop_last() =~= a + b.drop_last());
        assert((a + b).last() == b.last());
        if b.last().price == p {
            assert(at_price(a, p) + at_price(b.drop_last(), p).push(b.last()) =~= (at_price(
                a,
                p,
            ) + at_price(b.drop_last(), p)).push(b.last()));
        }
    }
}

proof fn lemma_at_price_none(b: Seq<Order>, p: u64)
    requires
        forall|k: int| 0 <= k < b.len() ==> (#[trigger] b[k]).price != p,
    ensures
        at_price(b, p) == Seq::<Order>::empty(),
    decreases b.len(),
{
    if b.len() > 0 {
        assert forall|k: int| 0 <= k < b.drop_last().len() implies (
        #[trigger] b.drop_last()[k]).price != p by {
            assert(b.drop_last()[k] == b[k]);
        }
        lemma_at_price_none(b.drop_last(), p);
    }
}

proof fn lemma_at_price_single(x: Order, p: u64)
    ensures
        at_price(seq![x], p) == if x.price == p {
            seq![x]
        } else {
            Seq::<Order>::empty()
        },
{
    assert(seq![x].drop_last() =~= Seq::<Order>::empty());
    assert(seq![x].last() == x);
    assert(at_price(Seq::<Order>::empty(), p) == Seq::<Order>::empty());
    assert(Seq::<Order>::empty().push(x) =~= seq![x]);
}

/// Placing `x` at `pos` of `out`, where everything from `pos` on has a price
/// other than `x`'s, adds `x` at the end of its price's subsequence.
proof fn lemma_at_price_insert(out: Seq<Order>, pos: int, x: Order, p: u64)
    requires
        0 <= pos <= out.len(),
        forall|k: int| pos <= k < out.len() ==> (#[trigger] out[k]).price != x.price,
    ensures
        at_price(out.insert(pos, x), p) == if x.price == p {
            at_price(out, p).push(x)
        } else {
            at_price(out, p)
        },
{
    let l = out.take(pos);
    let r = out.skip(pos);
    assert(out.insert(pos, x) =~= l + seq![x] + r);
    assert(out =~= l + r);
    lemma_at_price_add(l + seq![x], r, p);
    lemma_at_price_add(l, seq![x], p);
    lemma_at_price_add(l, r, p);
    lemma_at_price_single(x, p);
    if x.price == p {
        assert forall|k: int| 0 <= k < r.len() implies (#[trigger] r[k]).price != p by {
            assert(r[k] == out[pos + k]);
        }
        lemma_at_price_none(r, p);
        assert(at_price(l, p) + seq![x] + Seq::<Order>::empty() =~= (at_price(l, p)
            + Seq::<Order>::empty()).push(x));
    } else {
        assert(at_price(l, p) + Seq::<Order>::empty() =~= at_price(l, p));
    }
}

fn comes_before(a: &Order, b: &Order, descending: bool) -> (r: bool)
    ensures
        r == precedes(*a, *b, descending),
{
    if descending {
        a.price >= b.price
    } else {
        a.price <= b.price
    }
}

/// Sorts `v` into execution order by insertion, keeping orders of equal price
/// in the order they had. A sequence already in order is left as it is.
fn sort_side(v: &mut Vec<Order>, descending: bool)
    ensures
        in_execution_order(final(v)@, descending),
        final(v)@.to_multiset() == old(v)@.to_multiset(),
        forall|p: u64| #[trigger] at_price(final(v)@, p) == at_price(old(v)@, p),
        in_execution_order(old(v)@, descending) ==> final(v)@ == old(v)@,
{
    let ghost src = v@;
    let mut out: Vec<Order> = Vec::new();
    let mut i: usize = 0;
    while i < v.len()
        invariant
            v@ == src,
            i <= src.len(),
            in_execution_order(out@, descending),
            out@.to_multiset() == src.take(i as int).to_multiset(),
            forall|p: u64| #[trigger] at_price(out@, p) == at_price(src.take(i as int), p),
            in_execution_order(src, descending) ==> out@ == src.take(i as int),
        decreases src.len() - i,
    {
        let x = v[i];
        let mut p: usize = out.len();
        while p > 0 && !comes_before(&out[p - 1], &x, descending)
            invariant
                p <= out@.len(),
                forall|k: int| p <= k < out@.len() ==> !precedes(#[trigger] out@[k], x, descending),
            decreases p,
        {
            p = p - 1;
        }
        let ghost before = out@;
        proof {
            if in_execution_order(src, descending) {
                assert(i > 0 ==> src[i - 1] == before[i - 1]);
                assert(i > 0 ==> precedes(src[i - 1], src[i as int], descending));
            }
        }
        out.insert(p, x);
        proof {
            assert(out@.remove(p as int) =~= before);
            assert(out@[p as int] == x);
            assert(src.take(i + 1) =~= src.take(i as int).push(x));
            assert(out@.to_multiset() =~= before.to_multiset().insert(x));
            assert forall|a: int, b: int| 0 <= a < b < out@.len() implies precedes(
                #[trigger] out@[a],
                #[trigger] out@[b],
                descending,
            ) by {
                if b < p {
                    assert(out@[a] == before[a] && out@[b] == before[b]);
                } else if b == p {
                    assert(out@[a] == before[a]);
                    assert(precedes(before[p - 1], x, descending));
                    if a < p - 1 {
                        assert(precedes(before[a], before[p - 1], descending));
                    }
                } else if a < p {
                    assert(out@[a] == before[a] && out@[b] == before[b - 1]);
                } else if a == p {
                    assert(out@[b] == before[b - 1]);
                    assert(!precedes(before[b - 1], x, descending));
                } else {
                    assert(out@[a] == before[a - 1] && out@[b] == before[b - 1]);
                }
            }
            if in_execution_order(src, descending) {
                assert(out@ =~= src.take(i + 1));
            }
            assert forall|k: int| p <= k < before.len() implies (#[trigger] before[k]).price
                != x.price by {
                assert(!precedes(before[k], x, descending));
            }
            assert forall|q: u64| #[trigger] at_price(out@, q) == at_price(src.take(i + 1), q) by {
                lemma_at_price_insert(before, p as int, x, q);
                assert(src.take(i + 1).drop_last() =~= src.take(i as int));
            }
        }
        i = i + 1;
    }
    proof {
        assert(src.take(src.len() as int) =~= src);
    }
    *v = out;
}

/// Puts bids in execution order: highest price first, orders of equal price
/// kept in the order they had.
pub fn sort_bids(v: &mut Vec<Order>)
    ensures
        bids_ordered(final(v)@),
        final(v)@.to_multiset() == old(v)@.to_multiset(),
        forall|p: u64| #[trigger] at_price(final(v)@, p) == at_price(old(v)@, p),
        bids_ordered(old(v)@) ==> final(v)@ == old(v)@,
{
    sort_side(v, true);
}

/// Puts asks in execution order: lowest price first, orders of equal price
/// kept in the order they had.
pub fn sort_asks(v: &mut Vec<Order>)
    ensures
        asks_ordered(final(v)@),
        final(v)@.to_multiset() == old(v)@.to_multiset(),
        forall|p: u64| #[trigger] at_price(final(v)@, p) == at_price(old(v)@, p),
        asks_ordered(old(v)@) ==> final(v)@ == old(v)@,
{
    sort_side(v, false);
}

/// Merges the books of the selected exchanges: every order of every book,
/// none coalesced, bids with the highest price first and asks with the
/// lowest price first; orders of equal price keep the order of the books and,
/// within a book, their own order.
pub fn merge_books(books: &[OrderBook]) -> (r: OrderBook)
    ensures
        r.bids@.to_multiset() == concat_bids(books@, books@.len() as int).to_multiset(),
        r.asks@.to_multiset() == concat_asks(books@, books@.len() as int).to_multiset(),
        forall|p: u64|
            #[trigger] at_price(r.bids@, p) == at_price(concat_bids(books@, books@.len() as int), p),
        forall|p: u64|
            #[trigger] at_price(r.asks@, p) == at_price(concat_asks(books@, books@.len() as int), p),
        bids_ordered(r.bids@),
        asks_ordered(r.asks@),
{
    let mut bids: Vec<Order> = Vec::new();
    let mut asks: Vec<Order> = Vec::new();
    let mut i: usize = 0;
    while i < books.len()
        invariant
            i <= books@.len(),
            bids@ == concat_bids(books@, i as int),
            asks@ == concat_asks(books@, i as int),
        decreases books@.len() - i,
    {
        let book = &books[i];
        let mut j: usize = 0;
        while j < book.bids.len()
            invariant
                j <= book.bids@.len(),
                bids@ == concat_bids(books@, i as int) + book.bids@.take(j as int),
            decreases book.bids@.len() - j,
        {
            bids.push(book.bids[j]);
            proof {
                assert(book.bids@.take(j + 1) =~= book.bids@.take(j as int).push(book.bids@[j as int]));
            }
            j = j + 1;
        }
        let mut j: usize = 0;
        while j < book.asks.len()
            invariant
                j <= book.asks@.len(),
                asks@ == concat_asks(books@, i as int) + book.asks@.take(j as int),
            decreases book.asks@.len() - j,
        {
            asks.push(book.asks[j]);
            proof {
                assert(book.asks@.take(j + 1) =~= book.asks@.take(j as int).push(book.asks@[j as int]));
            }
            j = j + 1;
        }
        proof {
            assert(book.bids@.take(book.bids@.len() as int) =~= book.bids@);
            assert(book.asks@.take(book.asks@.len() as int) =~= book.asks@);
        }
        i = i + 1;
    }
    sort_bids(&mut bids);
    sort_asks(&mut asks);
    OrderBook { bids, asks }
}

} // verus!
