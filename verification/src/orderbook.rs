//! The matching engine.
//!
//! The `Orderbook` holds two collections of resting orders (bids and asks),
//! the append-only fill history, the monotonic id counter, and the
//! confidential-mode policy flag. Matching works in a single pass over the
//! opposite side: the eligibility of each resting order is decided first
//! (by plain price comparison, or by the confidential comparison
//! capability), and a fully verified pass then consumes resting quantity
//! greedily, records one fill per eligible pairing, and removes a resting
//! order exactly when it was matched in full.
//!
//! The pass is specified once, as the mathematical function [`match_step`]
//! over the eligibility flags; in plaintext mode the flags themselves are
//! pinned down by [`plain_flags`], so the whole operation is a function of
//! the book and the incoming order.

use vstd::prelude::*;
use vstd::string::StringExecFns;

use crate::fhe_operations;
use crate::orders::{fill_views, order_views, Fill, FillView, Order, OrderView, Side};

verus! {

/// The smaller of two quantities.
pub open spec fn min_qty(a: int, b: int) -> int {
    if a <= b {
        a
    } else {
        b
    }
}

/// Bids are kept best-first: non-increasing price.
pub open spec fn sorted_desc(s: Seq<OrderView>) -> bool {
    forall|i: int, j: int| 0 <= i <= j < s.len() ==> s[i].price >= s[j].price
}

/// Asks are kept best-first: non-decreasing price.
pub open spec fn sorted_asc(s: Seq<OrderView>) -> bool {
    forall|i: int, j: int| 0 <= i <= j < s.len() ==> s[i].price <= s[j].price
}

/// The fill recorded for a matched (buy, sell) pair: the execution price is
/// the sell order's price, and the owners are copied at match time.
pub open spec fn fill_of(buy: OrderView, sell: OrderView, quantity: u32) -> FillView {
    FillView {
        buy_order_id: buy.id,
        sell_order_id: sell.id,
        price: sell.price,
        quantity,
        buyer: buy.owner,
        seller: sell.owner,
    }
}

/// The fill for an incoming order matched against a resting one, oriented by
/// the incoming side.
pub open spec fn pair_fill(incoming: OrderView, resting: OrderView, quantity: u32) -> FillView {
    if incoming.side == Side::Buy {
        fill_of(incoming, resting, quantity)
    } else {
        fill_of(resting, incoming, quantity)
    }
}

/// One matching pass of an incoming order, with `remaining` quantity left,
/// against the resting orders of the opposite side, whose eligibility is
/// given by `flags` (same length as `resting`).
///
/// Returns the resting orders that stay in the book and the fills recorded,
/// in order. An eligible resting order is consumed for the smaller of the
/// two quantities and removed exactly when that consumes it in full; once
/// the incoming quantity is exhausted the rest of the book is untouched.
pub open spec fn match_step(
    incoming: OrderView,
    resting: Seq<OrderView>,
    flags: Seq<bool>,
    remaining: int,
) -> (Seq<OrderView>, Seq<FillView>)
    decreases resting.len(),
{
    if resting.len() == 0 || remaining <= 0 {
        (resting, Seq::<FillView>::empty())
    } else {
        let r = resting[0];
        if flags[0] {
            let mq = min_qty(remaining, r.quantity as int);
            let rec = match_step(incoming, resting.drop_first(), flags.drop_first(), remaining - mq);
            let kept = if mq == r.quantity as int {
                rec.0
            } else {
                seq![r] + rec.0
            };
            (kept, seq![pair_fill(incoming, r, mq as u32)] + rec.1)
        } else {
            let rec = match_step(incoming, resting.drop_first(), flags.drop_first(), remaining);
            (seq![r] + rec.0, rec.1)
        }
    }
}

/// The plaintext eligibility rule: the buy side's price must be at least the
/// sell side's price, whichever side came in.
pub open spec fn plain_eligible(incoming: OrderView, resting: OrderView) -> bool {
    if incoming.side == Side::Buy {
        incoming.price >= resting.price
    } else {
        resting.price >= incoming.price
    }
}

/// The eligibility flags used in plaintext mode.
pub open spec fn plain_flags(incoming: OrderView, resting: Seq<OrderView>) -> Seq<bool> {
    Seq::new(resting.len(), |i: int| plain_eligible(incoming, resting[i]))
}

/// Insertion of an order into a price-descending book: it goes after every
/// order whose price is at least its own, so orders of equal price keep
/// their arrival order.
pub open spec fn insert_desc(s: Seq<OrderView>, o: OrderView) -> Seq<OrderView>
    decreases s.len(),
{
    if s.len() == 0 {
        seq![o]
    } else if s[0].price >= o.price {
        seq![s[0]] + insert_desc(s.drop_first(), o)
    } else {
        seq![o] + s
    }
}

/// Insertion of an order into a price-ascending book, after equal prices.
pub open spec fn insert_asc(s: Seq<OrderView>, o: OrderView) -> Seq<OrderView>
    decreases s.len(),
{
    if s.len() == 0 {
        seq![o]
    } else if s[0].price <= o.price {
        seq![s[0]] + insert_asc(s.drop_first(), o)
    } else {
        seq![o] + s
    }
}

/// Sorting a book by descending price, stably: every order is inserted, in
/// arrival order, after the orders of at least its price.
pub open spec fn sort_desc_spec(s: Seq<OrderView>) -> Seq<OrderView>
    decreases s.len(),
{
    if s.len() == 0 {
        Seq::<OrderView>::empty()
    } else {
        insert_desc(sort_desc_spec(s.drop_last()), s.last())
    }
}

/// Sorting a book by ascending price, stably.
pub open spec fn sort_asc_spec(s: Seq<OrderView>) -> Seq<OrderView>
    decreases s.len(),
{
    if s.len() == 0 {
        Seq::<OrderView>::empty()
    } else {
        insert_asc(sort_asc_spec(s.drop_last()), s.last())
    }
}

/// The position at which [`insert_desc`] places an order: the index of the
/// first resting order of strictly smaller price.
pub open spec fn desc_insert_pos(s: Seq<OrderView>, o: OrderView) -> int
    decreases s.len(),
{
    if s.len() == 0 {
        0
    } else if s[0].price >= o.price {
        1 + desc_insert_pos(s.drop_first(), o)
    } else {
        0
    }
}

/// The position at which [`insert_asc`] places an order: the index of the
/// first resting order of strictly larger price.
pub open spec fn asc_insert_pos(s: Seq<OrderView>, o: OrderView) -> int
    decreases s.len(),
{
    if s.len() == 0 {
        0
    } else if s[0].price <= o.price {
        1 + asc_insert_pos(s.drop_first(), o)
    } else {
        0
    }
}

/// [`insert_desc`] splits the book at [`desc_insert_pos`]: everything before
/// it has at least the new order's price, everything from it on has less.
proof fn lemma_insert_desc_props(s: Seq<OrderView>, o: OrderView)
    ensures
        0 <= desc_insert_pos(s, o) <= s.len(),
        forall|i: int| 0 <= i < desc_insert_pos(s, o) ==> s[i].price >= o.price,
        desc_insert_pos(s, o) < s.len() ==> s[desc_insert_pos(s, o)].price < o.price,
        insert_desc(s, o) == s.take(desc_insert_pos(s, o)) + seq![o] + s.skip(
            desc_insert_pos(s, o),
        ),
    decreases s.len(),
{
    let k = desc_insert_pos(s, o);
    if s.len() == 0 {
        assert(insert_desc(s, o) =~= s.take(0) + seq![o] + s.skip(0));
    } else if s[0].price >= o.price {
        lemma_insert_desc_props(s.drop_first(), o);
        let k1 = desc_insert_pos(s.drop_first(), o);
        assert(k == 1 + k1);
        assert forall|i: int| 0 <= i < k implies s[i].price >= o.price by {
            if i > 0 {
                assert(s.drop_first()[i - 1].price >= o.price);
            }
        }
        if k < s.len() {
            assert(s[k] == s.drop_first()[k1]);
        }
        assert(insert_desc(s, o) == seq![s[0]] + insert_desc(s.drop_first(), o));
        assert(insert_desc(s, o) =~= s.take(k) + seq![o] + s.skip(k));
    } else {
        assert(insert_desc(s, o) =~= s.take(0) + seq![o] + s.skip(0));
    }
}

/// The ascending counterpart of [`lemma_insert_desc_props`].
proof fn lemma_insert_asc_props(s: Seq<OrderView>, o: OrderView)
    ensures
        0 <= asc_insert_pos(s, o) <= s.len(),
        forall|i: int| 0 <= i < asc_insert_pos(s, o) ==> s[i].price <= o.price,
        asc_insert_pos(s, o) < s.len() ==> s[asc_insert_pos(s, o)].price > o.price,
        insert_asc(s, o) == s.take(asc_insert_pos(s, o)) + seq![o] + s.skip(asc_insert_pos(s, o)),
    decreases s.len(),
{
    let k = asc_insert_pos(s, o);
    if s.len() == 0 {
        assert(insert_asc(s, o) =~= s.take(0) + seq![o] + s.skip(0));
    } else if s[0].price <= o.price {
        lemma_insert_asc_props(s.drop_first(), o);
        let k1 = asc_insert_pos(s.drop_first(), o);
        assert(k == 1 + k1);
        assert forall|i: int| 0 <= i < k implies s[i].price <= o.price by {
            if i > 0 {
                assert(s.drop_first()[i - 1].price <= o.price);
            }
        }
        if k < s.len() {
            assert(s[k] == s.drop_first()[k1]);
        }
        assert(insert_asc(s, o) == seq![s[0]] + insert_asc(s.drop_first(), o));
        assert(insert_asc(s, o) =~= s.take(k) + seq![o] + s.skip(k));
    } else {
        assert(insert_asc(s, o) =~= s.take(0) + seq![o] + s.skip(0));
    }
}

/// Inserting into a price-descending book keeps it price-descending.
pub proof fn lemma_insert_desc_sorted(s: Seq<OrderView>, o: OrderView)
    requires
        sorted_desc(s),
    ensures
        sorted_desc(insert_desc(s, o)),
        insert_desc(s, o).len() == s.len() + 1,
{
    lemma_insert_desc_props(s, o);
    let k = desc_insert_pos(s, o);
    let t = insert_desc(s, o);
    assert forall|i: int, j: int| 0 <= i <= j < t.len() implies t[i].price >= t[j].price by {
        if i < k {
            assert(t[i] == s[i]);
        } else if i == k {
            assert(t[i] == o);
        } else {
            assert(t[i] == s[i - 1]);
        }
        if j < k {
            assert(t[j] == s[j]);
        } else if j == k {
            assert(t[j] == o);
        } else {
            assert(t[j] == s[j - 1]);
        }
    }
}

/// Inserting into a price-ascending book keeps it price-ascending.
pub proof fn lemma_insert_asc_sorted(s: Seq<OrderView>, o: OrderView)
    requires
        sorted_asc(s),
    ensures
        sorted_asc(insert_asc(s, o)),
        insert_asc(s, o).len() == s.len() + 1,
{
    lemma_insert_asc_props(s, o);
    let k = asc_insert_pos(s, o);
    let t = insert_asc(s, o);
    assert forall|i: int, j: int| 0 <= i <= j < t.len() implies t[i].price <= t[j].price by {
        if i < k {
            assert(t[i] == s[i]);
        } else if i == k {
            assert(t[i] == o);
        } else {
            assert(t[i] == s[i - 1]);
        }
        if j < k {
            assert(t[j] == s[j]);
        } else if j == k {
            assert(t[j] == o);
        } else {
            assert(t[j] == s[j - 1]);
        }
    }
}

/// The stable sort of a book by descending price is price-descending.
pub proof fn lemma_sort_desc_sorted(s: Seq<OrderView>)
    ensures
        sorted_desc(sort_desc_spec(s)),
    decreases s.len(),
{
    if s.len() > 0 {
        lemma_sort_desc_sorted(s.drop_last());
        lemma_insert_desc_sorted(sort_desc_spec(s.drop_last()), s.last());
    }
}

/// The stable sort of a book by ascending price is price-ascending.
pub proof fn lemma_sort_asc_sorted(s: Seq<OrderView>)
    ensures
        sorted_asc(sort_asc_spec(s)),
    decreases s.len(),
{
    if s.len() > 0 {
        lemma_sort_asc_sorted(s.drop_last());
        lemma_insert_asc_sorted(sort_asc_spec(s.drop_last()), s.last());
    }
}

/// Insert an order into a price-descending vector at its stable position.
fn insert_bid(v: &mut Vec<Order>, o: Order)
    ensures
        order_views(final(v)@) == insert_desc(order_views(old(v)@), o@),
{
    let ghost s = order_views(v@);
    let mut k: usize = 0;
    while k < v.len() && v[k].price >= o.price
        invariant
            0 <= k <= v.len(),
            s == order_views(v@),
            o@.price == o.price,
            forall|i: int| 0 <= i < k ==> s[i].price >= o@.price,
        decreases v.len() - k,
    {
        k += 1;
    }
    proof {
        lemma_insert_desc_props(s, o@);
        let pos = desc_insert_pos(s, o@);
        if k < v.len() {
            assert(s[k as int].price < o@.price);
        }
        if pos < k {
            assert(s[pos].price >= o@.price);
        }
        if (k as int) < pos {
            assert(s[k as int].price >= o@.price);
        }
        assert(pos == k as int);
    }
    v.insert(k, o);
    proof {
        assert(order_views(v@) =~= s.take(k as int) + seq![o@] + s.skip(k as int));
    }
}

/// Insert an order into a price-ascending vector at its stable position.
fn insert_ask(v: &mut Vec<Order>, o: Order)
    ensures
        order_views(final(v)@) == insert_asc(order_views(old(v)@), o@),
{
    let ghost s = order_views(v@);
    let mut k: usize = 0;
    while k < v.len() && v[k].price <= o.price
        invariant
            0 <= k <= v.len(),
            s == order_views(v@),
            o@.price == o.price,
            forall|i: int| 0 <= i < k ==> s[i].price <= o@.price,
        decreases v.len() - k,
    {
        k += 1;
    }
    proof {
        lemma_insert_asc_props(s, o@);
        let pos = asc_insert_pos(s, o@);
        if k < v.len() {
            assert(s[k as int].price > o@.price);
        }
        if pos < k {
            assert(s[pos].price <= o@.price);
        }
        if (k as int) < pos {
            assert(s[k as int].price <= o@.price);
        }
        assert(pos == k as int);
    }
    v.insert(k, o);
    proof {
        assert(order_views(v@) =~= s.take(k as int) + seq![o@] + s.skip(k as int));
    }
}

/// Stably sort orders by descending price.
fn sort_bids(v: &Vec<Order>) -> (r: Vec<Order>)
    ensures
        order_views(r@) == sort_desc_spec(order_views(v@)),
{
    let ghost s = order_views(v@);
    let mut r: Vec<Order> = Vec::new();
    let mut i: usize = 0;
    proof {
        assert(order_views(r@) =~= sort_desc_spec(s.take(0)));
    }
    while i < v.len()
        invariant
            i <= v.len(),
            s == order_views(v@),
            order_views(r@) == sort_desc_spec(s.take(i as int)),
        decreases v.len() - i,
    {
        insert_bid(&mut r, v[i].clone());
        proof {
            assert(s.take(i + 1).drop_last() =~= s.take(i as int));
            assert(s.take(i + 1).last() == s[i as int]);
            assert(v@[i as int]@ == s[i as int]);
        }
        i += 1;
    }
    proof {
        assert(s.take(v@.len() as int) =~= s);
    }
    r
}

/// Stably sort orders by ascending price.
fn sort_asks(v: &Vec<Order>) -> (r: Vec<Order>)
    ensures
        order_views(r@) == sort_asc_spec(order_views(v@)),
{
    let ghost s = order_views(v@);
    let mut r: Vec<Order> = Vec::new();
    let mut i: usize = 0;
    proof {
        assert(order_views(r@) =~= sort_asc_spec(s.take(0)));
    }
    while i < v.len()
        invariant
            i <= v.len(),
            s == order_views(v@),
            order_views(r@) == sort_asc_spec(s.take(i as int)),
        decreases v.len() - i,
    {
        insert_ask(&mut r, v[i].clone());
        proof {
            assert(s.take(i + 1).drop_last() =~= s.take(i as int));
            assert(s.take(i + 1).last() == s[i as int]);
            assert(v@[i as int]@ == s[i as int]);
        }
        i += 1;
    }
    proof {
        assert(s.take(v@.len() as int) =~= s);
    }
    r
}

/// Every resting order kept by a matching pass was in the book before it,
/// and the pass never grows the book.
proof fn lemma_match_step_membership(
    incoming: OrderView,
    resting: Seq<OrderView>,
    flags: Seq<bool>,
    remaining: int,
)
    ensures
        match_step(incoming, resting, flags, remaining).0.len() <= resting.len(),
        forall|i: int|
            0 <= i < match_step(incoming, resting, flags, remaining).0.len() ==> resting.contains(
                #[trigger] match_step(incoming, resting, flags, remaining).0[i],
            ),
    decreases resting.len(),
{
    let m = match_step(incoming, resting, flags, remaining);
    if resting.len() == 0 || remaining <= 0 {
        assert forall|i: int| 0 <= i < m.0.len() implies resting.contains(m.0[i]) by {
            assert(m.0[i] == resting[i]);
        }
    } else {
        let rest = resting.drop_first();
        let frest = flags.drop_first();
        let r0 = resting[0];
        if flags[0] {
            let mq = min_qty(remaining, r0.quantity as int);
            lemma_match_step_membership(incoming, rest, frest, remaining - mq);
            let rec = match_step(incoming, rest, frest, remaining - mq);
            assert forall|i: int| 0 <= i < m.0.len() implies resting.contains(m.0[i]) by {
                if mq == r0.quantity as int {
                    assert(rest.contains(m.0[i]));
                    let j = choose|j: int| 0 <= j < rest.len() && rest[j] == m.0[i];
                    assert(resting[j + 1] == m.0[i]);
                } else {
                    if i == 0 {
                        assert(m.0[0] == r0);
                        assert(resting[0] == r0);
                    } else {
                        assert(m.0[i] == rec.0[i - 1]);
                        assert(rest.contains(rec.0[i - 1]));
                        let j = choose|j: int| 0 <= j < rest.len() && rest[j] == rec.0[i - 1];
                        assert(resting[j + 1] == m.0[i]);
                    }
                }
            }
        } else {
            lemma_match_step_membership(incoming, rest, frest, remaining);
            let rec = match_step(incoming, rest, frest, remaining);
            assert forall|i: int| 0 <= i < m.0.len() implies resting.contains(m.0[i]) by {
                if i == 0 {
                    assert(m.0[0] == r0);
                    assert(resting[0] == r0);
                } else {
                    assert(m.0[i] == rec.0[i - 1]);
                    assert(rest.contains(rec.0[i - 1]));
                    let j = choose|j: int| 0 <= j < rest.len() && rest[j] == rec.0[i - 1];
                    assert(resting[j + 1] == m.0[i]);
                }
            }
        }
    }
}

/// A matching pass preserves descending price order of the resting side.
proof fn lemma_match_step_sorted_desc(
    incoming: OrderView,
    resting: Seq<OrderView>,
    flags: Seq<bool>,
    remaining: int,
)
    requires
        sorted_desc(resting),
    ensures
        sorted_desc(match_step(incoming, resting, flags, remaining).0),
    decreases resting.len(),
{
    let m = match_step(incoming, resting, flags, remaining);
    if resting.len() == 0 || remaining <= 0 {
    } else {
        let rest = resting.drop_first();
        let frest = flags.drop_first();
        let r0 = resting[0];
        assert(sorted_desc(rest)) by {
            assert forall|i: int, j: int| 0 <= i <= j < rest.len() implies rest[i].price
                >= rest[j].price by {
                assert(rest[i] == resting[i + 1]);
                assert(rest[j] == resting[j + 1]);
            }
        }
        let rem2 = if flags[0] {
            remaining - min_qty(remaining, r0.quantity as int)
        } else {
            remaining
        };
        lemma_match_step_sorted_desc(incoming, rest, frest, rem2);
        lemma_match_step_membership(incoming, rest, frest, rem2);
        let rec = match_step(incoming, rest, frest, rem2);
        if flags[0] && min_qty(remaining, r0.quantity as int) == r0.quantity as int {
        } else {
            assert(m.0 == seq![r0] + rec.0);
            assert forall|i: int, j: int| 0 <= i <= j < m.0.len() implies m.0[i].price
                >= m.0[j].price by {
                if i > 0 {
                    assert(m.0[i] == rec.0[i - 1]);
                }
                if j > 0 {
                    assert(m.0[j] == rec.0[j - 1]);
                    assert(rest.contains(rec.0[j - 1]));
                    let l = choose|l: int| 0 <= l < rest.len() && rest[l] == rec.0[j - 1];
                    assert(resting[l + 1] == rec.0[j - 1]);
                    assert(r0.price >= resting[l + 1].price);
                }
            }
        }
    }
}

/// A matching pass preserves ascending price order of the resting side.
proof fn lemma_match_step_sorted_asc(
    incoming: OrderView,
    resting: Seq<OrderView>,
    flags: Seq<bool>,
    remaining: int,
)
    requires
        sorted_asc(resting),
    ensures
        sorted_asc(match_step(incoming, resting, flags, remaining).0),
    decreases resting.len(),
{
    let m = match_step(incoming, resting, flags, remaining);
    if resting.len() == 0 || remaining <= 0 {
    } else {
        let rest = resting.drop_first();
        let frest = flags.drop_first();
        let r0 = resting[0];
        assert(sorted_asc(rest)) by {
            assert forall|i: int, j: int| 0 <= i <= j < rest.len() implies rest[i].price
                <= rest[j].price by {
                assert(rest[i] == resting[i + 1]);
                assert(rest[j] == resting[j + 1]);
            }
        }
        let rem2 = if flags[0] {
            remaining - min_qty(remaining, r0.quantity as int)
        } else {
            remaining
        };
        lemma_match_step_sorted_asc(incoming, rest, frest, rem2);
        lemma_match_step_membership(incoming, rest, frest, rem2);
        let rec = match_step(incoming, rest, frest, rem2);
        if flags[0] && min_qty(remaining, r0.quantity as int) == r0.quantity as int {
        } else {
            assert(m.0 == seq![r0] + rec.0);
            assert forall|i: int, j: int| 0 <= i <= j < m.0.len() implies m.0[i].price
                <= m.0[j].price by {
                if i > 0 {
                    assert(m.0[i] == rec.0[i - 1]);
                }
                if j > 0 {
                    assert(m.0[j] == rec.0[j - 1]);
                    assert(rest.contains(rec.0[j - 1]));
                    let l = choose|l: int| 0 <= l < rest.len() && rest[l] == rec.0[j - 1];
                    assert(resting[l + 1] == rec.0[j - 1]);
                    assert(r0.price <= resting[l + 1].price);
                }
            }
        }
    }
}

/// One fill is conserved with respect to the pass that recorded it: it
/// pairs the incoming order with an eligible resting order, its quantity
/// never exceeds `remaining` nor that resting order's quantity, and it is
/// positive exactly when that resting order's quantity is positive.
pub open spec fn conserved_fill(
    incoming: OrderView,
    resting: Seq<OrderView>,
    flags: Seq<bool>,
    remaining: int,
    f: FillView,
) -> bool {
    &&& f.quantity <= remaining
    &&& exists|j: int|
        0 <= j < resting.len() && #[trigger] flags[j] && f == pair_fill(
            incoming,
            resting[j],
            f.quantity,
        ) && f.quantity <= resting[j].quantity && (f.quantity > 0 <==> resting[j].quantity > 0)
}

/// Fill conservation: every fill recorded by a matching pass started with
/// `remaining` incoming quantity is [`conserved_fill`] with respect to that
/// pass. Instantiated with [`plain_flags`], as every plaintext-mode pass of
/// the engine is, it says a fill is recorded only for resting orders whose
/// price crosses the incoming order's price.
pub proof fn lemma_fill_conservation(
    incoming: OrderView,
    resting: Seq<OrderView>,
    flags: Seq<bool>,
    remaining: int,
)
    requires
        flags.len() == resting.len(),
    ensures
        forall|k: int|
            0 <= k < match_step(incoming, resting, flags, remaining).1.len() ==> conserved_fill(
                incoming,
                resting,
                flags,
                remaining,
                #[trigger] match_step(incoming, resting, flags, remaining).1[k],
            ),
    decreases resting.len(),
{
    if resting.len() == 0 || remaining <= 0 {
    } else {
        let rest = resting.drop_first();
        let frest = flags.drop_first();
        let r0 = resting[0];
        let m = match_step(incoming, resting, flags, remaining);
        let mq = min_qty(remaining, r0.quantity as int);
        let rem2 = if flags[0] {
            remaining - mq
        } else {
            remaining
        };
        lemma_fill_conservation(incoming, rest, frest, rem2);
        let rec = match_step(incoming, rest, frest, rem2);
        assert forall|k: int| 0 <= k < m.1.len() implies conserved_fill(
            incoming,
            resting,
            flags,
            remaining,
            m.1[k],
        ) by {
            let f = m.1[k];
            if flags[0] && k == 0 {
                assert(f == pair_fill(incoming, r0, mq as u32));
                assert(flags[0] && f == pair_fill(incoming, resting[0], f.quantity) && f.quantity
                    <= resting[0].quantity && (f.quantity > 0 <==> resting[0].quantity > 0));
            } else {
                let k1 = if flags[0] {
                    k - 1
                } else {
                    k
                };
                assert(f == rec.1[k1]);
                assert(conserved_fill(incoming, rest, frest, rem2, f));
                let j = choose|j: int|
                    0 <= j < rest.len() && #[trigger] frest[j] && f == pair_fill(
                        incoming,
                        rest[j],
                        f.quantity,
                    ) && f.quantity <= rest[j].quantity && (f.quantity > 0 <==> rest[j].quantity
                        > 0);
                assert(rest[j] == resting[j + 1]);
                assert(frest[j] == flags[j + 1]);
                assert(flags[j + 1] && f == pair_fill(incoming, resting[j + 1], f.quantity)
                    && f.quantity <= resting[j + 1].quantity && (f.quantity > 0 <==> resting[j
                    + 1].quantity > 0));
            }
        }
    }
}

/// The incoming quantity still unfilled when a matching pass that started
/// with `remaining` reaches the resting order at index `j`.
pub open spec fn rem_before(
    resting: Seq<OrderView>,
    flags: Seq<bool>,
    remaining: int,
    j: int,
) -> int
    decreases j,
{
    if j <= 0 {
        remaining
    } else {
        let prev = rem_before(resting, flags, remaining, j - 1);
        if prev <= 0 {
            prev
        } else if flags[j - 1] {
            prev - min_qty(prev, resting[j - 1].quantity as int)
        } else {
            prev
        }
    }
}

/// Dropping the first resting order advances [`rem_before`] by one step.
proof fn lemma_rem_before_step(
    resting: Seq<OrderView>,
    flags: Seq<bool>,
    remaining: int,
    j: int,
)
    requires
        1 <= j <= resting.len(),
        flags.len() == resting.len(),
        remaining > 0,
    ensures
        rem_before(
            resting.drop_first(),
            flags.drop_first(),
            if flags[0] {
                remaining - min_qty(remaining, resting[0].quantity as int)
            } else {
                remaining
            },
            j - 1,
        ) == rem_before(resting, flags, remaining, j),
    decreases j,
{
    let rem2 = if flags[0] {
        remaining - min_qty(remaining, resting[0].quantity as int)
    } else {
        remaining
    };
    if j == 1 {
        assert(rem_before(resting, flags, remaining, 0) == remaining);
        assert(rem_before(resting.drop_first(), flags.drop_first(), rem2, 0) == rem2);
    } else {
        lemma_rem_before_step(resting, flags, remaining, j - 1);
        assert(resting.drop_first()[j - 2] == resting[j - 1]);
        assert(flags.drop_first()[j - 2] == flags[j - 1]);
        assert(rem_before(resting.drop_first(), flags.drop_first(), rem2, j - 1) == ({
            let prev = rem_before(resting.drop_first(), flags.drop_first(), rem2, j - 2);
            if prev <= 0 {
                prev
            } else if flags.drop_first()[j - 2] {
                prev - min_qty(prev, resting.drop_first()[j - 2].quantity as int)
            } else {
                prev
            }
        }));
    }
}

/// Match eligibility, the converse direction: an eligible resting order
/// that the pass reaches with unfilled quantity left receives a fill, of
/// exactly the smaller of the unfilled quantity and its own. Instantiated
/// with [`plain_flags`], it says every resting order whose price crosses
/// the incoming order's price is filled while incoming quantity lasts.
pub proof fn lemma_match_eligibility(
    incoming: OrderView,
    resting: Seq<OrderView>,
    flags: Seq<bool>,
    remaining: int,
    j: int,
)
    requires
        flags.len() == resting.len(),
        0 <= j < resting.len(),
        flags[j],
        rem_before(resting, flags, remaining, j) > 0,
    ensures
        exists|k: int|
            0 <= k < match_step(incoming, resting, flags, remaining).1.len()
                && #[trigger] match_step(incoming, resting, flags, remaining).1[k] == pair_fill(
                incoming,
                resting[j],
                min_qty(
                    rem_before(resting, flags, remaining, j),
                    resting[j].quantity as int,
                ) as u32,
            ),
    decreases j,
{
    let m = match_step(incoming, resting, flags, remaining);
    if j == 0 {
        assert(m.1[0] == pair_fill(
            incoming,
            resting[0],
            min_qty(remaining, resting[0].quantity as int) as u32,
        ));
    } else {
        assert(rem_before(resting, flags, remaining, j - 1) > 0);
        assert(remaining > 0) by {
            lemma_rem_before_positive(resting, flags, remaining, 0, j);
            assert(rem_before(resting, flags, remaining, 0) == remaining);
        }
        let rest = resting.drop_first();
        let frest = flags.drop_first();
        let rem2 = if flags[0] {
            remaining - min_qty(remaining, resting[0].quantity as int)
        } else {
            remaining
        };
        lemma_rem_before_step(resting, flags, remaining, j);
        assert(rest[j - 1] == resting[j]);
        assert(frest[j - 1] == flags[j]);
        lemma_match_eligibility(incoming, rest, frest, rem2, j - 1);
        let rec = match_step(incoming, rest, frest, rem2);
        let k1 = choose|k: int|
            0 <= k < rec.1.len() && #[trigger] rec.1[k] == pair_fill(
                incoming,
                rest[j - 1],
                min_qty(rem_before(rest, frest, rem2, j - 1), rest[j - 1].quantity as int) as u32,
            );
        if flags[0] {
            assert(m.1[k1 + 1] == rec.1[k1]);
        } else {
            assert(m.1[k1] == rec.1[k1]);
        }
    }
}

/// A positive unfilled quantity at index `j` means it was positive at every
/// earlier index: the unfilled quantity never grows along the pass.
proof fn lemma_rem_before_positive(
    resting: Seq<OrderView>,
    flags: Seq<bool>,
    remaining: int,
    l: int,
    j: int,
)
    requires
        0 <= l <= j,
        rem_before(resting, flags, remaining, j) > 0,
    ensures
        rem_before(resting, flags, remaining, l) > 0,
    decreases j - l,
{
    if l < j {
        assert(rem_before(resting, flags, remaining, j - 1) > 0) by {
            if rem_before(resting, flags, remaining, j - 1) <= 0 {
                assert(rem_before(resting, flags, remaining, j) == rem_before(
                    resting,
                    flags,
                    remaining,
                    j - 1,
                ));
            }
        }
        lemma_rem_before_positive(resting, flags, remaining, l, j - 1);
    }
}

/// When no resting order is eligible, a matching pass changes nothing and
/// records no fill.
pub proof fn lemma_match_step_no_eligible(
    incoming: OrderView,
    resting: Seq<OrderView>,
    flags: Seq<bool>,
    remaining: int,
)
    requires
        flags.len() == resting.len(),
        forall|i: int| 0 <= i < flags.len() ==> !flags[i],
    ensures
        match_step(incoming, resting, flags, remaining).0 == resting,
        match_step(incoming, resting, flags, remaining).1 == Seq::<FillView>::empty(),
    decreases resting.len(),
{
    if resting.len() == 0 || remaining <= 0 {
    } else {
        let rest = resting.drop_first();
        let frest = flags.drop_first();
        assert forall|i: int| 0 <= i < frest.len() implies !frest[i] by {
            assert(frest[i] == flags[i + 1]);
        }
        lemma_match_step_no_eligible(incoming, rest, frest, remaining);
        assert(match_step(incoming, resting, flags, remaining).0 =~= resting);
    }
}

/// Build the fill recorded for a matched (buy, sell) pair: the execution
/// price is the sell order's price, the owners are copied at match time.
fn make_fill(buy: &Order, sell: &Order, quantity: u32) -> (r: Fill)
    ensures
        r@ == fill_of(buy@, sell@, quantity),
{
    Fill {
        buy_order_id: buy.id,
        sell_order_id: sell.id,
        price: sell.price,
        quantity,
        buyer_pubkey: buy.user_pubkey.clone(),
        seller_pubkey: sell.user_pubkey.clone(),
    }
}

/// Decide the eligibility of every resting order on the opposite side
/// against an incoming order: by plain price comparison in plaintext mode,
/// through the confidential comparison capability in confidential mode.
fn compute_flags(
    incoming: &Order,
    resting: &Vec<Order>,
    use_encryption: bool,
    client_key: &Option<tfhe::ClientKey>,
) -> (r: Vec<bool>)
    ensures
        r@.len() == resting@.len(),
        !use_encryption ==> r@ == plain_flags(incoming@, order_views(resting@)),
        use_encryption && client_key is None ==> forall|i: int| 0 <= i < r@.len() ==> !r@[i],
        use_encryption ==> forall|i: int|
            0 <= i < r@.len() && #[trigger] r@[i] ==> confidential_pair_ok(
                incoming@,
                order_views(resting@)[i],
            ),
{
    let mut r: Vec<bool> = Vec::new();
    let mut i: usize = 0;
    while i < resting.len()
        invariant
            i <= resting.len(),
            r@.len() == i as int,
            !use_encryption ==> forall|k: int|
                0 <= k < i ==> r@[k] == plain_eligible(incoming@, resting@[k]@),
            use_encryption && client_key is None ==> forall|k: int| 0 <= k < i ==> !r@[k],
            use_encryption ==> forall|k: int|
                0 <= k < i && #[trigger] r@[k] ==> confidential_pair_ok(incoming@, resting@[k]@),
        decreases resting.len() - i,
    {
        let eligible: bool = if use_encryption {
            match client_key {
                Some(key) => {
                    if incoming.side == Side::Buy {
                        fhe_operations::match_orders(incoming, &resting[i], key)
                    } else {
                        fhe_operations::match_orders(&resting[i], incoming, key)
                    }
                },
                None => false,
            }
        } else {
            if incoming.side == Side::Buy {
                incoming.price >= resting[i].price
            } else {
                resting[i].price >= incoming.price
            }
        };
        r.push(eligible);
        i += 1;
    }
    proof {
        if !use_encryption {
            assert forall|k: int| 0 <= k < r@.len() implies r@[k] == plain_flags(
                incoming@,
                order_views(resting@),
            )[k] by {
                assert(order_views(resting@)[k] == resting@[k]@);
            }
            assert(r@ =~= plain_flags(incoming@, order_views(resting@)));
        } else {
            assert forall|k: int| 0 <= k < r@.len() && #[trigger] r@[k] implies
            confidential_pair_ok(incoming@, order_views(resting@)[k]) by {
                assert(order_views(resting@)[k] == resting@[k]@);
            }
        }
    }
    r
}

/// Run one matching pass of an incoming order against a resting side whose
/// eligibility flags are already decided: returns the resting orders that
/// stay and the fills recorded, exactly as [`match_step`] says.
fn run_match(incoming: &Order, resting: &Vec<Order>, flags: &Vec<bool>) -> (r: (Vec<Order>, Vec<
    Fill,
>))
    requires
        flags@.len() == resting@.len(),
    ensures
        order_views(r.0@) == match_step(
            incoming@,
            order_views(resting@),
            flags@,
            incoming@.quantity as int,
        ).0,
        fill_views(r.1@) == match_step(
            incoming@,
            order_views(resting@),
            flags@,
            incoming@.quantity as int,
        ).1,
{
    let ghost rv = order_views(resting@);
    let ghost m = match_step(incoming@, rv, flags@, incoming@.quantity as int);
    let mut kept: Vec<Order> = Vec::new();
    let mut fills: Vec<Fill> = Vec::new();
    let mut remaining: u32 = incoming.quantity;
    let mut i: usize = 0;
    proof {
        assert(rv.skip(0) =~= rv);
        assert(flags@.skip(0) =~= flags@);
        assert(order_views(kept@) =~= Seq::<OrderView>::empty());
        assert(fill_views(fills@) =~= Seq::<FillView>::empty());
        assert(m.0 =~= order_views(kept@) + match_step(
            incoming@,
            rv.skip(0),
            flags@.skip(0),
            remaining as int,
        ).0);
        assert(m.1 =~= fill_views(fills@) + match_step(
            incoming@,
            rv.skip(0),
            flags@.skip(0),
            remaining as int,
        ).1);
    }
    while i < resting.len()
        invariant
            i <= resting.len(),
            flags@.len() == resting@.len(),
            rv == order_views(resting@),
            m == match_step(incoming@, rv, flags@, incoming@.quantity as int),
            m.0 == order_views(kept@) + match_step(
                incoming@,
                rv.skip(i as int),
                flags@.skip(i as int),
                remaining as int,
            ).0,
            m.1 == fill_views(fills@) + match_step(
                incoming@,
                rv.skip(i as int),
                flags@.skip(i as int),
                remaining as int,
            ).1,
        decreases resting.len() - i,
    {
        let ghost pre = match_step(incoming@, rv.skip(i as int), flags@.skip(i as int), remaining as int);
        proof {
            assert(rv.skip(i as int).len() == rv.len() - i);
            assert(rv.skip(i as int)[0] == rv[i as int]);
            assert(rv.skip(i as int).drop_first() =~= rv.skip(i as int + 1));
            assert(flags@.skip(i as int)[0] == flags@[i as int]);
            assert(flags@.skip(i as int).drop_first() =~= flags@.skip(i as int + 1));
            assert(rv[i as int] == resting@[i as int]@);
        }
        if remaining > 0 && flags[i] {
            let rest = &resting[i];
            let mq = if remaining < rest.quantity {
                remaining
            } else {
                rest.quantity
            };
            proof {
                assert(mq as int == min_qty(remaining as int, rv[i as int].quantity as int));
            }
            let fill = if incoming.side == Side::Buy {
                make_fill(incoming, rest, mq)
            } else {
                make_fill(rest, incoming, mq)
            };
            let ghost fills_old = fills@;
            let ghost kept_old = kept@;
            fills.push(fill);
            proof {
                assert(fill@ == pair_fill(incoming@, rv[i as int], mq));
                assert(fill_views(fills@) =~= fill_views(fills_old) + seq![fill@]);
                let next = match_step(
                    incoming@,
                    rv.skip(i as int + 1),
                    flags@.skip(i as int + 1),
                    remaining as int - mq as int,
                );
                assert(pre.1 == seq![pair_fill(incoming@, rv[i as int], mq)] + next.1);
                assert(fill_views(fills_old) + pre.1 =~= fill_views(fills@) + next.1);
            }
            if mq != rest.quantity {
                kept.push(resting[i].clone());
                proof {
                    assert(order_views(kept@) =~= order_views(kept_old) + seq![rv[i as int]]);
                    let next = match_step(
                        incoming@,
                        rv.skip(i as int + 1),
                        flags@.skip(i as int + 1),
                        remaining as int - mq as int,
                    );
                    assert(pre.0 == seq![rv[i as int]] + next.0);
                    assert(order_views(kept_old) + pre.0 =~= order_views(kept@) + next.0);
                }
            }
            remaining = remaining - mq;
        } else {
            let ghost kept_old = kept@;
            kept.push(resting[i].clone());
            proof {
                assert(order_views(kept@) =~= order_views(kept_old) + seq![rv[i as int]]);
                if remaining > 0 {
                    let next = match_step(
                        incoming@,
                        rv.skip(i as int + 1),
                        flags@.skip(i as int + 1),
                        remaining as int,
                    );
                    assert(pre.0 == seq![rv[i as int]] + next.0);
                    assert(order_views(kept_old) + pre.0 =~= order_views(kept@) + next.0);
                } else {
                    assert(pre.0 == rv.skip(i as int));
                    assert(pre.1 == Seq::<FillView>::empty());
                    let next = match_step(
                        incoming@,
                        rv.skip(i as int + 1),
                        flags@.skip(i as int + 1),
                        remaining as int,
                    );
                    assert(next.0 == rv.skip(i as int + 1));
                    assert(next.1 == Seq::<FillView>::empty());
                    assert(rv.skip(i as int) =~= seq![rv[i as int]] + rv.skip(i as int + 1));
                    assert(order_views(kept_old) + pre.0 =~= order_views(kept@) + next.0);
                }
            }
        }
        i += 1;
    }
    proof {
        assert(rv.skip(resting@.len() as int) =~= Seq::<OrderView>::empty());
        let last = match_step(
            incoming@,
            rv.skip(resting@.len() as int),
            flags@.skip(resting@.len() as int),
            remaining as int,
        );
        assert(last.0 == rv.skip(resting@.len() as int));
        assert(last.1 == Seq::<FillView>::empty());
        assert(m.0 =~= order_views(kept@));
        assert(m.1 =~= fill_views(fills@));
    }
    (kept, fills)
}

/// Render the plaintext copies of one resting side: decrypt every
/// confidential order through the client key, keep plaintext orders as they
/// are. Fails as a whole (`None`) when any single ciphertext cannot be
/// read.
fn decrypt_order_list(v: &Vec<Order>, key: &tfhe::ClientKey) -> (r: Option<Vec<Order>>)
    ensures
        r is Some ==> decrypted_views(order_views(v@), order_views(r.unwrap()@)),
        r is None ==> exists|i: int|
            0 <= i < v@.len() && (#[trigger] order_views(v@)[i]).encrypted,
{
    let mut out: Vec<Order> = Vec::new();
    let mut i: usize = 0;
    while i < v.len()
        invariant
            i <= v.len(),
            out@.len() == i as int,
            forall|k: int| 0 <= k < i ==> decrypted_view_of(v@[k]@, #[trigger] out@[k]@),
        decreases v.len() - i,
    {
        let o = &v[i];
        if o.is_encrypted {
            match fhe_operations::decrypt_order(o, key) {
                Some(values) => {
                    out.push(Order::new(o.id, values.0, values.1, o.side, o.user_pubkey.clone()));
                },
                None => {
                    proof {
                        assert(order_views(v@)[i as int].encrypted);
                    }
                    return None;
                },
            }
        } else {
            out.push(Order::new(o.id, o.price, o.quantity, o.side, o.user_pubkey.clone()));
        }
        i += 1;
    }
    proof {
        assert forall|k: int| 0 <= k < order_views(v@).len() implies decrypted_view_of(
            order_views(v@)[k],
            #[trigger] order_views(out@)[k],
        ) by {
            assert(decrypted_view_of(v@[k]@, out@[k]@));
        }
    }
    Some(out)
}

/// Mathematical value of the whole engine state.
pub ghost struct BookView {
    pub count: u128,
    pub bids: Seq<OrderView>,
    pub asks: Seq<OrderView>,
    pub fills: Seq<FillView>,
    pub encrypted_mode: bool,
    pub has_key: bool,
}

/// The matching engine: resting bids and asks, the fill history, the id
/// counter, and the confidential-mode policy.
///
/// In plaintext mode the resting collections are kept price-sorted
/// (bids descending, asks ascending). In confidential mode prices are not
/// comparable without the external capability, so resting orders accumulate
/// in arrival order and are scanned linearly at match time.
pub struct Orderbook {
    pub count: u128,
    pub buy_orders: Vec<Order>,
    pub sell_orders: Vec<Order>,
    pub fills: Vec<Fill>,
    pub use_encryption: bool,
    pub client_key: Option<tfhe::ClientKey>,
}

impl View for Orderbook {
    type V = BookView;

    open spec fn view(&self) -> BookView {
        BookView {
            count: self.count,
            bids: order_views(self.buy_orders@),
            asks: order_views(self.sell_orders@),
            fills: fill_views(self.fills@),
            encrypted_mode: self.use_encryption,
            has_key: self.client_key is Some,
        }
    }
}

/// The relation between a resting order and its rendered plaintext copy:
/// identity and side are kept, the copy is plaintext-shaped, and where the
/// resting order was already plaintext its values are kept exactly. The
/// values decrypted out of a confidential order depend on the opaque key,
/// so no more is said of them.
pub open spec fn decrypted_view_of(o: OrderView, d: OrderView) -> bool {
    &&& d.id == o.id
    &&& d.side == o.side
    &&& d.owner == o.owner
    &&& !d.encrypted
    &&& d.enc_price is None
    &&& d.enc_quantity is None
    &&& (!o.encrypted ==> d.price == o.price && d.quantity == o.quantity)
    &&& (o.enc_price is None ==> d.price == o.price)
    &&& (o.enc_quantity is None ==> d.quantity == o.quantity)
}

/// Pointwise [`decrypted_view_of`] over a whole resting side.
pub open spec fn decrypted_views(s: Seq<OrderView>, d: Seq<OrderView>) -> bool {
    d.len() == s.len() && forall|i: int| 0 <= i < s.len() ==> decrypted_view_of(s[i], #[trigger] d[i])
}

/// A pair the confidential comparison capability can ever call eligible:
/// the two orders stand on opposite sides and both carry an encrypted
/// price. In particular an order that degraded to plaintext never matches
/// while confidential mode is on.
pub open spec fn confidential_pair_ok(incoming: OrderView, resting: OrderView) -> bool {
    &&& incoming.enc_price is Some
    &&& resting.enc_price is Some
    &&& incoming.side != resting.side
}

/// The eligibility flags an engine can have produced for `incoming` against
/// the resting orders `resting` of the opposite side, given the
/// confidential-mode policy of the book `pre`.
///
/// In plaintext mode the flags are exactly the plain price comparisons; in
/// confidential mode without key material nothing is eligible; in
/// confidential mode with key material the flags are whatever the
/// confidential comparison capability answered, which never calls a pair
/// eligible unless it is [`confidential_pair_ok`].
pub open spec fn flags_admissible(
    pre: BookView,
    incoming: OrderView,
    resting: Seq<OrderView>,
    flags: Seq<bool>,
) -> bool {
    &&& flags.len() == resting.len()
    &&& (!pre.encrypted_mode ==> flags == plain_flags(incoming, resting))
    &&& (pre.encrypted_mode && !pre.has_key ==> forall|i: int| 0 <= i < flags.len() ==> !flags[i])
    &&& (pre.encrypted_mode ==> forall|i: int|
        0 <= i < flags.len() && #[trigger] flags[i] ==> confidential_pair_ok(incoming, resting[i]))
}

/// What one submission does to the engine.
///
/// `submitted` is the order handed in, `stored` the order as the engine
/// keeps and returns it: same identity and plain values, possibly with
/// ciphertexts added on entry in confidential mode. The stored order was
/// matched against the opposite side under admissible eligibility flags,
/// the fills of that pass were appended to the history, and the stored
/// order was inserted into its own side with its original quantity:
/// price-sorted in plaintext mode, at the end in confidential mode.
pub open spec fn order_added(
    pre: BookView,
    post: BookView,
    submitted: OrderView,
    stored: OrderView,
) -> bool {
    &&& stored.id == submitted.id
    &&& stored.price == submitted.price
    &&& stored.quantity == submitted.quantity
    &&& stored.side == submitted.side
    &&& stored.owner == submitted.owner
    &&& (!pre.encrypted_mode ==> stored == submitted)
    &&& (submitted.encrypted ==> stored == submitted)
    &&& (!pre.has_key && !submitted.encrypted ==> stored == submitted)
    &&& (submitted.wf() ==> stored.wf())
    &&& post.count == pre.count
    &&& post.encrypted_mode == pre.encrypted_mode
    &&& post.has_key == pre.has_key
    &&& (if stored.side == Side::Buy {
        exists|flags: Seq<bool>|
            #[trigger] flags_admissible(pre, stored, pre.asks, flags) && post.asks == match_step(
                stored,
                pre.asks,
                flags,
                stored.quantity as int,
            ).0 && post.fills == pre.fills + match_step(
                stored,
                pre.asks,
                flags,
                stored.quantity as int,
            ).1 && post.bids == (if pre.encrypted_mode {
                pre.bids.push(stored)
            } else {
                insert_desc(pre.bids, stored)
            })
    } else {
        exists|flags: Seq<bool>|
            #[trigger] flags_admissible(pre, stored, pre.bids, flags) && post.bids == match_step(
                stored,
                pre.bids,
                flags,
                stored.quantity as int,
            ).0 && post.fills == pre.fills + match_step(
                stored,
                pre.bids,
                flags,
                stored.quantity as int,
            ).1 && post.asks == (if pre.encrypted_mode {
                pre.asks.push(stored)
            } else {
                insert_asc(pre.asks, stored)
            })
    })
}

impl Orderbook {
    /// Price priority: whenever the engine is in plaintext mode, the book is
    /// price-sorted, bids descending and asks ascending.
    pub open spec fn wf(self) -> bool {
        !self@.encrypted_mode ==> sorted_desc(self@.bids) && sorted_asc(self@.asks)
    }

    /// A fresh plaintext engine: empty book, empty history, counter at zero.
    pub fn new() -> (r: Self)
        ensures
            r@ == (BookView {
                count: 0,
                bids: Seq::<OrderView>::empty(),
                asks: Seq::<OrderView>::empty(),
                fills: Seq::<FillView>::empty(),
                encrypted_mode: false,
                has_key: false,
            }),
            r.wf(),
    {
        let r = Orderbook {
            count: 0,
            buy_orders: Vec::new(),
            sell_orders: Vec::new(),
            fills: Vec::new(),
            use_encryption: false,
            client_key: None,
        };
        proof {
            assert(order_views(r.buy_orders@) =~= Seq::<OrderView>::empty());
            assert(order_views(r.sell_orders@) =~= Seq::<OrderView>::empty());
            assert(fill_views(r.fills@) =~= Seq::<FillView>::empty());
        }
        r
    }

    /// A fresh confidential engine, holding the client key of the
    /// confidential-value service with which newly submitted orders are
    /// encrypted and compared.
    pub fn new_encrypted(client_key: tfhe::ClientKey) -> (r: Self)
        ensures
            r@ == (BookView {
                count: 0,
                bids: Seq::<OrderView>::empty(),
                asks: Seq::<OrderView>::empty(),
                fills: Seq::<FillView>::empty(),
                encrypted_mode: true,
                has_key: true,
            }),
            r.wf(),
    {
        let r = Orderbook {
            count: 0,
            buy_orders: Vec::new(),
            sell_orders: Vec::new(),
            fills: Vec::new(),
            use_encryption: true,
            client_key: Some(client_key),
        };
        proof {
            assert(order_views(r.buy_orders@) =~= Seq::<OrderView>::empty());
            assert(order_views(r.sell_orders@) =~= Seq::<OrderView>::empty());
            assert(fill_views(r.fills@) =~= Seq::<FillView>::empty());
        }
        r
    }

    /// Read snapshots of the resting bids and asks, in book order, in their
    /// current representation.
    pub fn get_orders(&self) -> (r: (Vec<Order>, Vec<Order>))
        ensures
            order_views(r.0@) == self@.bids,
            order_views(r.1@) == self@.asks,
    {
        (crate::orders::clone_orders(&self.buy_orders), crate::orders::clone_orders(
            &self.sell_orders,
        ))
    }

    /// A read snapshot of all fills, in chronological match order.
    pub fn get_fills(&self) -> (r: Vec<Fill>)
        ensures
            fill_views(r@) == self@.fills,
    {
        crate::orders::clone_fills(&self.fills)
    }

    /// Whether newly submitted orders are encrypted and matched
    /// confidentially.
    pub fn is_using_encryption(&self) -> (r: bool)
        ensures
            r == self@.encrypted_mode,
    {
        self.use_encryption
    }

    /// The capability check of the confidential-value service: whether key
    /// material is available to this engine.
    pub fn has_key_material(&self) -> (r: bool)
        ensures
            r == self@.has_key,
    {
        matches!(&self.client_key, Some(_))
    }

    /// Clear the book, the fill history and the id counter, preserving the
    /// confidential-mode policy and the key material: the next submitted
    /// order receives id 1 again.
    pub fn reset(&mut self)
        ensures
            final(self)@ == (BookView {
                count: 0,
                bids: Seq::<OrderView>::empty(),
                asks: Seq::<OrderView>::empty(),
                fills: Seq::<FillView>::empty(),
                encrypted_mode: old(self)@.encrypted_mode,
                has_key: old(self)@.has_key,
            }),
            final(self).wf(),
    {
        self.count = 0;
        self.buy_orders = Vec::new();
        self.sell_orders = Vec::new();
        self.fills = Vec::new();
        proof {
            assert(order_views(self.buy_orders@) =~= Seq::<OrderView>::empty());
            assert(order_views(self.sell_orders@) =~= Seq::<OrderView>::empty());
            assert(fill_views(self.fills@) =~= Seq::<FillView>::empty());
        }
    }

    /// Change the confidential-mode policy applied to future submissions.
    ///
    /// Enabling confidential mode without key material is refused before any
    /// state changes, and `false` is returned. Disabling it re-sorts the
    /// book by the plain price fields, restoring the price priority that
    /// plaintext mode maintains; resting orders keep the representation they
    /// were created with.
    pub fn set_use_encryption(&mut self, enabled: bool) -> (r: bool)
        requires
            old(self).wf(),
        ensures
            final(self).wf(),
            final(self)@.count == old(self)@.count,
            final(self)@.has_key == old(self)@.has_key,
            final(self)@.fills == old(self)@.fills,
            enabled && !old(self)@.has_key ==> !r && final(self)@ == old(self)@,
            r <==> !(enabled && !old(self)@.has_key),
            r ==> final(self)@.encrypted_mode == enabled,
            enabled && old(self)@.has_key ==> final(self)@.bids == old(self)@.bids
                && final(self)@.asks == old(self)@.asks,
            !enabled ==> final(self)@.bids == sort_desc_spec(old(self)@.bids)
                && final(self)@.asks == sort_asc_spec(old(self)@.asks),
    {
        if enabled {
            if matches!(&self.client_key, Some(_)) {
                self.use_encryption = true;
                true
            } else {
                false
            }
        } else {
            self.buy_orders = sort_bids(&self.buy_orders);
            self.sell_orders = sort_asks(&self.sell_orders);
            self.use_encryption = false;
            proof {
                lemma_sort_desc_sorted(old(self)@.bids);
                lemma_sort_asc_sorted(old(self)@.asks);
            }
            true
        }
    }

    /// Match an incoming buy order against the resting asks: record one fill
    /// per eligible pairing and keep only the asks that were not consumed in
    /// full. The bids and the counter are untouched.
    fn try_match_buy_order(&mut self, buy_order: &Order)
        ensures
            final(self)@.count == old(self)@.count,
            final(self)@.encrypted_mode == old(self)@.encrypted_mode,
            final(self)@.has_key == old(self)@.has_key,
            final(self)@.bids == old(self)@.bids,
            exists|flags: Seq<bool>|
                #[trigger] flags_admissible(old(self)@, buy_order@, old(self)@.asks, flags)
                    && final(self)@.asks == match_step(
                    buy_order@,
                    old(self)@.asks,
                    flags,
                    buy_order@.quantity as int,
                ).0 && final(self)@.fills == old(self)@.fills + match_step(
                    buy_order@,
                    old(self)@.asks,
                    flags,
                    buy_order@.quantity as int,
                ).1,
            !old(self)@.encrypted_mode && sorted_asc(old(self)@.asks) ==> sorted_asc(
                final(self)@.asks,
            ),
    {
        let flags = compute_flags(buy_order, &self.sell_orders, self.use_encryption, &self.client_key);
        let (kept, mut new_fills) = run_match(buy_order, &self.sell_orders, &flags);
        proof {
            if !self.use_encryption && sorted_asc(order_views(self.sell_orders@)) {
                lemma_match_step_sorted_asc(
                    buy_order@,
                    order_views(self.sell_orders@),
                    flags@,
                    buy_order@.quantity as int,
                );
            }
        }
        let ghost newf = new_fills@;
        self.sell_orders = kept;
        self.fills.append(&mut new_fills);
        proof {
            assert(fill_views(self.fills@) =~= fill_views(old(self).fills@) + fill_views(newf));
            assert(flags_admissible(old(self)@, buy_order@, old(self)@.asks, flags@));
        }
    }

    /// Match an incoming sell order against the resting bids, mirroring
    /// [`Orderbook::try_match_buy_order`].
    fn try_match_sell_order(&mut self, sell_order: &Order)
        ensures
            final(self)@.count == old(self)@.count,
            final(self)@.encrypted_mode == old(self)@.encrypted_mode,
            final(self)@.has_key == old(self)@.has_key,
            final(self)@.asks == old(self)@.asks,
            exists|flags: Seq<bool>|
                #[trigger] flags_admissible(old(self)@, sell_order@, old(self)@.bids, flags)
                    && final(self)@.bids == match_step(
                    sell_order@,
                    old(self)@.bids,
                    flags,
                    sell_order@.quantity as int,
                ).0 && final(self)@.fills == old(self)@.fills + match_step(
                    sell_order@,
                    old(self)@.bids,
                    flags,
                    sell_order@.quantity as int,
                ).1,
            !old(self)@.encrypted_mode && sorted_desc(old(self)@.bids) ==> sorted_desc(
                final(self)@.bids,
            ),
    {
        let flags = compute_flags(sell_order, &self.buy_orders, self.use_encryption, &self.client_key);
        let (kept, mut new_fills) = run_match(sell_order, &self.buy_orders, &flags);
        proof {
            if !self.use_encryption && sorted_desc(order_views(self.buy_orders@)) {
                lemma_match_step_sorted_desc(
                    sell_order@,
                    order_views(self.buy_orders@),
                    flags@,
                    sell_order@.quantity as int,
                );
            }
        }
        let ghost newf = new_fills@;
        self.buy_orders = kept;
        self.fills.append(&mut new_fills);
        proof {
            assert(fill_views(self.fills@) =~= fill_views(old(self).fills@) + fill_views(newf));
            assert(flags_admissible(old(self)@, sell_order@, old(self)@.bids, flags@));
        }
    }

    /// Add an already-constructed order to the book.
    ///
    /// In confidential mode a plaintext order is first encrypted through the
    /// confidential-value service; if no key material is available, or
    /// encryption fails, the order degrades to plaintext and matching still
    /// works against its plain fields. The order is then matched against the
    /// opposite side, the fills are recorded, and the order rests on its own
    /// side with its original quantity. The stored order is returned.
    pub fn add_order(&mut self, order: Order) -> (r: Order)
        requires
            old(self).wf(),
        ensures
            final(self).wf(),
            order_added(old(self)@, final(self)@, order@, r@),
    {
        let ghost submitted = order@;
        let mut order = order;
        if self.use_encryption && !order.is_encrypted {
            match &self.client_key {
                Some(key) => {
                    if fhe_operations::encrypt_order(&mut order, key) {
                        order.is_encrypted = true;
                    }
                },
                None => {},
            }
        }
        let ghost stored = order@;
        if order.side == Side::Buy {
            self.try_match_buy_order(&order);
            let ghost mid = self@;
            if self.use_encryption {
                self.buy_orders.push(order.clone());
                proof {
                    assert(order_views(self.buy_orders@) =~= mid.bids.push(stored));
                }
            } else {
                insert_bid(&mut self.buy_orders, order.clone());
            }
            proof {
                assert(mid.bids == old(self)@.bids);
                if !old(self)@.encrypted_mode {
                    lemma_insert_desc_sorted(old(self)@.bids, stored);
                }
                let flags = choose|flags: Seq<bool>|
                    #[trigger] flags_admissible(old(self)@, stored, old(self)@.asks, flags)
                        && mid.asks == match_step(
                        stored,
                        old(self)@.asks,
                        flags,
                        stored.quantity as int,
                    ).0 && mid.fills == old(self)@.fills + match_step(
                        stored,
                        old(self)@.asks,
                        flags,
                        stored.quantity as int,
                    ).1;
                assert(flags_admissible(old(self)@, stored, old(self)@.asks, flags)
                    && self@.asks == match_step(
                    stored,
                    old(self)@.asks,
                    flags,
                    stored.quantity as int,
                ).0 && self@.fills == old(self)@.fills + match_step(
                    stored,
                    old(self)@.asks,
                    flags,
                    stored.quantity as int,
                ).1 && self@.bids == (if old(self)@.encrypted_mode {
                    old(self)@.bids.push(stored)
                } else {
                    insert_desc(old(self)@.bids, stored)
                }));
            }
        } else {
            self.try_match_sell_order(&order);
            let ghost mid = self@;
            if self.use_encryption {
                self.sell_orders.push(order.clone());
                proof {
                    assert(order_views(self.sell_orders@) =~= mid.asks.push(stored));
                }
            } else {
                insert_ask(&mut self.sell_orders, order.clone());
            }
            proof {
                assert(mid.asks == old(self)@.asks);
                if !old(self)@.encrypted_mode {
                    lemma_insert_asc_sorted(old(self)@.asks, stored);
                }
                let flags = choose|flags: Seq<bool>|
                    #[trigger] flags_admissible(old(self)@, stored, old(self)@.bids, flags)
                        && mid.bids == match_step(
                        stored,
                        old(self)@.bids,
                        flags,
                        stored.quantity as int,
                    ).0 && mid.fills == old(self)@.fills + match_step(
                        stored,
                        old(self)@.bids,
                        flags,
                        stored.quantity as int,
                    ).1;
                assert(flags_admissible(old(self)@, stored, old(self)@.bids, flags)
                    && self@.bids == match_step(
                    stored,
                    old(self)@.bids,
                    flags,
                    stored.quantity as int,
                ).0 && self@.fills == old(self)@.fills + match_step(
                    stored,
                    old(self)@.bids,
                    flags,
                    stored.quantity as int,
                ).1 && self@.asks == (if old(self)@.encrypted_mode {
                    old(self)@.asks.push(stored)
                } else {
                    insert_asc(old(self)@.asks, stored)
                }));
            }
        }
        order
    }

    /// Submit a limit order: assign the next id (monotonic, starting at 1),
    /// construct the order, and add it to the book as
    /// [`Orderbook::add_order`] says.
    pub fn submit(&mut self, side: Side, price: u32, quantity: u32, user_pubkey: String) -> (r:
        Order)
        requires
            old(self).wf(),
            old(self)@.count < u128::MAX,
        ensures
            final(self).wf(),
            final(self)@.count == old(self)@.count + 1,
            r@.id == old(self)@.count + 1,
            order_added(
                (BookView { count: (old(self)@.count + 1) as u128, ..old(self)@ }),
                final(self)@,
                (OrderView {
                    id: (old(self)@.count + 1) as u128,
                    price,
                    quantity,
                    side,
                    owner: user_pubkey@,
                    enc_price: None,
                    enc_quantity: None,
                    encrypted: false,
                }),
                r@,
            ),
    {
        self.count = self.count + 1;
        let order = Order::new(self.count, price, quantity, side, user_pubkey);
        self.add_order(order)
    }

    /// Submit a market buy order: refused without consuming an id when no
    /// ask is resting; otherwise a limit buy at the maximum representable
    /// price, eligible against every resting ask under the plaintext rule,
    /// goes through the ordinary submission path.
    pub fn market_buy(&mut self, quantity: u32, user_pubkey: String) -> (r: Option<Order>)
        requires
            old(self).wf(),
            old(self)@.asks.len() > 0 ==> old(self)@.count < u128::MAX,
        ensures
            final(self).wf(),
            old(self)@.asks.len() == 0 ==> r is None && final(self)@ == old(self)@,
            old(self)@.asks.len() > 0 ==> r is Some && final(self)@.count == old(self)@.count + 1
                && r.unwrap()@.id == old(self)@.count + 1 && order_added(
                (BookView { count: (old(self)@.count + 1) as u128, ..old(self)@ }),
                final(self)@,
                (OrderView {
                    id: (old(self)@.count + 1) as u128,
                    price: u32::MAX,
                    quantity,
                    side: Side::Buy,
                    owner: user_pubkey@,
                    enc_price: None,
                    enc_quantity: None,
                    encrypted: false,
                }),
                r.unwrap()@,
            ),
    {
        if self.sell_orders.len() == 0 {
            return None;
        }
        Some(self.submit(Side::Buy, u32::MAX, quantity, user_pubkey))
    }

    /// Submit a market sell order: refused without consuming an id when no
    /// bid is resting; otherwise a limit sell at price zero, eligible
    /// against every resting bid under the plaintext rule, goes through the
    /// ordinary submission path.
    pub fn market_sell(&mut self, quantity: u32, user_pubkey: String) -> (r: Option<Order>)
        requires
            old(self).wf(),
            old(self)@.bids.len() > 0 ==> old(self)@.count < u128::MAX,
        ensures
            final(self).wf(),
            old(self)@.bids.len() == 0 ==> r is None && final(self)@ == old(self)@,
            old(self)@.bids.len() > 0 ==> r is Some && final(self)@.count == old(self)@.count + 1
                && r.unwrap()@.id == old(self)@.count + 1 && order_added(
                (BookView { count: (old(self)@.count + 1) as u128, ..old(self)@ }),
                final(self)@,
                (OrderView {
                    id: (old(self)@.count + 1) as u128,
                    price: 0,
                    quantity,
                    side: Side::Sell,
                    owner: user_pubkey@,
                    enc_price: None,
                    enc_quantity: None,
                    encrypted: false,
                }),
                r.unwrap()@,
            ),
    {
        if self.buy_orders.len() == 0 {
            return None;
        }
        Some(self.submit(Side::Sell, 0, quantity, user_pubkey))
    }

    /// Render a plaintext view of the book.
    ///
    /// In plaintext mode this is a plain snapshot. In confidential mode
    /// every resting order is decrypted through the confidential-value
    /// service, never mutating the stored orders; if key material is
    /// missing, or any single order cannot be decrypted, the whole call
    /// fails with no partial result. The decrypted copies are freshly
    /// re-sorted by plain price (bids descending, asks ascending), since the
    /// stored confidential collections are in arrival order.
    pub fn get_decrypted_orders(&self) -> (r: Result<(Vec<Order>, Vec<Order>), String>)
        ensures
            !self@.encrypted_mode ==> r is Ok && order_views(r.unwrap().0@) == self@.bids
                && order_views(r.unwrap().1@) == self@.asks,
            self@.encrypted_mode && !self@.has_key ==> r is Err,
            self@.encrypted_mode && r is Ok ==> exists|db: Seq<OrderView>, da: Seq<OrderView>|
                decrypted_views(self@.bids, db) && decrypted_views(self@.asks, da)
                    && #[trigger] order_views(r.unwrap().0@) == sort_desc_spec(db)
                    && #[trigger] order_views(r.unwrap().1@) == sort_asc_spec(da),
            self@.encrypted_mode && r is Ok ==> sorted_desc(order_views(r.unwrap().0@))
                && sorted_asc(order_views(r.unwrap().1@)),
            self@.has_key && (forall|i: int|
                0 <= i < self@.bids.len() ==> !(#[trigger] self@.bids[i]).encrypted) && (forall|
                j: int,
            | 0 <= j < self@.asks.len() ==> !(#[trigger] self@.asks[j]).encrypted) ==> r is Ok,
    {
        if !self.use_encryption {
            return Ok(self.get_orders());
        }
        let key = match &self.client_key {
            Some(k) => k,
            None => {
                return Err(String::from_str("failed to load the client key"));
            },
        };
        let decrypted_bids = match decrypt_order_list(&self.buy_orders, key) {
            Some(orders) => orders,
            None => {
                proof {
                    let k = choose|i: int|
                        0 <= i < self.buy_orders@.len() && (#[trigger] order_views(
                            self.buy_orders@,
                        )[i]).encrypted;
                    assert(self@.bids[k].encrypted);
                }
                return Err(String::from_str("failed to decrypt a resting buy order"));
            },
        };
        let decrypted_asks = match decrypt_order_list(&self.sell_orders, key) {
            Some(orders) => orders,
            None => {
                proof {
                    let k = choose|i: int|
                        0 <= i < self.sell_orders@.len() && (#[trigger] order_views(
                            self.sell_orders@,
                        )[i]).encrypted;
                    assert(self@.asks[k].encrypted);
                }
                return Err(String::from_str("failed to decrypt a resting sell order"));
            },
        };
        let sorted_bids = sort_bids(&decrypted_bids);
        let sorted_asks = sort_asks(&decrypted_asks);
        proof {
            lemma_sort_desc_sorted(order_views(decrypted_bids@));
            lemma_sort_asc_sorted(order_views(decrypted_asks@));
        }
        Ok((sorted_bids, sorted_asks))
    }
}

} // verus!
