use crate::clock::now_millis;
use crate::quantity::{quantity_units, quantity_value, total_of, Quantity, QUANTITY_SCALE};
use crate::price::{dequantize, dequantize_key, quantize, quantize_price, Price};
use std::collections::HashMap;
use vstd::prelude::*;

verus! {

/// Which side of the book an order rests on.
#[derive(Clone, Copy, Debug, PartialEq, Eq, Structural)]
pub enum OrderSide {
    Bid,
    Ask,
}

/// Why an update or a cancel did not take effect.
#[derive(Clone, Copy, Debug, PartialEq, Eq, Structural)]
pub enum BookError {
    OrderNotFound,
    PriceLevelInconsistency,
}

/// A resting order. `timestamp` is in milliseconds since the Unix epoch;
/// `participant_type` and `metadata` are carried through untouched.
#[derive(Clone, Debug)]
pub struct Order {
    pub id: String,
    pub price: Price,
    pub quantity: Quantity,
    pub side: OrderSide,
    pub venue: String,
    pub symbol: String,
    pub timestamp: i64,
    pub participant_type: Option<String>,
    pub metadata: HashMap<String, String>,
}

/// The aggregate of all orders resting at one price.
#[derive(Clone, Copy, Debug, PartialEq, Eq, Structural)]
pub struct PriceLevel {
    pub price: Price,
    pub total_quantity: Quantity,
    pub order_count: usize,
}

/// A point-in-time view of the book: bids best (highest) first, asks best
/// (lowest) first.
#[derive(Clone, Debug)]
pub struct OrderBookSnapshot {
    pub bids: Vec<PriceLevel>,
    pub asks: Vec<PriceLevel>,
    pub timestamp: i64,
    pub venue: String,
    pub symbol: String,
}

/// A price level as the contracts see it: its key and its orders.
pub type LevelModel = (i64, Seq<Order>);

/// What a sum over the levels of a side adds up.
pub enum Measure {
    Orders,
    Quantity,
}

pub open spec fn quantity_sum(os: Seq<Order>) -> nat
    decreases os.len(),
{
    if os.len() == 0 {
        0
    } else {
        quantity_sum(os.drop_last()) + quantity_value(os.last().quantity)
    }
}

pub open spec fn measure_of(os: Seq<Order>, m: Measure) -> nat {
    match m {
        Measure::Orders => os.len(),
        Measure::Quantity => quantity_sum(os),
    }
}

pub open spec fn level_sum(s: Seq<LevelModel>, m: Measure) -> nat
    decreases s.len(),
{
    if s.len() == 0 {
        0
    } else {
        level_sum(s.drop_last(), m) + measure_of(s.last().1, m)
    }
}

/// The number of orders on a side.
pub open spec fn total_orders(s: Seq<LevelModel>) -> nat {
    level_sum(s, Measure::Orders)
}

/// The sum of the quantities of the orders on a side.
pub open spec fn total_quantity(s: Seq<LevelModel>) -> nat {
    level_sum(s, Measure::Quantity)
}

/// A side is well formed: keys strictly ascending, no empty level, every order
/// on its own side, at the key of its price and with a size no finer than
/// `QUANTITY_SCALE`, a count that fits a `usize` and a total size that fits a
/// `u128` at that scale.
pub open spec fn side_wf(s: Seq<LevelModel>, side: OrderSide, precision: nat) -> bool {
    &&& forall|i: int, j: int| 0 <= i < j < s.len() ==> s[i].0 < s[j].0
    &&& forall|i: int| 0 <= i < s.len() ==> s[i].1.len() > 0
    &&& forall|i: int, j: int|
        0 <= i < s.len() && 0 <= j < s[i].1.len() ==> quantize(s[i].1[j].price, precision) == s[i].0
            && s[i].1[j].side == side && s[i].1[j].quantity.scale <= QUANTITY_SCALE
    &&& total_orders(s) <= usize::MAX
    &&& total_quantity(s) <= u128::MAX
}

/// The number of leading levels whose key is below `k`.
pub open spec fn keys_below(s: Seq<LevelModel>, k: i64) -> nat
    decreases s.len(),
{
    if s.len() == 0 || s[0].0 >= k {
        0
    } else {
        1 + keys_below(s.drop_first(), k)
    }
}

/// The position of the first order with this id, or the length if there is none.
pub open spec fn id_index(os: Seq<Order>, id: Seq<char>) -> nat
    decreases os.len(),
{
    if os.len() == 0 || os[0].id@ == id {
        0
    } else {
        1 + id_index(os.drop_first(), id)
    }
}

/// The position of the first level holding an order with this id, or the
/// number of levels if there is none.
pub open spec fn id_level(s: Seq<LevelModel>, id: Seq<char>) -> nat
    decreases s.len(),
{
    if s.len() == 0 || id_index(s[0].1, id) < s[0].1.len() {
        0
    } else {
        1 + id_level(s.drop_first(), id)
    }
}

pub open spec fn side_has(s: Seq<LevelModel>, id: Seq<char>) -> bool {
    id_level(s, id) < s.len()
}

/// The first order with this id on a side (levels in ascending key order).
pub open spec fn side_find(s: Seq<LevelModel>, id: Seq<char>) -> Order {
    let i = id_level(s, id) as int;
    s[i].1[id_index(s[i].1, id) as int]
}

/// Places an order in a level: over the order with the same id if there is one,
/// else after the others.
pub open spec fn level_put(os: Seq<Order>, o: Order) -> Seq<Order> {
    let j = id_index(os, o.id@);
    if j < os.len() {
        os.update(j as int, o)
    } else {
        os.push(o)
    }
}

/// Places an order at key `k`: into the level of that key, or into a new level at
/// its place in key order.
pub open spec fn side_put(s: Seq<LevelModel>, k: i64, o: Order) -> Seq<LevelModel> {
    let i = keys_below(s, k);
    if i < s.len() && s[i as int].0 == k {
        s.update(i as int, (k, level_put(s[i as int].1, o)))
    } else {
        s.insert(i as int, (k, seq![o]))
    }
}

/// Removes the `j`th order of level `i`, and the level with it if it empties.
pub open spec fn remove_entry(s: Seq<LevelModel>, i: int, j: int) -> Seq<LevelModel> {
    if s[i].1.len() == 1 {
        s.remove(i)
    } else {
        s.update(i, (s[i].0, s[i].1.remove(j)))
    }
}

/// Removes the first order with this id from a side.
pub open spec fn side_remove(s: Seq<LevelModel>, id: Seq<char>) -> Seq<LevelModel> {
    let i = id_level(s, id) as int;
    remove_entry(s, i, id_index(s[i].1, id) as int)
}

pub open spec fn level_summary(l: LevelModel, precision: nat) -> PriceLevel {
    PriceLevel {
        price: dequantize(l.0, precision),
        total_quantity: total_of(quantity_sum(l.1)),
        order_count: l.1.len() as usize,
    }
}

proof fn lemma_keys_below(s: Seq<LevelModel>, k: i64, i: int)
    requires
        0 <= i <= s.len(),
        forall|t: int| 0 <= t < i ==> s[t].0 < k,
        i == s.len() || s[i].0 >= k,
    ensures
        keys_below(s, k) == i,
    decreases i,
{
    if i > 0 {
        lemma_keys_below(s.drop_first(), k, i - 1);
    }
}

proof fn lemma_id_index(os: Seq<Order>, id: Seq<char>, j: int)
    requires
        0 <= j <= os.len(),
        forall|t: int| 0 <= t < j ==> os[t].id@ != id,
        j == os.len() || os[j].id@ == id,
    ensures
        id_index(os, id) == j,
    decreases j,
{
    if j > 0 {
        lemma_id_index(os.drop_first(), id, j - 1);
    }
}

proof fn lemma_id_index_bound(os: Seq<Order>, id: Seq<char>)
    ensures
        id_index(os, id) <= os.len(),
        id_index(os, id) < os.len() ==> os[id_index(os, id) as int].id@ == id,
        forall|t: int| 0 <= t < id_index(os, id) ==> os[t].id@ != id,
    decreases os.len(),
{
    if os.len() > 0 && os[0].id@ != id {
        lemma_id_index_bound(os.drop_first(), id);
        assert forall|t: int| 0 <= t < id_index(os, id) implies os[t].id@ != id by {
            if t > 0 {
                assert(os[t] == os.drop_first()[t - 1]);
            }
        }
    }
}

proof fn lemma_id_level(s: Seq<LevelModel>, id: Seq<char>, i: int)
    requires
        0 <= i <= s.len(),
        forall|t: int| 0 <= t < i ==> id_index(s[t].1, id) >= s[t].1.len(),
        i == s.len() || id_index(s[i].1, id) < s[i].1.len(),
    ensures
        id_level(s, id) == i,
    decreases i,
{
    if i > 0 {
        lemma_id_level(s.drop_first(), id, i - 1);
    }
}

proof fn lemma_id_level_bound(s: Seq<LevelModel>, id: Seq<char>)
    ensures
        id_level(s, id) <= s.len(),
        id_level(s, id) < s.len() ==> id_index(s[id_level(s, id) as int].1, id) < s[id_level(
            s,
            id,
        ) as int].1.len(),
        forall|t: int| 0 <= t < id_level(s, id) ==> id_index(s[t].1, id) >= s[t].1.len(),
    decreases s.len(),
{
    if s.len() > 0 && id_index(s[0].1, id) >= s[0].1.len() {
        lemma_id_level_bound(s.drop_first(), id);
        assert forall|t: int| 0 <= t < id_level(s, id) implies id_index(s[t].1, id)
            >= s[t].1.len() by {
            if t > 0 {
                assert(s[t] == s.drop_first()[t - 1]);
            }
        }
    }
}

proof fn lemma_level_sum_concat(a: Seq<LevelModel>, b: Seq<LevelModel>, m: Measure)
    ensures
        level_sum(a + b, m) == level_sum(a, m) + level_sum(b, m),
    decreases b.len(),
{
    if b.len() == 0 {
        assert(a + b =~= a);
    } else {
        lemma_level_sum_concat(a, b.drop_last(), m);
        assert((a + b).drop_last() =~= a + b.drop_last());
    }
}

proof fn lemma_level_sum_single(x: LevelModel, m: Measure)
    ensures
        level_sum(seq![x], m) == measure_of(x.1, m),
{
    assert(seq![x].drop_last() =~= Seq::<LevelModel>::empty());
    assert(level_sum(Seq::<LevelModel>::empty(), m) == 0);
    assert(seq![x].last() == x);
}

proof fn lemma_level_sum_update(s: Seq<LevelModel>, i: int, x: LevelModel, m: Measure)
    requires
        0 <= i < s.len(),
    ensures
        level_sum(s.update(i, x), m) + measure_of(s[i].1, m) == level_sum(s, m) + measure_of(x.1, m),
{
    let a = s.subrange(0, i);
    let c = s.subrange(i + 1, s.len() as int);
    assert(s =~= a + seq![s[i]] + c);
    assert(s.update(i, x) =~= a + seq![x] + c);
    lemma_level_sum_concat(a + seq![s[i]], c, m);
    lemma_level_sum_concat(a, seq![s[i]], m);
    lemma_level_sum_concat(a + seq![x], c, m);
    lemma_level_sum_concat(a, seq![x], m);
    lemma_level_sum_single(s[i], m);
    lemma_level_sum_single(x, m);
}

proof fn lemma_level_sum_insert(s: Seq<LevelModel>, i: int, x: LevelModel, m: Measure)
    requires
        0 <= i <= s.len(),
    ensures
        level_sum(s.insert(i, x), m) == level_sum(s, m) + measure_of(x.1, m),
{
    let a = s.subrange(0, i);
    let c = s.subrange(i, s.len() as int);
    assert(s =~= a + c);
    assert(s.insert(i, x) =~= a + seq![x] + c);
    lemma_level_sum_concat(a, c, m);
    lemma_level_sum_concat(a + seq![x], c, m);
    lemma_level_sum_concat(a, seq![x], m);
    lemma_level_sum_single(x, m);
}

proof fn lemma_level_sum_remove(s: Seq<LevelModel>, i: int, m: Measure)
    requires
        0 <= i < s.len(),
    ensures
        level_sum(s.remove(i), m) + measure_of(s[i].1, m) == level_sum(s, m),
{
    let a = s.subrange(0, i);
    let c = s.subrange(i + 1, s.len() as int);
    assert(s =~= a + seq![s[i]] + c);
    assert(s.remove(i) =~= a + c);
    lemma_level_sum_concat(a + seq![s[i]], c, m);
    lemma_level_sum_concat(a, seq![s[i]], m);
    lemma_level_sum_concat(a, c, m);
    lemma_level_sum_single(s[i], m);
}

proof fn lemma_level_sum_prefix(s: Seq<LevelModel>, i: int, m: Measure)
    requires
        0 <= i <= s.len(),
    ensures
        level_sum(s.subrange(0, i), m) <= level_sum(s, m),
{
    assert(s =~= s.subrange(0, i) + s.subrange(i, s.len() as int));
    lemma_level_sum_concat(s.subrange(0, i), s.subrange(i, s.len() as int), m);
}

proof fn lemma_keys_below_bound(s: Seq<LevelModel>, k: i64)
    ensures
        keys_below(s, k) <= s.len(),
        keys_below(s, k) < s.len() ==> s[keys_below(s, k) as int].0 >= k,
        forall|t: int| 0 <= t < keys_below(s, k) ==> s[t].0 < k,
    decreases s.len(),
{
    if s.len() > 0 && s[0].0 < k {
        lemma_keys_below_bound(s.drop_first(), k);
        assert forall|t: int| 0 <= t < keys_below(s, k) implies s[t].0 < k by {
            if t > 0 {
                assert(s[t] == s.drop_first()[t - 1]);
            }
        }
    }
}

proof fn lemma_quantity_sum_concat(a: Seq<Order>, b: Seq<Order>)
    ensures
        quantity_sum(a + b) == quantity_sum(a) + quantity_sum(b),
    decreases b.len(),
{
    if b.len() == 0 {
        assert(a + b =~= a);
    } else {
        lemma_quantity_sum_concat(a, b.drop_last());
        assert((a + b).drop_last() =~= a + b.drop_last());
    }
}

proof fn lemma_quantity_sum_remove(os: Seq<Order>, j: int)
    requires
        0 <= j < os.len(),
    ensures
        quantity_sum(os.remove(j)) + quantity_value(os[j].quantity) == quantity_sum(os),
{
    let a = os.subrange(0, j);
    let c = os.subrange(j + 1, os.len() as int);
    assert(os =~= a + seq![os[j]] + c);
    assert(os.remove(j) =~= a + c);
    lemma_quantity_sum_concat(a + seq![os[j]], c);
    lemma_quantity_sum_concat(a, seq![os[j]]);
    lemma_quantity_sum_concat(a, c);
    assert(seq![os[j]].drop_last() =~= Seq::<Order>::empty());
    assert(quantity_sum(Seq::<Order>::empty()) == 0);
    assert(seq![os[j]].last() == os[j]);
    assert(quantity_sum(seq![os[j]]) == quantity_value(os[j].quantity));
}

proof fn lemma_quantity_sum_update(os: Seq<Order>, j: int, o: Order)
    requires
        0 <= j < os.len(),
    ensures
        quantity_sum(os.update(j, o)) + quantity_value(os[j].quantity) == quantity_sum(os)
            + quantity_value(o.quantity),
{
    lemma_quantity_sum_remove(os, j);
    lemma_quantity_sum_remove(os.update(j, o), j);
    assert(os.update(j, o).remove(j) =~= os.remove(j));
}

proof fn lemma_quantity_sum_prefix(os: Seq<Order>, j: int)
    requires
        0 <= j <= os.len(),
    ensures
        quantity_sum(os.subrange(0, j)) <= quantity_sum(os),
{
    assert(os =~= os.subrange(0, j) + os.subrange(j, os.len() as int));
    lemma_quantity_sum_concat(os.subrange(0, j), os.subrange(j, os.len() as int));
}

proof fn lemma_level_within_side(s: Seq<LevelModel>, i: int, m: Measure)
    requires
        0 <= i < s.len(),
    ensures
        measure_of(s[i].1, m) <= level_sum(s, m),
{
    lemma_level_sum_remove(s, i, m);
}

/// Placing an order keeps a side well formed and adds at most one order; an
/// order with a new id adds exactly one order and its quantity.
proof fn lemma_put(s: Seq<LevelModel>, side: OrderSide, precision: nat, k: i64, o: Order)
    requires
        side_wf(s, side, precision),
        k == quantize(o.price, precision),
        o.side == side,
        o.quantity.scale <= QUANTITY_SCALE,
        total_orders(s) < usize::MAX,
        total_quantity(s) + quantity_value(o.quantity) <= u128::MAX,
    ensures
        side_wf(side_put(s, k, o), side, precision),
        total_orders(side_put(s, k, o)) <= total_orders(s) + 1,
        total_quantity(side_put(s, k, o)) <= total_quantity(s) + quantity_value(o.quantity),
        !side_has(s, o.id@) ==> total_orders(side_put(s, k, o)) == total_orders(s) + 1,
        !side_has(s, o.id@) ==> total_quantity(side_put(s, k, o)) == total_quantity(s)
            + quantity_value(o.quantity),
{
    let i = keys_below(s, k) as int;
    let r = side_put(s, k, o);
    lemma_keys_below_bound(s, k);
    lemma_id_level_bound(s, o.id@);
    if i < s.len() && s[i].0 == k {
        let os = s[i].1;
        let nl = level_put(os, o);
        lemma_id_index_bound(os, o.id@);
        lemma_level_sum_update(s, i, (k, nl), Measure::Orders);
        lemma_level_sum_update(s, i, (k, nl), Measure::Quantity);
        if id_index(os, o.id@) < os.len() {
            lemma_quantity_sum_update(os, id_index(os, o.id@) as int, o);
        } else {
            assert(os.push(o).drop_last() =~= os);
        }
        if !side_has(s, o.id@) {
            assert(id_index(os, o.id@) >= os.len());
            assert(nl == os.push(o));
            assert(os.push(o).drop_last() =~= os);
        }
        assert forall|a: int, b: int|
            0 <= a < r.len() && 0 <= b < r[a].1.len() implies quantize(r[a].1[b].price, precision)
            == r[a].0 && r[a].1[b].side == side by {
            if a == i && b < os.len() && b != id_index(os, o.id@) {
                assert(r[a].1[b] == os[b]);
            }
        }
    } else {
        lemma_level_sum_insert(s, i, (k, seq![o]), Measure::Orders);
        lemma_level_sum_insert(s, i, (k, seq![o]), Measure::Quantity);
        assert(seq![o].drop_last() =~= Seq::<Order>::empty());
        assert(quantity_sum(Seq::<Order>::empty()) == 0);
        assert(seq![o].last() == o);
        assert(quantity_sum(seq![o]) == quantity_value(o.quantity));
        assert forall|a: int, b: int| 0 <= a < b < r.len() implies r[a].0 < r[b].0 by {
            if a < i && b == i {
            } else if a == i {
                assert(s[i].0 > k);
                assert(s[b - 1].0 >= s[i].0);
            }
        }
        assert forall|a: int, b: int|
            0 <= a < r.len() && 0 <= b < r[a].1.len() implies quantize(r[a].1[b].price, precision)
            == r[a].0 && r[a].1[b].side == side by {
            if a > i {
                assert(r[a] == s[a - 1]);
            }
        }
    }
}

/// Removing the first order with an id keeps a side well formed and takes away
/// one order and its quantity.
proof fn lemma_remove(s: Seq<LevelModel>, side: OrderSide, precision: nat, id: Seq<char>)
    requires
        side_wf(s, side, precision),
        side_has(s, id),
    ensures
        side_wf(side_remove(s, id), side, precision),
        total_orders(side_remove(s, id)) + 1 == total_orders(s),
        total_quantity(side_remove(s, id)) + quantity_value(side_find(s, id).quantity)
            == total_quantity(s),
{
    let i = id_level(s, id) as int;
    lemma_id_level_bound(s, id);
    let os = s[i].1;
    let j = id_index(os, id) as int;
    let r = side_remove(s, id);
    lemma_quantity_sum_remove(os, j);
    if os.len() == 1 {
        lemma_level_sum_remove(s, i, Measure::Orders);
        lemma_level_sum_remove(s, i, Measure::Quantity);
        assert(os.remove(j).len() == 0);
        assert(quantity_sum(os.remove(j)) == 0);
        assert forall|a: int, b: int| 0 <= a < b < r.len() implies r[a].0 < r[b].0 by {
            let a2 = if a < i { a } else { a + 1 };
            let b2 = if b < i { b } else { b + 1 };
            assert(r[a] == s[a2] && r[b] == s[b2]);
        }
        assert forall|a: int, b: int|
            0 <= a < r.len() && 0 <= b < r[a].1.len() implies quantize(r[a].1[b].price, precision)
            == r[a].0 && r[a].1[b].side == side by {
            if a >= i {
                assert(r[a] == s[a + 1]);
            }
        }
    } else {
        let nl = (s[i].0, os.remove(j));
        lemma_level_sum_update(s, i, nl, Measure::Orders);
        lemma_level_sum_update(s, i, nl, Measure::Quantity);
        assert forall|a: int, b: int|
            0 <= a < r.len() && 0 <= b < r[a].1.len() implies quantize(r[a].1[b].price, precision)
            == r[a].0 && r[a].1[b].side == side by {
            if a == i {
                if b < j {
                    assert(r[a].1[b] == os[b]);
                } else {
                    assert(r[a].1[b] == os[b + 1]);
                }
            }
        }
    }
}

/// Adding an order whose id is not yet on its side adds exactly one order to
/// that side, whether or not its price level already exists.
pub proof fn lemma_add_new_id_counts_one(s: Seq<LevelModel>, side: OrderSide, precision: nat, o: Order)
    requires
        side_wf(s, side, precision),
        o.side == side,
        o.quantity.scale <= QUANTITY_SCALE,
        !side_has(s, o.id@),
        total_orders(s) < usize::MAX,
        total_quantity(s) + quantity_value(o.quantity) <= u128::MAX,
    ensures
        total_orders(side_put(s, quantize(o.price, precision), o)) == total_orders(s) + 1,
{
    lemma_put(s, side, precision, quantize(o.price, precision), o);
}

/// A cancel that finds its order takes exactly one order off that side.
pub proof fn lemma_cancel_counts_one(s: Seq<LevelModel>, side: OrderSide, precision: nat, id: Seq<char>)
    requires
        side_wf(s, side, precision),
        side_has(s, id),
    ensures
        total_orders(side_remove(s, id)) + 1 == total_orders(s),
{
    lemma_remove(s, side, precision, id);
}

/// An update of an order whose id is held by no other order on its side leaves
/// the side's order count as it was, wherever the order moves.
pub proof fn lemma_update_keeps_count(
    s: Seq<LevelModel>,
    side: OrderSide,
    precision: nat,
    id: Seq<char>,
    new_price: Option<Price>,
    new_quantity: Option<Quantity>,
    t: i64,
)
    requires
        side_wf(s, side, precision),
        side_has(s, id),
        !side_has(side_remove(s, id), id),
        new_quantity matches Some(q) ==> q.scale <= QUANTITY_SCALE && total_quantity(s)
            + quantity_value(q) <= u128::MAX,
    ensures
        ({
            let u = updated_order(side_find(s, id), new_price, new_quantity, t);
            total_orders(side_put(side_remove(s, id), quantize(u.price, precision), u))
                == total_orders(s)
        }),
{
    let u = updated_order(side_find(s, id), new_price, new_quantity, t);
    lemma_id_level_bound(s, id);
    let i = id_level(s, id) as int;
    lemma_id_index_bound(s[i].1, id);
    assert(side_find(s, id).quantity.scale <= QUANTITY_SCALE);
    lemma_remove(s, side, precision, id);
    lemma_put(side_remove(s, id), side, precision, quantize(u.price, precision), u);
}

/// Adding an order whose id is not yet on its side raises the side's liquidity
/// by exactly its quantity, also when it joins a level that holds other orders.
pub proof fn lemma_add_new_id_adds_quantity(
    s: Seq<LevelModel>,
    side: OrderSide,
    precision: nat,
    o: Order,
)
    requires
        side_wf(s, side, precision),
        o.side == side,
        o.quantity.scale <= QUANTITY_SCALE,
        !side_has(s, o.id@),
        total_orders(s) < usize::MAX,
        total_quantity(s) + quantity_value(o.quantity) <= u128::MAX,
    ensures
        total_quantity(side_put(s, quantize(o.price, precision), o)) == total_quantity(s)
            + quantity_value(o.quantity),
{
    lemma_put(s, side, precision, quantize(o.price, precision), o);
}

proof fn lemma_put_places(s: Seq<LevelModel>, k: i64, o: Order)
    ensures
        ({
            let r = side_put(s, k, o);
            &&& exists|t: int| 0 <= t < r.len() && r[t].0 == k && r[t].1.contains(o)
            &&& forall|t: int| 0 <= t < r.len() && r[t].0 != k ==> exists|v: int|
                0 <= v < s.len() && s[v] == r[t]
        }),
{
    let r = side_put(s, k, o);
    let i = keys_below(s, k) as int;
    lemma_keys_below_bound(s, k);
    if i < s.len() && s[i].0 == k {
        let os = s[i].1;
        let j = id_index(os, o.id@);
        if j < os.len() {
            assert(level_put(os, o)[j as int] == o);
        } else {
            assert(level_put(os, o)[os.len() as int] == o);
        }
        assert(r[i].1.contains(o));
        assert forall|t: int| 0 <= t < r.len() && r[t].0 != k implies exists|v: int|
            0 <= v < s.len() && s[v] == r[t] by {
            assert(s[t] == r[t]);
        }
    } else {
        assert(r[i].1[0] == o);
        assert forall|t: int| 0 <= t < r.len() && r[t].0 != k implies exists|v: int|
            0 <= v < s.len() && s[v] == r[t] by {
            if t < i {
                assert(s[t] == r[t]);
            } else {
                assert(s[t - 1] == r[t]);
            }
        }
    }
}

/// An update that moves the only order of a level to another key leaves no
/// level at the old key, and the order rests at the new key.
pub proof fn lemma_update_prunes_emptied_level(
    s: Seq<LevelModel>,
    side: OrderSide,
    precision: nat,
    id: Seq<char>,
    u: Order,
    k: i64,
)
    requires
        side_wf(s, side, precision),
        side_has(s, id),
        s[id_level(s, id) as int].1.len() == 1,
        k != s[id_level(s, id) as int].0,
    ensures
        ({
            let k0 = s[id_level(s, id) as int].0;
            let r = side_put(side_remove(s, id), k, u);
            &&& forall|t: int| 0 <= t < r.len() ==> r[t].0 != k0
            &&& exists|t: int| 0 <= t < r.len() && r[t].0 == k && r[t].1.contains(u)
        }),
{
    let i = id_level(s, id) as int;
    let k0 = s[i].0;
    let m = side_remove(s, id);
    assert(m == s.remove(i));
    lemma_put_places(m, k, u);
    let r = side_put(m, k, u);
    assert forall|t: int| 0 <= t < r.len() implies r[t].0 != k0 by {
        if r[t].0 != k {
            let v = choose|v: int| 0 <= v < m.len() && m[v] == r[t];
            if v < i {
                assert(m[v] == s[v]);
            } else {
                assert(m[v] == s[v + 1]);
            }
        }
    }
}

/// An update that moves an order away from a level holding other orders keeps
/// that level, with the other orders as they were.
pub proof fn lemma_update_keeps_shared_level(
    s: Seq<LevelModel>,
    side: OrderSide,
    precision: nat,
    id: Seq<char>,
    u: Order,
    k: i64,
)
    requires
        side_wf(s, side, precision),
        side_has(s, id),
        s[id_level(s, id) as int].1.len() > 1,
        k != s[id_level(s, id) as int].0,
    ensures
        ({
            let i = id_level(s, id) as int;
            let rest = s[i].1.remove(id_index(s[i].1, id) as int);
            let r = side_put(side_remove(s, id), k, u);
            &&& exists|t: int| 0 <= t < r.len() && r[t] == (s[i].0, rest)
            &&& exists|t: int| 0 <= t < r.len() && r[t].0 == k && r[t].1.contains(u)
        }),
{
    let i = id_level(s, id) as int;
    let rest = s[i].1.remove(id_index(s[i].1, id) as int);
    let m = side_remove(s, id);
    assert(m[i] == (s[i].0, rest));
    lemma_put_places(m, k, u);
    let r = side_put(m, k, u);
    let p = keys_below(m, k) as int;
    lemma_keys_below_bound(m, k);
    if p < m.len() && m[p].0 == k {
        assert(r[i] == m[i]);
    } else if i < p {
        assert(r[i] == m[i]);
    } else {
        assert(r[i + 1] == m[i]);
    }
}

proof fn lemma_has_iff_witness(s: Seq<LevelModel>, id: Seq<char>)
    ensures
        side_has(s, id) <==> exists|i: int, j: int|
            0 <= i < s.len() && 0 <= j < s[i].1.len() && s[i].1[j].id@ == id,
{
    lemma_id_level_bound(s, id);
    if side_has(s, id) {
        let i = id_level(s, id) as int;
        lemma_id_index_bound(s[i].1, id);
        let j = id_index(s[i].1, id) as int;
        assert(s[i].1[j].id@ == id);
    } else {
        assert forall|i: int, j: int|
            0 <= i < s.len() && 0 <= j < s[i].1.len() implies s[i].1[j].id@ != id by {
            lemma_id_index_bound(s[i].1, id);
        }
    }
}

/// Placing an order brings no id onto a side but its own.
proof fn lemma_put_brings_only_its_id(s: Seq<LevelModel>, k: i64, o: Order, id: Seq<char>)
    requires
        id != o.id@,
        !side_has(s, id),
    ensures
        !side_has(side_put(s, k, o), id),
{
    let r = side_put(s, k, o);
    let i = keys_below(s, k) as int;
    lemma_keys_below_bound(s, k);
    lemma_has_iff_witness(s, id);
    lemma_has_iff_witness(r, id);
    assert forall|a: int, b: int|
        0 <= a < r.len() && 0 <= b < r[a].1.len() implies r[a].1[b].id@ != id by {
        if i < s.len() && s[i].0 == k {
            if a == i {
                let os = s[i].1;
                let j = id_index(os, o.id@);
                if b < os.len() && b != j {
                    assert(r[a].1[b] == os[b]);
                }
            } else {
                assert(r[a] == s[a]);
            }
        } else if a < i {
            assert(r[a] == s[a]);
        } else if a > i {
            assert(r[a] == s[a - 1]);
        }
    }
}

/// Adds the orders one after another, each at the key of its price.
pub open spec fn put_all(s: Seq<LevelModel>, os: Seq<Order>, precision: nat) -> Seq<LevelModel>
    decreases os.len(),
{
    if os.len() == 0 {
        s
    } else {
        let o = os.last();
        side_put(put_all(s, os.drop_last(), precision), quantize(o.price, precision), o)
    }
}

proof fn lemma_puts_bring_only_their_ids(
    s: Seq<LevelModel>,
    os: Seq<Order>,
    precision: nat,
    id: Seq<char>,
)
    requires
        !side_has(s, id),
        forall|t: int| 0 <= t < os.len() ==> os[t].id@ != id,
    ensures
        !side_has(put_all(s, os, precision), id),
    decreases os.len(),
{
    if os.len() > 0 {
        lemma_puts_bring_only_their_ids(s, os.drop_last(), precision, id);
        let o = os.last();
        lemma_put_brings_only_its_id(
            put_all(s, os.drop_last(), precision),
            quantize(o.price, precision),
            o,
            id,
        );
    }
}

/// Adding orders with distinct ids, none of them on the side yet, adds exactly
/// their number of orders to the side and exactly the sum of their sizes to its
/// liquidity, orders that share a level included.
pub proof fn lemma_adds_with_distinct_ids(
    s: Seq<LevelModel>,
    side: OrderSide,
    precision: nat,
    os: Seq<Order>,
)
    requires
        side_wf(s, side, precision),
        forall|t: int|
            0 <= t < os.len() ==> os[t].side == side && os[t].quantity.scale <= QUANTITY_SCALE
                && !side_has(s, os[t].id@),
        forall|a: int, b: int| 0 <= a < b < os.len() ==> os[a].id@ != os[b].id@,
        total_orders(s) + os.len() <= usize::MAX,
        total_quantity(s) + quantity_sum(os) <= u128::MAX,
    ensures
        side_wf(put_all(s, os, precision), side, precision),
        total_orders(put_all(s, os, precision)) == total_orders(s) + os.len(),
        total_quantity(put_all(s, os, precision)) == total_quantity(s) + quantity_sum(os),
    decreases os.len(),
{
    if os.len() > 0 {
        let init = os.drop_last();
        let o = os.last();
        lemma_adds_with_distinct_ids(s, side, precision, init);
        let prev = put_all(s, init, precision);
        assert forall|t: int| 0 <= t < init.len() implies init[t].id@ != o.id@ by {
            assert(init[t] == os[t]);
        }
        lemma_puts_bring_only_their_ids(s, init, precision, o.id@);
        lemma_put(prev, side, precision, quantize(o.price, precision), o);
    }
}

/// A level of the book: its key and the orders resting there.
struct Level {
    key: i64,
    orders: Vec<Order>,
}

spec fn levels_model(levels: Seq<Level>) -> Seq<LevelModel> {
    Seq::new(levels.len(), |i: int| (levels[i].key, levels[i].orders@))
}

fn find_in_level(orders: &Vec<Order>, id: &String) -> (j: usize)
    ensures
        j == id_index(orders@, id@),
{
    let mut j: usize = 0;
    while j < orders.len()
        invariant
            j <= orders.len(),
            forall|t: int| 0 <= t < j ==> orders@[t].id@ != id@,
        decreases orders.len() - j,
    {
        if orders[j].id == *id {
            proof {
                lemma_id_index(orders@, id@, j as int);
            }
            return j;
        }
        j = j + 1;
    }
    proof {
        lemma_id_index(orders@, id@, j as int);
    }
    j
}

/// The level and the position in it of the first order with this id.
fn locate(levels: &Vec<Level>, id: &String) -> (r: (usize, usize))
    ensures
        r.0 == id_level(levels_model(levels@), id@),
        r.0 < levels@.len() ==> r.1 == id_index(levels@[r.0 as int].orders@, id@),
{
    let ghost s = levels_model(levels@);
    let mut i: usize = 0;
    while i < levels.len()
        invariant
            i <= levels.len(),
            s == levels_model(levels@),
            forall|t: int| 0 <= t < i ==> id_index(s[t].1, id@) >= s[t].1.len(),
        decreases levels.len() - i,
    {
        let j = find_in_level(&levels[i].orders, id);
        if j < levels[i].orders.len() {
            proof {
                lemma_id_level(s, id@, i as int);
            }
            return (i, j);
        }
        i = i + 1;
    }
    proof {
        lemma_id_level(s, id@, i as int);
    }
    (i, 0)
}

fn put_order(levels: &mut Vec<Level>, k: i64, o: Order)
    ensures
        levels_model(final(levels)@) == side_put(levels_model(old(levels)@), k, o),
{
    let ghost s = levels_model(levels@);
    let mut i: usize = 0;
    while i < levels.len() && levels[i].key < k
        invariant
            i <= levels.len(),
            s == levels_model(levels@),
            forall|t: int| 0 <= t < i ==> s[t].0 < k,
        decreases levels.len() - i,
    {
        i = i + 1;
    }
    proof {
        lemma_keys_below(s, k, i as int);
    }
    if i < levels.len() && levels[i].key == k {
        let mut lvl = levels.remove(i);
        let j = find_in_level(&lvl.orders, &o.id);
        let ghost os = lvl.orders@;
        if j < lvl.orders.len() {
            lvl.orders.remove(j);
            lvl.orders.insert(j, o);
            assert(lvl.orders@ =~= level_put(os, o));
        } else {
            lvl.orders.push(o);
        }
        levels.insert(i, lvl);
        assert(levels_model(levels@) =~= side_put(s, k, o));
    } else {
        let lvl = Level { key: k, orders: vec![o] };
        assert(lvl.orders@ =~= seq![o]);
        levels.insert(i, lvl);
        assert(levels_model(levels@) =~= side_put(s, k, o));
    }
}

fn remove_at(levels: &mut Vec<Level>, i: usize, j: usize) -> (o: Order)
    requires
        i < old(levels)@.len(),
        j < old(levels)@[i as int].orders@.len(),
    ensures
        levels_model(final(levels)@) == remove_entry(levels_model(old(levels)@), i as int, j as int),
        o == old(levels)@[i as int].orders@[j as int],
{
    let ghost s = levels_model(levels@);
    let mut lvl = levels.remove(i);
    let o = lvl.orders.remove(j);
    if lvl.orders.len() > 0 {
        levels.insert(i, lvl);
        assert(levels_model(levels@) =~= remove_entry(s, i as int, j as int));
    } else {
        assert(levels_model(levels@) =~= remove_entry(s, i as int, j as int));
    }
    o
}

fn count_orders(levels: &Vec<Level>) -> (r: usize)
    requires
        total_orders(levels_model(levels@)) <= usize::MAX,
    ensures
        r == total_orders(levels_model(levels@)),
{
    let ghost s = levels_model(levels@);
    let mut acc: usize = 0;
    let mut i: usize = 0;
    while i < levels.len()
        invariant
            i <= levels.len(),
            s == levels_model(levels@),
            total_orders(s) <= usize::MAX,
            acc == level_sum(s.subrange(0, i as int), Measure::Orders),
        decreases levels.len() - i,
    {
        proof {
            assert(s.subrange(0, i + 1).drop_last() =~= s.subrange(0, i as int));
            lemma_level_sum_prefix(s, i + 1, Measure::Orders);
        }
        acc = acc + levels[i].orders.len();
        i = i + 1;
    }
    assert(s.subrange(0, i as int) =~= s);
    acc
}

/// Every size on a side is no finer than `QUANTITY_SCALE`.
pub open spec fn sizes_in_scale(s: Seq<LevelModel>) -> bool {
    forall|i: int, j: int|
        0 <= i < s.len() && 0 <= j < s[i].1.len() ==> s[i].1[j].quantity.scale <= QUANTITY_SCALE
}

fn level_quantity(orders: &Vec<Order>) -> (r: u128)
    requires
        forall|j: int| 0 <= j < orders@.len() ==> orders@[j].quantity.scale <= QUANTITY_SCALE,
        quantity_sum(orders@) <= u128::MAX,
    ensures
        r == quantity_sum(orders@),
{
    let mut acc: u128 = 0;
    let mut j: usize = 0;
    while j < orders.len()
        invariant
            j <= orders.len(),
            forall|t: int| 0 <= t < orders@.len() ==> orders@[t].quantity.scale <= QUANTITY_SCALE,
            quantity_sum(orders@) <= u128::MAX,
            acc == quantity_sum(orders@.subrange(0, j as int)),
        decreases orders.len() - j,
    {
        let ghost next = orders@.subrange(0, j + 1);
        proof {
            assert(next.drop_last() =~= orders@.subrange(0, j as int));
            lemma_quantity_sum_prefix(orders@, j + 1);
        }
        let v = match quantity_units(orders[j].quantity) {
            Some(v) => v,
            None => 0,
        };
        acc = acc + v;
        j = j + 1;
    }
    assert(orders@.subrange(0, j as int) =~= orders@);
    acc
}

fn side_quantity(levels: &Vec<Level>) -> (r: u128)
    requires
        sizes_in_scale(levels_model(levels@)),
        total_quantity(levels_model(levels@)) <= u128::MAX,
    ensures
        r == total_quantity(levels_model(levels@)),
{
    let ghost s = levels_model(levels@);
    let mut acc: u128 = 0;
    let mut i: usize = 0;
    while i < levels.len()
        invariant
            i <= levels.len(),
            s == levels_model(levels@),
            sizes_in_scale(s),
            total_quantity(s) <= u128::MAX,
            acc == level_sum(s.subrange(0, i as int), Measure::Quantity),
        decreases levels.len() - i,
    {
        let ghost next = s.subrange(0, i + 1);
        proof {
            assert(next.drop_last() =~= s.subrange(0, i as int));
            lemma_level_sum_prefix(s, i + 1, Measure::Quantity);
            lemma_level_within_side(s, i as int, Measure::Quantity);
        }
        let q = level_quantity(&levels[i].orders);
        acc = acc + q;
        i = i + 1;
    }
    assert(s.subrange(0, i as int) =~= s);
    acc
}

fn summarize(level: &Level, precision: u32) -> (r: PriceLevel)
    requires
        forall|j: int|
            0 <= j < level.orders@.len() ==> level.orders@[j].quantity.scale <= QUANTITY_SCALE,
        quantity_sum(level.orders@) <= u128::MAX,
    ensures
        r == level_summary((level.key, level.orders@), precision as nat),
{
    PriceLevel {
        price: dequantize_key(level.key, precision),
        total_quantity: Quantity { units: level_quantity(&level.orders), scale: QUANTITY_SCALE },
        order_count: level.orders.len(),
    }
}

pub open spec fn other_side(side: OrderSide) -> OrderSide {
    match side {
        OrderSide::Bid => OrderSide::Ask,
        OrderSide::Ask => OrderSide::Bid,
    }
}

/// An order after an update: the new price and quantity where given, the new
/// timestamp, every other field as it was.
pub open spec fn updated_order(
    o: Order,
    new_price: Option<Price>,
    new_quantity: Option<Quantity>,
    t: i64,
) -> Order {
    Order {
        price: match new_price {
            Some(p) => p,
            None => o.price,
        },
        quantity: match new_quantity {
            Some(q) => q,
            None => o.quantity,
        },
        timestamp: t,
        ..o
    }
}

/// At most `depth` of `n` levels, all of them when there is no depth.
pub open spec fn capped(n: nat, depth: Option<usize>) -> nat {
    match depth {
        Some(d) => if (d as nat) < n {
            d as nat
        } else {
            n
        },
        None => n,
    }
}

/// The midpoint of the best bid and the best ask, at one more decimal place.
pub open spec fn mid_of(bids: Seq<LevelModel>, asks: Seq<LevelModel>, precision: nat) -> Option<Price> {
    if bids.len() == 0 || asks.len() == 0 {
        None
    } else {
        Some(Price { units: ((bids.last().0 + asks[0].0) * 5) as i128, scale: (precision + 1) as u32 })
    }
}

/// The best ask less the best bid; negative when the book is crossed.
pub open spec fn spread_of(bids: Seq<LevelModel>, asks: Seq<LevelModel>, precision: nat) -> Option<Price> {
    if bids.len() == 0 || asks.len() == 0 {
        None
    } else {
        Some(Price { units: (asks[0].0 - bids.last().0) as i128, scale: precision as u32 })
    }
}

/// The order book of one venue and symbol.
pub struct OrderBook {
    venue: String,
    symbol: String,
    bids: Vec<Level>,
    asks: Vec<Level>,
    price_precision: u32,
    last_update_time: i64,
}

impl OrderBook {
    /// The levels of one side, in ascending key order.
    pub closed spec fn side_model(&self, side: OrderSide) -> Seq<LevelModel> {
        match side {
            OrderSide::Bid => levels_model(self.bids@),
            OrderSide::Ask => levels_model(self.asks@),
        }
    }

    pub closed spec fn precision(&self) -> nat {
        self.price_precision as nat
    }

    pub closed spec fn venue_view(&self) -> Seq<char> {
        self.venue@
    }

    pub closed spec fn symbol_view(&self) -> Seq<char> {
        self.symbol@
    }

    /// When the book was last changed, in milliseconds since the Unix epoch.
    pub closed spec fn last_update(&self) -> i64 {
        self.last_update_time
    }

    pub open spec fn wf(&self) -> bool {
        &&& self.precision() <= 18
        &&& side_wf(self.side_model(OrderSide::Bid), OrderSide::Bid, self.precision())
        &&& side_wf(self.side_model(OrderSide::Ask), OrderSide::Ask, self.precision())
    }

    /// Venue, symbol and precision are those of `other`.
    pub open spec fn same_config(&self, other: OrderBook) -> bool {
        &&& self.precision() == other.precision()
        &&& self.venue_view() == other.venue_view()
        &&& self.symbol_view() == other.symbol_view()
    }

    pub open spec fn has_order(&self, id: Seq<char>) -> bool {
        side_has(self.side_model(OrderSide::Bid), id) || side_has(self.side_model(OrderSide::Ask), id)
    }

    /// The side on which an id is looked up first: bids, unless it is only on the asks.
    pub open spec fn found_side(&self, id: Seq<char>) -> OrderSide {
        if side_has(self.side_model(OrderSide::Bid), id) {
            OrderSide::Bid
        } else {
            OrderSide::Ask
        }
    }

    pub open spec fn found_order(&self, id: Seq<char>) -> Order {
        side_find(self.side_model(self.found_side(id)), id)
    }

    /// An empty book for `venue` and `symbol` with prices kept to
    /// `price_precision` decimal places.
    pub fn new(venue: &str, symbol: &str, price_precision: u32) -> (b: Self)
        requires
            price_precision <= 18,
        ensures
            b.wf(),
            b.side_model(OrderSide::Bid) == Seq::<LevelModel>::empty(),
            b.side_model(OrderSide::Ask) == Seq::<LevelModel>::empty(),
            b.precision() == price_precision,
            b.venue_view() == venue@,
            b.symbol_view() == symbol@,
    {
        let b = OrderBook {
            venue: venue.to_owned(),
            symbol: symbol.to_owned(),
            bids: Vec::new(),
            asks: Vec::new(),
            price_precision,
            last_update_time: now_millis(),
        };
        assert(b.side_model(OrderSide::Bid) =~= Seq::<LevelModel>::empty());
        assert(b.side_model(OrderSide::Ask) =~= Seq::<LevelModel>::empty());
        b
    }

    /// Places an order on its side at the key of its price; the time is left alone.
    fn insert_order(&mut self, order: Order)
        requires
            old(self).wf(),
            order.quantity.scale <= QUANTITY_SCALE,
            total_orders(old(self).side_model(order.side)) < usize::MAX,
            total_quantity(old(self).side_model(order.side)) + quantity_value(order.quantity)
                <= u128::MAX,
        ensures
            final(self).wf(),
            final(self).side_model(order.side) == side_put(
                old(self).side_model(order.side),
                quantize(order.price, old(self).precision()),
                order,
            ),
            final(self).side_model(other_side(order.side)) == old(self).side_model(
                other_side(order.side),
            ),
            final(self).same_config(*old(self)),
            final(self).last_update() == old(self).last_update(),
    {
        let ghost o = order;
        let side = order.side;
        let k = quantize_price(order.price, self.price_precision);
        proof {
            lemma_put(self.side_model(side), side, self.precision(), k, o);
        }
        match side {
            OrderSide::Bid => put_order(&mut self.bids, k, order),
            OrderSide::Ask => put_order(&mut self.asks, k, order),
        }
    }

    /// Adds an order at the level of its price, over an order with the same id
    /// at that level. Never fails.
    pub fn add_order(&mut self, order: Order) -> (r: Result<(), BookError>)
        requires
            old(self).wf(),
            order.quantity.scale <= QUANTITY_SCALE,
            total_orders(old(self).side_model(order.side)) < usize::MAX,
            total_quantity(old(self).side_model(order.side)) + quantity_value(order.quantity)
                <= u128::MAX,
        ensures
            final(self).wf(),
            r is Ok,
            final(self).side_model(order.side) == side_put(
                old(self).side_model(order.side),
                quantize(order.price, old(self).precision()),
                order,
            ),
            final(self).side_model(other_side(order.side)) == old(self).side_model(
                other_side(order.side),
            ),
            final(self).same_config(*old(self)),
    {
        self.insert_order(order);
        self.last_update_time = now_millis();
        Ok(())
    }

    /// Where the first order with this id rests: bids first, then asks, levels
    /// in ascending key order.
    fn find_order(&self, id: &String) -> (r: Option<(OrderSide, usize, usize)>)
        requires
            self.wf(),
        ensures
            r is None <==> !self.has_order(id@),
            r matches Some((side, i, j)) ==> side == self.found_side(id@) && i == id_level(
                self.side_model(side),
                id@,
            ) && i < self.side_model(side).len() && j == id_index(
                self.side_model(side)[i as int].1,
                id@,
            ) && j < self.side_model(side)[i as int].1.len(),
    {
        let (i, j) = locate(&self.bids, id);
        proof {
            lemma_id_level_bound(self.side_model(OrderSide::Bid), id@);
            lemma_id_level_bound(self.side_model(OrderSide::Ask), id@);
        }
        if i < self.bids.len() {
            return Some((OrderSide::Bid, i, j));
        }
        let (i, j) = locate(&self.asks, id);
        if i < self.asks.len() {
            return Some((OrderSide::Ask, i, j));
        }
        None
    }

    /// Takes the `j`th order of level `i` off a side, and the level if it empties.
    fn detach(&mut self, side: OrderSide, i: usize, j: usize) -> (o: Order)
        requires
            i < old(self).side_model(side).len(),
            j < old(self).side_model(side)[i as int].1.len(),
        ensures
            final(self).side_model(side) == remove_entry(
                old(self).side_model(side),
                i as int,
                j as int,
            ),
            final(self).side_model(other_side(side)) == old(self).side_model(other_side(side)),
            o == old(self).side_model(side)[i as int].1[j as int],
            final(self).same_config(*old(self)),
            final(self).last_update() == old(self).last_update(),
    {
        match side {
            OrderSide::Bid => remove_at(&mut self.bids, i, j),
            OrderSide::Ask => remove_at(&mut self.asks, i, j),
        }
    }

    /// Changes the price and/or quantity of the order with this id and stamps it
    /// with the current time; it moves to the level of its new price.
    pub fn update_order(
        &mut self,
        order_id: &str,
        new_price: Option<Price>,
        new_quantity: Option<Quantity>,
    ) -> (r: Result<(), BookError>)
        requires
            old(self).wf(),
            new_quantity matches Some(q) ==> q.scale <= QUANTITY_SCALE && total_quantity(
                old(self).side_model(OrderSide::Bid),
            ) + quantity_value(q) <= u128::MAX && total_quantity(
                old(self).side_model(OrderSide::Ask),
            ) + quantity_value(q) <= u128::MAX,
        ensures
            final(self).wf(),
            final(self).same_config(*old(self)),
            r is Err <==> !old(self).has_order(order_id@),
            r is Err ==> r == Err::<(), BookError>(BookError::OrderNotFound) && *final(self) == *old(
                self,
            ),
            r is Ok ==> {
                let side = old(self).found_side(order_id@);
                let u = updated_order(
                    old(self).found_order(order_id@),
                    new_price,
                    new_quantity,
                    final(self).last_update(),
                );
                &&& final(self).side_model(side) == side_put(
                    side_remove(old(self).side_model(side), order_id@),
                    quantize(u.price, old(self).precision()),
                    u,
                )
                &&& final(self).side_model(other_side(side)) == old(self).side_model(
                    other_side(side),
                )
            },
    {
        let id = order_id.to_owned();
        match self.find_order(&id) {
            None => Err(BookError::OrderNotFound),
            Some((side, i, j)) => {
                proof {
                    lemma_remove(self.side_model(side), side, self.precision(), id@);
                    lemma_id_level_bound(self.side_model(side), id@);
                    assert(side_find(self.side_model(side), id@).quantity.scale <= QUANTITY_SCALE);
                }
                let mut o = self.detach(side, i, j);
                let t = now_millis();
                if let Some(p) = new_price {
                    o.price = p;
                }
                if let Some(q) = new_quantity {
                    o.quantity = q;
                }
                o.timestamp = t;
                self.insert_order(o);
                self.last_update_time = t;
                Ok(())
            },
        }
    }

    /// Removes the order with this id; its level goes too if it empties.
    pub fn cancel_order(&mut self, order_id: &str) -> (r: Result<(), BookError>)
        requires
            old(self).wf(),
        ensures
            final(self).wf(),
            final(self).same_config(*old(self)),
            r is Err <==> !old(self).has_order(order_id@),
            r is Err ==> r == Err::<(), BookError>(BookError::OrderNotFound) && *final(self) == *old(
                self,
            ),
            r is Ok ==> {
                let side = old(self).found_side(order_id@);
                &&& final(self).side_model(side) == side_remove(old(self).side_model(side), order_id@)
                &&& final(self).side_model(other_side(side)) == old(self).side_model(
                    other_side(side),
                )
            },
    {
        let id = order_id.to_owned();
        match self.find_order(&id) {
            None => Err(BookError::OrderNotFound),
            Some((side, i, j)) => {
                proof {
                    lemma_remove(self.side_model(side), side, self.precision(), id@);
                }
                self.detach(side, i, j);
                self.last_update_time = now_millis();
                Ok(())
            },
        }
    }
    /// The levels of both sides, best first, at most `depth` of each.
    pub fn get_snapshot(&self, depth: Option<usize>) -> (snap: OrderBookSnapshot)
        requires
            self.wf(),
        ensures
            ({
                let bids = self.side_model(OrderSide::Bid);
                let asks = self.side_model(OrderSide::Ask);
                let p = self.precision();
                &&& snap.bids@.len() == capped(bids.len(), depth)
                &&& forall|t: int|
                    0 <= t < snap.bids@.len() ==> snap.bids@[t] == level_summary(
                        bids[bids.len() - 1 - t],
                        p,
                    )
                &&& snap.asks@.len() == capped(asks.len(), depth)
                &&& forall|t: int|
                    0 <= t < snap.asks@.len() ==> snap.asks@[t] == level_summary(asks[t], p)
                &&& snap.bids@.len() > 0 ==> forall|t: int|
                    0 <= t < bids.len() ==> bids[t].0 <= snap.bids@[0].price.units
                &&& snap.asks@.len() > 0 ==> forall|t: int|
                    0 <= t < asks.len() ==> snap.asks@[0].price.units <= asks[t].0
                &&& snap.timestamp == self.last_update()
                &&& snap.venue@ == self.venue_view()
                &&& snap.symbol@ == self.symbol_view()
            }),
    {
        let ghost bs = self.side_model(OrderSide::Bid);
        let ghost as_ = self.side_model(OrderSide::Ask);
        let max_levels: usize = match depth {
            Some(d) => d,
            None => usize::MAX,
        };
        let mut bids: Vec<PriceLevel> = Vec::new();
        let n = self.bids.len();
        let mut t: usize = 0;
        while t < n && t < max_levels
            invariant
                n == self.bids@.len(),
                bs == levels_model(self.bids@),
                side_wf(bs, OrderSide::Bid, self.price_precision as nat),
                t <= n,
                t <= max_levels,
                max_levels == (match depth {
                    Some(d) => d,
                    None => usize::MAX,
                }),
                bids@.len() == t,
                forall|u: int|
                    0 <= u < t ==> bids@[u] == level_summary(bs[n - 1 - u], self.price_precision as nat),
            decreases n - t,
        {
            proof {
                lemma_level_within_side(bs, n - 1 - t, Measure::Quantity);
                assert(bs[n - 1 - t].1 == self.bids@[n - 1 - t].orders@);
            }
            let lvl = summarize(&self.bids[n - 1 - t], self.price_precision);
            bids.push(lvl);
            t = t + 1;
        }
        let mut asks: Vec<PriceLevel> = Vec::new();
        let n = self.asks.len();
        let mut t: usize = 0;
        while t < n && t < max_levels
            invariant
                n == self.asks@.len(),
                as_ == levels_model(self.asks@),
                side_wf(as_, OrderSide::Ask, self.price_precision as nat),
                t <= n,
                t <= max_levels,
                max_levels == (match depth {
                    Some(d) => d,
                    None => usize::MAX,
                }),
                asks@.len() == t,
                forall|u: int|
                    0 <= u < t ==> asks@[u] == level_summary(as_[u], self.price_precision as nat),
            decreases n - t,
        {
            proof {
                lemma_level_within_side(as_, t as int, Measure::Quantity);
                assert(as_[t as int].1 == self.asks@[t as int].orders@);
            }
            let lvl = summarize(&self.asks[t], self.price_precision);
            asks.push(lvl);
            t = t + 1;
        }
        proof {
            let p = self.price_precision as nat;
            if bids@.len() > 0 {
                let nb = bs.len() as int;
                assert(bids@[0] == level_summary(bs[nb - 1], p));
                assert forall|u: int| 0 <= u < nb implies bs[u].0 <= bids@[0].price.units by {
                    if u < nb - 1 {
                        assert(bs[u].0 < bs[nb - 1].0);
                    }
                }
            }
            if asks@.len() > 0 {
                assert(asks@[0] == level_summary(as_[0], p));
                assert forall|u: int| 0 <= u < as_.len() implies asks@[0].price.units <= as_[u].0 by {
                    if u > 0 {
                        assert(as_[0].0 < as_[u].0);
                    }
                }
            }
        }
        OrderBookSnapshot {
            bids,
            asks,
            timestamp: self.last_update_time,
            venue: self.venue.clone(),
            symbol: self.symbol.clone(),
        }
    }

    /// The midpoint of the best bid and the best ask, when both sides hold orders.
    pub fn get_mid_price(&self) -> (r: Option<Price>)
        requires
            self.wf(),
        ensures
            r == mid_of(
                self.side_model(OrderSide::Bid),
                self.side_model(OrderSide::Ask),
                self.precision(),
            ),
    {
        if self.bids.len() == 0 || self.asks.len() == 0 {
            return None;
        }
        let bid = self.bids[self.bids.len() - 1].key as i128;
        let ask = self.asks[0].key as i128;
        Some(Price { units: (bid + ask) * 5, scale: self.price_precision + 1 })
    }

    /// The best ask less the best bid, when both sides hold orders.
    pub fn get_spread(&self) -> (r: Option<Price>)
        requires
            self.wf(),
        ensures
            r == spread_of(
                self.side_model(OrderSide::Bid),
                self.side_model(OrderSide::Ask),
                self.precision(),
            ),
    {
        if self.bids.len() == 0 || self.asks.len() == 0 {
            return None;
        }
        let bid = self.bids[self.bids.len() - 1].key as i128;
        let ask = self.asks[0].key as i128;
        Some(Price { units: ask - bid, scale: self.price_precision })
    }

    /// The sum of the sizes of all orders on a side, at `QUANTITY_SCALE`.
    pub fn get_total_liquidity(&self, side: OrderSide) -> (r: Quantity)
        requires
            self.wf(),
        ensures
            r == total_of(total_quantity(self.side_model(side))),
    {
        let units = match side {
            OrderSide::Bid => side_quantity(&self.bids),
            OrderSide::Ask => side_quantity(&self.asks),
        };
        Quantity { units, scale: QUANTITY_SCALE }
    }

    /// The number of orders on a side.
    pub fn get_order_count(&self, side: OrderSide) -> (r: usize)
        requires
            self.wf(),
        ensures
            r == total_orders(self.side_model(side)),
    {
        match side {
            OrderSide::Bid => count_orders(&self.bids),
            OrderSide::Ask => count_orders(&self.asks),
        }
    }
}

} // verus!
