//! The resting orders of both sides, indexed by price-time priority and by id.
use std::collections::{BTreeMap, HashMap};
use vstd::prelude::*;
use vstd::std_specs::btree::increasing_seq;
use vstd::std_specs::cmp::OrdSpec;
use vstd::std_specs::iter::IteratorSpec;

use crate::matching::{after_fill, price_crosses, walk};
use crate::queue::{
    behind, best_levels, enqueue, holds, ids_distinct, in_priority_order, lemma_level_none,
    lemma_level_prefix, lemma_levels_push, lemma_newest_price, lemma_prices, lemma_reduce,
    lemma_remove, lemma_rests, lemma_with_order, level_count, level_of, level_qty, levels_fit,
    position,
    precedes, prices, reduced, slot_free, BookView,
};
use crate::types::{BookLevel, OrderBookSnapshot, OrderId, OrderType, RestingOrder, Side};

verus! {

/// The key under which an order is indexed: lower keys trade first.
spec fn key_of(side: Side, price: u64, sequence: u64) -> (u64, u64) {
    match side {
        Side::Bid => ((u64::MAX - price) as u64, sequence),
        Side::Ask => (price, sequence),
    }
}

/// The key of a resting order.
spec fn order_key(o: RestingOrder) -> (u64, u64) {
    key_of(o.side, o.price, o.sequence)
}

/// `index` maps the keys of exactly the orders of `q` to their ids.
spec fn indexes(index: Map<(u64, u64), u64>, q: Seq<RestingOrder>) -> bool {
    &&& forall|i: int|
        0 <= i < q.len() ==> index.contains_key(#[trigger] order_key(q[i])) && index[order_key(
            q[i],
        )] == q[i].id.0
    &&& forall|k: (u64, u64)| #[trigger]
        index.contains_key(k) ==> exists|i: int| 0 <= i < q.len() && #[trigger] order_key(q[i]) == k
}

/// The index key, computed.
fn index_key(side: Side, price: u64, sequence: u64) -> (k: (u64, u64))
    ensures
        k == key_of(side, price, sequence),
{
    match side {
        Side::Bid => (u64::MAX - price, sequence),
        Side::Ask => (price, sequence),
    }
}

/// Lexicographic order of the keys.
spec fn key_less(a: (u64, u64), b: (u64, u64)) -> bool {
    a.0 < b.0 || (a.0 == b.0 && a.1 < b.1)
}

/// `q` is the queue that `index` and `orders` describe.
spec fn is_queue(
    side: Side,
    index: Map<(u64, u64), u64>,
    orders: Map<u64, RestingOrder>,
    q: Seq<RestingOrder>,
) -> bool {
    &&& in_priority_order(side, q)
    &&& indexes(index, q)
    &&& forall|i: int|
        0 <= i < q.len() ==> orders.contains_key((#[trigger] q[i]).id.0) && orders[q[i].id.0]
            == q[i]
}

/// Sequences of keys that increase and hold the same keys are equal.
proof fn lemma_same_keys(a: Seq<(u64, u64)>, b: Seq<(u64, u64)>)
    requires
        forall|i: int, j: int| 0 <= i < j < a.len() ==> key_less(#[trigger] a[i], #[trigger] a[j]),
        forall|i: int, j: int| 0 <= i < j < b.len() ==> key_less(#[trigger] b[i], #[trigger] b[j]),
        forall|k: (u64, u64)| #[trigger] a.contains(k) <==> b.contains(k),
    ensures
        a == b,
    decreases a.len(),
{
    if a.len() == 0 {
        if b.len() > 0 {
            assert(b.contains(b[0]));
            assert(a.contains(b[0]));
        }
        assert(a =~= b);
    } else {
        assert(a.contains(a.last()));
        assert(b.contains(a.last()));
        let j = choose|j: int| 0 <= j < b.len() && b[j] == a.last();
        assert(b.contains(b.last()));
        assert(a.contains(b.last()));
        let i = choose|i: int| 0 <= i < a.len() && a[i] == b.last();
        if j < b.len() - 1 {
            assert(key_less(b[j], b[b.len() - 1]));
            if i < a.len() - 1 {
                assert(key_less(a[i], a[a.len() - 1]));
            }
        }
        assert(a.last() == b.last());
        let a1 = a.drop_last();
        let b1 = b.drop_last();
        assert forall|k: (u64, u64)| #[trigger] a1.contains(k) <==> b1.contains(k) by {
            if a1.contains(k) {
                let x = choose|x: int| 0 <= x < a1.len() && a1[x] == k;
                assert(a[x] == k);
                assert(key_less(a[x], a[a.len() - 1]));
                assert(a.contains(k));
                let y = choose|y: int| 0 <= y < b.len() && b[y] == k;
                assert(b1[y] == k);
            }
            if b1.contains(k) {
                let x = choose|x: int| 0 <= x < b1.len() && b1[x] == k;
                assert(b[x] == k);
                assert(key_less(b[x], b[b.len() - 1]));
                assert(b.contains(k));
                assert(a.contains(k));
                let y = choose|y: int| 0 <= y < a.len() && a[y] == k;
                assert(a1[y] == k);
            }
        }
        lemma_same_keys(a1, b1);
        assert(a =~= a1.push(a.last()));
        assert(b =~= b1.push(b.last()));
    }
}

/// The keys of a queue.
spec fn keys_of(q: Seq<RestingOrder>) -> Seq<(u64, u64)> {
    Seq::new(q.len(), |i: int| order_key(q[i]))
}

/// The keys of a queue increase.
proof fn lemma_keys_increase(side: Side, q: Seq<RestingOrder>)
    requires
        in_priority_order(side, q),
    ensures
        forall|i: int, j: int|
            0 <= i < j < q.len() ==> key_less(#[trigger] keys_of(q)[i], #[trigger] keys_of(q)[j]),
{
    assert forall|i: int, j: int| 0 <= i < j < q.len() implies key_less(
        #[trigger] keys_of(q)[i],
        #[trigger] keys_of(q)[j],
    ) by {
        assert(precedes(side, q[i], q[j]));
    }
}

/// The keys of a queue are those of its index.
proof fn lemma_keys_contains(index: Map<(u64, u64), u64>, q: Seq<RestingOrder>)
    requires
        indexes(index, q),
    ensures
        forall|k: (u64, u64)| #[trigger] keys_of(q).contains(k) <==> index.contains_key(k),
{
    assert forall|k: (u64, u64)| #[trigger] keys_of(q).contains(k) <==> index.contains_key(k) by {
        if index.contains_key(k) {
            let i = choose|i: int| 0 <= i < q.len() && #[trigger] order_key(q[i]) == k;
            assert(keys_of(q)[i] == k);
        }
        if keys_of(q).contains(k) {
            let i = choose|i: int| 0 <= i < keys_of(q).len() && keys_of(q)[i] == k;
            assert(order_key(q[i]) == k);
        }
    }
}

/// An index and a table describe one queue at most.
proof fn lemma_queue_unique(
    side: Side,
    index: Map<(u64, u64), u64>,
    orders: Map<u64, RestingOrder>,
    a: Seq<RestingOrder>,
    b: Seq<RestingOrder>,
)
    requires
        is_queue(side, index, orders, a),
        is_queue(side, index, orders, b),
    ensures
        a == b,
{
    lemma_keys_increase(side, a);
    lemma_keys_increase(side, b);
    lemma_keys_contains(index, a);
    lemma_keys_contains(index, b);
    assert forall|k: (u64, u64)| #[trigger] keys_of(a).contains(k) <==> keys_of(b).contains(k) by {
        assert(keys_of(a).contains(k) <==> index.contains_key(k));
    }
    lemma_same_keys(keys_of(a), keys_of(b));
    assert(a.len() == keys_of(a).len());
    assert forall|i: int| 0 <= i < a.len() implies a[i] == b[i] by {
        assert(keys_of(a)[i] == order_key(a[i]));
        assert(keys_of(b)[i] == order_key(b[i]));
        assert(a[i].id.0 == b[i].id.0);
    }
    assert(a =~= b);
}

/// The order of a pair of integers is the lexicographic one.
proof fn lemma_increasing(keys: Seq<(u64, u64)>)
    requires
        increasing_seq(keys),
    ensures
        forall|i: int, j: int|
            0 <= i < j < keys.len() ==> key_less(#[trigger] keys[i], #[trigger] keys[j]),
{
    assert forall|i: int, j: int| 0 <= i < j < keys.len() implies key_less(
        #[trigger] keys[i],
        #[trigger] keys[j],
    ) by {
        assert(keys[i].cmp_spec(&keys[j]) is Less);
    }
}

/// `id` stands under the lowest key of the index, if there is any.
spec fn is_first(index: Map<(u64, u64), u64>, id: Option<u64>) -> bool {
    match id {
        None => forall|k: (u64, u64)| !(#[trigger] index.contains_key(k)),
        Some(id) => exists|k: (u64, u64)|
            {
                &&& #[trigger] index.contains_key(k)
                &&& index[k] == id
                &&& forall|j: (u64, u64)| #[trigger]
                    index.contains_key(j) ==> j == k || key_less(k, j)
            },
    }
}

/// The lowest key of an index belongs to the head of the queue.
proof fn lemma_first(
    side: Side,
    index: Map<(u64, u64), u64>,
    q: Seq<RestingOrder>,
    id: Option<u64>,
)
    requires
        in_priority_order(side, q),
        indexes(index, q),
        is_first(index, id),
    ensures
        id == (if q.len() == 0 {
            None
        } else {
            Some(q[0].id.0)
        }),
{
    lemma_keys_increase(side, q);
    if q.len() > 0 {
        assert(index.contains_key(order_key(q[0])));
        let k = choose|k: (u64, u64)|
            {
                &&& #[trigger] index.contains_key(k)
                &&& index[k] == id->0
                &&& forall|j: (u64, u64)| #[trigger]
                    index.contains_key(j) ==> j == k || key_less(k, j)
            };
        let i = choose|i: int| 0 <= i < q.len() && #[trigger] order_key(q[i]) == k;
        if i > 0 {
            assert(key_less(keys_of(q)[0], keys_of(q)[i]));
        }
    } else if let Some(x) = id {
        let k = choose|k: (u64, u64)| #[trigger] index.contains_key(k) && index[k] == x;
        assert(exists|i: int| 0 <= i < q.len() && #[trigger] order_key(q[i]) == k);
    }
}

/// The id under the lowest key of an index.
fn first_id(index: &BTreeMap<(u64, u64), u64>) -> (id: Option<u64>)
    ensures
        is_first(index@, id),
{
    for kv in entries: index.iter()
        invariant
            entries.index() == 0,
            entries.seq() == vstd::std_specs::btree::spec_btree_map_iter(index).remaining(),
            increasing_seq(entries.seq().map_values(|kv: (&(u64, u64), &u64)| *kv.0)),
    {
        let ghost keys = entries.seq().map_values(|kv: (&(u64, u64), &u64)| *kv.0);
        proof {
            let k = *kv.0;
            assert(keys[0] == k);
            lemma_increasing(keys);
            assert(index@.contains_key(k));
            assert forall|j: (u64, u64)| #[trigger]
                index@.contains_key(j) implies j == k || key_less(k, j) by {
                let v = entries.seq();
                assert(v.contains((&j, &index@[j])));
                let i = choose|i: int| 0 <= i < v.len() && v[i] == (&j, &index@[j]);
                assert(keys[i] == j);
            }
        }
        return Some(*kv.1);
    }
    proof {
        assert forall|k: (u64, u64)| !(#[trigger] index@.contains_key(k)) by {
            if index@.contains_key(k) {
                assert(vstd::std_specs::btree::spec_btree_map_iter(index).remaining().contains(
                    (&k, &index@[k]),
                ));
            }
        }
    }
    None
}

/// `entries` lists the orders of `q`, in their order.
spec fn lists(entries: Seq<(&(u64, u64), &u64)>, q: Seq<RestingOrder>) -> bool {
    &&& entries.len() == q.len()
    &&& forall|i: int| 0 <= i < q.len() ==> *(#[trigger] entries[i]).1 == q[i].id.0
}

/// The entries of an index, lowest key first, list the queue.
proof fn lemma_entries(
    side: Side,
    index: Map<(u64, u64), u64>,
    q: Seq<RestingOrder>,
    entries: Seq<(&(u64, u64), &u64)>,
)
    requires
        in_priority_order(side, q),
        indexes(index, q),
        increasing_seq(entries.map_values(|kv: (&(u64, u64), &u64)| *kv.0)),
        forall|i: int|
            0 <= i < entries.len() ==> index.contains_key(*(#[trigger] entries[i]).0)
                && index[*entries[i].0] == *entries[i].1,
        forall|k: (u64, u64)| #[trigger]
            index.contains_key(k) ==> entries.contains((&k, &index[k])),
    ensures
        lists(entries, q),
{
    let keys = entries.map_values(|kv: (&(u64, u64), &u64)| *kv.0);
    lemma_increasing(keys);
    lemma_keys_increase(side, q);
    lemma_keys_contains(index, q);
    assert forall|k: (u64, u64)| #[trigger] keys.contains(k) <==> keys_of(q).contains(k) by {
        assert(keys_of(q).contains(k) <==> index.contains_key(k));
        if keys.contains(k) {
            let i = choose|i: int| 0 <= i < keys.len() && keys[i] == k;
            assert(*entries[i].0 == k);
        }
        if index.contains_key(k) {
            assert(entries.contains((&k, &index[k])));
            let i = choose|i: int| 0 <= i < entries.len() && entries[i] == (&k, &index[k]);
            assert(keys[i] == k);
        }
    }
    lemma_same_keys(keys, keys_of(q));
    assert(entries.len() == keys.len());
    assert(keys_of(q).len() == q.len());
    assert forall|i: int| 0 <= i < q.len() implies *(#[trigger] entries[i]).1 == q[i].id.0 by {
        assert(keys[i] == *entries[i].0);
        assert(keys_of(q)[i] == order_key(q[i]));
    }
}

/// An order put in the index and the table goes to its place in the queue.
proof fn lemma_queue_insert(
    side: Side,
    index: Map<(u64, u64), u64>,
    orders: Map<u64, RestingOrder>,
    q: Seq<RestingOrder>,
    order: RestingOrder,
)
    requires
        is_queue(side, index, orders, q),
        order.side == side,
        in_priority_order(side, enqueue(side, q, order)),
        behind(side, q, order) <= q.len(),
        slot_free(q, order.price, order.sequence),
        !holds(q, order.id.0),
    ensures
        is_queue(
            side,
            index.insert(order_key(order), order.id.0),
            orders.insert(order.id.0, order),
            enqueue(side, q, order),
        ),
{
    let k = q.len() - behind(side, q, order);
    let r = enqueue(side, q, order);
    let key = order_key(order);
    let index1 = index.insert(key, order.id.0);
    assert forall|i: int| 0 <= i < q.len() implies #[trigger] order_key(q[i]) != key by {
        assert(q[i].side == side);
    }
    assert forall|i: int| 0 <= i < q.len() implies (#[trigger] q[i]).id.0 != order.id.0 by {
        if q[i].id.0 == order.id.0 {
            assert(holds(q, order.id.0));
        }
    }
    assert forall|i: int| 0 <= i < r.len() implies index1.contains_key(#[trigger] order_key(r[i]))
        && index1[order_key(r[i])] == r[i].id.0 by {
        if i < k {
            assert(r[i] == q[i]);
            assert(index.contains_key(order_key(q[i])));
        } else if i > k {
            assert(r[i] == q[i - 1]);
            assert(index.contains_key(order_key(q[i - 1])));
        }
    }
    assert forall|x: (u64, u64)| #[trigger] index1.contains_key(x) implies exists|i: int|
        0 <= i < r.len() && #[trigger] order_key(r[i]) == x by {
        if x == key {
            assert(order_key(r[k]) == x);
        } else {
            assert(index.contains_key(x));
            let i = choose|i: int| 0 <= i < q.len() && #[trigger] order_key(q[i]) == x;
            let j = if i < k {
                i
            } else {
                i + 1
            };
            assert(r[j] == q[i]);
            assert(order_key(r[j]) == x);
        }
    }
    let orders1 = orders.insert(order.id.0, order);
    assert forall|i: int| 0 <= i < r.len() implies orders1.contains_key((#[trigger] r[i]).id.0)
        && orders1[r[i].id.0] == r[i] by {
        if i < k {
            assert(r[i] == q[i]);
        } else if i > k {
            assert(r[i] == q[i - 1]);
        }
    }
}

/// An order taken out of the index and the table leaves the queue.
proof fn lemma_queue_remove(
    side: Side,
    index: Map<(u64, u64), u64>,
    orders: Map<u64, RestingOrder>,
    q: Seq<RestingOrder>,
    p: int,
)
    requires
        is_queue(side, index, orders, q),
        ids_distinct(q),
        0 <= p < q.len(),
    ensures
        is_queue(side, index.remove(order_key(q[p])), orders.remove(q[p].id.0), q.remove(p)),
{
    let r = q.remove(p);
    let index1 = index.remove(order_key(q[p]));
    let orders1 = orders.remove(q[p].id.0);
    lemma_keys_increase(side, q);
    assert forall|i: int| 0 <= i < q.len() && i != p implies #[trigger] order_key(q[i])
        != order_key(q[p]) by {
        if i < p {
            assert(key_less(keys_of(q)[i], keys_of(q)[p]));
        } else {
            assert(key_less(keys_of(q)[p], keys_of(q)[i]));
        }
    }
    assert forall|i: int| 0 <= i < r.len() implies index1.contains_key(#[trigger] order_key(r[i]))
        && index1[order_key(r[i])] == r[i].id.0 by {
        let j = if i < p {
            i
        } else {
            i + 1
        };
        assert(r[i] == q[j]);
        assert(index.contains_key(order_key(q[j])));
    }
    assert forall|x: (u64, u64)| #[trigger] index1.contains_key(x) implies exists|i: int|
        0 <= i < r.len() && #[trigger] order_key(r[i]) == x by {
        assert(index.contains_key(x));
        let j = choose|j: int| 0 <= j < q.len() && #[trigger] order_key(q[j]) == x;
        let i = if j < p {
            j
        } else {
            j - 1
        };
        assert(r[i] == q[j]);
        assert(order_key(r[i]) == x);
    }
    assert forall|i: int| 0 <= i < r.len() implies orders1.contains_key((#[trigger] r[i]).id.0)
        && orders1[r[i].id.0] == r[i] by {
        let j = if i < p {
            i
        } else {
            i + 1
        };
        assert(r[i] == q[j]);
    }
}

/// An order of one side does not rest on the other.
proof fn lemma_absent_opposite(book: BookView, side: Side, p: int)
    requires
        book.wf(),
        0 <= p < book.side(side).len(),
    ensures
        !holds(book.side(side.opposite()), book.side(side)[p].id.0),
{
    let q = book.side(side.opposite());
    let id = book.side(side)[p].id.0;
    if holds(q, id) {
        let i = position(q, id);
        assert(0 <= i < q.len() && q[i].id.0 == id);
    }
}

/// A change of the table that concerns no order of the queue leaves the queue as it is.
proof fn lemma_queue_untouched(
    side: Side,
    index: Map<(u64, u64), u64>,
    before: Map<u64, RestingOrder>,
    after: Map<u64, RestingOrder>,
    q: Seq<RestingOrder>,
    id: u64,
)
    requires
        is_queue(side, index, before, q),
        !holds(q, id),
        after.remove(id) =~= before.remove(id),
    ensures
        is_queue(side, index, after, q),
{
    assert forall|i: int| 0 <= i < q.len() implies after.contains_key((#[trigger] q[i]).id.0)
        && after[q[i].id.0] == q[i] by {
        if q[i].id.0 == id {
            assert(holds(q, id));
        }
        assert(before.remove(id).contains_key(q[i].id.0));
        assert(after.remove(id).contains_key(q[i].id.0));
        assert(before.remove(id)[q[i].id.0] == after.remove(id)[q[i].id.0]);
    }
}

/// The orders that rest on the two sides.
#[derive(Debug)]
pub struct OrderBook {
    asks: BTreeMap<(u64, u64), u64>,
    bids: BTreeMap<(u64, u64), u64>,
    orders: HashMap<u64, RestingOrder>,
}

impl View for OrderBook {
    type V = BookView;

    closed spec fn view(&self) -> BookView {
        BookView {
            bids: choose|q: Seq<RestingOrder>| is_queue(Side::Bid, self.bids@, self.orders@, q),
            asks: choose|q: Seq<RestingOrder>| is_queue(Side::Ask, self.asks@, self.orders@, q),
        }
    }
}

impl OrderBook {
    /// The index of one side.
    spec fn index(&self, side: Side) -> Map<(u64, u64), u64> {
        match side {
            Side::Bid => self.bids@,
            Side::Ask => self.asks@,
        }
    }

    /// The indices and the table of orders hold exactly the orders of the two queues.
    pub closed spec fn wf(&self) -> bool {
        &&& self@.wf()
        &&& is_queue(Side::Bid, self.bids@, self.orders@, self@.bids)
        &&& is_queue(Side::Ask, self.asks@, self.orders@, self@.asks)
        &&& forall|id: u64| #[trigger] self.orders@.contains_key(id) ==> self@.rests(id)
    }

    /// Queues that fit the indices and the table are what the book shows.
    proof fn lemma_view(&self, shown: BookView)
        requires
            is_queue(Side::Bid, self.bids@, self.orders@, shown.bids),
            is_queue(Side::Ask, self.asks@, self.orders@, shown.asks),
        ensures
            self@ == shown,
            is_queue(Side::Bid, self.bids@, self.orders@, self@.bids),
            is_queue(Side::Ask, self.asks@, self.orders@, self@.asks),
    {
        lemma_queue_unique(Side::Bid, self.bids@, self.orders@, self@.bids, shown.bids);
        lemma_queue_unique(Side::Ask, self.asks@, self.orders@, self@.asks, shown.asks);
    }

    /// What the two queues of a book are always like.
    pub proof fn lemma_wf(&self)
        requires
            self.wf(),
        ensures
            self@.wf(),
    {
    }

    pub fn new() -> (book: OrderBook)
        ensures
            book.wf(),
            book@ == BookView::empty(),
    {
        let book = OrderBook {
            asks: BTreeMap::new(),
            bids: BTreeMap::new(),
            orders: HashMap::new(),
        };
        proof {
            book.lemma_view(BookView::empty());
        }
        book
    }

    pub fn best_ask_id(&self) -> (id: Option<OrderId>)
        requires
            self.wf(),
        ensures
            id == (if self@.asks.len() == 0 {
                None
            } else {
                Some(self@.asks[0].id)
            }),
    {
        let first = first_id(&self.asks);
        proof {
            lemma_first(Side::Ask, self.asks@, self@.asks, first);
        }
        match first {
            Some(id) => Some(OrderId(id)),
            None => None,
        }
    }

    pub fn best_bid_id(&self) -> (id: Option<OrderId>)
        requires
            self.wf(),
        ensures
            id == (if self@.bids.len() == 0 {
                None
            } else {
                Some(self@.bids[0].id)
            }),
    {
        let first = first_id(&self.bids);
        proof {
            lemma_first(Side::Bid, self.bids@, self@.bids, first);
        }
        match first {
            Some(id) => Some(OrderId(id)),
            None => None,
        }
    }

    /// Puts an order in at its place in the priority of its side.
    pub fn insert(&mut self, order: RestingOrder)
        requires
            old(self).wf(),
            !old(self)@.rests(order.id.0),
            slot_free(old(self)@.side(order.side), order.price, order.sequence),
        ensures
            final(self).wf(),
            final(self)@ == old(self)@.with_order(order),
    {
        let id = order.id.0;
        let key = index_key(order.side, order.price, order.sequence);
        let ghost shown = self@.with_order(order);
        proof {
            lemma_with_order(self@, order);
        }
        self.orders.insert(id, order);
        match order.side {
            Side::Ask => {
                self.asks.insert(key, id);
            },
            Side::Bid => {
                self.bids.insert(key, id);
            },
        }
        proof {
            let before = old(self)@;
            let side = order.side;
            lemma_queue_insert(
                side,
                old(self).index(side),
                old(self).orders@,
                before.side(side),
                order,
            );
            lemma_queue_untouched(
                side.opposite(),
                self.index(side.opposite()),
                old(self).orders@,
                self.orders@,
                before.side(side.opposite()),
                id,
            );
            self.lemma_view(shown);
            assert forall|x: u64| #[trigger] self.orders@.contains_key(x) implies self@.rests(x) by {
                let q = before.side(side);
                let k = q.len() - behind(side, q, order);
                let r = self@.side(side);
                if x == id {
                    assert(r[k].id.0 == id);
                } else {
                    lemma_rests(before, x);
                    let s = before.order(x).side;
                    let p = position(before.side(s), x);
                    let t = self@.side(s);
                    if s == side {
                        assert(t[if p < k {
                            p
                        } else {
                            p + 1
                        }] == q[p]);
                    } else {
                        assert(t[p] == before.side(s)[p]);
                    }
                    assert(holds(t, x));
                }
            }
        }
    }

    pub fn get(&self, id: OrderId) -> (order: Option<&RestingOrder>)
        requires
            self.wf(),
        ensures
            match order {
                Some(order) => self@.rests(id.0) && *order == self@.order(id.0),
                None => !self@.rests(id.0),
            },
    {
        proof {
            if self@.rests(id.0) {
                lemma_rests(self@, id.0);
            }
        }
        self.orders.get(&id.0)
    }

    /// Takes `by` of the order with this id; the order keeps its place.
    pub fn reduce(&mut self, id: OrderId, by: u64)
        requires
            old(self).wf(),
            old(self)@.rests(id.0),
            by <= old(self)@.order(id.0).qty_remaining,
        ensures
            final(self).wf(),
            final(self)@ == old(self)@.reduced(id.0, by),
    {
        let ghost before = self@;
        let ghost side = before.order(id.0).side;
        let ghost q = before.side(side);
        let ghost p = position(q, id.0);
        proof {
            lemma_rests(before, id.0);
            lemma_reduce(before, side, p, by);
        }
        if let Some(order) = self.orders.get(&id.0) {
            let mut left: RestingOrder = *order;
            left.qty_remaining = left.qty_remaining - by;
            self.orders.insert(id.0, left);
        }
        proof {
            let r = q.update(p, reduced(q[p], by));
            assert(self.orders@ == old(self).orders@.insert(id.0, r[p]));
            assert(is_queue(side, self.index(side), self.orders@, r)) by {
                assert forall|i: int| 0 <= i < r.len() implies self.index(side).contains_key(
                    #[trigger] order_key(r[i]),
                ) && self.index(side)[order_key(r[i])] == r[i].id.0 by {
                    assert(order_key(r[i]) == order_key(q[i]));
                }
                assert forall|x: (u64, u64)| #[trigger]
                    self.index(side).contains_key(x) implies exists|i: int|
                    0 <= i < r.len() && #[trigger] order_key(r[i]) == x by {
                    let i = choose|i: int| 0 <= i < q.len() && #[trigger] order_key(q[i]) == x;
                    assert(order_key(r[i]) == order_key(q[i]));
                }
                assert forall|i: int| 0 <= i < r.len() implies self.orders@.contains_key(
                    (#[trigger] r[i]).id.0,
                ) && self.orders@[r[i].id.0] == r[i] by {
                    assert(q[i].id.0 == r[i].id.0);
                }
            }
            lemma_absent_opposite(before, side, p);
            lemma_queue_untouched(
                side.opposite(),
                self.index(side.opposite()),
                old(self).orders@,
                self.orders@,
                before.side(side.opposite()),
                id.0,
            );
            self.lemma_view(before.reduced(id.0, by));
            assert forall|x: u64| #[trigger] self.orders@.contains_key(x) implies self@.rests(x) by {
                lemma_rests(before, x);
                let s = before.order(x).side;
                let k = position(before.side(s), x);
                assert(self@.side(s)[k].id.0 == x);
            }
        }
    }

    /// Takes the order with this id out of the book.
    pub fn remove(&mut self, id: OrderId) -> (order: Option<RestingOrder>)
        requires
            old(self).wf(),
        ensures
            final(self).wf(),
            match order {
                Some(order) => {
                    &&& old(self)@.rests(id.0)
                    &&& order == old(self)@.order(id.0)
                    &&& final(self)@ == old(self)@.without(id.0)
                },
                None => !old(self)@.rests(id.0) && final(self)@ == old(self)@,
            },
    {
        let ghost before = self@;
        let removed = self.orders.remove(&id.0);
        match removed {
            None => {
                proof {
                    if before.rests(id.0) {
                        lemma_rests(before, id.0);
                    }
                    assert(self.orders@ =~= old(self).orders@);
                }
                None
            },
            Some(order) => {
                let key = index_key(order.side, order.price, order.sequence);
                match order.side {
                    Side::Ask => {
                        self.asks.remove(&key);
                    },
                    Side::Bid => {
                        self.bids.remove(&key);
                    },
                }
                proof {
                    lemma_rests(before, id.0);
                    let side = order.side;
                    let q = before.side(side);
                    let p = position(q, id.0);
                    lemma_remove(before, side, p);
                    lemma_queue_remove(side, old(self).index(side), old(self).orders@, q, p);
                    lemma_absent_opposite(before, side, p);
                    lemma_queue_untouched(
                        side.opposite(),
                        self.index(side.opposite()),
                        old(self).orders@,
                        self.orders@,
                        before.side(side.opposite()),
                        id.0,
                    );
                    self.lemma_view(before.without(id.0));
                    assert forall|x: u64| #[trigger]
                        self.orders@.contains_key(x) implies self@.rests(x) by {
                        lemma_rests(before, x);
                        let s = before.order(x).side;
                        let k = position(before.side(s), x);
                        let j = if s == side && k > p {
                            k - 1
                        } else {
                            k
                        };
                        assert(self@.side(s)[j].id.0 == x);
                    }
                }
                Some(order)
            },
        }
    }

    /// The quantity and the number of orders that rest at one price.
    pub fn level_at_price(&self, side: Side, price: u64) -> (level: BookLevel)
        requires
            self.wf(),
            level_qty(self@.side(side), price) <= u64::MAX,
            level_count(self@.side(side), price) <= u32::MAX,
        ensures
            level == level_of(self@.side(side), price),
    {
        let index = match side {
            Side::Bid => &self.bids,
            Side::Ask => &self.asks,
        };
        let ghost q = self@.side(side);
        let mut qty: u64 = 0;
        let mut count: u32 = 0;
        let walk = index.iter();
        proof {
            lemma_entries(side, index@, q, walk.remaining());
        }
        for kv in entries: walk
            invariant
                self.wf(),
                q == self@.side(side),
                is_queue(side, index@, self.orders@, q),
                lists(entries.seq(), q),
                level_qty(q, price) <= u64::MAX,
                level_count(q, price) <= u32::MAX,
                qty == level_qty(q.take(entries.index() as int), price),
                count == level_count(q.take(entries.index() as int), price),
        {
            proof {
                let i = entries.index() as int;
                assert(q.take(i + 1).drop_last() =~= q.take(i));
                lemma_level_prefix(q, i + 1, price);
            }
            if let Some(order) = self.orders.get(kv.1) {
                if order.price == price {
                    qty = qty + order.qty_remaining;
                    count = count + 1;
                }
            }
        }
        assert(q.take(q.len() as int) =~= q);
        BookLevel { price, qty, order_count: count }
    }

    /// The levels of one side, best first, at most `depth` of them.
    fn aggregate(&self, side: Side, depth: usize) -> (levels: Vec<BookLevel>)
        requires
            self.wf(),
            levels_fit(self@.side(side)),
        ensures
            levels@ == best_levels(self@.side(side), depth as nat),
    {
        let index = match side {
            Side::Bid => &self.bids,
            Side::Ask => &self.asks,
        };
        let ghost q = self@.side(side);
        let mut levels: Vec<BookLevel> = Vec::new();
        let walk = index.iter();
        proof {
            lemma_entries(side, index@, q, walk.remaining());
            assert(levels@ =~= best_levels(q.take(0), prices(q.take(0)).len()));
        }
        for kv in entries: walk
            invariant
                self.wf(),
                q == self@.side(side),
                is_queue(side, index@, self.orders@, q),
                lists(entries.seq(), q),
                levels_fit(q),
                levels@ == best_levels(
                    q.take(entries.index() as int),
                    prices(q.take(entries.index() as int)).len(),
                ),
        {
            let ghost i = entries.index() as int;
            let ghost r = q.take(i + 1);
            proof {
                assert(r.drop_last() =~= q.take(i));
                lemma_levels_push(side, r);
                lemma_level_prefix(q, i + 1, q[i].price);
            }
            if let Some(order) = self.orders.get(kv.1) {
                let n = levels.len();
                if n > 0 && levels[n - 1].price == order.price {
                    let known = levels[n - 1];
                    proof {
                        assert(known == level_of(q.take(i), order.price));
                        lemma_level_prefix(q, i, order.price);
                    }
                    levels.set(
                        n - 1,
                        BookLevel {
                            price: known.price,
                            qty: known.qty + order.qty_remaining,
                            order_count: known.order_count + 1,
                        },
                    );
                } else {
                    proof {
                        lemma_prices(side, q.take(i));
                        lemma_newest_price(side, r);
                        assert(!prices(q.take(i)).contains(order.price));
                        assert(level_count(q.take(i), order.price) == 0);
                        lemma_level_none(q.take(i), order.price);
                    }
                    levels.push(
                        BookLevel { price: order.price, qty: order.qty_remaining, order_count: 1 },
                    );
                }
            }
        }
        assert(q.take(q.len() as int) =~= q);
        levels.truncate(depth);
        assert(levels@ =~= best_levels(q, depth as nat));
        levels
    }

    /// The bid levels, highest price first.
    pub fn aggregate_bids(&self, depth: usize) -> (levels: Vec<BookLevel>)
        requires
            self.wf(),
            levels_fit(self@.bids),
        ensures
            levels@ == best_levels(self@.bids, depth as nat),
    {
        self.aggregate(Side::Bid, depth)
    }

    /// The ask levels, lowest price first.
    pub fn aggregate_asks(&self, depth: usize) -> (levels: Vec<BookLevel>)
        requires
            self.wf(),
            levels_fit(self@.asks),
        ensures
            levels@ == best_levels(self@.asks, depth as nat),
    {
        self.aggregate(Side::Ask, depth)
    }

    /// The best `depth` levels of both sides.
    pub fn snapshot(&self, depth: usize) -> (snapshot: OrderBookSnapshot)
        requires
            self.wf(),
            self@.fits(),
        ensures
            snapshot.bids@ == best_levels(self@.bids, depth as nat),
            snapshot.asks@ == best_levels(self@.asks, depth as nat),
    {
        OrderBookSnapshot { bids: self.aggregate_bids(depth), asks: self.aggregate_asks(depth) }
    }

    /// What would be left of an order that was matched against the book as it stands.
    pub fn left_after_matching(
        &self,
        side: Side,
        order_type: OrderType,
        qty: u64,
        max_matches: u32,
    ) -> (left: u64)
        requires
            self.wf(),
        ensures
            left == walk(
                side,
                order_type,
                self@.side(side.opposite()),
                qty,
                max_matches as nat,
            ).remaining,
    {
        let ghost other = side.opposite();
        let index = match side {
            Side::Bid => &self.asks,
            Side::Ask => &self.bids,
        };
        let ghost q = self@.side(other);
        let mut left: u64 = qty;
        let mut touched: u32 = 0;
        let makers = index.iter();
        proof {
            lemma_entries(other, index@, q, makers.remaining());
            assert(q.skip(0) =~= q);
        }
        for kv in entries: makers
            invariant
                self.wf(),
                other == side.opposite(),
                q == self@.side(other),
                is_queue(other, index@, self.orders@, q),
                lists(entries.seq(), q),
                touched == entries.index(),
                touched <= max_matches,
                walk(side, order_type, q, qty, max_matches as nat).remaining == walk(
                    side,
                    order_type,
                    q.skip(entries.index() as int),
                    left,
                    (max_matches - touched) as nat,
                ).remaining,
        {
            let ghost i = entries.index() as int;
            proof {
                assert(q.skip(i)[0] == q[i]);
                assert(q.skip(i).drop_first() =~= q.skip(i + 1));
            }
            if touched == max_matches || left == 0 {
                return left;
            }
            if let Some(maker) = self.orders.get(kv.1) {
                if !price_crosses(side, order_type, maker.price) {
                    return left;
                }
                if left < maker.qty_remaining {
                    assert(walk(
                        side,
                        order_type,
                        after_fill(q.skip(i), left),
                        0,
                        (max_matches - touched - 1) as nat,
                    ).remaining == 0);
                    return 0;
                }
                left = left - maker.qty_remaining;
                touched = touched + 1;
            }
        }
        left
    }
}

} // verus!
