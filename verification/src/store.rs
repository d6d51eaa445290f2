//! The orders that this process has placed, and how they fared.
use crate::clock::UnixTime;
use crate::protocol;
use crate::text;
use std::collections::HashMap;
use vstd::prelude::*;

verus! {

/// How far an order has got.
#[derive(Debug, PartialEq, Eq)]
pub enum OrderStatus {
    Sending,
    Receipt,
    Declined(String),
    Delivered,
    Failed(String),
    Error(String),
}

/// What an [`OrderStatus`] holds.
#[verifier::ext_equal]
pub enum StatusView {
    Sending,
    Receipt,
    Declined(Seq<char>),
    Delivered,
    Failed(Seq<char>),
    Error(Seq<char>),
}

impl View for OrderStatus {
    type V = StatusView;

    open spec fn view(&self) -> StatusView {
        match self {
            OrderStatus::Sending => StatusView::Sending,
            OrderStatus::Receipt => StatusView::Receipt,
            OrderStatus::Declined(m) => StatusView::Declined(m@),
            OrderStatus::Delivered => StatusView::Delivered,
            OrderStatus::Failed(m) => StatusView::Failed(m@),
            OrderStatus::Error(m) => StatusView::Error(m@),
        }
    }
}

impl Clone for OrderStatus {
    fn clone(&self) -> (r: Self)
        ensures
            r@ == self@,
    {
        match self {
            OrderStatus::Sending => OrderStatus::Sending,
            OrderStatus::Receipt => OrderStatus::Receipt,
            OrderStatus::Declined(m) => OrderStatus::Declined(m.clone()),
            OrderStatus::Delivered => OrderStatus::Delivered,
            OrderStatus::Failed(m) => OrderStatus::Failed(m.clone()),
            OrderStatus::Error(m) => OrderStatus::Error(m.clone()),
        }
    }
}

/// An order that was placed.
#[derive(Debug, PartialEq, Eq)]
pub struct Order {
    /// Identifier within this process.
    pub id: u128,
    /// Identifier that the serving node gave.
    pub server_id: Option<String>,
    pub recipe_name: String,
    pub status: OrderStatus,
    /// When it was placed, in Unix milliseconds.
    pub timestamp_ms: u64,
}

/// What an [`Order`] holds.
#[verifier::ext_equal]
pub struct OrderView {
    pub id: u128,
    pub server_id: Option<Seq<char>>,
    pub recipe_name: Seq<char>,
    pub status: StatusView,
    pub timestamp_ms: u64,
}

impl View for Order {
    type V = OrderView;

    open spec fn view(&self) -> OrderView {
        OrderView {
            id: self.id,
            server_id: protocol::option_view(self.server_id),
            recipe_name: self.recipe_name@,
            status: self.status@,
            timestamp_ms: self.timestamp_ms,
        }
    }
}

impl Clone for Order {
    fn clone(&self) -> (r: Self)
        ensures
            r@ == self@,
    {
        let server_id = match &self.server_id {
            Some(s) => Some(s.clone()),
            None => None,
        };
        Order {
            id: self.id,
            server_id,
            recipe_name: self.recipe_name.clone(),
            status: self.status.clone(),
            timestamp_ms: self.timestamp_ms,
        }
    }
}

/// Milliseconds since an order was placed; none where the clock stands before that.
pub open spec fn age(o: OrderView, now: UnixTime) -> nat {
    let at = (now.total_millis() % 0x1_0000_0000_0000_0000) as int;
    if at < o.timestamp_ms {
        0
    } else {
        (at - o.timestamp_ms) as nat
    }
}

impl Order {
    /// Milliseconds since the order was placed; none where the clock stands before that.
    pub fn elapsed_ms(&self, now: UnixTime) -> (r: u64)
        ensures
            r == age(self@, now),
    {
        let at: u64 = now.millis();
        if at < self.timestamp_ms {
            0
        } else {
            at - self.timestamp_ms
        }
    }
}

/// Current time in milliseconds since the Unix epoch.
pub fn now_ms() -> u64 {
    UnixTime::now().millis()
}

// ── The store ────────────────────────────────────────────────────────────────

/// Orders by their identifier.
#[derive(Debug, PartialEq, Eq)]
pub struct OrderStore {
    orders: HashMap<u128, Order>,
}

impl OrderStore {
    #[verifier::type_invariant]
    spec fn keyed_by_id(self) -> bool {
        forall|k: u128| #[trigger] self.orders@.contains_key(k) ==> self.orders@[k].id == k
    }
}

impl View for OrderStore {
    type V = Map<u128, OrderView>;

    closed spec fn view(&self) -> Map<u128, OrderView> {
        self.orders@.map_values(|o: Order| o@)
    }
}

/// An empty store.
pub fn init_store() -> (r: OrderStore)
    ensures
        r@ == Map::<u128, OrderView>::empty(),
{
    broadcast use vstd::std_specs::hash::group_hash_axioms;

    let r = OrderStore { orders: HashMap::new() };
    assert(r@ =~= Map::<u128, OrderView>::empty());
    r
}

/// Adds an order. One with the same identifier is replaced.
pub fn add_order(store: &mut OrderStore, order: Order)
    ensures
        final(store)@ == old(store)@.insert(order.id, order@),
{
    broadcast use vstd::std_specs::hash::group_hash_axioms;

    proof {
        use_type_invariant(&*store);
    }
    let ghost before = store@;
    let ghost added = order@;
    let id: u128 = order.id;
    let mut orders: HashMap<u128, Order> = HashMap::new();
    std::mem::swap(&mut orders, &mut store.orders);
    orders.insert(id, order);
    store.orders = orders;
    assert(store@ =~= before.insert(id, added));
}

/// The store with one order changed, if it is there.
pub open spec fn updated(
    store: Map<u128, OrderView>,
    id: u128,
    change: spec_fn(OrderView) -> OrderView,
) -> Map<u128, OrderView> {
    if store.contains_key(id) {
        store.insert(id, change(store[id]))
    } else {
        store
    }
}

/// Notes the identifier that the serving node gave to an order. Without such an order nothing
/// happens.
pub fn update_order_server_id(store: &mut OrderStore, id: u128, server_id: &str)
    ensures
        final(store)@ == updated(
            old(store)@,
            id,
            |o: OrderView| OrderView { server_id: Some(server_id@), ..o },
        ),
{
    broadcast use vstd::std_specs::hash::group_hash_axioms;

    proof {
        use_type_invariant(&*store);
    }
    let ghost before = store@;
    let ghost raw = store.orders@;
    let mut orders: HashMap<u128, Order> = HashMap::new();
    std::mem::swap(&mut orders, &mut store.orders);
    match orders.remove(&id) {
        Some(order) => {
            let mut order = order;
            assert(before[id] == order@);
            order.server_id = Some(server_id.to_string());
            orders.insert(id, order);
        },
        None => {
            assert(orders@ =~= raw);
        },
    }
    store.orders = orders;
    assert(store@ =~= updated(
        before,
        id,
        |o: OrderView| OrderView { server_id: Some(server_id@), ..o },
    ));
}

/// Notes how far an order has got. Without such an order nothing happens.
pub fn update_order_status(store: &mut OrderStore, id: u128, status: OrderStatus)
    ensures
        final(store)@ == updated(
            old(store)@,
            id,
            |o: OrderView| OrderView { status: status@, ..o },
        ),
{
    broadcast use vstd::std_specs::hash::group_hash_axioms;

    proof {
        use_type_invariant(&*store);
    }
    let ghost before = store@;
    let ghost raw = store.orders@;
    let ghost s = status@;
    let mut orders: HashMap<u128, Order> = HashMap::new();
    std::mem::swap(&mut orders, &mut store.orders);
    match orders.remove(&id) {
        Some(order) => {
            let mut order = order;
            assert(before[id] == order@);
            order.status = status;
            orders.insert(id, order);
        },
        None => {
            assert(orders@ =~= raw);
        },
    }
    store.orders = orders;
    assert(store@ =~= updated(before, id, |o: OrderView| OrderView { status: s, ..o }));
}

/// `orders` holds each order of the store once.
pub open spec fn lists_store(orders: Seq<OrderView>, store: Map<u128, OrderView>) -> bool {
    &&& orders.len() == store.dom().len()
    &&& forall|i: int|
        0 <= i < orders.len() ==> store.contains_key((#[trigger] orders[i]).id)
            && store[orders[i].id] == orders[i]
    &&& forall|i: int, j: int|
        0 <= i < j < orders.len() ==> (#[trigger] orders[i]).id != (#[trigger] orders[j]).id
    &&& forall|k: u128| #[trigger] store.contains_key(k) ==> orders.contains(store[k])
}

/// All orders, in no particular order.
pub fn get_orders(store: &OrderStore) -> (r: Vec<Order>)
    ensures
        lists_store(text::views(r@), store@),
{
    broadcast use vstd::std_specs::hash::group_hash_axioms;

    proof {
        use_type_invariant(store);
    }
    let ghost raw = store.orders@;
    let mut out: Vec<Order> = Vec::new();
    let ghost mut ids: Seq<u128> = seq![];
    for k in it: store.orders.keys()
        invariant
            raw == store.orders@,
            forall|k: u128| #[trigger] raw.contains_key(k) ==> raw[k].id == k,
            it.seq().unref().to_set() == raw.dom(),
            it.seq().no_duplicates(),
            it.seq().len() == raw.dom().len(),
            ids == it.seq().unref().take(it.index()),
            it.index() == it.seq().len() ==> ids.to_set() == raw.dom(),
            out@.len() == ids.len(),
            forall|j: int|
                0 <= j < ids.len() ==> raw.contains_key(#[trigger] ids[j]) && out@[j]@
                    == raw[ids[j]]@,
    {
        let ghost all = it.seq().unref();
        assert(all[it.index()] == *k);
        assert(all.to_set().contains(all[it.index()]));
        match store.orders.get(k) {
            Some(order) => {
                out.push(order.clone());
                proof {
                    ids = ids.push(*k);
                }
                assert(ids =~= all.take(it.index() + 1));
                assert(all.take(all.len() as int) =~= all);
            },
            None => {},
        }
    }
    proof {
        let orders = text::views(out@);
        let map = store@;
        assert(map.dom() =~= raw.dom());
        assert forall|i: int| 0 <= i < orders.len() implies map.contains_key(
            (#[trigger] orders[i]).id,
        ) && map[orders[i].id] == orders[i] && orders[i].id == ids[i] by {
            assert(raw.contains_key(ids[i]));
        }
        assert forall|k: u128| #[trigger] map.contains_key(k) implies orders.contains(map[k]) by {
            assert(raw.contains_key(k));
            assert(ids.to_set() == raw.dom());
            assert(ids.contains(k));
            let i = choose|i: int| 0 <= i < ids.len() && ids[i] == k;
            assert(orders[i] == map[k]);
        }
    }
    out
}

// ── Laws ─────────────────────────────────────────────────────────────────────

/// A change of one order leaves all others alone and adds none.
pub proof fn updates_touch_one_order(
    store: Map<u128, OrderView>,
    id: u128,
    change: spec_fn(OrderView) -> OrderView,
)
    ensures
        updated(store, id, change).dom() == store.dom(),
        forall|k: u128|
            #![trigger updated(store, id, change)[k]]
            k != id && store.contains_key(k) ==> updated(store, id, change)[k] == store[k],
        store.contains_key(id) ==> updated(store, id, change)[id] == change(store[id]),
{
    assert(updated(store, id, change).dom() =~= store.dom());
}

/// Adding a second order under an identifier gives what adding it alone gives.
pub proof fn later_order_wins(store: Map<u128, OrderView>, id: u128, a: OrderView, b: OrderView)
    ensures
        store.insert(id, a).insert(id, b) == store.insert(id, b),
{
    assert(store.insert(id, a).insert(id, b) =~= store.insert(id, b));
}

/// Adding an order adds that order as it is and leaves all others alone.
pub proof fn orders_are_added_as_they_are(store: &mut OrderStore, order: Order)
    requires
        call_ensures(add_order, (store, order), ()),
    ensures
        ({
            let was = old(store)@;
            let next = final(store)@;
            &&& next.contains_key(order.id)
            &&& next[order.id] == order@
            &&& forall|k: u128| #[trigger]
                next.contains_key(k) <==> was.contains_key(k) || k == order.id
            &&& forall|k: u128|
                #![trigger next[k]]
                k != order.id && was.contains_key(k) ==> next[k] == was[k]
        }),
{
}

/// `next` is the store in which nothing has changed but one order, if that is there at all.
pub open spec fn changes_only(
    was: Map<u128, OrderView>,
    next: Map<u128, OrderView>,
    id: u128,
) -> bool {
    &&& next.dom() == was.dom()
    &&& forall|k: u128|
        #![trigger next[k]]
        k != id && was.contains_key(k) ==> next[k] == was[k]
}

/// Noting the identifier that the server gave changes that of this order and nothing else.
pub proof fn server_identifiers_are_noted(store: &mut OrderStore, id: u128, server_id: &str)
    requires
        call_ensures(update_order_server_id, (store, id, server_id), ()),
    ensures
        ({
            let was = old(store)@;
            let next = final(store)@;
            &&& changes_only(was, next, id)
            &&& was.contains_key(id) ==> {
                &&& next[id].server_id == Some(server_id@)
                &&& next[id].id == was[id].id
                &&& next[id].recipe_name == was[id].recipe_name
                &&& next[id].status == was[id].status
                &&& next[id].timestamp_ms == was[id].timestamp_ms
            }
        }),
{
    assert(final(store)@.dom() =~= old(store)@.dom());
}

/// Noting how far an order has got changes the status of this order and nothing else.
pub proof fn statuses_are_noted(store: &mut OrderStore, id: u128, status: OrderStatus)
    requires
        call_ensures(update_order_status, (store, id, status), ()),
    ensures
        ({
            let was = old(store)@;
            let next = final(store)@;
            &&& changes_only(was, next, id)
            &&& was.contains_key(id) ==> {
                &&& next[id].status == status@
                &&& next[id].id == was[id].id
                &&& next[id].server_id == was[id].server_id
                &&& next[id].recipe_name == was[id].recipe_name
                &&& next[id].timestamp_ms == was[id].timestamp_ms
            }
        }),
{
    assert(final(store)@.dom() =~= old(store)@.dom());
}

/// All orders are listed, each once and as it is.
pub proof fn all_orders_are_listed(store: &OrderStore, r: Vec<Order>)
    requires
        call_ensures(get_orders, (store,), r),
    ensures
        forall|k: u128| #[trigger]
            store@.contains_key(k) ==> exists|i: int|
                0 <= i < r@.len() && (#[trigger] r@[i])@ == store@[k],
        forall|i: int|
            0 <= i < r@.len() ==> store@.contains_key((#[trigger] r@[i])@.id) && store@[r@[i]@.id]
                == r@[i]@,
        forall|i: int, j: int|
            0 <= i < j < r@.len() ==> (#[trigger] r@[i])@.id != (#[trigger] r@[j])@.id,
{
    let orders = text::views(r@);
    assert forall|k: u128| #[trigger] store@.contains_key(k) implies exists|i: int|
        0 <= i < r@.len() && (#[trigger] r@[i])@ == store@[k] by {
        assert(orders.contains(store@[k]));
        let i = choose|i: int| 0 <= i < orders.len() && orders[i] == store@[k];
        assert(r@[i]@ == store@[k]);
    }
    assert forall|i: int| 0 <= i < r@.len() implies store@.contains_key((#[trigger] r@[i])@.id)
        && store@[r@[i]@.id] == r@[i]@ by {
        assert(orders[i] == r@[i]@);
    }
    assert forall|i: int, j: int| 0 <= i < j < r@.len() implies (#[trigger] r@[i])@.id != (
    #[trigger] r@[j])@.id by {
        assert(orders[i].id != orders[j].id);
    }
}

/// A fresh store holds no order.
pub proof fn stores_start_empty(r: OrderStore)
    requires
        call_ensures(init_store, (), r),
    ensures
        forall|k: u128| !r@.contains_key(k),
{
}

/// The age of an order is the time since it was placed, in milliseconds, of which 64 bits count; an
/// order of the future has no age.
pub proof fn orders_grow_older(order: &Order, now: UnixTime, r: u64)
    requires
        call_ensures(Order::elapsed_ms, (order, now), r),
    ensures
        ({
            let at = (now.secs * 1_000 + now.nanos / 1_000_000) % 0x1_0000_0000_0000_0000;
            if order@.timestamp_ms <= at {
                r + order@.timestamp_ms == at
            } else {
                r == 0
            }
        }),
{
    assert(now.total_millis() == now.secs * 1_000 + now.nanos / 1_000_000);
}

} // verus!
