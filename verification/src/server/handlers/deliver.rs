//! Taking in the outcome of an order.
use crate::clock::now_micros;
use crate::node::NodeState;
use crate::node::NodeView;
use crate::protocol;
use crate::protocol::OrderResult;
use crate::protocol::OrderResultView;
use crate::protocol::PayloadView;
use crate::protocol::ProcessPayload;
use crate::protocol::TcpMessage;
use crate::protocol::TcpView;
use crate::protocol::Update;
use crate::protocol::UpdateView;
use crate::server::handlers::task;
use vstd::prelude::*;

verus! {

/// The outcome of an order as it arrives.
#[derive(Debug, PartialEq, Eq)]
pub enum Delivery {
    /// The order failed.
    Failed { order_id: String, error: String },
    /// The order was completed; this is reported to the client.
    Completed(OrderResult),
}

/// What a [`Delivery`] holds.
#[verifier::ext_equal]
pub enum DeliveryView {
    Failed { order_id: Seq<char>, error: Seq<char> },
    Completed(OrderResultView),
}

impl View for Delivery {
    type V = DeliveryView;

    open spec fn view(&self) -> DeliveryView {
        match self {
            Delivery::Failed { order_id, error } => DeliveryView::Failed {
                order_id: order_id@,
                error: error@,
            },
            Delivery::Completed(r) => DeliveryView::Completed(r@),
        }
    }
}

/// The outcome that a payload and an error stand for at `now`: the failure where there is an error,
/// else what the payload has become, with its delivery as the last entry of the trace.
pub open spec fn outcome(p: PayloadView, error: Option<Seq<char>>, now: u64) -> DeliveryView {
    match error {
        Some(e) => DeliveryView::Failed { order_id: p.order_id, error: e },
        None => DeliveryView::Completed(
            OrderResultView {
                order_id: p.order_id,
                order_timestamp: p.order_timestamp,
                content: p.content,
                updates: p.updates.push(UpdateView::Deliver { timestamp: now }),
            },
        ),
    }
}

/// The outcome that arrives with a `Deliver` message at `now`.
pub fn open_delivery_at(payload: ProcessPayload, error: Option<String>, now: u64) -> (r: Delivery)
    ensures
        r@ == outcome(payload@, protocol::option_view(error), now),
{
    match error {
        Some(error) => Delivery::Failed { order_id: payload.order_id.0, error },
        None => {
            let ghost p = payload@;
            let mut updates = payload.updates;
            updates.push(Update::Deliver { timestamp: now });
            let result = OrderResult {
                order_id: payload.order_id,
                order_timestamp: payload.order_timestamp,
                content: payload.content,
                updates,
            };
            assert(result@.updates =~= p.updates.push(UpdateView::Deliver { timestamp: now }));
            Delivery::Completed(result)
        },
    }
}

/// `d` is the outcome that a payload and an error stand for at some time.
pub open spec fn is_outcome(p: PayloadView, error: Option<Seq<char>>, d: DeliveryView) -> bool {
    exists|now: u64| d == #[trigger] outcome(p, error, now)
}

/// The outcome that arrives with a `Deliver` message.
pub fn open_delivery(payload: ProcessPayload, error: Option<String>) -> (r: Delivery)
    ensures
        is_outcome(payload@, protocol::option_view(error), r@),
{
    let now: u64 = now_micros();
    open_delivery_at(payload, error, now)
}

/// The result of an order as text: its JSON form, or its content where that could not be had.
pub fn build_result(result: OrderResult, json: Option<String>) -> (r: String)
    ensures
        r@ == match json {
            Some(text) => text@,
            None => result@.content,
        },
{
    match json {
        Some(text) => text,
        None => result.content,
    }
}

/// The order that an outcome belongs to.
pub open spec fn delivered_order(d: DeliveryView) -> Seq<char> {
    match d {
        DeliveryView::Failed { order_id, error } => order_id,
        DeliveryView::Completed(r) => r.order_id,
    }
}

/// What the waiter of an order is told. The name of the recipe is not known here.
pub open spec fn verdict(d: DeliveryView, json: Option<Seq<char>>) -> TcpView {
    match d {
        DeliveryView::Failed { order_id, error } => TcpView::FailedOrder {
            recipe_name: seq![],
            error,
        },
        DeliveryView::Completed(r) => TcpView::CompletedOrder {
            recipe_name: seq![],
            result: match json {
                Some(text) => text,
                None => r.content,
            },
        },
    }
}

/// Who is told what about a delivered order.
#[derive(Debug, PartialEq, Eq)]
pub struct Signal {
    /// The ticket of the waiter.
    pub ticket: u64,
    pub message: TcpMessage,
}

/// Handles the outcome of an order.
///
/// Where the order is waited for, its waiter is told and the order is no longer pending. The sender
/// of the outcome gets a simple acknowledgement. `json` is the JSON form of the result, where it
/// could be had.
pub fn handle_deliver(state: &mut NodeState, delivery: Delivery, json: Option<String>) -> (r: (
    Option<Signal>,
    TcpMessage,
))
    ensures
        final(state)@ == (NodeView {
            pending_orders: old(state)@.pending_orders.remove(delivered_order(delivery@)),
            ..old(state)@
        }),
        match r.0 {
            Some(signal) => {
                &&& old(state)@.pending_orders.contains_key(delivered_order(delivery@))
                &&& signal.ticket == old(state)@.pending_orders[delivered_order(delivery@)]
                &&& signal.message@ == verdict(delivery@, protocol::option_view(json))
            },
            None => !old(state)@.pending_orders.contains_key(delivered_order(delivery@)),
        },
        r.1@ == task::error("deliver processed"@),
{
    let (order_id, message) = match delivery {
        Delivery::Failed { order_id, error } => {
            let m = TcpMessage::FailedOrder { recipe_name: String::new(), error };
            assert(m@ =~= verdict(delivery@, protocol::option_view(json)));
            (order_id, m)
        },
        Delivery::Completed(result) => {
            let id = result.order_id.0.clone();
            let m = TcpMessage::CompletedOrder {
                recipe_name: String::new(),
                result: build_result(result, json),
            };
            assert(m@ =~= verdict(delivery@, protocol::option_view(json)));
            (id, m)
        },
    };
    let ack = TcpMessage::Error { message: "deliver processed".to_string() };
    match state.pending_orders.remove(order_id.as_str()) {
        Some(ticket) => (Some(Signal { ticket, message }), ack),
        None => (None, ack),
    }
}

// ── Laws ─────────────────────────────────────────────────────────────────────

/// An order is delivered to its waiter once: after its outcome was taken in it is no longer
/// pending, and all other orders are pending as before.
pub proof fn orders_are_delivered_once(pending: Map<Seq<char>, u64>, d: DeliveryView)
    ensures
        !pending.remove(delivered_order(d)).contains_key(delivered_order(d)),
        forall|k: Seq<char>|
            k != delivered_order(d) ==> #[trigger] pending.remove(
                delivered_order(d),
            ).contains_key(k) == pending.contains_key(k),
        forall|k: Seq<char>|
            k != delivered_order(d) && pending.contains_key(k) ==> #[trigger] pending.remove(
                delivered_order(d),
            )[k] == pending[k],
{
}

/// The order's identity and creation time, its content and its whole trace reach the report; the
/// delivery itself is the last entry of the trace.
pub proof fn report_keeps_the_trace(p: PayloadView, now: u64)
    ensures
        outcome(p, None, now) matches DeliveryView::Completed(r) && r.order_id == p.order_id
            && r.order_timestamp == p.order_timestamp && r.content == p.content
            && r.updates.drop_last() == p.updates && r.updates.last() == (UpdateView::Deliver {
            timestamp: now,
        }),
{
    assert(p.updates.push(UpdateView::Deliver { timestamp: now }).drop_last() =~= p.updates);
}

/// An order that arrives with an error has failed with that error; one without is completed, with
/// its identifier, time and content as they are and its trace with the delivery at the end.
pub proof fn errors_make_failures(
    payload: ProcessPayload,
    error: Option<String>,
    now: u64,
    r: Delivery,
)
    requires
        call_ensures(open_delivery_at, (payload, error, now), r),
    ensures
        is_opened(payload@, protocol::option_view(error), r@),
        r@ matches DeliveryView::Completed(report) ==> report.updates.last() == (
        UpdateView::Deliver { timestamp: now }),
{
    lemma_opened(payload@, protocol::option_view(error), now);
}

/// `d` is what a payload and an error stand for.
pub open spec fn is_opened(p: PayloadView, error: Option<Seq<char>>, d: DeliveryView) -> bool {
    match error {
        Some(why) => d == (DeliveryView::Failed { order_id: p.order_id, error: why }),
        None => d matches DeliveryView::Completed(report) && {
            &&& report.order_id == p.order_id
            &&& report.order_timestamp == p.order_timestamp
            &&& report.content == p.content
            &&& report.updates.len() == p.updates.len() + 1
            &&& report.updates.drop_last() == p.updates
            &&& report.updates.last() is Deliver
        },
    }
}

/// The outcome of a payload is what it stands for.
pub proof fn lemma_opened(p: PayloadView, error: Option<Seq<char>>, now: u64)
    ensures
        is_opened(p, error, outcome(p, error, now)),
{
    assert(p.updates.push(UpdateView::Deliver { timestamp: now }).drop_last() =~= p.updates);
}

/// The same holds where the clock of the machine tells the time of the delivery.
pub proof fn deliveries_are_opened(payload: ProcessPayload, error: Option<String>, r: Delivery)
    requires
        call_ensures(open_delivery, (payload, error), r),
    ensures
        is_opened(payload@, protocol::option_view(error), r@),
{
    let error = protocol::option_view(error);
    let now = choose|now: u64| r@ == #[trigger] outcome(payload@, error, now);
    lemma_opened(payload@, error, now);
}

/// The one who waits for an order is told its outcome: that it failed and why, or that it was
/// completed, with the report or, where that could not be written, with the content. Who waits for
/// other orders is told nothing, and these orders wait on. Nobody is told of an order that is not
/// waited for.
pub proof fn the_waiter_is_told_the_outcome(
    state: &mut NodeState,
    delivery: Delivery,
    json: Option<String>,
    r: (Option<Signal>, TcpMessage),
)
    requires
        call_ensures(handle_deliver, (state, delivery, json), r),
    ensures
        ({
            let was = old(state)@;
            let next = final(state)@;
            let id = match delivery@ {
                DeliveryView::Failed { order_id, error } => order_id,
                DeliveryView::Completed(report) => report.order_id,
            };
            &&& next.identity == was.identity
            &&& next.gossip == was.gossip
            &&& !next.pending_orders.contains_key(id)
            &&& forall|k: Seq<char>|
                k != id ==> #[trigger] next.pending_orders.contains_key(k)
                    == was.pending_orders.contains_key(k)
            &&& forall|k: Seq<char>|
                #![trigger next.pending_orders[k]]
                k != id && was.pending_orders.contains_key(k) ==> next.pending_orders[k]
                    == was.pending_orders[k]
            &&& r.0 is Some <==> was.pending_orders.contains_key(id)
            &&& r.0 matches Some(signal) ==> {
                &&& signal.ticket == was.pending_orders[id]
                &&& match (delivery@, signal.message@) {
                    (
                        DeliveryView::Failed { order_id, error },
                        TcpView::FailedOrder { recipe_name, error: told },
                    ) => told == error && recipe_name.len() == 0,
                    (
                        DeliveryView::Completed(report),
                        TcpView::CompletedOrder { recipe_name, result },
                    ) => recipe_name.len() == 0 && result == (match json {
                        Some(text) => text@,
                        None => report.content,
                    }),
                    _ => false,
                }
            }
        }),
        r.1@ == (TcpView::Error { message: "deliver processed"@ }),
{
}

/// The result of an order is its JSON form; where that could not be had, the content stands for it.
pub proof fn results_are_written_as_json(result: OrderResult, json: Option<String>, r: String)
    requires
        call_ensures(build_result, (result, json), r),
    ensures
        json matches Some(written) ==> r@ == written@,
        json is None ==> r@ == result@.content,
{
}

} // verus!
