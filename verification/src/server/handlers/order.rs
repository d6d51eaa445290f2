//! Taking an order from its receipt to its result.
use crate::clock::now_micros;
use crate::ids;
use crate::ids::hyphenate;
use crate::ids::random_id;
use crate::network::udp::table;
use crate::node::NodeState;
use crate::node::NodeView;
use crate::protocol::ActionDef;
use crate::protocol::ActionView;
use crate::protocol::PayloadView;
use crate::protocol::ProcessPayload;
use crate::protocol::Required;
use crate::protocol::TcpMessage;
use crate::protocol::TcpView;
use crate::protocol::Update;
use crate::recipe::flatten_recipe;
use crate::recipe::parse_recipes;
use crate::recipe::parser;
use crate::recipe::roundtrip;
use crate::recipe::RecipeView;
use crate::server::handlers::deliver;
use crate::server::handlers::listing;
use crate::server::handlers::listing::find_recipe;
use crate::server::handlers::listing::find_recipe_peers;
use crate::server::handlers::lookup;
use crate::server::handlers::lookup::search_recipe;
use crate::server::handlers::lookup::Search;
use crate::server::handlers::lookup::SearchView;
use crate::server::handlers::process;
use crate::server::handlers::process::handle_process_payload;
use crate::server::handlers::process::ProcessJob;
use crate::server::handlers::process::ProcessView;
use crate::server::handlers::task;
use crate::server::handlers::task::error2;
use crate::server::handlers::task::Event;
use crate::server::handlers::task::EventView;
use crate::server::handlers::task::Task;
use crate::server::handlers::task::TaskView;
use crate::text;
use crate::text_facts;
use vstd::prelude::*;

verus! {

/// Seconds to wait for the delivery of an order.
pub const DELIVERY_TIMEOUT_SECS: u64 = 30;

/// An order on its way.
#[derive(Debug, PartialEq, Eq)]
pub enum OrderJob {
    /// The receipt is being written to the client.
    Acknowledging { recipe_name: String, order_id: String, ticket: u64 },
    /// The recipe is being fetched from a peer.
    Fetching { order_id: String, search: Search },
    /// The actions are being executed.
    Driving { recipe_name: String, order_id: String, job: ProcessJob },
    /// The delivery is being waited for.
    Waiting { recipe_name: String, order_id: String },
    /// Nothing is left to do.
    Finished,
}

/// What an [`OrderJob`] holds.
#[verifier::ext_equal]
pub enum OrderJobView {
    Acknowledging { recipe_name: Seq<char>, order_id: Seq<char>, ticket: u64 },
    Fetching { order_id: Seq<char>, search: SearchView },
    Driving { recipe_name: Seq<char>, order_id: Seq<char>, job: ProcessView },
    Waiting { recipe_name: Seq<char>, order_id: Seq<char> },
    Finished,
}

impl View for OrderJob {
    type V = OrderJobView;

    open spec fn view(&self) -> OrderJobView {
        match self {
            OrderJob::Acknowledging { recipe_name, order_id, ticket } => {
                OrderJobView::Acknowledging {
                    recipe_name: recipe_name@,
                    order_id: order_id@,
                    ticket: *ticket,
                }
            },
            OrderJob::Fetching { order_id, search } => OrderJobView::Fetching {
                order_id: order_id@,
                search: search@,
            },
            OrderJob::Driving { recipe_name, order_id, job } => OrderJobView::Driving {
                recipe_name: recipe_name@,
                order_id: order_id@,
                job: job@,
            },
            OrderJob::Waiting { recipe_name, order_id } => OrderJobView::Waiting {
                recipe_name: recipe_name@,
                order_id: order_id@,
            },
            OrderJob::Finished => OrderJobView::Finished,
        }
    }
}

impl OrderJob {
    /// The parts of the job are in order; a search that is going on has a peer that is being asked.
    pub open spec fn wf(self) -> bool {
        match self {
            OrderJob::Fetching { order_id, search } => search.wf() && search@.peers.len() > 0,
            OrderJob::Driving { recipe_name, order_id, job } => job.wf(),
            _ => true,
        }
    }
}

/// The event can come of what the job waits for.
pub open spec fn order_expects(job: OrderJobView, event: EventView) -> bool {
    match job {
        OrderJobView::Acknowledging { recipe_name, order_id, ticket } => event is Done
            || event is NotEncoded || event is Failed,
        OrderJobView::Fetching { order_id, search } => event is Answered || event is Failed,
        OrderJobView::Driving { recipe_name, order_id, job } => process::job_expects(job, event),
        OrderJobView::Waiting { recipe_name, order_id } => event is Delivered || event is TimedOut,
        OrderJobView::Finished => false,
    }
}

// ── Accepting ────────────────────────────────────────────────────────────────

/// What happens to a new order: one for a recipe that neither the node nor a peer knows is declined;
/// any other is acknowledged with its identifier.
pub open spec fn order_started(
    state: NodeView,
    recipe_name: Seq<char>,
    id: u128,
    ticket: u64,
) -> (OrderJobView, TaskView) {
    if !listing::has_recipe(state, recipe_name) && listing::recipe_peers(state, recipe_name).len()
        == 0 {
        (
            OrderJobView::Finished,
            TaskView::Answer(TcpView::OrderDeclined { message: "Unknown recipe"@ }),
        )
    } else {
        (
            OrderJobView::Acknowledging { recipe_name, order_id: ids::hyphenated(id), ticket },
            TaskView::Write(TcpView::OrderReceipt { order_id: ids::hyphenated(id) }),
        )
    }
}

/// Takes an order under a given identifier.
pub fn start_order(state: &NodeState, recipe_name: &str, id: u128, ticket: u64) -> (r: (
    OrderJob,
    Task,
))
    ensures
        r.0.wf(),
        (r.0@, r.1@) == order_started(state@, recipe_name@, id, ticket),
{
    let is_local = match find_recipe(&state.identity.recipes, recipe_name) {
        Some(_) => true,
        None => false,
    };
    if !is_local {
        let peers = find_recipe_peers(state, recipe_name);
        assert(text::views(peers@).len() == peers@.len());
        if peers.len() == 0 {
            let declined = TcpMessage::OrderDeclined { message: "Unknown recipe".to_string() };
            return (OrderJob::Finished, Task::Answer(declined));
        }
    }
    let order_id = hyphenate(id);
    let receipt = TcpMessage::OrderReceipt { order_id: Required(order_id.clone()) };
    let job = OrderJob::Acknowledging { recipe_name: recipe_name.to_string(), order_id, ticket };
    (job, Task::Write(receipt))
}

/// `r` is what happens to a new order under some fresh identifier.
pub open spec fn is_started(
    state: NodeView,
    recipe_name: Seq<char>,
    ticket: u64,
    r: (OrderJobView, TaskView),
) -> bool {
    exists|id: u128|
        ids::is_random_id(id) && r == #[trigger] order_started(state, recipe_name, id, ticket)
}

/// Takes an order under a fresh identifier. `ticket` names the one who waits for its result.
///
/// The receipt is written at once, before any work starts. The result follows once the order has
/// been driven to completion. An order for an unknown recipe is declined without a receipt.
pub fn handle_order(state: &NodeState, recipe_name: &str, ticket: u64) -> (r: (OrderJob, Task))
    ensures
        r.0.wf(),
        is_started(state@, recipe_name@, ticket, (r.0@, r.1@)),
{
    let id: u128 = random_id();
    let r = start_order(state, recipe_name, id, ticket);
    assert((r.0@, r.1@) == order_started(state@, recipe_name@, id, ticket));
    r
}

// ── Planning ─────────────────────────────────────────────────────────────────

/// The actions that a recipe text prescribes for a recipe, or what is wrong with it.
pub open spec fn plan(source: Seq<char>, recipe_name: Seq<char>) -> Result<
    Seq<ActionView>,
    Seq<char>,
> {
    match parser::spec_recipes(source) {
        Err(e) => Err("parse recipe: "@ + parser::parse_error_text(e)),
        Ok(recipes) => match table::recipe_names(recipes).index_of_first(recipe_name) {
            None => Err("recipe '"@ + recipe_name + "' not found after fetch"@),
            Some(i) => Ok(parser::flattened(recipes[i].steps)),
        },
    }
}

/// The actions that a recipe text prescribes for a recipe, or what is wrong with it.
pub fn plan_order(source: &str, recipe_name: &str) -> (r: Result<Vec<ActionDef>, String>)
    ensures
        match r {
            Ok(actions) => plan(source@, recipe_name@) == Ok::<_, Seq<char>>(
                text::views(actions@),
            ),
            Err(e) => plan(source@, recipe_name@) == Err::<Seq<ActionView>, _>(e@),
        },
{
    match parse_recipes(source) {
        Err(e) => {
            let why = e.message();
            Err("parse recipe: ".to_string().concat(why.as_str()))
        },
        Ok(recipes) => match find_recipe(&recipes, recipe_name) {
            Some(recipe) => Ok(flatten_recipe(recipe)),
            None => {
                proof {
                    table::recipe_names(text::views(recipes@)).index_of_first_ensures(recipe_name@);
                }
                Err("recipe '".to_string().concat(recipe_name).concat("' not found after fetch"))
            },
        },
    }
}

/// The payload of an order before any of its actions is executed. It is to be delivered here.
pub open spec fn new_payload(
    state: NodeView,
    order_id: Seq<char>,
    actions: Seq<ActionView>,
    created: u64,
) -> PayloadView {
    PayloadView {
        order_id,
        order_timestamp: created,
        delivery_host: state.identity.addr,
        action_index: 0,
        action_sequence: actions,
        content: seq![],
        updates: seq![],
    }
}

/// The payload of an order before any of its actions is executed.
pub fn create_payload(state: &NodeState, order_id: &str, actions: Vec<ActionDef>, created: u64) -> (r:
    ProcessPayload)
    ensures
        r@ == new_payload(state@, order_id@, text::views(actions@), created),
{
    let updates: Vec<Update> = Vec::new();
    assert(text::views(updates@) =~= seq![]);
    let payload = ProcessPayload {
        order_id: Required(order_id.to_string()),
        order_timestamp: created,
        delivery_host: Required(state.identity.addr.clone()),
        action_index: 0,
        action_sequence: actions,
        content: String::new(),
        updates,
    };
    assert(payload@ =~= new_payload(state@, order_id@, text::views(actions@), created));
    payload
}

/// `r` is what comes of an order once its actions are known: they are executed, and the order is
/// passed on.
pub open spec fn is_driven(
    state: NodeView,
    recipe_name: Seq<char>,
    order_id: Seq<char>,
    actions: Seq<ActionView>,
    r: (OrderJobView, TaskView),
) -> bool {
    exists|created: u64, job: ProcessView, task: TaskView|
        {
            &&& #[trigger] process::is_processed(
                state,
                recipe_name,
                new_payload(state, order_id, actions, created),
                (job, task),
            )
            &&& r.0 == (OrderJobView::Driving { recipe_name, order_id, job })
            &&& r.1 == task
        }
}

/// `r` is what comes of an order once its recipe text is there: an error where the text does not
/// prescribe the recipe, else the execution of its actions.
pub open spec fn is_begun(
    state: NodeView,
    recipe_name: Seq<char>,
    order_id: Seq<char>,
    source: Seq<char>,
    r: (OrderJobView, TaskView),
) -> bool {
    match plan(source, recipe_name) {
        Err(why) => r == (OrderJobView::Finished, TaskView::Answer(task::error(why))),
        Ok(actions) => is_driven(state, recipe_name, order_id, actions, r),
    }
}

/// Begins to execute an order whose recipe text is there.
fn begin(state: &NodeState, recipe_name: String, order_id: String, source: &str) -> (r: (
    OrderJob,
    Task,
))
    ensures
        r.0.wf(),
        is_begun(state@, recipe_name@, order_id@, source@, (r.0@, r.1@)),
{
    match plan_order(source, recipe_name.as_str()) {
        Err(why) => (OrderJob::Finished, Task::Answer(TcpMessage::Error { message: why })),
        Ok(actions) => {
            let created: u64 = now_micros();
            let ghost planned = text::views(actions@);
            let payload = create_payload(state, order_id.as_str(), actions, created);
            let (job, task) = handle_process_payload(state, recipe_name.as_str(), payload);
            assert(process::is_processed(
                state@,
                recipe_name@,
                new_payload(state@, order_id@, planned, created),
                (job@, task@),
            ));
            let driving = OrderJob::Driving { recipe_name, order_id, job };
            assert(is_driven(state@, recipe_name@, order_id@, planned, (driving@, task@)));
            (driving, task)
        },
    }
}

// ── Carrying on ──────────────────────────────────────────────────────────────

/// What comes of fetching a recipe: the next peer is asked, or the order fails where there is none.
pub open spec fn fetch_next(order_id: Seq<char>, search: SearchView) -> (OrderJobView, TaskView) {
    if search.peers.len() == 0 {
        (
            OrderJobView::Finished,
            TaskView::Answer(
                task::error(
                    "fetch recipe: "@ + ("recipe '"@ + search.recipe_name
                        + "' not found locally and no peer advertised it"@),
                ),
            ),
        )
    } else {
        (OrderJobView::Fetching { order_id, search }, lookup::search_task(search))
    }
}

/// The result of an order with the name of its recipe.
pub open spec fn stamped(result: TcpView, recipe_name: Seq<char>) -> TcpView {
    match result {
        TcpView::CompletedOrder { recipe_name: _, result } => TcpView::CompletedOrder {
            recipe_name,
            result,
        },
        TcpView::FailedOrder { recipe_name: _, error } => TcpView::FailedOrder {
            recipe_name,
            error,
        },
        other => other,
    }
}

/// What waiting for an order ends with.
pub open spec fn awaited(event: EventView) -> TcpView {
    match event {
        EventView::Delivered(m) => m,
        _ => task::error("order timed out waiting for deliver"@),
    }
}

/// The state without an order that was waited for.
pub open spec fn settled(state: NodeView, order_id: Seq<char>) -> NodeView {
    NodeView { pending_orders: state.pending_orders.remove(order_id), ..state }
}

/// The answer says that the result comes by delivery.
pub open spec fn is_placeholder(m: TcpView) -> bool {
    m matches TcpView::CompletedOrder { recipe_name, result } && result.len() == 0
}

/// `next` and `r` are what comes of an order after an event.
pub open spec fn is_resumed(
    state: NodeView,
    job: OrderJobView,
    event: EventView,
    next: NodeView,
    r: (OrderJobView, TaskView),
) -> bool {
    match job {
        OrderJobView::Acknowledging { recipe_name, order_id, ticket } => match event {
            EventView::NotEncoded(why) => next == state && r == (
                OrderJobView::Finished,
                TaskView::Answer(task::error("encode receipt: "@ + why)),
            ),
            EventView::Failed(why) => next == state && r == (
                OrderJobView::Finished,
                TaskView::Answer(task::error("send receipt: "@ + why)),
            ),
            _ => {
                &&& next == (NodeView {
                    pending_orders: state.pending_orders.insert(order_id, ticket),
                    ..state
                })
                &&& if listing::has_recipe(state, recipe_name) {
                    is_begun(next, recipe_name, order_id, lookup::own_source(state, recipe_name), r)
                } else {
                    r == fetch_next(
                        order_id,
                        SearchView {
                            recipe_name,
                            peers: listing::recipe_peers(state, recipe_name),
                        },
                    )
                }
            },
        },
        OrderJobView::Fetching { order_id, search } => {
            &&& next == state
            &&& match event {
                EventView::Answered { message, shown } => match message {
                    TcpView::RecipeAnswer { recipe } => is_begun(
                        state,
                        search.recipe_name,
                        order_id,
                        recipe,
                        r,
                    ),
                    TcpView::Error { message } => r == (
                        OrderJobView::Finished,
                        TaskView::Answer(task::error("fetch recipe: "@ + message)),
                    ),
                    _ => r == (
                        OrderJobView::Finished,
                        TaskView::Answer(
                            task::error("unexpected get_recipe response: "@ + shown),
                        ),
                    ),
                },
                _ => r == fetch_next(order_id, lookup::search_rest(search)),
            }
        },
        OrderJobView::Driving { recipe_name, order_id, job } => exists|now: u64|
            {
                let (job, task) = #[trigger] process::process_resumed(job, event, now);
                match task {
                    TaskView::Answer(m) => if is_placeholder(m) {
                        next == state && r == (
                            OrderJobView::Waiting { recipe_name, order_id },
                            TaskView::Await,
                        )
                    } else {
                        next == settled(state, order_id) && r == (
                            OrderJobView::Finished,
                            TaskView::Answer(m),
                        )
                    },
                    _ => next == state && r == (
                        OrderJobView::Driving { recipe_name, order_id, job },
                        task,
                    ),
                }
            },
        OrderJobView::Waiting { recipe_name, order_id } => {
            &&& next == settled(state, order_id)
            &&& r == (
                OrderJobView::Finished,
                TaskView::Answer(stamped(awaited(event), recipe_name)),
            )
        },
        OrderJobView::Finished => true,
    }
}

/// What comes of fetching a recipe.
fn fetch(order_id: String, search: Search) -> (r: (OrderJob, Task))
    requires
        search.wf(),
    ensures
        r.0.wf(),
        (r.0@, r.1@) == fetch_next(order_id@, search@),
{
    let task = search.task();
    match task {
        Task::Answer(_) => {
            let why = "recipe '".to_string().concat(search.recipe_name.as_str()).concat(
                "' not found locally and no peer advertised it",
            );
            (OrderJob::Finished, Task::Answer(error2("fetch recipe: ", why.as_str())))
        },
        task => (OrderJob::Fetching { order_id, search }, task),
    }
}

/// Whether the answer says that the result comes by delivery.
fn placeholder_answer(m: &TcpMessage) -> (r: bool)
    ensures
        r == is_placeholder(m@),
{
    match m {
        TcpMessage::CompletedOrder { recipe_name: _, result } => {
            result.as_str().unicode_len() == 0
        },
        _ => false,
    }
}

/// The result of an order with the name of its recipe.
pub fn stamp(result: TcpMessage, recipe_name: String) -> (r: TcpMessage)
    ensures
        r@ == stamped(result@, recipe_name@),
{
    match result {
        TcpMessage::CompletedOrder { recipe_name: _, result } => TcpMessage::CompletedOrder {
            recipe_name,
            result,
        },
        TcpMessage::FailedOrder { recipe_name: _, error } => TcpMessage::FailedOrder {
            recipe_name,
            error,
        },
        other => other,
    }
}

impl OrderJob {
    /// What is to be done for the order after an event.
    pub fn resume(self, state: &mut NodeState, event: Event) -> (r: (OrderJob, Task))
        requires
            self.wf(),
            order_expects(self@, event@),
        ensures
            r.0.wf(),
            is_resumed(old(state)@, self@, event@, final(state)@, (r.0@, r.1@)),
    {
        match self {
            OrderJob::Acknowledging { recipe_name, order_id, ticket } => match event {
                Event::NotEncoded(why) => (
                    OrderJob::Finished,
                    Task::Answer(error2("encode receipt: ", why.as_str())),
                ),
                Event::Failed(why) => (
                    OrderJob::Finished,
                    Task::Answer(error2("send receipt: ", why.as_str())),
                ),
                _ => {
                    state.pending_orders.insert(order_id.clone(), ticket);
                    match find_recipe(&state.identity.recipes, recipe_name.as_str()) {
                        Some(recipe) => begin(
                            state,
                            recipe_name,
                            order_id,
                            recipe.source.as_str(),
                        ),
                        None => {
                            let search = search_recipe(state, recipe_name.as_str());
                            fetch(order_id, search)
                        },
                    }
                },
            },
            OrderJob::Fetching { order_id, search } => match event {
                Event::Answered { message, shown } => match message {
                    TcpMessage::RecipeAnswer { recipe } => begin(
                        state,
                        search.recipe_name,
                        order_id,
                        recipe.as_str(),
                    ),
                    TcpMessage::Error { message } => (
                        OrderJob::Finished,
                        Task::Answer(error2("fetch recipe: ", message.as_str())),
                    ),
                    _ => (
                        OrderJob::Finished,
                        Task::Answer(error2("unexpected get_recipe response: ", shown.as_str())),
                    ),
                },
                _ => {
                    let mut search = search;
                    search.skip_peer();
                    fetch(order_id, search)
                },
            },
            OrderJob::Driving { recipe_name, order_id, job } => {
                let (job, task) = job.resume(event);
                match task {
                    Task::Answer(m) => {
                        if placeholder_answer(&m) {
                            (OrderJob::Waiting { recipe_name, order_id }, Task::Await)
                        } else {
                            state.pending_orders.remove(order_id.as_str());
                            (OrderJob::Finished, Task::Answer(m))
                        }
                    },
                    task => (OrderJob::Driving { recipe_name, order_id, job }, task),
                }
            },
            OrderJob::Waiting { recipe_name, order_id } => {
                let result = match event {
                    Event::Delivered(m) => m,
                    _ => TcpMessage::Error {
                        message: "order timed out waiting for deliver".to_string(),
                    },
                };
                state.pending_orders.remove(order_id.as_str());
                (OrderJob::Finished, Task::Answer(stamp(result, recipe_name)))
            },
            OrderJob::Finished => (OrderJob::Finished, Task::Await),
        }
    }
}

// ── Laws ─────────────────────────────────────────────────────────────────────

/// An order is declined exactly where neither the node nor any peer knows the recipe; any other
/// order gets its receipt first.
pub proof fn orders_for_unknown_recipes_are_declined(
    state: NodeView,
    recipe_name: Seq<char>,
    id: u128,
    ticket: u64,
)
    requires
        state.gossip.peers.dom().finite(),
    ensures
        ({
            let known = {
                ||| exists|i: int|
                    0 <= i < state.identity.recipes.len() && (
                    #[trigger] state.identity.recipes[i]).name == recipe_name
                ||| exists|p: Seq<char>| #[trigger]
                    state.gossip.peers.contains_key(p)
                        && state.gossip.peers[p].recipes.contains(recipe_name)
            };
            order_started(state, recipe_name, id, ticket).1 == (if known {
                TaskView::Write(TcpView::OrderReceipt { order_id: ids::hyphenated(id) })
            } else {
                TaskView::Answer(TcpView::OrderDeclined { message: "Unknown recipe"@ })
            })
        }),
{
    let names = table::recipe_names(state.identity.recipes);
    let peers = state.gossip.peers;
    let keys = crate::order::sorted(peers.dom());
    let keep = |a: Seq<char>| peers[a].recipes.contains(recipe_name);
    crate::order::lemma_sorted(peers.dom());
    if names.contains(recipe_name) {
        let i = choose|i: int| 0 <= i < names.len() && names[i] == recipe_name;
        assert(state.identity.recipes[i].name == recipe_name);
    }
    assert forall|i: int|
        0 <= i < state.identity.recipes.len() && (#[trigger] state.identity.recipes[i]).name
            == recipe_name implies names.contains(recipe_name) by {
        assert(names[i] == recipe_name);
    }
    let hosts = keys.filter(keep);
    if hosts.len() > 0 {
        keys.lemma_filter_pred(keep, 0);
        assert(hosts.contains(hosts[0]));
        keys.lemma_filter_contains_rev(keep, hosts[0]);
        assert(keys.to_set().contains(hosts[0]));
        assert(peers.contains_key(hosts[0]));
    }
    assert forall|p: Seq<char>| #[trigger]
        peers.contains_key(p) && peers[p].recipes.contains(recipe_name) implies hosts.len() > 0 by {
        assert(keys.to_set().contains(p));
        let i = choose|i: int| 0 <= i < keys.len() && keys[i] == p;
        keys.lemma_filter_contains(keep, i);
    }
}

/// An order for an own recipe whose actions the node can all execute: once its receipt is written,
/// the order is pending and the finished payload is delivered to the node itself; once that is
/// sent, the delivery is waited for.
pub proof fn local_order_is_driven_to_delivery(
    state: NodeView,
    recipe_name: Seq<char>,
    order_id: Seq<char>,
    ticket: u64,
    actions: Seq<ActionView>,
    next: NodeView,
    r: (OrderJobView, TaskView),
)
    requires
        listing::has_recipe(state, recipe_name),
        plan(lookup::own_source(state, recipe_name), recipe_name) == Ok::<_, Seq<char>>(actions),
        actions.len() <= u64::MAX,
        forall|i: int|
            0 <= i < actions.len() ==> listing::can_execute(state, (#[trigger] actions[i]).name),
        is_resumed(
            state,
            OrderJobView::Acknowledging { recipe_name, order_id, ticket },
            EventView::Done,
            next,
            r,
        ),
    ensures
        next.pending_orders == state.pending_orders.insert(order_id, ticket),
        r.0 == (OrderJobView::Driving {
            recipe_name,
            order_id,
            job: ProcessView::Delivering { recipe_name, host: state.identity.addr },
        }),
        exists|payload: PayloadView|
            {
                &&& payload.order_id == order_id
                &&& payload.action_sequence == actions
                &&& payload.action_index == actions.len()
                &&& payload.content == process::described(actions)
                &&& r.1 == #[trigger] delivery_of(payload)
            },
        forall|later: NodeView, s: (OrderJobView, TaskView)|
            #[trigger] is_resumed(next, r.0, EventView::Done, later, s) ==> later == next && s == (
                OrderJobView::Waiting { recipe_name, order_id },
                TaskView::Await,
            ),
{
    assert(is_driven(next, recipe_name, order_id, actions, r));
    let (created, job, task) = choose|created: u64, job: ProcessView, task: TaskView|
        {
            &&& #[trigger] process::is_processed(
                next,
                recipe_name,
                new_payload(next, order_id, actions, created),
                (job, task),
            )
            &&& r.0 == (OrderJobView::Driving { recipe_name, order_id, job })
            &&& r.1 == task
        };
    let p = new_payload(next, order_id, actions, created);
    let (stamps, now) = choose|stamps: Seq<u64>, now: u64|
        process::is_run(next, p, stamps) && (job, task) == #[trigger] process::next_hop(
            next,
            recipe_name,
            process::run(p, stamps),
            now,
        );
    process::capable_node_completes_the_order(next, recipe_name, p, stamps, now);
    let q = process::run(p, stamps);
    process::lemma_run_within(next, p, stamps);
    process::execution_keeps_the_plan(p, stamps);
    process::content_follows_the_recipe(p, stamps);
    assert(actions.subrange(0, actions.len() as int) =~= actions);
    assert(p.content + process::described(actions) =~= process::described(actions));
    let payload = process::forwarded(q, p.delivery_host, now);
    assert(r.1 == delivery_of(payload));
    assert forall|later: NodeView, s: (OrderJobView, TaskView)|
        #[trigger] is_resumed(next, r.0, EventView::Done, later, s) implies later == next && s == (
        OrderJobView::Waiting { recipe_name, order_id },
        TaskView::Await,
    ) by {}
}

/// The successful delivery of a payload.
pub open spec fn delivery_of(payload: PayloadView) -> TaskView {
    TaskView::Tell {
        peer: payload.delivery_host,
        message: TcpView::Deliver { payload, error: None },
    }
}

/// A delivered order is answered with its result under the name of the ordered recipe, be it
/// completed or failed; one that is not delivered in time is answered with an error. Either way it
/// is no longer pending.
pub proof fn delivered_order_is_answered(
    state: NodeView,
    recipe_name: Seq<char>,
    order_id: Seq<char>,
    event: EventView,
    next: NodeView,
    r: (OrderJobView, TaskView),
)
    requires
        is_resumed(
            state,
            OrderJobView::Waiting { recipe_name, order_id },
            event,
            next,
            r,
        ),
    ensures
        !next.pending_orders.contains_key(order_id),
        event matches EventView::Delivered(TcpView::CompletedOrder { recipe_name: _, result }) ==>
            r.1 == TaskView::Answer(TcpView::CompletedOrder { recipe_name, result }),
        event matches EventView::Delivered(TcpView::FailedOrder { recipe_name: _, error }) ==> r.1
            == TaskView::Answer(TcpView::FailedOrder { recipe_name, error }),
        event is TimedOut ==> r.1 == TaskView::Answer(
            task::error("order timed out waiting for deliver"@),
        ),
{
}

/// An order for an own recipe whose actions the node can all execute comes back to the one who
/// placed it: the delivery that is sent out belongs to that one's ticket, and once it was taken in
/// the order is answered as completed, with the report or, where that could not be written, with
/// the description that the actions of the recipe make of the pizza.
pub proof fn local_order_comes_back(
    state: NodeView,
    recipe_name: Seq<char>,
    order_id: Seq<char>,
    ticket: u64,
    actions: Seq<ActionView>,
    next: NodeView,
    r: (OrderJobView, TaskView),
    payload: PayloadView,
    now: u64,
    json: Option<Seq<char>>,
    waiting: NodeView,
    later: NodeView,
    s: (OrderJobView, TaskView),
)
    requires
        listing::has_recipe(state, recipe_name),
        plan(lookup::own_source(state, recipe_name), recipe_name) == Ok::<_, Seq<char>>(actions),
        actions.len() <= u64::MAX,
        forall|i: int|
            0 <= i < actions.len() ==> listing::can_execute(state, (#[trigger] actions[i]).name),
        is_resumed(
            state,
            OrderJobView::Acknowledging { recipe_name, order_id, ticket },
            EventView::Done,
            next,
            r,
        ),
        r.1 == delivery_of(payload),
        is_resumed(
            waiting,
            OrderJobView::Waiting { recipe_name, order_id },
            EventView::Delivered(deliver::verdict(deliver::outcome(payload, None, now), json)),
            later,
            s,
        ),
    ensures
        ({
            let delivered = deliver::delivered_order(deliver::outcome(payload, None, now));
            &&& next.pending_orders.contains_key(delivered)
            &&& next.pending_orders[delivered] == ticket
        }),
        s == (
            OrderJobView::Finished,
            TaskView::Answer(
                TcpView::CompletedOrder {
                    recipe_name,
                    result: match json {
                        Some(text) => text,
                        None => process::described(actions),
                    },
                },
            ),
        ),
        !later.pending_orders.contains_key(order_id),
{
    local_order_is_driven_to_delivery(state, recipe_name, order_id, ticket, actions, next, r);
    delivered_order_is_answered(
        waiting,
        recipe_name,
        order_id,
        EventView::Delivered(deliver::verdict(deliver::outcome(payload, None, now), json)),
        later,
        s,
    );
}

/// An order that fails while it is driven is answered at once and is no longer pending.
pub proof fn failed_drive_settles_the_order(
    state: NodeView,
    recipe_name: Seq<char>,
    order_id: Seq<char>,
    job: ProcessView,
    event: EventView,
    next: NodeView,
    r: (OrderJobView, TaskView),
)
    requires
        is_resumed(
            state,
            OrderJobView::Driving { recipe_name, order_id, job },
            event,
            next,
            r,
        ),
        r.1 is Answer,
    ensures
        r.0 == OrderJobView::Finished,
        !next.pending_orders.contains_key(order_id),
{
}

/// An order is known under one identifier: the one that the receipt names is kept for the time when
/// the order is pending, with its recipe and the ticket of the one who placed it. An order that
/// neither the node nor a peer has a recipe for is declined, and nothing is kept of it.
pub proof fn orders_keep_what_was_ordered(
    state: &NodeState,
    recipe_name: &str,
    id: u128,
    ticket: u64,
    r: (OrderJob, Task),
)
    requires
        state@.gossip.peers.dom().finite(),
        call_ensures(start_order, (state, recipe_name, id, ticket), r),
    ensures
        is_taken(state@, recipe_name@, id, ticket, (r.0@, r.1@)),
{
    lemma_taken(state@, recipe_name@, id, ticket);
}

/// `r` is what becomes of an order that is placed under an identifier.
pub open spec fn is_taken(
    state: NodeView,
    recipe_name: Seq<char>,
    id: u128,
    ticket: u64,
    r: (OrderJobView, TaskView),
) -> bool {
    let known = listing::is_own(state.identity.recipes, recipe_name) || listing::is_advertised(
        state.gossip.peers,
        recipe_name,
    );
    if known {
        &&& r.0 == (OrderJobView::Acknowledging {
            recipe_name,
            order_id: ids::hyphenated(id),
            ticket,
        })
        &&& r.1 == TaskView::Write(TcpView::OrderReceipt { order_id: ids::hyphenated(id) })
    } else {
        &&& r.0 == OrderJobView::Finished
        &&& r.1 == TaskView::Answer(TcpView::OrderDeclined { message: "Unknown recipe"@ })
    }
}

/// What becomes of an order is what is to become of it.
pub proof fn lemma_taken(state: NodeView, recipe_name: Seq<char>, id: u128, ticket: u64)
    requires
        state.gossip.peers.dom().finite(),
    ensures
        is_taken(state, recipe_name, id, ticket, order_started(state, recipe_name, id, ticket)),
{
    listing::lemma_is_own(state, recipe_name);
    listing::lemma_is_advertised(state, recipe_name);
}

/// The same holds under a fresh identifier.
pub proof fn orders_get_a_fresh_identifier(
    state: &NodeState,
    recipe_name: &str,
    ticket: u64,
    r: (OrderJob, Task),
)
    requires
        state@.gossip.peers.dom().finite(),
        call_ensures(handle_order, (state, recipe_name, ticket), r),
    ensures
        exists|id: u128|
            ids::is_random_id(id) && #[trigger] is_taken(
                state@,
                recipe_name@,
                id,
                ticket,
                (r.0@, r.1@),
            ),
{
    let id = choose|id: u128|
        ids::is_random_id(id) && (r.0@, r.1@) == #[trigger] order_started(
            state@,
            recipe_name@,
            id,
            ticket,
        );
    lemma_taken(state@, recipe_name@, id, ticket);
    assert(is_taken(state@, recipe_name@, id, ticket, (r.0@, r.1@)));
}

/// `r` is what a recipe text prescribes for a recipe: all actions of the first recipe of that name,
/// whole and in order; or an error where the text does not parse or holds no such recipe.
pub open spec fn is_plan(
    source: Seq<char>,
    recipe_name: Seq<char>,
    r: Result<Seq<ActionView>, Seq<char>>,
) -> bool {
    match parser::spec_recipes(source) {
        Err(e) => r == Err::<Seq<ActionView>, _>("parse recipe: "@ + parser::parse_error_text(e)),
        Ok(recipes) => {
            &&& forall|i: int| #[trigger]
                lookup::is_first(recipes, recipe_name, i) ==> r == Ok::<_, Seq<char>>(
                    parser::flattened(recipes[i].steps),
                )
            &&& !listing::is_own(recipes, recipe_name) ==> r == Err::<Seq<ActionView>, _>(
                "recipe '"@ + recipe_name + "' not found after fetch"@,
            )
        },
    }
}

proof fn lemma_plan(source: Seq<char>, recipe_name: Seq<char>)
    ensures
        is_plan(source, recipe_name, plan(source, recipe_name)),
{
    if let Ok(recipes) = parser::spec_recipes(source) {
        let names = table::recipe_names(recipes);
        names.index_of_first_ensures(recipe_name);
        assert forall|i: int| #[trigger]
            lookup::is_first(recipes, recipe_name, i) implies plan(source, recipe_name) == Ok::<
            _,
            Seq<char>,
        >(parser::flattened(recipes[i].steps)) by {
            lookup::lemma_first(recipes, recipe_name, i);
        }
        if names.contains(recipe_name) {
            let i = choose|i: int| 0 <= i < names.len() && names[i] == recipe_name;
            assert(recipes[i].name == recipe_name);
        }
    }
}

/// An order is planned with the actions that its recipe prescribes.
pub proof fn orders_are_planned_by_their_recipe(
    source: &str,
    recipe_name: &str,
    r: Result<Vec<ActionDef>, String>,
)
    requires
        call_ensures(plan_order, (source, recipe_name), r),
    ensures
        is_plan(
            source@,
            recipe_name@,
            match r {
                Ok(actions) => Ok(text::views(actions@)),
                Err(why) => Err(why@),
            },
        ),
{
    lemma_plan(source@, recipe_name@);
}

/// What a node knows of a recipe is what it plans: the text of a recipe prescribes the actions of
/// its steps, whatever route the text has taken.
pub proof fn recipes_are_planned_as_they_are(r: RecipeView)
    requires
        roundtrip::recipe_ok(r),
        forall|i: int| 0 <= i < r.steps.len() ==> roundtrip::reads_back(#[trigger] r.steps[i]),
        text_facts::free_of(r.source, '\r', '\n'),
    ensures
        plan(r.source, r.name) == Ok::<_, Seq<char>>(parser::flattened(r.steps)),
{
    roundtrip::source_reads_back(r);
    lemma_plan(r.source, r.name);
    assert(lookup::is_first(seq![r], r.name, 0));
}

/// `p` is the payload of an order of which nothing has been done yet; it is to be delivered to the
/// node that took the order.
pub open spec fn is_new_payload(
    state: NodeView,
    order_id: Seq<char>,
    actions: Seq<ActionView>,
    p: PayloadView,
) -> bool {
    &&& p.order_id == order_id
    &&& p.delivery_host == state.identity.addr
    &&& p.action_index == 0
    &&& p.action_sequence == actions
    &&& p.content.len() == 0
    &&& p.updates.len() == 0
}

/// The payload of an order starts at the first of its actions, with nothing done, and comes back to
/// the node that took the order.
pub proof fn orders_start_from_nothing(
    state: &NodeState,
    order_id: &str,
    actions: Vec<ActionDef>,
    created: u64,
    r: ProcessPayload,
)
    requires
        call_ensures(create_payload, (state, order_id, actions, created), r),
    ensures
        is_new_payload(state@, order_id@, text::views(actions@), r@),
        r@.order_timestamp == created,
{
}

/// `r` is what becomes of an order once its recipe text is there: it fails where the text does not
/// prescribe the recipe; else its actions are executed and it is passed on, as a payload of which
/// nothing had been done.
pub open spec fn is_under_way(
    state: NodeView,
    recipe_name: Seq<char>,
    order_id: Seq<char>,
    source: Seq<char>,
    r: (OrderJobView, TaskView),
) -> bool {
    exists|planned: Result<Seq<ActionView>, Seq<char>>|
        {
            &&& #[trigger] is_plan(source, recipe_name, planned)
            &&& match planned {
                Err(why) => r == (
                    OrderJobView::Finished,
                    TaskView::Answer(TcpView::Error { message: why }),
                ),
                Ok(actions) => {
                    &&& r.0 is Driving
                    &&& r.0->Driving_recipe_name == recipe_name
                    &&& r.0->Driving_order_id == order_id
                    &&& actions.len() <= u64::MAX ==> exists|p: PayloadView|
                        {
                            &&& is_new_payload(state, order_id, actions, p)
                            &&& #[trigger] process::is_handled(
                                state,
                                recipe_name,
                                p,
                                (r.0->job, r.1),
                            )
                        }
                },
            }
        }
}

proof fn lemma_under_way(
    state: NodeView,
    recipe_name: Seq<char>,
    order_id: Seq<char>,
    source: Seq<char>,
    r: (OrderJobView, TaskView),
)
    requires
        state.gossip.peers.dom().finite(),
        is_begun(state, recipe_name, order_id, source, r),
    ensures
        is_under_way(state, recipe_name, order_id, source, r),
{
    let planned = plan(source, recipe_name);
    lemma_plan(source, recipe_name);
    if let Ok(actions) = planned {
        let (created, job, task) = choose|created: u64, job: ProcessView, task: TaskView|
            {
                &&& #[trigger] process::is_processed(
                    state,
                    recipe_name,
                    new_payload(state, order_id, actions, created),
                    (job, task),
                )
                &&& r.0 == (OrderJobView::Driving { recipe_name, order_id, job })
                &&& r.1 == task
            };
        let p = new_payload(state, order_id, actions, created);
        if actions.len() <= u64::MAX {
            let (stamps, now) = choose|stamps: Seq<u64>, now: u64|
                process::is_run(state, p, stamps) && (job, task) == #[trigger] process::next_hop(
                    state,
                    recipe_name,
                    process::run(p, stamps),
                    now,
                );
            process::lemma_handled(state, recipe_name, p, stamps, now);
            assert(is_new_payload(state, order_id, actions, p));
            assert(process::is_handled(state, recipe_name, p, (r.0->job, r.1)));
        }
    }
    assert(is_plan(source, recipe_name, planned));
}

/// `r` is what becomes of an order while `hosts` are to be asked for its recipe: the first of them
/// is asked, and all are kept in mind; without one the order fails, since the recipe was not found.
pub open spec fn fetches_from(
    recipe_name: Seq<char>,
    order_id: Seq<char>,
    hosts: Seq<Seq<char>>,
    r: (OrderJobView, TaskView),
) -> bool {
    if hosts.len() > 0 {
        &&& r.0 == (OrderJobView::Fetching {
            order_id,
            search: SearchView { recipe_name, peers: hosts },
        })
        &&& r.1 == (TaskView::Ask { peer: hosts[0], message: TcpView::GetRecipe { recipe_name } })
    } else {
        &&& r.0 == OrderJobView::Finished
        &&& r.1 == TaskView::Answer(
            TcpView::Error {
                message: "fetch recipe: "@ + ("recipe '"@ + recipe_name
                    + "' not found locally and no peer advertised it"@),
            },
        )
    }
}

/// An order whose receipt cannot be written ends with an error that says why, and is not pending.
/// Once its receipt is written it is pending for the one who placed it, and nothing else changes:
/// an own recipe is begun at once, for any other one the peers that have announced it are asked.
pub proof fn acknowledged_orders_are_pending(
    job: OrderJob,
    state: &mut NodeState,
    event: Event,
    hosts: Seq<Seq<char>>,
    r: (OrderJob, Task),
)
    requires
        job@ is Acknowledging,
        old(state)@.gossip.peers.dom().finite(),
        lookup::is_advertiser_list(old(state)@, job@->Acknowledging_recipe_name, hosts),
        call_ensures(OrderJob::resume, (job, state, event), r),
    ensures
        ({
            let was = old(state)@;
            let next = final(state)@;
            let recipe_name = job@->Acknowledging_recipe_name;
            let order_id = job@->Acknowledging_order_id;
            match event@ {
                EventView::NotEncoded(why) => next == was && r.0@ == OrderJobView::Finished && r.1@
                    == TaskView::Answer(TcpView::Error { message: "encode receipt: "@ + why }),
                EventView::Failed(why) => next == was && r.0@ == OrderJobView::Finished && r.1@
                    == TaskView::Answer(TcpView::Error { message: "send receipt: "@ + why }),
                _ => {
                    &&& next.identity == was.identity
                    &&& next.gossip == was.gossip
                    &&& next.pending_orders == was.pending_orders.insert(order_id, job@->ticket)
                    &&& forall|i: int| #[trigger]
                        lookup::is_first(was.identity.recipes, recipe_name, i) ==> is_under_way(
                            next,
                            recipe_name,
                            order_id,
                            was.identity.recipes[i].source,
                            (r.0@, r.1@),
                        )
                    &&& !listing::is_own(was.identity.recipes, recipe_name) ==> fetches_from(
                        recipe_name,
                        order_id,
                        hosts,
                        (r.0@, r.1@),
                    )
                },
            }
        }),
{
    let was = old(state)@;
    let next = final(state)@;
    let recipe_name = job@->Acknowledging_recipe_name;
    let order_id = job@->Acknowledging_order_id;
    listing::lemma_advertisers_are(was, recipe_name, hosts);
    listing::lemma_is_own(was, recipe_name);
    if !(event@ is NotEncoded) && !(event@ is Failed) {
        assert forall|i: int| #[trigger]
            lookup::is_first(was.identity.recipes, recipe_name, i) implies is_under_way(
            next,
            recipe_name,
            order_id,
            was.identity.recipes[i].source,
            (r.0@, r.1@),
        ) by {
            lookup::lemma_first(was.identity.recipes, recipe_name, i);
            lemma_under_way(
                next,
                recipe_name,
                order_id,
                was.identity.recipes[i].source,
                (r.0@, r.1@),
            );
        }
    }
}

/// While an order fetches its recipe nothing else changes. A peer that fails is followed by the
/// next one; a recipe that comes in is begun; an error or any other response ends the order with an
/// error that says so.
pub proof fn recipes_are_fetched_in_turn(
    job: OrderJob,
    state: &mut NodeState,
    event: Event,
    r: (OrderJob, Task),
)
    requires
        job@ is Fetching,
        job@->search.peers.len() > 0,
        event@ is Answered || event@ is Failed,
        old(state)@.gossip.peers.dom().finite(),
        call_ensures(OrderJob::resume, (job, state, event), r),
    ensures
        ({
            let recipe_name = job@->search.recipe_name;
            let order_id = job@->Fetching_order_id;
            &&& final(state)@ == old(state)@
            &&& event@ is Failed ==> fetches_from(
                recipe_name,
                order_id,
                job@->search.peers.skip(1),
                (r.0@, r.1@),
            )
            &&& event@ matches EventView::Answered { message, shown } ==> match message {
                TcpView::RecipeAnswer { recipe } => is_under_way(
                    old(state)@,
                    recipe_name,
                    order_id,
                    recipe,
                    (r.0@, r.1@),
                ),
                TcpView::Error { message } => r.0@ == OrderJobView::Finished && r.1@
                    == TaskView::Answer(TcpView::Error { message: "fetch recipe: "@ + message }),
                _ => r.0@ == OrderJobView::Finished && r.1@ == TaskView::Answer(
                    TcpView::Error { message: "unexpected get_recipe response: "@ + shown },
                ),
            }
        }),
{
    let recipe_name = job@->search.recipe_name;
    assert(job@->search.peers.drop_first() =~= job@->search.peers.skip(1));
    if let EventView::Answered { message, shown } = event@ {
        if let TcpView::RecipeAnswer { recipe } = message {
            lemma_under_way(
                old(state)@,
                recipe_name,
                job@->Fetching_order_id,
                recipe,
                (r.0@, r.1@),
            );
        }
    }
}

/// While an order fetches its recipe, every peer that has announced the recipe gets its turn: after
/// as many failures as there are such peers before one, that one is asked; the order ends, since
/// the recipe was not found, only after all of them have failed. `steps` are what has become of the
/// order from its receipt on, and `states` what the node has become.
pub proof fn every_advertiser_is_asked_for_the_recipe(
    state: NodeView,
    recipe_name: Seq<char>,
    order_id: Seq<char>,
    ticket: u64,
    hosts: Seq<Seq<char>>,
    whys: Seq<Seq<char>>,
    states: Seq<NodeView>,
    steps: Seq<(OrderJobView, TaskView)>,
)
    requires
        state.gossip.peers.dom().finite(),
        !listing::is_own(state.identity.recipes, recipe_name),
        lookup::is_advertiser_list(state, recipe_name, hosts),
        whys.len() <= hosts.len(),
        states.len() == whys.len() + 1,
        steps.len() == whys.len() + 1,
        is_resumed(
            state,
            OrderJobView::Acknowledging { recipe_name, order_id, ticket },
            EventView::Done,
            states[0],
            steps[0],
        ),
        forall|i: int|
            0 <= i < whys.len() ==> is_resumed(
                states[i],
                (#[trigger] steps[i]).0,
                EventView::Failed(whys[i]),
                states[i + 1],
                steps[i + 1],
            ),
    ensures
        fetches_from(recipe_name, order_id, hosts.skip(whys.len() as int), steps.last()),
        states.last().pending_orders == state.pending_orders.insert(order_id, ticket),
    decreases whys.len(),
{
    listing::lemma_advertisers_are(state, recipe_name, hosts);
    listing::lemma_is_own(state, recipe_name);
    if whys.len() == 0 {
        assert(hosts.skip(0) =~= hosts);
    } else {
        let k = whys.len() - 1;
        let front = steps.drop_last();
        assert forall|i: int| 0 <= i < whys.drop_last().len() implies is_resumed(
            states.drop_last()[i],
            (#[trigger] front[i]).0,
            EventView::Failed(whys.drop_last()[i]),
            states.drop_last()[i + 1],
            front[i + 1],
        ) by {
            assert(front[i] == steps[i]);
        }
        every_advertiser_is_asked_for_the_recipe(
            state,
            recipe_name,
            order_id,
            ticket,
            hosts,
            whys.drop_last(),
            states.drop_last(),
            front,
        );
        assert(front.last() == steps[k]);
        assert(hosts.skip(k).drop_first() =~= hosts.skip(k + 1));
        assert(is_resumed(
            states[k],
            steps[k].0,
            EventView::Failed(whys[k]),
            states[k + 1],
            steps[k + 1],
        ));
    }
}

/// `next` is the state in which an order is no longer waited for; all other orders are waited for as
/// before, and nothing else has changed.
pub open spec fn is_settled(was: NodeView, next: NodeView, order_id: Seq<char>) -> bool {
    &&& next.identity == was.identity
    &&& next.gossip == was.gossip
    &&& !next.pending_orders.contains_key(order_id)
    &&& forall|k: Seq<char>|
        k != order_id ==> #[trigger] next.pending_orders.contains_key(k)
            == was.pending_orders.contains_key(k)
    &&& forall|k: Seq<char>|
        #![trigger next.pending_orders[k]]
        k != order_id && was.pending_orders.contains_key(k) ==> next.pending_orders[k]
            == was.pending_orders[k]
}

/// What comes of an order while its actions are executed elsewhere. An empty result under which the
/// payload was taken or sent off means that the delivery is to come: it is waited for, and the order
/// stays pending. Any other response of a peer is the answer, word for word, and the order is no
/// longer pending. A peer that fails is followed by the next capable one. An outcome that cannot be
/// sent off ends the order with an error.
pub proof fn driven_orders_wait_or_end(
    job: OrderJob,
    state: &mut NodeState,
    event: Event,
    r: (OrderJob, Task),
)
    requires
        job@ is Driving,
        job@->job is Forwarding ==> job@->job->peers.len() > 0,
        process::job_expects(job@->job, event@),
        call_ensures(OrderJob::resume, (job, state, event), r),
    ensures
        ({
            let was = old(state)@;
            let next = final(state)@;
            let recipe_name = job@->Driving_recipe_name;
            let order_id = job@->Driving_order_id;
            let waits = next == was && r.0@ == (OrderJobView::Waiting { recipe_name, order_id })
                && r.1@ == TaskView::Await;
            match (job@->job, event@) {
                (
                    ProcessView::Forwarding { recipe_name: label, payload, peers },
                    EventView::Answered { message, shown },
                ) => if message is CompletedOrder && message->result.len() == 0 {
                    waits
                } else {
                    &&& is_settled(was, next, order_id)
                    &&& r.0@ == OrderJobView::Finished
                    &&& r.1@ == TaskView::Answer(message)
                },
                (ProcessView::Forwarding { recipe_name: label, payload, peers }, _) => {
                    &&& next == was
                    &&& r.0@ is Driving
                    &&& r.0@->Driving_recipe_name == recipe_name
                    &&& r.0@->Driving_order_id == order_id
                    &&& exists|now: u64| #[trigger]
                        process::goes_to(label, payload, peers.skip(1), now, (r.0@->job, r.1@))
                },
                (_, EventView::Done) => waits,
                _ => {
                    &&& is_settled(was, next, order_id)
                    &&& r.0@ == OrderJobView::Finished
                    &&& r.1@ matches TaskView::Answer(m) && m is Error
                },
            }
        }),
{
    let now = choose|now: u64|
        {
            let (job2, task) = #[trigger] process::process_resumed(job@->job, event@, now);
            match task {
                TaskView::Answer(m) => if is_placeholder(m) {
                    final(state)@ == old(state)@ && (r.0@, r.1@) == (
                        OrderJobView::Waiting {
                            recipe_name: job@->Driving_recipe_name,
                            order_id: job@->Driving_order_id,
                        },
                        TaskView::Await,
                    )
                } else {
                    final(state)@ == settled(old(state)@, job@->Driving_order_id) && (r.0@, r.1@)
                        == (OrderJobView::Finished, TaskView::Answer(m))
                },
                _ => final(state)@ == old(state)@ && (r.0@, r.1@) == (
                    OrderJobView::Driving {
                        recipe_name: job@->Driving_recipe_name,
                        order_id: job@->Driving_order_id,
                        job: job2,
                    },
                    task,
                ),
            }
        };
    if let ProcessView::Forwarding { recipe_name: label, payload, peers } = job@->job {
        if !(event@ is Answered) {
            assert(peers.drop_first() =~= peers.skip(1));
            assert(process::goes_to(label, payload, peers.skip(1), now, (r.0@->job, r.1@)));
        }
    }
}

/// What an order that was waited for is answered: the result or the failure that was delivered,
/// under the name of the ordered recipe; anything else that was delivered as it is; and an error
/// where nothing was delivered in time. Then it is no longer waited for, and nothing else changes.
pub proof fn awaited_orders_are_answered(
    job: OrderJob,
    state: &mut NodeState,
    event: Event,
    r: (OrderJob, Task),
)
    requires
        job@ is Waiting,
        call_ensures(OrderJob::resume, (job, state, event), r),
    ensures
        is_settled(old(state)@, final(state)@, job@->Waiting_order_id),
        r.0@ == OrderJobView::Finished,
        event@ matches EventView::Delivered(m) ==> r.1@ == TaskView::Answer(
            match m {
                TcpView::CompletedOrder { recipe_name, result } => TcpView::CompletedOrder {
                    recipe_name: job@->Waiting_recipe_name,
                    result,
                },
                TcpView::FailedOrder { recipe_name, error } => TcpView::FailedOrder {
                    recipe_name: job@->Waiting_recipe_name,
                    error,
                },
                other => other,
            },
        ),
        event@ is TimedOut ==> r.1@ == TaskView::Answer(
            TcpView::Error { message: "order timed out waiting for deliver"@ },
        ),
{
}

/// A result or a failure gets the name of the recipe and keeps what it says; anything else stays as
/// it is.
pub proof fn results_are_stamped_with_the_recipe(
    result: TcpMessage,
    recipe_name: String,
    r: TcpMessage,
)
    requires
        call_ensures(stamp, (result, recipe_name), r),
    ensures
        result@ is CompletedOrder ==> r@ is CompletedOrder && r@->CompletedOrder_recipe_name
            == recipe_name@ && r@->result == result@->result,
        result@ is FailedOrder ==> r@ is FailedOrder && r@->FailedOrder_recipe_name == recipe_name@
            && r@->FailedOrder_error == result@->FailedOrder_error,
        !(result@ is CompletedOrder) && !(result@ is FailedOrder) ==> r@ == result@,
{
}

} // verus!
