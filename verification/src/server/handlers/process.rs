//! Executing the actions of an order, here and at peers.
use crate::clock::now_micros;
use crate::node::NodeState;
use crate::node::NodeView;
use crate::order;
use crate::protocol::ActionDef;
use crate::protocol::ActionView;
use crate::protocol::PayloadView;
use crate::protocol::ProcessPayload;
use crate::protocol::Required;
use crate::protocol::TcpMessage;
use crate::protocol::TcpView;
use crate::protocol::Update;
use crate::protocol::UpdateView;
use crate::server::handlers::listing;
use crate::server::handlers::listing::find_capable_peers;
use crate::server::handlers::task;
use crate::server::handlers::task::Event;
use crate::server::handlers::task::EventView;
use crate::server::handlers::task::Task;
use crate::server::handlers::task::TaskView;
use crate::text;
use crate::text::concat3;
use crate::text::contains_text;
use crate::text::same_text;
use vstd::prelude::*;

verus! {

// ── Actions ──────────────────────────────────────────────────────────────────

/// The actions that pizzas are made of.
pub const KNOWN_ACTIONS: [&'static str; 17] = [
    "AddBase",
    "AddBasil",
    "AddBBQSauce",
    "AddBellPepper",
    "AddCheese",
    "AddChicken",
    "AddChiliFlakes",
    "AddGarlic",
    "AddHam",
    "AddMushrooms",
    "AddOliveOil",
    "AddOnion",
    "AddOregano",
    "AddPepperoni",
    "AddPineapple",
    "Bake",
    "MakeDough",
];

/// A parameter of an action, or what it is taken to be where it is not given.
pub open spec fn param(a: ActionView, key: Seq<char>, default: Seq<char>) -> Seq<char> {
    if a.params.contains_key(key) {
        a.params[key]
    } else {
        default
    }
}

/// The line that an executed action adds to the description of the pizza.
pub open spec fn action_line(a: ActionView) -> Seq<char> {
    if a.name == "MakeDough"@ {
        seq![]
    } else if a.name == "AddBase"@ {
        "Dough + Base("@ + param(a, "base_type"@, "unknown"@) + "): ready\n"@
    } else if a.name == "AddCheese"@ {
        "Cheese x"@ + param(a, "amount"@, "1"@) + "\n"@
    } else if a.name == "AddPepperoni"@ {
        "Pepperoni slices x"@ + param(a, "slices"@, "0"@) + "\n"@
    } else if a.name == "Bake"@ {
        "Baked("@ + param(a, "duration"@, "0"@) + ")\n"@
    } else if a.name == "AddOliveOil"@ {
        "OliveOil: added\n"@
    } else if a.name == "AddMushrooms"@ {
        "Mushrooms: added\n"@
    } else if a.name == "AddBasil"@ {
        "Basil: added\n"@
    } else if a.name == "AddGarlic"@ {
        "Garlic: added\n"@
    } else if a.name == "AddOregano"@ {
        "Oregano: added\n"@
    } else {
        a.name + ": done\n"@
    }
}

/// A parameter of an action, or what it is taken to be where it is not given.
fn param_text<'a>(action: &'a ActionDef, key: &str, default: &'a str) -> (r: &'a str)
    ensures
        r@ == param(action@, key@, default@),
{
    match action.params.get(key) {
        Some(v) => v.as_str(),
        None => default,
    }
}

/// The description of the pizza after an action.
pub fn apply_action(action: &ActionDef, current_content: &str) -> (r: String)
    ensures
        r@ == current_content@ + action_line(action@),
{
    let name = action.name.as_str();
    let line = if same_text(name, "MakeDough") {
        String::new()
    } else if same_text(name, "AddBase") {
        concat3("Dough + Base(", param_text(action, "base_type", "unknown"), "): ready\n")
    } else if same_text(name, "AddCheese") {
        concat3("Cheese x", param_text(action, "amount", "1"), "\n")
    } else if same_text(name, "AddPepperoni") {
        concat3("Pepperoni slices x", param_text(action, "slices", "0"), "\n")
    } else if same_text(name, "Bake") {
        concat3("Baked(", param_text(action, "duration", "0"), ")\n")
    } else if same_text(name, "AddOliveOil") {
        "OliveOil: added\n".to_string()
    } else if same_text(name, "AddMushrooms") {
        "Mushrooms: added\n".to_string()
    } else if same_text(name, "AddBasil") {
        "Basil: added\n".to_string()
    } else if same_text(name, "AddGarlic") {
        "Garlic: added\n".to_string()
    } else if same_text(name, "AddOregano") {
        "Oregano: added\n".to_string()
    } else {
        name.to_string().concat(": done\n")
    };
    assert(line@ =~= action_line(action@));
    current_content.to_string().concat(line.as_str())
}

// ── Local execution ──────────────────────────────────────────────────────────

/// There is a next action, and the node can execute it.
pub open spec fn can_go_on(state: NodeView, p: PayloadView) -> bool {
    p.action_index < p.action_sequence.len() && listing::can_execute(
        state,
        p.action_sequence[p.action_index as int].name,
    )
}

/// The payload after its next action was executed at `timestamp`.
pub open spec fn executed(p: PayloadView, timestamp: u64) -> PayloadView {
    let action = p.action_sequence[p.action_index as int];
    PayloadView {
        content: p.content + action_line(action),
        updates: p.updates.push(UpdateView::Action { action, timestamp }),
        action_index: (p.action_index + 1) as u64,
        ..p
    }
}

/// The payload after its next actions were executed, each at its own time.
pub open spec fn run(p: PayloadView, stamps: Seq<u64>) -> PayloadView
    decreases stamps.len(),
{
    if stamps.len() == 0 {
        p
    } else {
        executed(run(p, stamps.drop_last()), stamps.last())
    }
}

/// There are as many times as the node can execute actions of the payload in a row.
pub open spec fn is_run(state: NodeView, p: PayloadView, stamps: Seq<u64>) -> bool {
    &&& forall|k: int| 0 <= k < stamps.len() ==> can_go_on(state, #[trigger] run(p, stamps.take(k)))
    &&& !can_go_on(state, run(p, stamps))
}

/// Executes the next action of a payload.
pub fn execute_next(payload: &mut ProcessPayload, timestamp: u64)
    requires
        old(payload)@.action_index < old(payload)@.action_sequence.len(),
    ensures
        final(payload)@ == executed(old(payload)@, timestamp),
{
    let ghost before = payload@;
    assert(payload.action_index < payload.action_sequence.len());
    let index: usize = payload.action_index as usize;
    let action = payload.action_sequence[index].clone();
    payload.content = apply_action(&action, payload.content.as_str());
    payload.updates.push(Update::Action { action, timestamp });
    payload.action_index = payload.action_index + 1;
    assert(payload@.updates =~= before.updates.push(
        UpdateView::Action { action: before.action_sequence[index as int], timestamp },
    ));
    assert(payload@ =~= executed(before, timestamp));
}

/// Whether there is a next action that the node can execute.
fn goes_on(state: &NodeState, payload: &ProcessPayload) -> (r: bool)
    ensures
        r == can_go_on(state@, payload@),
{
    let count: usize = payload.action_sequence.len();
    if payload.action_index >= count as u64 {
        return false;
    }
    let index: usize = payload.action_index as usize;
    contains_text(&state.identity.capabilities, payload.action_sequence[index].name.as_str())
}

/// Executes actions of a payload until the node can no longer proceed.
pub fn execute_locally(state: &NodeState, payload: &mut ProcessPayload)
    ensures
        exists|stamps: Seq<u64>|
            {
                &&& is_run(state@, old(payload)@, stamps)
                &&& final(payload)@ == #[trigger] run(old(payload)@, stamps)
            },
{
    let ghost start = payload@;
    let ghost mut stamps: Seq<u64> = seq![];
    while goes_on(state, payload)
        invariant
            payload@ == run(start, stamps),
            forall|k: int|
                0 <= k < stamps.len() ==> can_go_on(state@, #[trigger] run(start, stamps.take(k))),
            payload@.action_sequence == start.action_sequence,
        decreases payload@.action_sequence.len() - payload@.action_index,
    {
        assert(payload.action_index < payload.action_sequence.len());
        let now: u64 = now_micros();
        execute_next(payload, now);
        proof {
            let next = stamps.push(now);
            assert(next.drop_last() =~= stamps);
            assert forall|k: int| 0 <= k < next.len() implies can_go_on(
                state@,
                #[trigger] run(start, next.take(k)),
            ) by {
                if k < stamps.len() {
                    assert(next.take(k) =~= stamps.take(k));
                } else {
                    assert(next.take(k) =~= stamps);
                }
            }
            stamps = next;
        }
    }
    assert(is_run(state@, start, stamps));
}

// ── Passing on ───────────────────────────────────────────────────────────────

/// An order whose actions are being executed, while the node waits for a peer.
#[derive(Debug, PartialEq, Eq)]
pub enum ProcessJob {
    /// Peers are asked in turn to go on with the order.
    Forwarding { recipe_name: String, payload: ProcessPayload, peers: Vec<String>, tried: usize },
    /// The finished order is being delivered.
    Delivering { recipe_name: String, host: String },
    /// The failure of the order is being delivered.
    GivingUp { recipe_name: String, host: String, error: String },
    /// Nothing is left to do.
    Finished,
}

/// What a [`ProcessJob`] holds. The peers are those that have not failed yet, the one being asked
/// first.
#[verifier::ext_equal]
pub enum ProcessView {
    Forwarding { recipe_name: Seq<char>, payload: PayloadView, peers: Seq<Seq<char>> },
    Delivering { recipe_name: Seq<char>, host: Seq<char> },
    GivingUp { recipe_name: Seq<char>, host: Seq<char>, error: Seq<char> },
    Finished,
}

impl View for ProcessJob {
    type V = ProcessView;

    open spec fn view(&self) -> ProcessView {
        match self {
            ProcessJob::Forwarding { recipe_name, payload, peers, tried } => {
                ProcessView::Forwarding {
                    recipe_name: recipe_name@,
                    payload: payload@,
                    peers: text::views(peers@).skip(*tried as int),
                }
            },
            ProcessJob::Delivering { recipe_name, host } => ProcessView::Delivering {
                recipe_name: recipe_name@,
                host: host@,
            },
            ProcessJob::GivingUp { recipe_name, host, error } => ProcessView::GivingUp {
                recipe_name: recipe_name@,
                host: host@,
                error: error@,
            },
            ProcessJob::Finished => ProcessView::Finished,
        }
    }
}

impl ProcessJob {
    /// A job that forwards has an action left and a peer that is being asked.
    pub open spec fn wf(self) -> bool {
        match self {
            ProcessJob::Forwarding { recipe_name, payload, peers, tried } => {
                &&& payload.action_index < payload.action_sequence@.len()
                &&& tried < peers@.len()
            },
            _ => true,
        }
    }
}

/// The event can come of what the job waits for.
pub open spec fn job_expects(job: ProcessView, event: EventView) -> bool {
    match job {
        ProcessView::Forwarding { recipe_name, payload, peers } => event is Answered
            || event is Failed,
        ProcessView::Delivering { recipe_name, host } => event is Done || event is Failed,
        ProcessView::GivingUp { recipe_name, host, error } => event is Done || event is Failed,
        ProcessView::Finished => false,
    }
}

/// The payload as it is sent on to a node at `timestamp`.
pub open spec fn forwarded(p: PayloadView, to: Seq<char>, timestamp: u64) -> PayloadView {
    PayloadView { updates: p.updates.push(UpdateView::Forward { to, timestamp }), ..p }
}

/// What is said of an action that nobody executes.
pub open spec fn unavailable(action: Seq<char>) -> Seq<char> {
    "Action "@ + action + " not available"@
}

/// The order is delivered as failed, since nobody executes its next action.
pub open spec fn give_up(recipe_name: Seq<char>, p: PayloadView) -> (ProcessView, TaskView) {
    let error = unavailable(p.action_sequence[p.action_index as int].name);
    (
        ProcessView::GivingUp { recipe_name, host: p.delivery_host, error },
        TaskView::Tell {
            peer: p.delivery_host,
            message: TcpView::Deliver { payload: p, error: Some(error) },
        },
    )
}

/// The next peer is asked to go on with the order; without one the order fails.
pub open spec fn pass_on(
    recipe_name: Seq<char>,
    p: PayloadView,
    peers: Seq<Seq<char>>,
    now: u64,
) -> (ProcessView, TaskView) {
    if peers.len() == 0 {
        give_up(recipe_name, p)
    } else {
        (
            ProcessView::Forwarding { recipe_name, payload: p, peers },
            TaskView::Ask {
                peer: peers[0],
                message: TcpView::ProcessPayload { payload: forwarded(p, peers[0], now) },
            },
        )
    }
}

/// Where a payload goes from this node: to its delivery host where all actions are done, else to
/// the peers that can execute the next one.
pub open spec fn next_hop(
    state: NodeView,
    recipe_name: Seq<char>,
    p: PayloadView,
    now: u64,
) -> (ProcessView, TaskView) {
    if p.action_index >= p.action_sequence.len() {
        (
            ProcessView::Delivering { recipe_name, host: p.delivery_host },
            TaskView::Tell {
                peer: p.delivery_host,
                message: TcpView::Deliver {
                    payload: forwarded(p, p.delivery_host, now),
                    error: None,
                },
            },
        )
    } else {
        pass_on(
            recipe_name,
            p,
            listing::capable_peers(state, p.action_sequence[p.action_index as int].name),
            now,
        )
    }
}

/// The answer that stands for an order whose result comes by delivery.
pub open spec fn placeholder(recipe_name: Seq<char>) -> TcpView {
    TcpView::CompletedOrder { recipe_name, result: seq![] }
}

/// What a job does after an event.
pub open spec fn process_resumed(job: ProcessView, event: EventView, now: u64) -> (
    ProcessView,
    TaskView,
) {
    match (job, event) {
        (
            ProcessView::Forwarding { recipe_name, payload, peers },
            EventView::Answered { message, shown },
        ) => (ProcessView::Finished, TaskView::Answer(message)),
        (ProcessView::Forwarding { recipe_name, payload, peers }, _) => pass_on(
            recipe_name,
            payload,
            peers.drop_first(),
            now,
        ),
        (ProcessView::Delivering { recipe_name, host }, EventView::Failed(why)) => (
            ProcessView::Finished,
            TaskView::Answer(task::error("deliver to "@ + host + " failed: "@ + why)),
        ),
        (ProcessView::Delivering { recipe_name, host }, _) => (
            ProcessView::Finished,
            TaskView::Answer(placeholder(recipe_name)),
        ),
        (ProcessView::GivingUp { recipe_name, host, error }, EventView::Failed(why)) => (
            ProcessView::Finished,
            TaskView::Answer(
                task::error(
                    "deliver failure '"@ + error + "' to "@ + host + " failed: "@ + why,
                ),
            ),
        ),
        (ProcessView::GivingUp { recipe_name, host, error }, _) => (
            ProcessView::Finished,
            TaskView::Answer(placeholder(recipe_name)),
        ),
        (ProcessView::Finished, _) => (ProcessView::Finished, TaskView::Await),
    }
}

/// `r` is what a job does after an event at some time.
pub open spec fn is_continued(
    job: ProcessView,
    event: EventView,
    r: (ProcessView, TaskView),
) -> bool {
    exists|now: u64| r == #[trigger] process_resumed(job, event, now)
}

/// The payload as it is sent on to a node at `timestamp`.
fn forward_payload(payload: &ProcessPayload, to: &str, timestamp: u64) -> (r: ProcessPayload)
    ensures
        r@ == forwarded(payload@, to@, timestamp),
{
    let mut copy = payload.clone();
    copy.updates.push(Update::Forward { to: Required(to.to_string()), timestamp });
    assert(copy@.updates =~= payload@.updates.push(
        UpdateView::Forward { to: to@, timestamp },
    ));
    copy
}

/// The next peer is asked to go on with the order; without one the order fails.
fn pass_on_to(
    recipe_name: String,
    payload: ProcessPayload,
    peers: Vec<String>,
    tried: usize,
    now: u64,
) -> (r: (ProcessJob, Task))
    requires
        payload@.action_index < payload@.action_sequence.len(),
        tried <= peers@.len(),
    ensures
        r.0.wf(),
        (r.0@, r.1@) == pass_on(
            recipe_name@,
            payload@,
            text::views(peers@).skip(tried as int),
            now,
        ),
{
    let ghost rest = text::views(peers@).skip(tried as int);
    if tried == peers.len() {
        assert(payload.action_index < payload.action_sequence.len());
        let index: usize = payload.action_index as usize;
        let host = payload.delivery_host.0.clone();
        let error = concat3(
            "Action ",
            payload.action_sequence[index].name.as_str(),
            " not available",
        );
        let copy = error.clone();
        let task = Task::Tell {
            peer: host.clone(),
            message: TcpMessage::Deliver { payload, error: Some(copy) },
        };
        let job = ProcessJob::GivingUp { recipe_name, host, error };
        return (job, task);
    }
    assert(rest[0] == peers@[tried as int]@);
    let copy = forward_payload(&payload, peers[tried].as_str(), now);
    let task = Task::Ask {
        peer: peers[tried].clone(),
        message: TcpMessage::ProcessPayload { payload: copy },
    };
    (ProcessJob::Forwarding { recipe_name, payload, peers, tried }, task)
}

/// Sends a payload on from this node at `now`.
pub fn send_on(state: &NodeState, recipe_name: &str, payload: ProcessPayload, now: u64) -> (r: (
    ProcessJob,
    Task,
))
    ensures
        r.0.wf(),
        (r.0@, r.1@) == next_hop(state@, recipe_name@, payload@, now),
{
    let count: usize = payload.action_sequence.len();
    if payload.action_index >= count as u64 {
        let host = payload.delivery_host.0.clone();
        let copy = forward_payload(&payload, host.as_str(), now);
        let task = Task::Tell {
            peer: host.clone(),
            message: TcpMessage::Deliver { payload: copy, error: None },
        };
        return (ProcessJob::Delivering { recipe_name: recipe_name.to_string(), host }, task);
    }
    let index: usize = payload.action_index as usize;
    let peers = find_capable_peers(state, payload.action_sequence[index].name.as_str());
    assert(text::views(peers@).skip(0) =~= text::views(peers@));
    pass_on_to(recipe_name.to_string(), payload, peers, 0, now)
}

/// `r` is what comes of a payload at some time: all actions that the node can execute are executed,
/// and the payload is sent on.
pub open spec fn is_processed(
    state: NodeView,
    recipe_name: Seq<char>,
    p: PayloadView,
    r: (ProcessView, TaskView),
) -> bool {
    exists|stamps: Seq<u64>, now: u64|
        is_run(state, p, stamps) && r == #[trigger] next_hop(state, recipe_name, run(p, stamps), now)
}

/// Executes actions of a payload until this node can no longer proceed, then forwards it to a peer
/// or delivers the completed order.
///
/// `recipe_name` is used to label the result. Pass `"unknown"` when the name is not available.
pub fn handle_process_payload(state: &NodeState, recipe_name: &str, payload: ProcessPayload) -> (r:
    (ProcessJob, Task))
    ensures
        r.0.wf(),
        is_processed(state@, recipe_name@, payload@, (r.0@, r.1@)),
{
    let mut payload = payload;
    execute_locally(state, &mut payload);
    let now: u64 = now_micros();
    send_on(state, recipe_name, payload, now)
}

impl ProcessJob {
    /// What is to be done after an event at `now`.
    pub fn resume_at(self, event: Event, now: u64) -> (r: (ProcessJob, Task))
        requires
            self.wf(),
            job_expects(self@, event@),
        ensures
            r.0.wf(),
            (r.0@, r.1@) == process_resumed(self@, event@, now),
    {
        match self {
            ProcessJob::Forwarding { recipe_name, payload, peers, tried } => match event {
                Event::Answered { message, shown: _ } => (
                    ProcessJob::Finished,
                    Task::Answer(message),
                ),
                _ => {
                    assert(tried < peers.len());
                    assert(text::views(peers@).skip(tried as int).drop_first() =~= text::views(
                        peers@,
                    ).skip(tried + 1));
                    pass_on_to(recipe_name, payload, peers, tried + 1, now)
                },
            },
            ProcessJob::Delivering { recipe_name, host } => match event {
                Event::Failed(why) => {
                    let text = "deliver to ".to_string().concat(host.as_str()).concat(
                        " failed: ",
                    ).concat(why.as_str());
                    (ProcessJob::Finished, Task::Answer(TcpMessage::Error { message: text }))
                },
                _ => {
                    let done = TcpMessage::CompletedOrder { recipe_name, result: String::new() };
                    assert(done@ =~= placeholder(recipe_name@));
                    (ProcessJob::Finished, Task::Answer(done))
                },
            },
            ProcessJob::GivingUp { recipe_name, host, error } => match event {
                Event::Failed(why) => {
                    let text = "deliver failure '".to_string().concat(error.as_str()).concat(
                        "' to ",
                    ).concat(host.as_str()).concat(" failed: ").concat(why.as_str());
                    (ProcessJob::Finished, Task::Answer(TcpMessage::Error { message: text }))
                },
                _ => {
                    let done = TcpMessage::CompletedOrder { recipe_name, result: String::new() };
                    assert(done@ =~= placeholder(recipe_name@));
                    (ProcessJob::Finished, Task::Answer(done))
                },
            },
            ProcessJob::Finished => (ProcessJob::Finished, Task::Await),
        }
    }

    /// What is to be done after an event.
    pub fn resume(self, event: Event) -> (r: (ProcessJob, Task))
        requires
            self.wf(),
            job_expects(self@, event@),
        ensures
            r.0.wf(),
            is_continued(self@, event@, (r.0@, r.1@)),
    {
        let now: u64 = now_micros();
        self.resume_at(event, now)
    }
}

// ── Laws ─────────────────────────────────────────────────────────────────────

/// Executing actions keeps the order's identity, plan and destination, advances by one action per
/// step, and only ever adds to the trace: one entry per action, which names it.
pub proof fn execution_keeps_the_plan(p: PayloadView, stamps: Seq<u64>)
    requires
        p.action_index + stamps.len() <= p.action_sequence.len(),
        p.action_sequence.len() <= u64::MAX,
    ensures
        ({
            let q = run(p, stamps);
            &&& q.order_id == p.order_id
            &&& q.order_timestamp == p.order_timestamp
            &&& q.delivery_host == p.delivery_host
            &&& q.action_sequence == p.action_sequence
            &&& q.action_index == p.action_index + stamps.len()
            &&& q.updates.len() == p.updates.len() + stamps.len()
            &&& p.updates == q.updates.take(p.updates.len() as int)
            &&& p.content.len() <= q.content.len()
            &&& p.content == q.content.take(p.content.len() as int)
            &&& forall|k: int|
                0 <= k < stamps.len() ==> #[trigger] q.updates[p.updates.len() + k]
                    == (UpdateView::Action {
                    action: p.action_sequence[p.action_index + k],
                    timestamp: stamps[k],
                })
        }),
    decreases stamps.len(),
{
    if stamps.len() == 0 {
        assert(p.updates.take(p.updates.len() as int) =~= p.updates);
        assert(p.content.take(p.content.len() as int) =~= p.content);
    } else {
        let front = stamps.drop_last();
        execution_keeps_the_plan(p, front);
        let m = run(p, front);
        let q = run(p, stamps);
        assert(q.updates.take(p.updates.len() as int) =~= m.updates.take(p.updates.len() as int));
        assert(q.content.take(p.content.len() as int) =~= m.content.take(p.content.len() as int));
        assert forall|k: int| 0 <= k < stamps.len() implies #[trigger] q.updates[p.updates.len()
            + k] == (UpdateView::Action {
            action: p.action_sequence[p.action_index + k],
            timestamp: stamps[k],
        }) by {
            if k < front.len() {
                assert(q.updates[p.updates.len() + k] == m.updates[p.updates.len() + k]);
                assert(front[k] == stamps[k]);
            }
        }
    }
}

/// The description that some actions make of a pizza.
pub open spec fn described(actions: Seq<ActionView>) -> Seq<char>
    decreases actions.len(),
{
    if actions.len() == 0 {
        seq![]
    } else {
        described(actions.drop_last()) + action_line(actions.last())
    }
}

/// The content of an order depends on its actions alone, not on when or where they are executed:
/// it grows by the lines of the executed actions, in order.
pub proof fn content_follows_the_recipe(p: PayloadView, stamps: Seq<u64>)
    requires
        p.action_index + stamps.len() <= p.action_sequence.len(),
        p.action_sequence.len() <= u64::MAX,
    ensures
        run(p, stamps).content == p.content + described(
            p.action_sequence.subrange(p.action_index as int, p.action_index + stamps.len()),
        ),
    decreases stamps.len(),
{
    let part = p.action_sequence.subrange(
        p.action_index as int,
        p.action_index + stamps.len(),
    );
    if stamps.len() == 0 {
        assert(p.content + described(part) =~= p.content);
    } else {
        let front = stamps.drop_last();
        content_follows_the_recipe(p, front);
        execution_keeps_the_plan(p, front);
        assert(part.drop_last() =~= p.action_sequence.subrange(
            p.action_index as int,
            p.action_index + front.len(),
        ));
        assert(run(p, stamps).content =~= p.content + described(part));
    }
}

/// A run goes no further than the plan.
pub proof fn lemma_run_within(state: NodeView, p: PayloadView, stamps: Seq<u64>)
    requires
        is_run(state, p, stamps),
        p.action_index <= p.action_sequence.len() <= u64::MAX,
    ensures
        p.action_index + stamps.len() <= p.action_sequence.len(),
{
    lemma_run_prefix(state, p, stamps, stamps.len() as int);
}

proof fn lemma_run_prefix(state: NodeView, p: PayloadView, stamps: Seq<u64>, k: int)
    requires
        is_run(state, p, stamps),
        p.action_index <= p.action_sequence.len() <= u64::MAX,
        0 <= k <= stamps.len(),
    ensures
        p.action_index + k <= p.action_sequence.len(),
    decreases k,
{
    if k > 0 {
        lemma_run_prefix(state, p, stamps, k - 1);
        let front = stamps.take(k - 1);
        execution_keeps_the_plan(p, front);
        assert(can_go_on(state, run(p, front)));
    }
}

/// A node executes only actions that it is capable of.
pub proof fn nodes_execute_what_they_can(
    state: NodeView,
    p: PayloadView,
    stamps: Seq<u64>,
    k: int,
)
    requires
        is_run(state, p, stamps),
        p.action_index <= p.action_sequence.len() <= u64::MAX,
        0 <= k < stamps.len(),
    ensures
        listing::can_execute(state, p.action_sequence[p.action_index + k].name),
{
    lemma_run_within(state, p, stamps);
    let front = stamps.take(k);
    execution_keeps_the_plan(p, front);
    assert(can_go_on(state, run(p, front)));
}

/// The route of an order does not change the pizza: whether some actions are executed at one node
/// and the next ones at another, to which the payload was sent on, or all of them at one node, the
/// content is the same and the same actions are done.
pub proof fn route_does_not_matter(
    p: PayloadView,
    first: Seq<u64>,
    to: Seq<char>,
    sent: u64,
    second: Seq<u64>,
)
    requires
        p.action_index + first.len() + second.len() <= p.action_sequence.len(),
        p.action_sequence.len() <= u64::MAX,
    ensures
        ({
            let shared = run(forwarded(run(p, first), to, sent), second);
            let alone = run(p, first + second);
            &&& shared.content == alone.content
            &&& shared.action_index == alone.action_index
            &&& shared.action_sequence == alone.action_sequence
            &&& shared.order_id == alone.order_id
            &&& shared.delivery_host == alone.delivery_host
        }),
{
    let m = forwarded(run(p, first), to, sent);
    let i = p.action_index as int;
    let j = i + first.len();
    let k = j + second.len();
    execution_keeps_the_plan(p, first);
    execution_keeps_the_plan(m, second);
    execution_keeps_the_plan(p, first + second);
    content_follows_the_recipe(p, first);
    content_follows_the_recipe(m, second);
    content_follows_the_recipe(p, first + second);
    let a = p.action_sequence.subrange(i, j);
    let b = p.action_sequence.subrange(j, k);
    assert(p.action_sequence.subrange(i, k) =~= a + b);
    lemma_described_add(a, b);
    assert(p.content + described(a) + described(b) =~= p.content + described(a + b));
}

/// What two lists of actions make of a pizza is what they make of it one after the other.
proof fn lemma_described_add(a: Seq<ActionView>, b: Seq<ActionView>)
    ensures
        described(a + b) == described(a) + described(b),
    decreases b.len(),
{
    if b.len() == 0 {
        assert(a + b =~= a);
        assert(described(a) + described(b) =~= described(a));
    } else {
        assert((a + b).drop_last() =~= a + b.drop_last());
        lemma_described_add(a, b.drop_last());
        assert(described(a + b) =~= described(a) + described(b));
    }
}

/// How far a node gets with an order depends only on what it can do: any two runs of the same
/// payload execute the same number of actions.
pub proof fn runs_are_equally_long(
    state: NodeView,
    p: PayloadView,
    stamps: Seq<u64>,
    others: Seq<u64>,
)
    requires
        is_run(state, p, stamps),
        is_run(state, p, others),
        p.action_index <= p.action_sequence.len() <= u64::MAX,
    ensures
        stamps.len() == others.len(),
{
    lemma_run_within(state, p, stamps);
    lemma_run_within(state, p, others);
    lemma_not_longer(state, p, stamps, others);
    lemma_not_longer(state, p, others, stamps);
}

proof fn lemma_not_longer(state: NodeView, p: PayloadView, stamps: Seq<u64>, others: Seq<u64>)
    requires
        is_run(state, p, stamps),
        is_run(state, p, others),
        p.action_index + stamps.len() <= p.action_sequence.len(),
        p.action_index + others.len() <= p.action_sequence.len(),
        p.action_sequence.len() <= u64::MAX,
    ensures
        others.len() <= stamps.len(),
{
    if stamps.len() < others.len() {
        let cut = others.take(stamps.len() as int);
        execution_keeps_the_plan(p, stamps);
        execution_keeps_the_plan(p, cut);
        assert(can_go_on(state, run(p, cut)));
    }
}

/// A node that can execute all actions of an order delivers it in full: the payload goes to the
/// delivery host with every action done, every action in its trace and no error.
pub proof fn capable_node_completes_the_order(
    state: NodeView,
    recipe_name: Seq<char>,
    p: PayloadView,
    stamps: Seq<u64>,
    now: u64,
)
    requires
        is_run(state, p, stamps),
        p.action_index <= p.action_sequence.len() <= u64::MAX,
        forall|i: int|
            p.action_index <= i < p.action_sequence.len() ==> listing::can_execute(
                state,
                (#[trigger] p.action_sequence[i]).name,
            ),
    ensures
        ({
            let q = run(p, stamps);
            &&& next_hop(state, recipe_name, q, now) == (
                ProcessView::Delivering { recipe_name, host: p.delivery_host },
                TaskView::Tell {
                    peer: p.delivery_host,
                    message: TcpView::Deliver {
                        payload: forwarded(q, p.delivery_host, now),
                        error: None,
                    },
                },
            )
            &&& q.order_id == p.order_id
            &&& q.action_index == p.action_sequence.len()
            &&& q.updates.len() == p.updates.len() + (p.action_sequence.len() - p.action_index)
        }),
{
    lemma_run_within(state, p, stamps);
    execution_keeps_the_plan(p, stamps);
    let q = run(p, stamps);
    if q.action_index < q.action_sequence.len() {
        assert(listing::can_execute(state, p.action_sequence[q.action_index as int].name));
    }
}

/// An action that neither the node nor a peer can execute fails the order: the delivery host is
/// told which action is missing, and the payload does not advance beyond it.
pub proof fn missing_action_fails_the_order(
    state: NodeView,
    recipe_name: Seq<char>,
    p: PayloadView,
    now: u64,
)
    requires
        p.action_index < p.action_sequence.len(),
        listing::capable_peers(
            state,
            p.action_sequence[p.action_index as int].name,
        ).len() == 0,
    ensures
        next_hop(state, recipe_name, p, now).1 == (TaskView::Tell {
            peer: p.delivery_host,
            message: TcpView::Deliver {
                payload: p,
                error: Some(unavailable(p.action_sequence[p.action_index as int].name)),
            },
        }),
{
}

/// What becomes of a job whose tasks fail one after the other, each for its own reason and at its
/// own time.
pub open spec fn after_failures(
    start: (ProcessView, TaskView),
    whys: Seq<Seq<char>>,
    times: Seq<u64>,
) -> (ProcessView, TaskView)
    decreases whys.len(),
{
    if whys.len() == 0 {
        start
    } else {
        process_resumed(
            after_failures(start, whys.drop_last(), times.drop_last()).0,
            EventView::Failed(whys.last()),
            times.last(),
        )
    }
}

/// Peers are asked in turn: after as many failures as there are peers before one, that one is
/// asked; after the failure of all of them the order fails.
pub proof fn every_peer_is_asked(
    recipe_name: Seq<char>,
    p: PayloadView,
    peers: Seq<Seq<char>>,
    now: u64,
    whys: Seq<Seq<char>>,
    times: Seq<u64>,
)
    requires
        whys.len() == times.len(),
        whys.len() <= peers.len(),
    ensures
        ({
            let k = whys.len() as int;
            let last = if k == 0 {
                now
            } else {
                times.last()
            };
            let r = after_failures(pass_on(recipe_name, p, peers, now), whys, times);
            if k < peers.len() {
                r == (
                    ProcessView::Forwarding { recipe_name, payload: p, peers: peers.skip(k) },
                    TaskView::Ask {
                        peer: peers[k],
                        message: TcpView::ProcessPayload { payload: forwarded(p, peers[k], last) },
                    },
                )
            } else {
                r == give_up(recipe_name, p)
            }
        }),
    decreases whys.len(),
{
    if whys.len() == 0 {
        assert(peers.skip(0) =~= peers);
    } else {
        every_peer_is_asked(recipe_name, p, peers, now, whys.drop_last(), times.drop_last());
        assert(peers.skip(whys.len() - 1).drop_first() =~= peers.skip(whys.len() as int));
    }
}

/// The actions whose line shows a parameter.
pub open spec fn shows_a_parameter(name: Seq<char>) -> bool {
    name == "AddBase"@ || name == "AddCheese"@ || name == "AddPepperoni"@ || name == "Bake"@
}

/// Every action but the making of the dough leaves a line: the description keeps what it was and
/// grows by a text that ends with a line feed. Making the dough leaves nothing.
pub proof fn every_action_leaves_a_line(action: &ActionDef, content: &str, r: String)
    requires
        call_ensures(apply_action, (action, content), r),
    ensures
        content@.is_prefix_of(r@),
        r@ == content@ <==> action@.name == "MakeDough"@,
        action@.name != "MakeDough"@ ==> r@.last() == '\n',
{
    let line = action_line(action@);
    lemma_line_ends(action@);
    assert(r@.take(content@.len() as int) =~= content@);
    assert(r@.skip(content@.len() as int) =~= line);
    if line.len() == 0 {
        assert(r@ =~= content@);
    }
}

proof fn lemma_line_ends(a: ActionView)
    ensures
        a.name == "MakeDough"@ ==> action_line(a).len() == 0,
        a.name != "MakeDough"@ ==> action_line(a).len() > 0 && action_line(a).last() == '\n',
{
    reveal_strlit("): ready\n");
    reveal_strlit("\n");
    reveal_strlit(")\n");
    reveal_strlit("OliveOil: added\n");
    reveal_strlit("Mushrooms: added\n");
    reveal_strlit("Basil: added\n");
    reveal_strlit("Garlic: added\n");
    reveal_strlit("Oregano: added\n");
    reveal_strlit(": done\n");
}

/// A line that shows no parameter depends on the name of the action alone: two actions of one name
/// add the same, whatever their parameters are.
pub proof fn plain_lines_depend_on_the_name(
    a: &ActionDef,
    b: &ActionDef,
    content: &str,
    ra: String,
    rb: String,
)
    requires
        call_ensures(apply_action, (a, content), ra),
        call_ensures(apply_action, (b, content), rb),
        a@.name == b@.name,
        !shows_a_parameter(a@.name),
    ensures
        ra@ == rb@,
{
}

/// A topping is noted as added, and an action that is not known by name is noted as done.
pub proof fn toppings_are_noted(action: &ActionDef, topping: Seq<char>, content: &str, r: String)
    requires
        call_ensures(apply_action, (action, content), r),
    ensures
        ({
            let plain = topping == "OliveOil"@ || topping == "Mushrooms"@ || topping == "Basil"@
                || topping == "Garlic"@ || topping == "Oregano"@;
            let name = action@.name;
            &&& plain && name == "Add"@ + topping ==> r@ == content@ + topping + ": added\n"@
            &&& !shows_a_parameter(name) && name != "MakeDough"@ && name != "AddOliveOil"@ && name
                != "AddMushrooms"@ && name != "AddBasil"@ && name != "AddGarlic"@ && name
                != "AddOregano"@ ==> r@ == content@ + name + ": done\n"@
        }),
{
    lemma_names_differ();
    reveal_strlit(": added\n");
    reveal_strlit("Add");
    reveal_strlit("OliveOil");
    reveal_strlit("Mushrooms");
    reveal_strlit("Basil");
    reveal_strlit("Garlic");
    reveal_strlit("Oregano");
    reveal_strlit("OliveOil: added\n");
    reveal_strlit("Mushrooms: added\n");
    reveal_strlit("Basil: added\n");
    reveal_strlit("Garlic: added\n");
    reveal_strlit("Oregano: added\n");
    assert("Add"@ + "OliveOil"@ =~= "AddOliveOil"@);
    assert("Add"@ + "Mushrooms"@ =~= "AddMushrooms"@);
    assert("Add"@ + "Basil"@ =~= "AddBasil"@);
    assert("Add"@ + "Garlic"@ =~= "AddGarlic"@);
    assert("Add"@ + "Oregano"@ =~= "AddOregano"@);
    assert("OliveOil"@ + ": added\n"@ =~= "OliveOil: added\n"@);
    assert("Mushrooms"@ + ": added\n"@ =~= "Mushrooms: added\n"@);
    assert("Basil"@ + ": added\n"@ =~= "Basil: added\n"@);
    assert("Garlic"@ + ": added\n"@ =~= "Garlic: added\n"@);
    assert("Oregano"@ + ": added\n"@ =~= "Oregano: added\n"@);
    assert(content@ + topping + ": added\n"@ =~= content@ + (topping + ": added\n"@));
    assert(content@ + action@.name + ": done\n"@ =~= content@ + (action@.name + ": done\n"@));
}

/// The names of the known actions are different.
proof fn lemma_names_differ()
    ensures
        "MakeDough"@.len() == 9 && "MakeDough"@[0] == 'M',
        "AddBase"@.len() == 7 && "AddBase"@[3] == 'B',
        "AddCheese"@.len() == 9 && "AddCheese"@[0] == 'A' && "AddCheese"@[3] == 'C',
        "AddPepperoni"@.len() == 12 && "AddPepperoni"@[3] == 'P',
        "Bake"@.len() == 4,
        "AddOliveOil"@ =~= seq!['A', 'd', 'd', 'O', 'l', 'i', 'v', 'e', 'O', 'i', 'l'],
        "AddMushrooms"@ =~= seq!['A', 'd', 'd', 'M', 'u', 's', 'h', 'r', 'o', 'o', 'm', 's'],
        "AddBasil"@ =~= seq!['A', 'd', 'd', 'B', 'a', 's', 'i', 'l'],
        "AddGarlic"@ =~= seq!['A', 'd', 'd', 'G', 'a', 'r', 'l', 'i', 'c'],
        "AddOregano"@ =~= seq!['A', 'd', 'd', 'O', 'r', 'e', 'g', 'a', 'n', 'o'],
{
    reveal_strlit("MakeDough");
    reveal_strlit("AddBase");
    reveal_strlit("AddCheese");
    reveal_strlit("AddPepperoni");
    reveal_strlit("Bake");
    reveal_strlit("AddOliveOil");
    reveal_strlit("AddMushrooms");
    reveal_strlit("AddBasil");
    reveal_strlit("AddGarlic");
    reveal_strlit("AddOregano");
}

/// What a line says of the one parameter that it shows: the text before the value, the value that
/// counts where none is given, and the text behind it.
pub open spec fn shown_parameter(name: Seq<char>) -> (Seq<char>, Seq<char>, Seq<char>, Seq<char>) {
    if name == "AddBase"@ {
        ("base_type"@, "Dough + Base("@, "unknown"@, "): ready\n"@)
    } else if name == "AddCheese"@ {
        ("amount"@, "Cheese x"@, "1"@, "\n"@)
    } else if name == "AddPepperoni"@ {
        ("slices"@, "Pepperoni slices x"@, "0"@, "\n"@)
    } else {
        ("duration"@, "Baked("@, "0"@, ")\n"@)
    }
}

/// A line that shows a parameter shows its value as it is given, and a value of its own where none
/// is given; no other parameter counts.
pub proof fn shown_parameters_are_shown(action: &ActionDef, content: &str, r: String)
    requires
        call_ensures(apply_action, (action, content), r),
        shows_a_parameter(action@.name),
    ensures
        ({
            let (key, before, default, behind) = shown_parameter(action@.name);
            r@ == content@ + before + (if action@.params.contains_key(key) {
                action@.params[key]
            } else {
                default
            }) + behind
        }),
{
    lemma_names_differ();
    let (key, before, default, behind) = shown_parameter(action@.name);
    let value = param(action@, key, default);
    assert(content@ + before + value + behind =~= content@ + (before + value + behind));
}

/// Executing an action adds its line to the content and the action, whole and with its time, to
/// the trace, moves on by one and leaves the order, its plan and its destination alone.
pub proof fn one_action_is_executed_at_a_time(payload: &mut ProcessPayload, timestamp: u64)
    requires
        old(payload)@.action_index < old(payload)@.action_sequence.len() <= u64::MAX,
        call_ensures(execute_next, (payload, timestamp), ()),
    ensures
        ({
            let p = old(payload)@;
            let q = final(payload)@;
            let action = p.action_sequence[p.action_index as int];
            &&& q.order_id == p.order_id
            &&& q.order_timestamp == p.order_timestamp
            &&& q.delivery_host == p.delivery_host
            &&& q.action_sequence == p.action_sequence
            &&& q.action_index == p.action_index + 1
            &&& q.updates == p.updates.push(UpdateView::Action { action, timestamp })
            &&& q.content == p.content + action_line(action)
        }),
{
}

/// A node executes actions as long as it is capable of the next one: all that it executes are among
/// its capabilities, and it stops at the end of the plan or at an action that is not.
pub proof fn nodes_go_on_as_long_as_they_can(state: &NodeState, payload: &mut ProcessPayload)
    requires
        old(payload)@.action_index <= old(payload)@.action_sequence.len() <= u64::MAX,
        call_ensures(execute_locally, (state, payload), ()),
    ensures
        is_executed(state@.identity.capabilities, old(payload)@, final(payload)@),
{
    let p = old(payload)@;
    let stamps = choose|stamps: Seq<u64>|
        {
            &&& is_run(state@, p, stamps)
            &&& final(payload)@ == #[trigger] run(p, stamps)
        };
    lemma_executed(state@, p, stamps);
}

/// `q` is what a node with some capabilities makes of a payload: it executes the actions that it is
/// capable of, in order, up to the first one that it is not capable of.
pub open spec fn is_executed(
    capabilities: Seq<Seq<char>>,
    p: PayloadView,
    q: PayloadView,
) -> bool {
    let plan = p.action_sequence;
    let from = p.action_index as int;
    let to = q.action_index as int;
    &&& q.order_id == p.order_id
    &&& q.order_timestamp == p.order_timestamp
    &&& q.delivery_host == p.delivery_host
    &&& q.action_sequence == plan
    &&& from <= to <= plan.len()
    &&& forall|i: int| from <= i < to ==> capabilities.contains((#[trigger] plan[i]).name)
    &&& to < plan.len() ==> !capabilities.contains(plan[to].name)
    &&& q.content == p.content + described(plan.subrange(from, to))
    &&& q.updates.len() == p.updates.len() + (to - from)
    &&& p.updates.is_prefix_of(q.updates)
    &&& forall|i: int|
        from <= i < to ==> (#[trigger] q.updates[p.updates.len() + i - from] matches
            UpdateView::Action { action, timestamp } && action == plan[i])
}

/// What a run makes of a payload is what the node is to make of it.
pub proof fn lemma_executed(state: NodeView, p: PayloadView, stamps: Seq<u64>)
    requires
        p.action_index <= p.action_sequence.len() <= u64::MAX,
        is_run(state, p, stamps),
    ensures
        is_executed(state.identity.capabilities, p, run(p, stamps)),
{
    let q = run(p, stamps);
    let plan = p.action_sequence;
    let from = p.action_index as int;
    lemma_run_within(state, p, stamps);
    execution_keeps_the_plan(p, stamps);
    content_follows_the_recipe(p, stamps);
    assert forall|i: int|
        from <= i < q.action_index implies state.identity.capabilities.contains(
        (#[trigger] plan[i]).name,
    ) by {
        nodes_execute_what_they_can(state, p, stamps, i - from);
    }
    assert forall|i: int|
        from <= i < q.action_index implies (#[trigger] q.updates[p.updates.len() + i - from] matches
        UpdateView::Action { action, timestamp } && action == plan[i]) by {
        assert(q.updates[p.updates.len() + (i - from)] == (UpdateView::Action {
            action: p.action_sequence[p.action_index + (i - from)],
            timestamp: stamps[i - from],
        }));
    }
}

/// The description of a pizza is made of the lines of its actions, in order: that of one action is
/// the line of the action, and that of some actions and then others is the one and then the other.
pub proof fn descriptions_are_made_of_lines(
    a: Seq<ActionView>,
    b: Seq<ActionView>,
    action: ActionView,
)
    ensures
        described(seq![action]) == action_line(action),
        described(a + b) == described(a) + described(b),
{
    lemma_described_add(a, b);
    let one = seq![action];
    assert(one.drop_last() =~= Seq::<ActionView>::empty());
    assert(described(one.drop_last()) =~= Seq::<char>::empty());
    assert(described(one) =~= action_line(action));
}

/// `q` is `p` as it is sent on to a node at some time: nothing changes but that the trace says so.
pub open spec fn is_sent_on(p: PayloadView, q: PayloadView, to: Seq<char>, at: u64) -> bool {
    &&& q.order_id == p.order_id
    &&& q.order_timestamp == p.order_timestamp
    &&& q.delivery_host == p.delivery_host
    &&& q.action_index == p.action_index
    &&& q.action_sequence == p.action_sequence
    &&& q.content == p.content
    &&& q.updates == p.updates.push(UpdateView::Forward { to, timestamp: at })
}

/// `r` is what comes of a payload whose actions cannot go on here, while `hosts` are to be asked:
/// the first of them is asked to go on, and all of them are kept in mind; without one the delivery
/// host is told that the next action is not available, and the payload goes there as it is.
pub open spec fn goes_to(
    recipe_name: Seq<char>,
    p: PayloadView,
    hosts: Seq<Seq<char>>,
    at: u64,
    r: (ProcessView, TaskView),
) -> bool {
    if hosts.len() > 0 {
        &&& r.0 == (ProcessView::Forwarding { recipe_name, payload: p, peers: hosts })
        &&& r.1 matches TaskView::Ask { peer, message } && peer == hosts[0] && (message matches
            TcpView::ProcessPayload { payload } && is_sent_on(p, payload, hosts[0], at))
    } else {
        let why = "Action "@ + p.action_sequence[p.action_index as int].name + " not available"@;
        &&& r.0 == (ProcessView::GivingUp { recipe_name, host: p.delivery_host, error: why })
        &&& r.1 == (TaskView::Tell {
            peer: p.delivery_host,
            message: TcpView::Deliver { payload: p, error: Some(why) },
        })
    }
}

/// A payload whose actions are all done goes to its delivery host, without an error. Any other goes
/// to the first of the peers that have the next action among their capabilities; where there is
/// none, the delivery host is told that the action is not available.
pub proof fn payloads_go_where_they_are_needed(
    state: &NodeState,
    recipe_name: &str,
    payload: ProcessPayload,
    now: u64,
    hosts: Seq<Seq<char>>,
    r: (ProcessJob, Task),
)
    requires
        state@.gossip.peers.dom().finite(),
        call_ensures(send_on, (state, recipe_name, payload, now), r),
        payload@.action_index < payload@.action_sequence.len() ==> is_capable_list(
            state@,
            payload@.action_sequence[payload@.action_index as int].name,
            hosts,
        ),
    ensures
        is_sent(recipe_name@, payload@, hosts, now, (r.0@, r.1@)),
{
    lemma_sent(state@, recipe_name@, payload@, now, hosts);
}

/// `hosts` are the peers that can execute an action, in ascending order.
pub open spec fn is_capable_list(
    state: NodeView,
    action: Seq<char>,
    hosts: Seq<Seq<char>>,
) -> bool {
    &&& order::ascending(hosts)
    &&& forall|p: Seq<char>| #[trigger]
        hosts.contains(p) <==> state.gossip.peers.contains_key(p)
            && state.gossip.peers[p].capabilities.contains(action)
}

/// `r` is what comes of a payload that is sent on: it goes to its delivery host where all is done,
/// else to the first of `hosts`.
pub open spec fn is_sent(
    recipe_name: Seq<char>,
    p: PayloadView,
    hosts: Seq<Seq<char>>,
    at: u64,
    r: (ProcessView, TaskView),
) -> bool {
    if p.action_index >= p.action_sequence.len() {
        &&& r.0 == (ProcessView::Delivering { recipe_name, host: p.delivery_host })
        &&& r.1 matches TaskView::Tell { peer, message } && peer == p.delivery_host && (
        message matches TcpView::Deliver { payload, error } && error is None && is_sent_on(
            p,
            payload,
            p.delivery_host,
            at,
        ))
    } else {
        goes_to(recipe_name, p, hosts, at, r)
    }
}

/// Where a payload goes from a node.
pub proof fn lemma_sent(
    state: NodeView,
    recipe_name: Seq<char>,
    p: PayloadView,
    now: u64,
    hosts: Seq<Seq<char>>,
)
    requires
        state.gossip.peers.dom().finite(),
        p.action_index < p.action_sequence.len() ==> is_capable_list(
            state,
            p.action_sequence[p.action_index as int].name,
            hosts,
        ),
    ensures
        is_sent(recipe_name, p, hosts, now, next_hop(state, recipe_name, p, now)),
{
    if p.action_index < p.action_sequence.len() {
        listing::lemma_capable_is(
            state,
            p.action_sequence[p.action_index as int].name,
            hosts,
        );
    }
}

/// A payload that comes in is executed as far as the node can, and then sent on.
pub proof fn payloads_are_executed_and_sent_on(
    state: &NodeState,
    recipe_name: &str,
    payload: ProcessPayload,
    r: (ProcessJob, Task),
)
    requires
        state@.gossip.peers.dom().finite(),
        payload@.action_index <= payload@.action_sequence.len() <= u64::MAX,
        call_ensures(handle_process_payload, (state, recipe_name, payload), r),
    ensures
        is_handled(state@, recipe_name@, payload@, (r.0@, r.1@)),
{
    let (stamps, now) = choose|stamps: Seq<u64>, now: u64|
        is_run(state@, payload@, stamps) && (r.0@, r.1@) == #[trigger] next_hop(
            state@,
            recipe_name@,
            run(payload@, stamps),
            now,
        );
    lemma_handled(state@, recipe_name@, payload@, stamps, now);
}

/// `r` is what comes of a payload at a node: it is executed as far as the node can and sent on to
/// where it is needed.
pub open spec fn is_handled(
    state: NodeView,
    recipe_name: Seq<char>,
    p: PayloadView,
    r: (ProcessView, TaskView),
) -> bool {
    exists|q: PayloadView, hosts: Seq<Seq<char>>, at: u64|
        {
            &&& is_executed(state.identity.capabilities, p, q)
            &&& q.action_index < q.action_sequence.len() ==> is_capable_list(
                state,
                q.action_sequence[q.action_index as int].name,
                hosts,
            )
            &&& #[trigger] is_sent(recipe_name, q, hosts, at, r)
        }
}

/// What a node does with a payload is what is to come of it.
pub proof fn lemma_handled(
    state: NodeView,
    recipe_name: Seq<char>,
    p: PayloadView,
    stamps: Seq<u64>,
    now: u64,
)
    requires
        state.gossip.peers.dom().finite(),
        p.action_index <= p.action_sequence.len() <= u64::MAX,
        is_run(state, p, stamps),
    ensures
        is_handled(state, recipe_name, p, next_hop(state, recipe_name, run(p, stamps), now)),
{
    let q = run(p, stamps);
    let hosts = if q.action_index < q.action_sequence.len() {
        listing::capable_peers(state, q.action_sequence[q.action_index as int].name)
    } else {
        seq![]
    };
    lemma_executed(state, p, stamps);
    if q.action_index < q.action_sequence.len() {
        listing::lemma_capable(state, q.action_sequence[q.action_index as int].name);
    }
    lemma_sent(state, recipe_name, q, now, hosts);
    assert(is_sent(recipe_name, q, hosts, now, next_hop(state, recipe_name, q, now)));
}

/// While peers are asked in turn, the response of the one that is asked is the answer, whatever it
/// says; a peer that fails is followed by the next one, and after the last one the delivery host is
/// told that the action is not available.
pub proof fn peers_are_asked_in_turn(
    job: ProcessJob,
    event: Event,
    now: u64,
    r: (ProcessJob, Task),
)
    requires
        job@ is Forwarding,
        job@->peers.len() > 0,
        event@ is Answered || event@ is Failed,
        call_ensures(ProcessJob::resume_at, (job, event, now), r),
    ensures
        event@ matches EventView::Answered { message, shown } ==> r.0@ == ProcessView::Finished
            && r.1@ == TaskView::Answer(message),
        event@ is Failed ==> goes_to(
            job@->Forwarding_recipe_name,
            job@->payload,
            job@->peers.skip(1),
            now,
            (r.0@, r.1@),
        ),
{
    assert(job@->peers.drop_first() =~= job@->peers.skip(1));
}

/// Once the outcome of an order is sent off, the answer is an empty result under the name of the
/// recipe, be the order completed or given up. Where it cannot be sent, the answer is an error that
/// says to whom and why, and names the failure where there was one.
pub proof fn sent_outcomes_are_acknowledged(
    job: ProcessJob,
    event: Event,
    now: u64,
    r: (ProcessJob, Task),
)
    requires
        call_ensures(ProcessJob::resume_at, (job, event, now), r),
    ensures
        r.1@ matches TaskView::Answer(m) ==> r.0@ == ProcessView::Finished,
        (job@ matches ProcessView::Delivering { recipe_name, host } && event@ is Done) ==> r.1@
            == TaskView::Answer(
            TcpView::CompletedOrder {
                recipe_name: job@->Delivering_recipe_name,
                result: seq![],
            },
        ),
        (job@ matches ProcessView::GivingUp { recipe_name, host, error } && event@ is Done) ==> r.1@
            == TaskView::Answer(
            TcpView::CompletedOrder { recipe_name: job@->GivingUp_recipe_name, result: seq![] },
        ),
        (job@ is Delivering && event@ is Failed) ==> r.1@ == TaskView::Answer(
            TcpView::Error {
                message: "deliver to "@ + job@->Delivering_host + " failed: "@
                    + event@->Failed_0,
            },
        ),
        (job@ is GivingUp && event@ is Failed) ==> r.1@ == TaskView::Answer(
            TcpView::Error {
                message: "deliver failure '"@ + job@->error + "' to "@ + job@->GivingUp_host
                    + " failed: "@ + event@->Failed_0,
            },
        ),
{
}

/// Every peer that is capable of the next action gets its turn: after as many failures as there are
/// such peers before one, that one is asked with the payload as it was; only after the failure of
/// all of them the delivery host is told that the action is not available.
pub proof fn every_capable_peer_gets_its_turn(
    state: NodeView,
    recipe_name: Seq<char>,
    p: PayloadView,
    hosts: Seq<Seq<char>>,
    now: u64,
    whys: Seq<Seq<char>>,
    times: Seq<u64>,
)
    requires
        state.gossip.peers.dom().finite(),
        p.action_index < p.action_sequence.len(),
        is_capable_list(state, p.action_sequence[p.action_index as int].name, hosts),
        whys.len() == times.len(),
        whys.len() <= hosts.len(),
    ensures
        goes_to(
            recipe_name,
            p,
            hosts.skip(whys.len() as int),
            if whys.len() == 0 {
                now
            } else {
                times.last()
            },
            after_failures(next_hop(state, recipe_name, p, now), whys, times),
        ),
{
    listing::lemma_capable_is(state, p.action_sequence[p.action_index as int].name, hosts);
    every_peer_is_asked(recipe_name, p, hosts, now, whys, times);
}

/// What becomes of a job does not depend on the time, but for the time that the trace of a payload
/// shows: resuming it now is resuming it at some point in time.
pub proof fn jobs_are_resumed_at_some_time(job: ProcessJob, event: Event, r: (ProcessJob, Task))
    requires
        job@ is Forwarding ==> job@->peers.len() > 0,
        call_ensures(ProcessJob::resume, (job, event), r),
    ensures
        job@ is Forwarding && event@ is Answered ==> r.1@ == TaskView::Answer(event@->message),
        job@ is Forwarding && event@ is Failed ==> exists|now: u64| #[trigger]
            goes_to(
                job@->Forwarding_recipe_name,
                job@->payload,
                job@->peers.skip(1),
                now,
                (r.0@, r.1@),
            ),
        job@ is Delivering && event@ is Done ==> r.1@ == TaskView::Answer(
            TcpView::CompletedOrder {
                recipe_name: job@->Delivering_recipe_name,
                result: seq![],
            },
        ),
        job@ is GivingUp && event@ is Done ==> r.1@ == TaskView::Answer(
            TcpView::CompletedOrder { recipe_name: job@->GivingUp_recipe_name, result: seq![] },
        ),
        (job@ is Delivering || job@ is GivingUp) && event@ is Failed ==> (r.1@ matches
            TaskView::Answer(m) && m is Error),
{
    let now = choose|now: u64| (r.0@, r.1@) == #[trigger] process_resumed(job@, event@, now);
    if job@ is Forwarding && event@ is Failed {
        assert(job@->peers.drop_first() =~= job@->peers.skip(1));
        assert(goes_to(
            job@->Forwarding_recipe_name,
            job@->payload,
            job@->peers.skip(1),
            now,
            (r.0@, r.1@),
        ));
    }
}

/// A payload of which nothing is left to do is delivered as it is.
pub proof fn finished_payloads_are_delivered(
    state: &NodeState,
    recipe_name: &str,
    payload: ProcessPayload,
    r: (ProcessJob, Task),
)
    requires
        payload@.action_index >= payload@.action_sequence.len(),
        call_ensures(handle_process_payload, (state, recipe_name, payload), r),
    ensures
        exists|at: u64| #[trigger]
            is_sent(recipe_name@, payload@, seq![], at, (r.0@, r.1@)),
{
    let p = payload@;
    let (stamps, now) = choose|stamps: Seq<u64>, now: u64|
        is_run(state@, p, stamps) && (r.0@, r.1@) == #[trigger] next_hop(
            state@,
            recipe_name@,
            run(p, stamps),
            now,
        );
    if stamps.len() > 0 {
        assert(stamps.take(0) =~= Seq::<u64>::empty());
        assert(can_go_on(state@, run(p, stamps.take(0))));
    }
    assert(is_sent(recipe_name@, p, seq![], now, (r.0@, r.1@)));
}

/// A payload of which nothing is left to execute stays as it is.
pub proof fn finished_payloads_stay(state: &NodeState, payload: &mut ProcessPayload)
    requires
        old(payload)@.action_index >= old(payload)@.action_sequence.len(),
        call_ensures(execute_locally, (state, payload), ()),
    ensures
        final(payload)@ == old(payload)@,
{
    let p = old(payload)@;
    let stamps = choose|stamps: Seq<u64>|
        {
            &&& is_run(state@, p, stamps)
            &&& final(payload)@ == #[trigger] run(p, stamps)
        };
    if stamps.len() > 0 {
        assert(stamps.take(0) =~= seq![]);
        assert(can_go_on(state@, run(p, stamps.take(0))));
    }
}

} // verus!
