//! Routing of requests to their handlers.
use crate::ids;
use crate::node::NodeState;
use crate::node::NodeView;
use crate::protocol::TcpMessage;
use crate::protocol::TcpView;
use crate::server::handlers::deliver;
use crate::server::handlers::deliver::open_delivery;
use crate::server::handlers::deliver::Delivery;
use crate::server::handlers::handle_get_recipe;
use crate::server::handlers::handle_list_recipes;
use crate::server::handlers::handle_order;
use crate::server::handlers::handle_process_payload;
use crate::server::handlers::listing;
use crate::server::handlers::lookup;
use crate::server::handlers::lookup::Search;
use crate::server::handlers::lookup::SearchView;
use crate::server::handlers::order;
use crate::server::handlers::order::OrderJob;
use crate::server::handlers::order::OrderJobView;
use crate::server::handlers::process;
use crate::server::handlers::process::ProcessJob;
use crate::server::handlers::process::ProcessView;
use crate::server::handlers::task;
use crate::server::handlers::task::Event;
use crate::server::handlers::task::EventView;
use crate::server::handlers::task::Task;
use crate::server::handlers::task::TaskView;
use vstd::prelude::*;

verus! {

/// A request that is being served.
#[derive(Debug, PartialEq, Eq)]
pub enum Job {
    /// A recipe is looked for among peers.
    Search(Search),
    /// A payload is executed.
    Process(ProcessJob),
    /// An order is taken.
    Order(OrderJob),
    /// Nothing is left to do.
    Done,
}

/// What a [`Job`] holds.
#[verifier::ext_equal]
pub enum JobView {
    Search(SearchView),
    Process(ProcessView),
    Order(OrderJobView),
    Done,
}

impl View for Job {
    type V = JobView;

    open spec fn view(&self) -> JobView {
        match self {
            Job::Search(s) => JobView::Search(s@),
            Job::Process(p) => JobView::Process(p@),
            Job::Order(o) => JobView::Order(o@),
            Job::Done => JobView::Done,
        }
    }
}

impl Job {
    /// The parts of the job are in order.
    pub open spec fn wf(self) -> bool {
        match self {
            Job::Search(s) => s.wf(),
            Job::Process(p) => p.wf(),
            Job::Order(o) => o.wf(),
            Job::Done => true,
        }
    }
}

/// The event can come of what the job waits for.
pub open spec fn expects(job: JobView, event: EventView) -> bool {
    match job {
        JobView::Search(s) => task::fits(lookup::search_task(s), event),
        JobView::Process(p) => process::job_expects(p, event),
        JobView::Order(o) => order::order_expects(o, event),
        JobView::Done => false,
    }
}

/// What is made of a request.
#[derive(Debug, PartialEq, Eq)]
pub enum Request {
    /// The outcome of an order came in. Nothing is written back: the sender does not wait.
    Delivered(Delivery),
    /// There is something to do, at the end of which stands an answer.
    Serve(Job, Task),
}

/// `r` is what is made of a message.
pub open spec fn is_dispatched(state: NodeView, message: TcpView, ticket: u64, r: Request) -> bool {
    match message {
        TcpView::Deliver { payload, error } => match r {
            Request::Delivered(d) => deliver::is_outcome(payload, error, d@),
            _ => false,
        },
        TcpView::Order { recipe_name } => match r {
            Request::Serve(Job::Order(job), task) => order::is_started(
                state,
                recipe_name,
                ticket,
                (job@, task@),
            ),
            _ => false,
        },
        TcpView::ProcessPayload { payload } => match r {
            Request::Serve(Job::Process(job), task) => process::is_processed(
                state,
                "unknown"@,
                payload,
                (job@, task@),
            ),
            _ => false,
        },
        TcpView::GetRecipe { recipe_name } => match r {
            Request::Serve(Job::Search(search), task) => {
                &&& search@ == (SearchView {
                    recipe_name,
                    peers: listing::recipe_peers(state, recipe_name),
                })
                &&& task@ == (if listing::has_recipe(state, recipe_name) {
                    TaskView::Answer(
                        TcpView::RecipeAnswer { recipe: lookup::own_source(state, recipe_name) },
                    )
                } else {
                    lookup::search_task(search@)
                })
            },
            _ => false,
        },
        TcpView::ListRecipes => match r {
            Request::Serve(Job::Done, task) => task@ == TaskView::Answer(
                TcpView::RecipeListAnswer { recipes: listing::recipe_list(state) },
            ),
            _ => false,
        },
        _ => match r {
            Request::Serve(Job::Done, task) => task@ == TaskView::Answer(
                task::error("unexpected message type"@),
            ),
            _ => false,
        },
    }
}

/// Routes a decoded message to its handler. `ticket` names the one who waits for the result, should
/// the message be an order.
///
/// An order is answered with two frames, the receipt and the result. A delivery is not answered.
/// All else follows the one-frame-in, one-frame-out pattern.
pub fn dispatch(state: &NodeState, message: TcpMessage, ticket: u64) -> (r: Request)
    ensures
        is_dispatched(state@, message@, ticket, r),
        r matches Request::Serve(job, task) ==> job.wf(),
{
    match message {
        TcpMessage::Deliver { payload, error } => Request::Delivered(open_delivery(payload, error)),
        TcpMessage::Order { recipe_name } => {
            let (job, task) = handle_order(state, recipe_name.as_str(), ticket);
            Request::Serve(Job::Order(job), task)
        },
        TcpMessage::ProcessPayload { payload } => {
            let (job, task) = handle_process_payload(state, "unknown", payload);
            Request::Serve(Job::Process(job), task)
        },
        TcpMessage::GetRecipe { recipe_name } => {
            let (search, task) = handle_get_recipe(state, recipe_name.as_str());
            Request::Serve(Job::Search(search), task)
        },
        TcpMessage::ListRecipes => {
            Request::Serve(Job::Done, Task::Answer(handle_list_recipes(state)))
        },
        _ => {
            let refused = TcpMessage::Error { message: "unexpected message type".to_string() };
            Request::Serve(Job::Done, Task::Answer(refused))
        },
    }
}

/// `next` and `r` are what comes of a job after an event.
pub open spec fn is_resumed(
    state: NodeView,
    job: JobView,
    event: EventView,
    next: NodeView,
    r: (JobView, TaskView),
) -> bool {
    match job {
        JobView::Search(s) => {
            &&& next == state
            &&& r.1 == lookup::search_resumed(s, event)
            &&& r.0 == JobView::Search(
                if event is Answered {
                    s
                } else {
                    lookup::search_rest(s)
                },
            )
        },
        JobView::Process(p) => {
            &&& next == state
            &&& match r.0 {
                JobView::Process(q) => process::is_continued(p, event, (q, r.1)),
                _ => false,
            }
        },
        JobView::Order(o) => match r.0 {
            JobView::Order(q) => order::is_resumed(state, o, event, next, (q, r.1)),
            _ => false,
        },
        JobView::Done => true,
    }
}

impl Job {
    /// What is to be done for the request after an event.
    pub fn resume(self, state: &mut NodeState, event: Event) -> (r: (Job, Task))
        requires
            self.wf(),
            expects(self@, event@),
        ensures
            r.0.wf(),
            is_resumed(old(state)@, self@, event@, final(state)@, (r.0@, r.1@)),
    {
        match self {
            Job::Search(search) => {
                let mut search = search;
                let task = search.resume(event);
                (Job::Search(search), task)
            },
            Job::Process(job) => {
                let (job, task) = job.resume(event);
                (Job::Process(job), task)
            },
            Job::Order(job) => {
                let (job, task) = job.resume(state, event);
                (Job::Order(job), task)
            },
            Job::Done => (Job::Done, Task::Await),
        }
    }
}

// ── Laws ─────────────────────────────────────────────────────────────────────

/// Every request is served as what it is: the outcome of an order is taken in; an order is taken
/// for the one who placed it; a payload is executed and sent on; a recipe that the node has is
/// handed out, and for any other one the peers that have announced it are asked; the list names all
/// recipes that the node knows. What is no request is refused.
pub proof fn requests_are_served(
    state: &NodeState,
    message: TcpMessage,
    ticket: u64,
    hosts: Seq<Seq<char>>,
    r: Request,
)
    requires
        state@.gossip.peers.dom().finite(),
        message@ is GetRecipe ==> lookup::is_advertiser_list(
            state@,
            message@->GetRecipe_recipe_name,
            hosts,
        ),
        message@ is ProcessPayload ==> message@->ProcessPayload_payload.action_index
            <= message@->ProcessPayload_payload.action_sequence.len() <= u64::MAX,
        call_ensures(dispatch, (state, message, ticket), r),
    ensures
        match (message@, r) {
            (TcpView::Deliver { payload, error }, Request::Delivered(d)) => deliver::is_opened(
                payload,
                error,
                d@,
            ),
            (TcpView::Order { recipe_name }, Request::Serve(Job::Order(job), task)) => exists|
                id: u128,
            | #[trigger]
                order::is_taken(state@, recipe_name, id, ticket, (job@, task@))
                    && ids::is_random_id(id),
            (
                TcpView::ProcessPayload { payload },
                Request::Serve(Job::Process(job), task),
            ) => process::is_handled(state@, "unknown"@, payload, (job@, task@)),
            (TcpView::GetRecipe { recipe_name }, Request::Serve(Job::Search(search), task)) => {
                &&& search@ == (SearchView { recipe_name, peers: hosts })
                &&& forall|i: int| #[trigger]
                    lookup::is_first(state@.identity.recipes, recipe_name, i) ==> task@
                        == TaskView::Answer(
                        TcpView::RecipeAnswer { recipe: state@.identity.recipes[i].source },
                    )
                &&& !listing::is_own(state@.identity.recipes, recipe_name) ==> lookup::asks_for(
                    recipe_name,
                    hosts,
                    task@,
                )
            },
            (TcpView::ListRecipes, Request::Serve(Job::Done, task)) => task@ matches
                TaskView::Answer(m) && (m matches TcpView::RecipeListAnswer { recipes }
                && listing::is_full_list(state@, recipes)),
            (_, Request::Serve(Job::Done, task)) => {
                &&& !(message@ is Deliver) && !(message@ is Order) && !(message@ is ProcessPayload)
                    && !(message@ is GetRecipe)
                &&& task@ == TaskView::Answer(
                    TcpView::Error { message: "unexpected message type"@ },
                )
            },
            _ => false,
        },
{
    match message@ {
        TcpView::Deliver { payload, error } => {
            if let Request::Delivered(d) = r {
                let now = choose|now: u64| d@ == #[trigger] deliver::outcome(payload, error, now);
                deliver::lemma_opened(payload, error, now);
            }
        },
        TcpView::Order { recipe_name } => {
            if let Request::Serve(Job::Order(job), task) = r {
                let id = choose|id: u128|
                    ids::is_random_id(id) && (job@, task@) == #[trigger] order::order_started(
                        state@,
                        recipe_name,
                        id,
                        ticket,
                    );
                order::lemma_taken(state@, recipe_name, id, ticket);
                assert(order::is_taken(state@, recipe_name, id, ticket, (job@, task@)));
            }
        },
        TcpView::ProcessPayload { payload } => {
            if let Request::Serve(Job::Process(job), task) = r {
                let (stamps, now) = choose|stamps: Seq<u64>, now: u64|
                    process::is_run(state@, payload, stamps) && (job@, task@)
                        == #[trigger] process::next_hop(
                        state@,
                        "unknown"@,
                        process::run(payload, stamps),
                        now,
                    );
                process::lemma_handled(state@, "unknown"@, payload, stamps, now);
            }
        },
        TcpView::GetRecipe { recipe_name } => {
            listing::lemma_advertisers_are(state@, recipe_name, hosts);
            listing::lemma_is_own(state@, recipe_name);
            if let Request::Serve(Job::Search(search), task) = r {
                assert forall|i: int| #[trigger]
                    lookup::is_first(state@.identity.recipes, recipe_name, i) implies task@
                    == TaskView::Answer(
                    TcpView::RecipeAnswer { recipe: state@.identity.recipes[i].source },
                ) by {
                    lookup::lemma_first(state@.identity.recipes, recipe_name, i);
                }
            }
        },
        TcpView::ListRecipes => {
            listing::lemma_full_list(state@);
        },
        _ => {},
    }
}

/// What happens while a recipe is looked for or a payload is passed on changes nothing at the node.
/// The response of the peer that was asked is the answer; a peer that fails is followed by the next
/// one. An order is carried on as an order.
pub proof fn served_requests_are_carried_on(
    job: Job,
    state: &mut NodeState,
    event: Event,
    r: (Job, Task),
)
    requires
        expects(job@, event@),
        job@ is Search ==> job@->Search_0.peers.len() > 0,
        job@ matches JobView::Process(p) ==> p is Forwarding ==> p->peers.len() > 0,
        call_ensures(Job::resume, (job, state, event), r),
    ensures
        match (job@, r.0@) {
            (JobView::Search(s), JobView::Search(t)) => {
                &&& final(state)@ == old(state)@
                &&& event@ is Answered ==> r.1@ == TaskView::Answer(event@->message)
                &&& event@ is Failed ==> t == (SearchView {
                    recipe_name: s.recipe_name,
                    peers: s.peers.skip(1),
                }) && lookup::asks_for(s.recipe_name, s.peers.skip(1), r.1@)
            },
            (JobView::Process(p), JobView::Process(q)) => {
                &&& final(state)@ == old(state)@
                &&& p is Forwarding && event@ is Answered ==> r.1@ == TaskView::Answer(
                    event@->message,
                )
                &&& p is Forwarding && event@ is Failed ==> exists|now: u64| #[trigger]
                    process::goes_to(
                        p->Forwarding_recipe_name,
                        p->payload,
                        p->peers.skip(1),
                        now,
                        (q, r.1@),
                    )
                &&& p is Delivering && event@ is Done ==> r.1@ == TaskView::Answer(
                    TcpView::CompletedOrder {
                        recipe_name: p->Delivering_recipe_name,
                        result: seq![],
                    },
                )
                &&& p is GivingUp && event@ is Done ==> r.1@ == TaskView::Answer(
                    TcpView::CompletedOrder {
                        recipe_name: p->GivingUp_recipe_name,
                        result: seq![],
                    },
                )
                &&& !(p is Forwarding) && event@ is Failed ==> (r.1@ matches TaskView::Answer(m)
                    && m is Error)
            },
            (JobView::Order(o), JobView::Order(q)) => order::is_resumed(
                old(state)@,
                o,
                event@,
                final(state)@,
                (q, r.1@),
            ),
            _ => false,
        },
{
    match job@ {
        JobView::Search(s) => {
            assert(s.peers.drop_first() =~= s.peers.skip(1));
        },
        JobView::Process(p) => {
            if let JobView::Process(q) = r.0@ {
                let now = choose|now: u64|
                    (q, r.1@) == #[trigger] process::process_resumed(p, event@, now);
                if p is Forwarding && event@ is Failed {
                    assert(p->peers.drop_first() =~= p->peers.skip(1));
                    assert(process::goes_to(
                        p->Forwarding_recipe_name,
                        p->payload,
                        p->peers.skip(1),
                        now,
                        (q, r.1@),
                    ));
                }
            }
        },
        _ => {},
    }
}

} // verus!
