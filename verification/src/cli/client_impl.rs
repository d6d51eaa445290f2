//! What the client says, and what it makes of the responses.
use crate::clock;
use crate::clock::rfc3339;
use crate::clock::UnixTime;
use crate::ids;
use crate::ids::random_id;
use crate::order;
use crate::protocol::AvailabilityView;
use crate::protocol::RecipeAvailability;
use crate::protocol::TcpMessage;
use crate::protocol::TcpView;
use crate::store;
use crate::store::add_order;
use crate::store::now_ms;
use crate::store::update_order_server_id;
use crate::store::update_order_status;
use crate::store::Order;
use crate::store::OrderStatus;
use crate::store::OrderStore;
use crate::store::OrderView;
use crate::store::StatusView;
use crate::string_map::StringMap;
use crate::text;
use crate::text::concat3;
use crate::text::join_text;
use vstd::prelude::*;

verus! {

// ── Output ───────────────────────────────────────────────────────────────────

/// A line for the user.
#[derive(Debug, PartialEq, Eq)]
pub enum Line {
    /// To be printed as it is.
    Out(String),
    /// To be printed as an error.
    Fault(String),
    /// To be printed with a time stamp.
    Info(String),
}

/// What a [`Line`] holds.
#[verifier::ext_equal]
pub enum LineView {
    Out(Seq<char>),
    Fault(Seq<char>),
    Info(Seq<char>),
}

impl View for Line {
    type V = LineView;

    open spec fn view(&self) -> LineView {
        match self {
            Line::Out(s) => LineView::Out(s@),
            Line::Fault(s) => LineView::Fault(s@),
            Line::Info(s) => LineView::Info(s@),
        }
    }
}

/// `s` is an INFO line for a message at a point in time.
pub open spec fn is_info_line(s: Seq<char>, t: UnixTime, message: Seq<char>) -> bool {
    exists|stamp: Seq<char>|
        #[trigger] clock::is_stamp_of(stamp, t) && s == stamp + "  INFO "@ + message
}

/// The INFO line for a message at a point in time.
pub fn info_line(t: UnixTime, message: &str) -> (r: String)
    ensures
        is_info_line(r@, t, message@),
{
    let stamp = rfc3339(t);
    let ghost s = stamp@;
    let r = stamp.concat("  INFO ").concat(message);
    assert(clock::is_stamp_of(s, t) && r@ == s + "  INFO "@ + message@);
    r
}

/// Current time as `YYYY-MM-DDTHH:MM:SS.ffffffZ` (UTC, microseconds).
pub fn now_rfc3339() -> (r: String)
    ensures
        exists|t: UnixTime| t.wf() && clock::is_stamp_of(r@, t),
{
    let t = UnixTime::now();
    rfc3339(t)
}

// ── Recipe rows ──────────────────────────────────────────────────────────────

/// A recipe as it is listed: with the hosts that have it, as complete, or with what is missing.
pub open spec fn recipe_row(
    name: Seq<char>,
    missing_actions: Seq<Seq<char>>,
    remote_peers: Seq<Seq<char>>,
) -> Seq<char> {
    if remote_peers.len() > 0 {
        "  - "@ + name + ": available at ["@ + text::join(remote_peers, ", "@) + "]"@
    } else if missing_actions.len() == 0 {
        "  - "@ + name + ": local (complete)"@
    } else {
        "  - "@ + name + ": missing actions ["@ + text::join(missing_actions, ", "@) + "]"@
    }
}

/// A recipe as it is listed.
pub fn print_recipe_row(
    name: &str,
    missing_actions: &Vec<String>,
    remote_peers: &Vec<String>,
) -> (r: String)
    ensures
        r@ == recipe_row(name@, text::views(missing_actions@), text::views(remote_peers@)),
{
    if remote_peers.len() > 0 {
        let hosts = join_text(remote_peers, ", ");
        concat3("  - ", name, ": available at [").concat(hosts.as_str()).concat("]")
    } else if missing_actions.len() == 0 {
        concat3("  - ", name, ": local (complete)")
    } else {
        let missing = join_text(missing_actions, ", ");
        concat3("  - ", name, ": missing actions [").concat(missing.as_str()).concat("]")
    }
}

/// The row of a recipe of known availability.
pub open spec fn availability_row(name: Seq<char>, a: AvailabilityView) -> Seq<char> {
    match a {
        AvailabilityView::Local { missing_actions } => recipe_row(name, missing_actions, seq![]),
        AvailabilityView::Remote { host } => recipe_row(name, seq![], seq![host]),
    }
}

/// The row of a recipe of known availability.
pub fn format_recipe_row(name: &str, availability: &RecipeAvailability) -> (r: String)
    ensures
        r@ == availability_row(name@, availability@),
{
    let none: Vec<String> = Vec::new();
    assert(text::views(none@) =~= seq![]);
    match availability {
        RecipeAvailability::Local { local } => print_recipe_row(
            name,
            &local.missing_actions,
            &none,
        ),
        RecipeAvailability::Remote { remote } => {
            let mut hosts: Vec<String> = Vec::new();
            hosts.push(remote.host.0.clone());
            assert(text::views(hosts@) =~= seq![remote@]);
            print_recipe_row(name, &none, &hosts)
        },
    }
}

/// The rows of a recipe list, in ascending order of the names.
pub open spec fn availability_rows(recipes: Map<Seq<char>, AvailabilityView>) -> Seq<Seq<char>> {
    let names = order::sorted(recipes.dom());
    Seq::new(names.len(), |i: int| availability_row(names[i], recipes[names[i]]))
}

/// The rows of a recipe list, in ascending order of the names.
pub fn recipe_rows(recipes: &StringMap<RecipeAvailability>) -> (r: Vec<String>)
    ensures
        text::views(r@) == availability_rows(recipes@),
{
    let count: usize = recipes.len();
    let ghost names = order::sorted(recipes@.dom());
    let mut out: Vec<String> = Vec::new();
    for i in 0..count
        invariant
            names == order::sorted(recipes@.dom()),
            count == names.len(),
            out@.len() == i,
            forall|j: int|
                0 <= j < i ==> (#[trigger] out@[j])@ == availability_row(
                    names[j],
                    recipes@[names[j]],
                ),
    {
        out.push(format_recipe_row(recipes.key_at(i).as_str(), recipes.value_at(i)));
    }
    assert(text::views(out@) =~= availability_rows(recipes@));
    out
}

// ── Compatibility ────────────────────────────────────────────────────────────

/// A recipe's local status as other implementations write it.
#[derive(Debug, PartialEq, Eq)]
pub struct RecipeStatusCompat {
    pub missing_actions: Vec<String>,
}

/// A recipe's availability as other implementations write it: everything may be missing.
#[derive(Debug, PartialEq, Eq)]
pub struct RecipeAvailabilityCompat {
    pub local: RecipeStatusCompat,
    pub missing_actions: Vec<String>,
    pub remote_peers: Vec<String>,
}

/// What a [`RecipeAvailabilityCompat`] holds.
#[verifier::ext_equal]
pub struct CompatView {
    pub local: Seq<Seq<char>>,
    pub missing_actions: Seq<Seq<char>>,
    pub remote_peers: Seq<Seq<char>>,
}

impl View for RecipeAvailabilityCompat {
    type V = CompatView;

    open spec fn view(&self) -> CompatView {
        CompatView {
            local: text::views(self.local.missing_actions@),
            missing_actions: text::views(self.missing_actions@),
            remote_peers: text::views(self.remote_peers@),
        }
    }
}

/// The missing actions: those of the local status where it names some, else the others.
pub open spec fn effective_missing(c: CompatView) -> Seq<Seq<char>> {
    if c.local.len() > 0 {
        c.local
    } else {
        c.missing_actions
    }
}

impl RecipeAvailabilityCompat {
    /// The missing actions: those of the local status where it names some, else the others.
    pub fn effective_missing_actions(&self) -> (r: &Vec<String>)
        ensures
            text::views(r@) == effective_missing(self@),
    {
        if self.local.missing_actions.len() > 0 {
            &self.local.missing_actions
        } else {
            &self.missing_actions
        }
    }
}

/// The responses to a list request as other implementations write them.
#[derive(Debug, PartialEq, Eq)]
pub enum TcpMessageCompat {
    RecipeListAnswer { recipes: StringMap<RecipeAvailabilityCompat> },
    Error { message: String },
}

// ── Listing recipes ──────────────────────────────────────────────────────────

/// A heading and some rows, as lines.
pub open spec fn listing_lines(rows: Seq<Seq<char>>) -> Seq<LineView> {
    seq![LineView::Out("Available recipes:"@)] + Seq::new(
        rows.len(),
        |i: int| LineView::Out(rows[i]),
    )
}

/// A heading and some rows, as lines.
fn list_rows(rows: Vec<String>) -> (r: Vec<Line>)
    ensures
        text::views(r@) == listing_lines(text::views(rows@)),
{
    let mut out: Vec<Line> = Vec::new();
    out.push(Line::Out("Available recipes:".to_string()));
    for i in 0..rows.len()
        invariant
            out@.len() == i + 1,
            out@[0]@ == LineView::Out("Available recipes:"@),
            forall|j: int| 0 <= j < i ==> (#[trigger] out@[j + 1])@ == LineView::Out(rows@[j]@),
    {
        out.push(Line::Out(rows[i].clone()));
    }
    assert forall|k: int| 0 <= k < out@.len() implies text::views(out@)[k] == listing_lines(
        text::views(rows@),
    )[k] by {
        if k > 0 {
            assert(out@[k - 1 + 1]@ == LineView::Out(rows@[k - 1]@));
        }
    }
    assert(text::views(out@) =~= listing_lines(text::views(rows@)));
    out
}

/// One line.
fn one_line(line: Line) -> (r: Vec<Line>)
    ensures
        text::views(r@) == seq![line@],
{
    let mut out: Vec<Line> = Vec::new();
    out.push(line);
    assert(text::views(out@) =~= seq![line@]);
    out
}

/// What the client prints on a response to a list request. `shown` is the response in the form in
/// which it is shown to people.
pub fn list_recipes_lines(response: &TcpMessage, shown: &str) -> (r: Vec<Line>)
    ensures
        text::views(r@) == match response@ {
            TcpView::RecipeListAnswer { recipes } => listing_lines(availability_rows(recipes)),
            TcpView::Error { message } => seq![LineView::Fault("Error: "@ + message)],
            _ => seq![LineView::Fault("Unexpected response: "@ + shown@)],
        },
{
    match response {
        TcpMessage::RecipeListAnswer { recipes } => list_rows(recipe_rows(recipes)),
        TcpMessage::Error { message } => one_line(
            Line::Fault("Error: ".to_string().concat(message.as_str())),
        ),
        _ => one_line(Line::Fault("Unexpected response: ".to_string().concat(shown))),
    }
}

/// The rows of a recipe list as other implementations write it, in ascending order of the names.
pub open spec fn compat_rows(recipes: Map<Seq<char>, CompatView>) -> Seq<Seq<char>> {
    let names = order::sorted(recipes.dom());
    Seq::new(
        names.len(),
        |i: int|
            recipe_row(
                names[i],
                effective_missing(recipes[names[i]]),
                recipes[names[i]].remote_peers,
            ),
    )
}

/// What the client prints on a response to a list request that only reads as one of another
/// implementation.
pub fn list_recipes_compat_lines(response: &TcpMessageCompat) -> (r: Vec<Line>)
    ensures
        text::views(r@) == match response {
            TcpMessageCompat::RecipeListAnswer { recipes } => listing_lines(compat_rows(recipes@)),
            TcpMessageCompat::Error { message } => seq![LineView::Fault("Error: "@ + message@)],
        },
{
    match response {
        TcpMessageCompat::RecipeListAnswer { recipes } => {
            let count: usize = recipes.len();
            let ghost names = order::sorted(recipes@.dom());
            let mut rows: Vec<String> = Vec::new();
            for i in 0..count
                invariant
                    names == order::sorted(recipes@.dom()),
                    count == names.len(),
                    rows@.len() == i,
                    forall|j: int|
                        0 <= j < i ==> (#[trigger] rows@[j])@ == recipe_row(
                            names[j],
                            effective_missing(recipes@[names[j]]),
                            recipes@[names[j]].remote_peers,
                        ),
            {
                let a = recipes.value_at(i);
                rows.push(
                    print_recipe_row(
                        recipes.key_at(i).as_str(),
                        a.effective_missing_actions(),
                        &a.remote_peers,
                    ),
                );
            }
            assert(text::views(rows@) =~= compat_rows(recipes@));
            list_rows(rows)
        },
        TcpMessageCompat::Error { message } => one_line(
            Line::Fault("Error: ".to_string().concat(message.as_str())),
        ),
    }
}

// ── Getting a recipe ─────────────────────────────────────────────────────────

/// What the client prints on a response to a recipe request.
pub fn get_recipe_lines(recipe_name: &str, response: &TcpMessage, shown: &str) -> (r: Vec<Line>)
    ensures
        text::views(r@) == seq![
            match response@ {
                TcpView::RecipeAnswer { recipe } => LineView::Out(
                    "Recipe '"@ + recipe_name@ + "' source:\n"@ + recipe,
                ),
                TcpView::Error { message } => LineView::Fault("Error: "@ + message),
                _ => LineView::Fault("Unexpected response: "@ + shown@),
            },
        ],
{
    match response {
        TcpMessage::RecipeAnswer { recipe } => one_line(
            Line::Out(
                concat3("Recipe '", recipe_name, "' source:\n").concat(recipe.as_str()),
            ),
        ),
        TcpMessage::Error { message } => one_line(
            Line::Fault("Error: ".to_string().concat(message.as_str())),
        ),
        _ => one_line(Line::Fault("Unexpected response: ".to_string().concat(shown))),
    }
}

// ── Ordering ─────────────────────────────────────────────────────────────────

/// The request of a client command, and what the client says before it is sent.
pub fn order_request(peer: &str, recipe_name: &str) -> (r: (TcpMessage, Line))
    ensures
        r.0@ == (TcpView::Order { recipe_name: recipe_name@ }),
        r.1@ == LineView::Info(
            "Ordering recipe recipe="@ + recipe_name@ + " peer="@ + peer@,
        ),
{
    let text = concat3("Ordering recipe recipe=", recipe_name, " peer=").concat(peer);
    (TcpMessage::Order { recipe_name: recipe_name.to_string() }, Line::Info(text))
}

/// The order as it is noted after the first response.
pub open spec fn noted_order(
    id: u128,
    recipe_name: Seq<char>,
    placed_ms: u64,
    response: TcpView,
) -> OrderView {
    OrderView {
        id,
        server_id: match response {
            TcpView::OrderReceipt { order_id } => Some(order_id),
            _ => None,
        },
        recipe_name,
        status: match response {
            TcpView::OrderReceipt { order_id } => StatusView::Receipt,
            TcpView::OrderDeclined { message } => StatusView::Declined(message),
            TcpView::Error { message } => StatusView::Error(message),
            _ => StatusView::Sending,
        },
        timestamp_ms: placed_ms,
    }
}

/// What the client says on the first response to an order.
pub open spec fn receipt_line(
    recipe_name: Seq<char>,
    response: TcpView,
    shown: Seq<char>,
) -> LineView {
    LineView::Info(
        match response {
            TcpView::OrderReceipt { order_id } => "Order receipt "@ + order_id
                + "; waiting for completion..."@,
            TcpView::OrderDeclined { message } => "Order of '"@ + recipe_name + "' declined: "@
                + message,
            TcpView::Error { message } => "Error: "@ + message,
            _ => "Unexpected response: "@ + shown,
        },
    )
}

/// Takes in the first response to an order that was placed under `id` at `placed_ms`. The result
/// tells what the client says, and whether a second response follows.
pub fn order_receipt_at(
    store: &mut OrderStore,
    id: u128,
    placed_ms: u64,
    recipe_name: &str,
    response: TcpMessage,
    shown: &str,
) -> (r: (Line, bool))
    ensures
        final(store)@ == old(store)@.insert(
            id,
            noted_order(id, recipe_name@, placed_ms, response@),
        ),
        r.0@ == receipt_line(recipe_name@, response@, shown@),
        r.1 == (response@ is OrderReceipt),
{
    let ghost before = store@;
    add_order(
        store,
        Order {
            id,
            server_id: None,
            recipe_name: recipe_name.to_string(),
            status: OrderStatus::Sending,
            timestamp_ms: placed_ms,
        },
    );
    let r = match response {
        TcpMessage::OrderReceipt { order_id } => {
            let line = concat3(
                "Order receipt ",
                order_id.0.as_str(),
                "; waiting for completion...",
            );
            update_order_server_id(store, id, order_id.0.as_str());
            update_order_status(store, id, OrderStatus::Receipt);
            (Line::Info(line), true)
        },
        TcpMessage::OrderDeclined { message } => {
            let line = concat3("Order of '", recipe_name, "' declined: ").concat(
                message.as_str(),
            );
            update_order_status(store, id, OrderStatus::Declined(message));
            (Line::Info(line), false)
        },
        TcpMessage::Error { message } => {
            let line = "Error: ".to_string().concat(message.as_str());
            update_order_status(store, id, OrderStatus::Error(message));
            (Line::Info(line), false)
        },
        _ => (Line::Info("Unexpected response: ".to_string().concat(shown)), false),
    };
    assert(store@ =~= before.insert(id, noted_order(id, recipe_name@, placed_ms, response@)));
    r
}

/// The order is noted after the first response, as placed at some time.
pub open spec fn is_noted(
    before: Map<u128, OrderView>,
    orders: Map<u128, OrderView>,
    id: u128,
    recipe_name: Seq<char>,
    response: TcpView,
) -> bool {
    exists|placed_ms: u64|
        orders == before.insert(
            id,
            #[trigger] noted_order(id, recipe_name, placed_ms, response),
        )
}

/// Takes in the first response to an order. The result tells under which identifier the order was
/// noted, what the client says, and whether a second response follows.
pub fn order_receipt(
    store: &mut OrderStore,
    recipe_name: &str,
    response: TcpMessage,
    shown: &str,
) -> (r: (u128, Line, bool))
    ensures
        ids::is_random_id(r.0),
        is_noted(old(store)@, final(store)@, r.0, recipe_name@, response@),
        r.1@ == receipt_line(recipe_name@, response@, shown@),
        r.2 == (response@ is OrderReceipt),
{
    let id: u128 = random_id();
    let placed_ms: u64 = now_ms();
    let (line, more) = order_receipt_at(store, id, placed_ms, recipe_name, response, shown);
    proof {
        let noted = noted_order(id, recipe_name@, placed_ms, response@);
        assert(store@ == old(store)@.insert(id, noted));
    }
    (id, line, more)
}

/// What the client says on the second response to an order.
pub open spec fn result_lines(response: TcpView, shown: Seq<char>) -> Seq<LineView> {
    match response {
        TcpView::CompletedOrder { recipe_name, result } => seq![
            LineView::Info("Order completed successfully"@),
            LineView::Info("Recipe "@ + recipe_name + ":"@),
            LineView::Out(result),
        ],
        TcpView::FailedOrder { recipe_name, error } => seq![
            LineView::Info("Order of '"@ + recipe_name + "' failed: "@ + error),
        ],
        TcpView::Error { message } => seq![LineView::Info("Execution error: "@ + message)],
        _ => seq![LineView::Info("Unexpected result: "@ + shown)],
    }
}

/// How far an order has got with the second response; nowhere where the response says nothing of
/// it.
pub open spec fn result_status(response: TcpView) -> Option<StatusView> {
    match response {
        TcpView::CompletedOrder { recipe_name, result } => Some(StatusView::Delivered),
        TcpView::FailedOrder { recipe_name, error } => Some(StatusView::Failed(error)),
        TcpView::Error { message } => Some(StatusView::Error(message)),
        _ => None,
    }
}

/// Takes in the second response to an order.
pub fn order_result(
    store: &mut OrderStore,
    id: u128,
    response: TcpMessage,
    shown: &str,
) -> (r: Vec<Line>)
    ensures
        final(store)@ == match result_status(response@) {
            Some(status) => store::updated(
                old(store)@,
                id,
                |o: OrderView| OrderView { status, ..o },
            ),
            None => old(store)@,
        },
        text::views(r@) == result_lines(response@, shown@),
{
    match response {
        TcpMessage::CompletedOrder { recipe_name, result } => {
            let mut lines: Vec<Line> = Vec::new();
            lines.push(Line::Info("Order completed successfully".to_string()));
            lines.push(Line::Info(concat3("Recipe ", recipe_name.as_str(), ":")));
            lines.push(Line::Out(result));
            update_order_status(store, id, OrderStatus::Delivered);
            assert(text::views(lines@) =~= result_lines(response@, shown@));
            lines
        },
        TcpMessage::FailedOrder { recipe_name, error } => {
            let line = concat3("Order of '", recipe_name.as_str(), "' failed: ").concat(
                error.as_str(),
            );
            update_order_status(store, id, OrderStatus::Failed(error));
            one_line(Line::Info(line))
        },
        TcpMessage::Error { message } => {
            let line = "Execution error: ".to_string().concat(message.as_str());
            update_order_status(store, id, OrderStatus::Error(message));
            one_line(Line::Info(line))
        },
        _ => one_line(Line::Info("Unexpected result: ".to_string().concat(shown))),
    }
}

// ── Laws ─────────────────────────────────────────────────────────────────────

/// An order that was acknowledged and then answered is noted with the identifier that the server
/// gave and the status that the answer says; its recipe and time stay as they were.
pub proof fn answered_order_keeps_its_receipt(
    orders: Map<u128, OrderView>,
    id: u128,
    recipe_name: Seq<char>,
    placed_ms: u64,
    order_id: Seq<char>,
    response: TcpView,
)
    requires
        result_status(response) is Some,
    ensures
        ({
            let noted = orders.insert(
                id,
                noted_order(id, recipe_name, placed_ms, TcpView::OrderReceipt { order_id }),
            );
            let status = result_status(response)->0;
            let answered = store::updated(
                noted,
                id,
                |o: OrderView| OrderView { status, ..o },
            );
            answered[id] == (OrderView {
                id,
                server_id: Some(order_id),
                recipe_name,
                status,
                timestamp_ms: placed_ms,
            })
        }),
{
}

/// A recipe is listed with all hosts that have it; without one as complete where nothing is
/// missing, else with all that is missing.
pub proof fn rows_say_what_is_there(
    name: &str,
    missing: &Vec<String>,
    hosts: &Vec<String>,
    r: String,
)
    requires
        call_ensures(print_recipe_row, (name, missing, hosts), r),
    ensures
        hosts@.len() > 0 ==> r@ == "  - "@ + name@ + ": available at ["@ + text::join(
            text::views(hosts@),
            ", "@,
        ) + "]"@,
        hosts@.len() == 0 && missing@.len() == 0 ==> r@ == "  - "@ + name@ + ": local (complete)"@,
        hosts@.len() == 0 && missing@.len() > 0 ==> r@ == "  - "@ + name@ + ": missing actions ["@
            + text::join(text::views(missing@), ", "@) + "]"@,
{
    assert(text::views(hosts@).len() == hosts@.len());
    assert(text::views(missing@).len() == missing@.len());
}

/// `row` is how a recipe of known availability is listed.
pub open spec fn is_row(row: Seq<char>, name: Seq<char>, a: AvailabilityView) -> bool {
    match a {
        AvailabilityView::Remote { host } => row == "  - "@ + name + ": available at ["@ + host
            + "]"@,
        AvailabilityView::Local { missing_actions } => if missing_actions.len() == 0 {
            row == "  - "@ + name + ": local (complete)"@
        } else {
            row == "  - "@ + name + ": missing actions ["@ + text::join(missing_actions, ", "@)
                + "]"@
        },
    }
}

proof fn lemma_row(name: Seq<char>, a: AvailabilityView)
    ensures
        is_row(availability_row(name, a), name, a),
{
    if let AvailabilityView::Remote { host } = a {
        assert(text::join(seq![host], ", "@) == host);
    }
}

/// A recipe of known availability is listed with its host, as complete, or with what is missing.
pub proof fn rows_say_where_a_recipe_is(name: &str, a: &RecipeAvailability, r: String)
    requires
        call_ensures(format_recipe_row, (name, a), r),
    ensures
        is_row(r@, name@, a@),
{
    lemma_row(name@, a@);
}

/// Every recipe of a list gets its row, in ascending order of the names.
pub proof fn every_recipe_gets_its_row(
    recipes: &StringMap<RecipeAvailability>,
    names: Seq<Seq<char>>,
    r: Vec<String>,
)
    requires
        order::ascending(names),
        names.to_set() == recipes@.dom(),
        call_ensures(recipe_rows, (recipes,), r),
    ensures
        r@.len() == names.len(),
        forall|i: int|
            0 <= i < names.len() ==> is_row((#[trigger] r@[i])@, names[i], recipes@[names[i]]),
{
    lemma_rows(recipes@, names);
    let rows = text::views(r@);
    assert(rows.len() == r@.len());
    assert forall|i: int| 0 <= i < names.len() implies is_row(
        (#[trigger] r@[i])@,
        names[i],
        recipes@[names[i]],
    ) by {
        assert(rows[i] == r@[i]@);
    }
}

/// The rows of a list are those of its recipes, in ascending order of the names.
pub proof fn lemma_rows(recipes: Map<Seq<char>, AvailabilityView>, names: Seq<Seq<char>>)
    requires
        order::ascending(names),
        names.to_set() == recipes.dom(),
    ensures
        availability_rows(recipes).len() == names.len(),
        forall|i: int|
            0 <= i < names.len() ==> is_row(
                #[trigger] availability_rows(recipes)[i],
                names[i],
                recipes[names[i]],
            ),
{
    order::lemma_sorted_is(names);
    assert forall|i: int| 0 <= i < names.len() implies is_row(
        #[trigger] availability_rows(recipes)[i],
        names[i],
        recipes[names[i]],
    ) by {
        lemma_row(names[i], recipes[names[i]]);
    }
}

/// A list of recipes is printed under a heading, one row for each recipe in ascending order of the
/// names; an error is printed as such, and so is a response that is neither.
pub proof fn lists_are_printed(
    response: &TcpMessage,
    shown: &str,
    names: Seq<Seq<char>>,
    r: Vec<Line>,
)
    requires
        response@ matches TcpView::RecipeListAnswer { recipes } ==> order::ascending(names)
            && names.to_set() == recipes.dom(),
        call_ensures(list_recipes_lines, (response, shown), r),
    ensures
        match response@ {
            TcpView::RecipeListAnswer { recipes } => {
                &&& r@.len() == names.len() + 1
                &&& r@[0]@ == LineView::Out("Available recipes:"@)
                &&& forall|i: int|
                    0 <= i < names.len() ==> ((#[trigger] r@[i + 1])@ matches LineView::Out(row)
                        && is_row(row, names[i], recipes[names[i]]))
            },
            TcpView::Error { message } => r@.len() == 1 && r@[0]@ == LineView::Fault(
                "Error: "@ + message,
            ),
            _ => r@.len() == 1 && r@[0]@ == LineView::Fault("Unexpected response: "@ + shown@),
        },
{
    let lines = text::views(r@);
    assert(lines.len() == r@.len());
    if lines.len() > 0 {
        assert(lines[0] == r@[0]@);
    }
    if let TcpView::RecipeListAnswer { recipes } = response@ {
        lemma_rows(recipes, names);
        let rows = availability_rows(recipes);
        assert forall|i: int| 0 <= i < names.len() implies ((#[trigger] r@[i + 1])@ matches
            LineView::Out(row) && is_row(row, names[i], recipes[names[i]])) by {
            assert(lines[i + 1] == LineView::Out(rows[i]));
        }
    }
}

/// What another implementation writes is printed in the same way: a recipe with remote hosts is
/// listed with them; else with what its local status misses or, where that misses nothing, with
/// what else is said to be missing.
pub proof fn foreign_lists_are_printed(
    response: &TcpMessageCompat,
    names: Seq<Seq<char>>,
    r: Vec<Line>,
)
    requires
        response matches TcpMessageCompat::RecipeListAnswer { recipes } ==> order::ascending(names)
            && names.to_set() == recipes@.dom(),
        call_ensures(list_recipes_compat_lines, (response,), r),
    ensures
        match response {
            TcpMessageCompat::RecipeListAnswer { recipes } => {
                &&& r@.len() == names.len() + 1
                &&& r@[0]@ == LineView::Out("Available recipes:"@)
                &&& forall|i: int|
                    0 <= i < names.len() ==> ((#[trigger] r@[i + 1])@ matches LineView::Out(row)
                        && is_foreign_row(row, names[i], recipes@[names[i]]))
            },
            TcpMessageCompat::Error { message } => r@.len() == 1 && r@[0]@ == LineView::Fault(
                "Error: "@ + message@,
            ),
        },
{
    let lines = text::views(r@);
    assert(lines.len() == r@.len());
    if lines.len() > 0 {
        assert(lines[0] == r@[0]@);
    }
    if let TcpMessageCompat::RecipeListAnswer { recipes } = response {
        order::lemma_sorted_is(names);
        let rows = compat_rows(recipes@);
        assert forall|i: int| 0 <= i < names.len() implies ((#[trigger] r@[i + 1])@ matches
            LineView::Out(row) && is_foreign_row(row, names[i], recipes@[names[i]])) by {
            assert(lines[i + 1] == LineView::Out(rows[i]));
        }
    }
}

/// `row` is how a recipe is listed that another implementation wrote down.
pub open spec fn is_foreign_row(row: Seq<char>, name: Seq<char>, c: CompatView) -> bool {
    let missing = if c.local.len() == 0 {
        c.missing_actions
    } else {
        c.local
    };
    if c.remote_peers.len() > 0 {
        row == "  - "@ + name + ": available at ["@ + text::join(c.remote_peers, ", "@) + "]"@
    } else if missing.len() == 0 {
        row == "  - "@ + name + ": local (complete)"@
    } else {
        row == "  - "@ + name + ": missing actions ["@ + text::join(missing, ", "@) + "]"@
    }
}

/// A recipe that was asked for is printed under its name with the text that came; an error and any
/// other response are printed as such.
pub proof fn recipes_are_printed(
    recipe_name: &str,
    response: &TcpMessage,
    shown: &str,
    r: Vec<Line>,
)
    requires
        call_ensures(get_recipe_lines, (recipe_name, response, shown), r),
    ensures
        r@.len() == 1,
        response@ matches TcpView::RecipeAnswer { recipe } ==> r@[0]@ == LineView::Out(
            "Recipe '"@ + recipe_name@ + "' source:\n"@ + recipe,
        ),
        response@ matches TcpView::Error { message } ==> r@[0]@ == LineView::Fault(
            "Error: "@ + message,
        ),
        !(response@ is RecipeAnswer) && !(response@ is Error) ==> r@[0]@ == LineView::Fault(
            "Unexpected response: "@ + shown@,
        ),
{
    let lines = text::views(r@);
    assert(lines.len() == r@.len());
    assert(lines[0] == r@[0]@);
}

/// The client orders the recipe that it is told to order, and says so.
pub proof fn the_client_orders_what_it_is_told(peer: &str, recipe_name: &str, r: (TcpMessage, Line))
    requires
        call_ensures(order_request, (peer, recipe_name), r),
    ensures
        r.0@ == (TcpView::Order { recipe_name: recipe_name@ }),
        r.1@ == LineView::Info("Ordering recipe recipe="@ + recipe_name@ + " peer="@ + peer@),
{
}

/// `o` is an order as it is noted after the first response: a receipt is noted with the identifier
/// of the server, a refusal and an error with their reason, and anything else changes nothing.
pub open spec fn is_noted_as(o: OrderView, response: TcpView) -> bool {
    match response {
        TcpView::OrderReceipt { order_id } => o.server_id == Some(order_id) && o.status
            == StatusView::Receipt,
        TcpView::OrderDeclined { message } => o.server_id is None && o.status
            == StatusView::Declined(message),
        TcpView::Error { message } => o.server_id is None && o.status == StatusView::Error(message),
        _ => o.server_id is None && o.status == StatusView::Sending,
    }
}

/// `line` is what is said on the first response to an order.
pub open spec fn is_said(
    line: LineView,
    recipe_name: Seq<char>,
    response: TcpView,
    shown: Seq<char>,
) -> bool {
    match response {
        TcpView::OrderReceipt { order_id } => line == LineView::Info(
            "Order receipt "@ + order_id + "; waiting for completion..."@,
        ),
        TcpView::OrderDeclined { message } => line == LineView::Info(
            "Order of '"@ + recipe_name + "' declined: "@ + message,
        ),
        TcpView::Error { message } => line == LineView::Info("Error: "@ + message),
        _ => line == LineView::Info("Unexpected response: "@ + shown),
    }
}

/// The first response to an order is noted with the order, and all other orders stay as they were.
/// Only a receipt is followed by a second response.
pub proof fn receipts_are_noted(
    store: &mut OrderStore,
    id: u128,
    placed_ms: u64,
    recipe_name: &str,
    response: TcpMessage,
    shown: &str,
    r: (Line, bool),
)
    requires
        call_ensures(order_receipt_at, (store, id, placed_ms, recipe_name, response, shown), r),
    ensures
        ({
            let was = old(store)@;
            let next = final(store)@;
            &&& next.dom() == was.dom().insert(id)
            &&& forall|k: u128|
                #![trigger next[k]]
                k != id && was.contains_key(k) ==> next[k] == was[k]
            &&& next[id].id == id
            &&& next[id].recipe_name == recipe_name@
            &&& next[id].timestamp_ms == placed_ms
            &&& is_noted_as(next[id], response@)
        }),
        is_said(r.0@, recipe_name@, response@, shown@),
        r.1 <==> response@ is OrderReceipt,
{
    assert(final(store)@.dom() =~= old(store)@.dom().insert(id));
}

/// The same holds under a fresh identifier and at the time that the clock tells.
pub proof fn fresh_orders_are_noted(
    store: &mut OrderStore,
    recipe_name: &str,
    response: TcpMessage,
    shown: &str,
    r: (u128, Line, bool),
)
    requires
        call_ensures(order_receipt, (store, recipe_name, response, shown), r),
    ensures
        ids::is_random_id(r.0),
        ({
            let was = old(store)@;
            let next = final(store)@;
            &&& next.dom() == was.dom().insert(r.0)
            &&& forall|k: u128|
                #![trigger next[k]]
                k != r.0 && was.contains_key(k) ==> next[k] == was[k]
            &&& next[r.0].id == r.0
            &&& next[r.0].recipe_name == recipe_name@
            &&& is_noted_as(next[r.0], response@)
        }),
        is_said(r.1@, recipe_name@, response@, shown@),
        r.2 <==> response@ is OrderReceipt,
{
    let placed = choose|placed: u64|
        final(store)@ == old(store)@.insert(
            r.0,
            #[trigger] noted_order(r.0, recipe_name@, placed, response@),
        );
    assert(final(store)@.dom() =~= old(store)@.dom().insert(r.0));
}

/// The second response to an order decides how the order is noted: as delivered, as failed or as in
/// error, with the reason; anything else leaves it as it was. Nothing else of the order changes, and
/// no other order does. The client prints the result as it came.
pub proof fn results_are_noted_and_printed(
    store: &mut OrderStore,
    id: u128,
    response: TcpMessage,
    shown: &str,
    r: Vec<Line>,
)
    requires
        call_ensures(order_result, (store, id, response, shown), r),
    ensures
        ({
            let was = old(store)@;
            let next = final(store)@;
            &&& store::changes_only(was, next, id)
            &&& was.contains_key(id) ==> {
                &&& next[id].id == was[id].id
                &&& next[id].server_id == was[id].server_id
                &&& next[id].recipe_name == was[id].recipe_name
                &&& next[id].timestamp_ms == was[id].timestamp_ms
                &&& next[id].status == (match response@ {
                    TcpView::CompletedOrder { recipe_name, result } => StatusView::Delivered,
                    TcpView::FailedOrder { recipe_name, error } => StatusView::Failed(error),
                    TcpView::Error { message } => StatusView::Error(message),
                    _ => was[id].status,
                })
            }
        }),
        text::views(r@) == (match response@ {
            TcpView::CompletedOrder { recipe_name, result } => seq![
                LineView::Info("Order completed successfully"@),
                LineView::Info("Recipe "@ + recipe_name + ":"@),
                LineView::Out(result),
            ],
            TcpView::FailedOrder { recipe_name, error } => seq![
                LineView::Info("Order of '"@ + recipe_name + "' failed: "@ + error),
            ],
            TcpView::Error { message } => seq![LineView::Info("Execution error: "@ + message)],
            _ => seq![LineView::Info("Unexpected result: "@ + shown@)],
        }),
{
    assert(final(store)@.dom() =~= old(store)@.dom());
}

/// A line with a time stamp holds the stamp of its time, its kind and the message, in this order.
pub proof fn lines_are_stamped(t: UnixTime, message: &str, stamp: String, r: String)
    requires
        call_ensures(rfc3339, (t,), stamp),
        call_ensures(info_line, (t, message), r),
    ensures
        r@ == stamp@ + "  INFO "@ + message@,
{
    let s = choose|s: Seq<char>|
        #[trigger] clock::is_stamp_of(s, t) && r@ == s + "  INFO "@ + message@;
    clock::stamps_are_unique(s, stamp@, t);
}

/// What a local status names as missing counts; where it names nothing, what is named beside it.
pub proof fn the_local_status_counts_first(a: &RecipeAvailabilityCompat, r: &Vec<String>)
    requires
        call_ensures(RecipeAvailabilityCompat::effective_missing_actions, (a,), r),
    ensures
        a@.local.len() > 0 ==> text::views(r@) == a@.local,
        a@.local.len() == 0 ==> text::views(r@) == a@.missing_actions,
{
}

} // verus!
