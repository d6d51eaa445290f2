//! What the interface shows, as text.
use crate::clock::UnixTime;
use crate::network::udp::gossip::ping_targets;
use crate::network::udp::table;
use crate::node::NodeState;
use crate::node::NodeView;
use crate::node::PeerInfo;
use crate::node::PeerView;
use crate::number;
use crate::number::decimal_text;
use crate::order;
use crate::protocol::ActionView;
use crate::protocol::Version;
use crate::recipe::flatten_recipe;
use crate::recipe::parser;
use crate::recipe::Recipe;
use crate::recipe::RecipeView;
use crate::server::handlers::listing;
use crate::store;
use crate::store::Order;
use crate::store::OrderStatus;
use crate::store::OrderView;
use crate::store::StatusView;
use crate::text;
use crate::text::contains_text;
use crate::text::join_text;
use crate::text::to_chars;
use crate::text::to_text;
use crate::tui::app::Mode;
use vstd::prelude::*;
use vstd::slice::slice_subrange;

verus! {

// ── Quoting ──────────────────────────────────────────────────────────────────

/// How `Debug` shows a string: in double quotes, with escapes.
pub uninterp spec fn quoted(s: Seq<char>) -> Seq<char>;

/// How the `Debug` impl of `str` shows a string: in double quotes, with quotes, backslashes and
/// unprintable characters escaped. The escapes are named, not spelled out.
#[verifier::external_body]
fn quote(s: &str) -> (r: String)
    ensures
        r@ == quoted(s@),
{
    format!("{:?}", s)
}

/// The texts, each quoted.
pub open spec fn all_quoted(texts: Seq<Seq<char>>) -> Seq<Seq<char>> {
    Seq::new(texts.len(), |i: int| quoted(texts[i]))
}

/// The texts, each quoted.
fn quote_all(texts: &Vec<String>) -> (r: Vec<String>)
    ensures
        text::views(r@) == all_quoted(text::views(texts@)),
{
    let mut out: Vec<String> = Vec::new();
    for i in 0..texts.len()
        invariant
            out@.len() == i,
            forall|j: int| 0 <= j < i ==> (#[trigger] out@[j])@ == quoted(texts@[j]@),
    {
        out.push(quote(texts[i].as_str()));
    }
    assert(text::views(out@) =~= all_quoted(text::views(texts@)));
    out
}

/// A list of shown items: in brackets, with commas between them.
pub open spec fn bracketed(items: Seq<Seq<char>>) -> Seq<char> {
    "["@ + text::join(items, ", "@) + "]"@
}

/// A list of shown items.
pub fn bracket(items: &Vec<String>) -> (r: String)
    ensures
        r@ == bracketed(text::views(items@)),
{
    let inner = join_text(items, ", ");
    "[".to_string().concat(inner.as_str()).concat("]")
}

// ── Orders ───────────────────────────────────────────────────────────────────

/// How far an order has got, as it is shown.
pub open spec fn status_text(status: StatusView) -> Seq<char> {
    match status {
        StatusView::Sending => "Sending"@,
        StatusView::Receipt => "Receipt"@,
        StatusView::Delivered => "Delivered"@,
        StatusView::Declined(m) => "Declined: "@ + m,
        StatusView::Failed(m) => "Failed: "@ + m,
        StatusView::Error(m) => "Error: "@ + m,
    }
}

/// How far an order has got, as it is shown.
pub fn show_status(status: &OrderStatus) -> (r: String)
    ensures
        r@ == status_text(status@),
{
    match status {
        OrderStatus::Sending => "Sending".to_string(),
        OrderStatus::Receipt => "Receipt".to_string(),
        OrderStatus::Delivered => "Delivered".to_string(),
        OrderStatus::Declined(m) => "Declined: ".to_string().concat(m.as_str()),
        OrderStatus::Failed(m) => "Failed: ".to_string().concat(m.as_str()),
        OrderStatus::Error(m) => "Error: ".to_string().concat(m.as_str()),
    }
}

/// The first eight characters of a text.
pub open spec fn shortened(s: Seq<char>) -> Seq<char> {
    if s.len() > 8 {
        s.take(8)
    } else {
        s
    }
}

/// The identifier of an order, as it is shown: that of the server where there is one.
pub open spec fn short_id(o: OrderView) -> Seq<char> {
    shortened(
        match o.server_id {
            Some(id) => id,
            None => "local-"@ + number::decimal(o.id as nat),
        },
    )
}

/// The identifier of an order, as it is shown.
pub fn show_id(order: &Order) -> (r: String)
    ensures
        r@ == short_id(order@),
{
    let full = match &order.server_id {
        Some(id) => id.clone(),
        None => {
            let n = decimal_text(order.id);
            "local-".to_string().concat(n.as_str())
        },
    };
    let chars = to_chars(full.as_str());
    if chars.len() > 8 {
        let cut = slice_subrange(chars.as_slice(), 0, 8);
        assert(cut@ =~= full@.take(8));
        to_text(cut)
    } else {
        full
    }
}

/// An order as it is shown.
pub open spec fn order_row(o: OrderView, now: UnixTime) -> Seq<char> {
    "["@ + short_id(o) + "] "@ + o.recipe_name + " ("@ + number::decimal(
        store::age(o, now),
    ) + "ms ago) - "@
        + status_text(o.status)
}

/// An order as it is shown.
pub fn show_order(order: &Order, now: UnixTime) -> (r: String)
    ensures
        r@ == order_row(order@, now),
{
    let id = show_id(order);
    let elapsed = decimal_text(order.elapsed_ms(now) as u128);
    let status = show_status(&order.status);
    "[".to_string().concat(id.as_str()).concat("] ").concat(order.recipe_name.as_str()).concat(
        " (",
    ).concat(elapsed.as_str()).concat("ms ago) - ").concat(status.as_str())
}

/// The place of a new order among orders in the order of their times: behind those that are not
/// younger.
pub open spec fn place(sorted: Seq<OrderView>, o: OrderView) -> int
    decreases sorted.len(),
{
    if sorted.len() > 0 && sorted.last().timestamp_ms > o.timestamp_ms {
        place(sorted.drop_last(), o)
    } else {
        sorted.len() as int
    }
}

/// The orders in the order of their times. Those of the same time stay in the order in which they
/// come.
pub open spec fn by_time(orders: Seq<OrderView>) -> Seq<OrderView>
    decreases orders.len(),
{
    if orders.len() == 0 {
        seq![]
    } else {
        let front = by_time(orders.drop_last());
        front.insert(place(front, orders.last()), orders.last())
    }
}

/// A place is within the orders.
proof fn lemma_place(sorted: Seq<OrderView>, o: OrderView)
    ensures
        0 <= place(sorted, o) <= sorted.len(),
        forall|i: int|
            place(sorted, o) <= i < sorted.len() ==> (#[trigger] sorted[i]).timestamp_ms
                > o.timestamp_ms,
        place(sorted, o) > 0 ==> sorted[place(sorted, o) - 1].timestamp_ms <= o.timestamp_ms,
    decreases sorted.len(),
{
    if sorted.len() > 0 && sorted.last().timestamp_ms > o.timestamp_ms {
        let front = sorted.drop_last();
        lemma_place(front, o);
        assert forall|i: int| place(sorted, o) <= i < sorted.len() implies (
        #[trigger] sorted[i]).timestamp_ms > o.timestamp_ms by {
            if i < front.len() {
                assert(front[i] == sorted[i]);
            }
        }
    }
}

/// The orders in the order of their times.
pub fn sort_orders(orders: Vec<Order>) -> (r: Vec<Order>)
    ensures
        text::views(r@) == by_time(text::views(orders@)),
{
    let ghost all = text::views(orders@);
    let mut out: Vec<Order> = Vec::new();
    assert(text::views(out@) =~= by_time(all.take(0)));
    for i in 0..orders.len()
        invariant
            all == text::views(orders@),
            text::views(out@) == by_time(all.take(i as int)),
    {
        let ghost sorted = text::views(out@);
        let ghost o = all[i as int];
        let mut at: usize = out.len();
        assert(sorted.take(at as int) =~= sorted);
        while at > 0 && out[at - 1].timestamp_ms > orders[i].timestamp_ms
            invariant
                at <= out@.len(),
                i < orders@.len(),
                sorted == text::views(out@),
                o == orders@[i as int]@,
                place(sorted, o) == place(sorted.take(at as int), o),
            decreases at,
        {
            assert(sorted.take(at as int).last() == out@[at - 1]@);
            assert(sorted.take(at as int).drop_last() =~= sorted.take(at - 1));
            at = at - 1;
        }
        assert(at > 0 ==> sorted.take(at as int).last() == out@[at - 1]@);
        assert(place(sorted, o) == at);
        out.insert(at, orders[i].clone());
        assert(text::views(out@) =~= sorted.insert(at as int, o));
        assert(all.take(i + 1).drop_last() =~= all.take(i as int));
        assert(all.take(i + 1).last() == o);
    }
    assert(all.take(all.len() as int) =~= all);
    out
}

/// Orders are shown in the order of their times, each once.
pub proof fn orders_are_shown_by_time(orders: Seq<OrderView>)
    ensures
        by_time(orders).to_multiset() == orders.to_multiset(),
        forall|i: int, j: int|
            0 <= i <= j < by_time(orders).len() ==> (#[trigger] by_time(orders)[i]).timestamp_ms <= (
            #[trigger] by_time(orders)[j]).timestamp_ms,
    decreases orders.len(),
{
    if orders.len() > 0 {
        let rest = orders.drop_last();
        let o = orders.last();
        let front = by_time(rest);
        let p = place(front, o);
        orders_are_shown_by_time(rest);
        lemma_place(front, o);
        vstd::seq_lib::to_multiset_insert(front, p, o);
        assert(rest.push(o) =~= orders);
        vstd::seq_lib::to_multiset_build(rest, o);
        let all = by_time(orders);
        assert forall|i: int, j: int| 0 <= i <= j < all.len() implies (
        #[trigger] all[i]).timestamp_ms <= (#[trigger] all[j]).timestamp_ms by {
            let a = if i < p {
                i
            } else {
                i - 1
            };
            let b = if j < p {
                j
            } else {
                j - 1
            };
            if i != p && j != p {
                assert(all[i] == front[a] && all[j] == front[b]);
            } else if i == p && j != p {
                assert(all[j] == front[b]);
            } else if j == p && i != p {
                assert(all[i] == front[a]);
                assert(front[a].timestamp_ms <= front[p - 1].timestamp_ms);
            }
        }
    } else {
        assert(orders =~= seq![]);
    }
}

// ── Recipes ──────────────────────────────────────────────────────────────────

/// The names among the actions that the node itself cannot execute, each once, in the order in
/// which they first come up.
pub open spec fn locally_missing(
    capabilities: Seq<Seq<char>>,
    actions: Seq<ActionView>,
) -> Seq<Seq<char>>
    decreases actions.len(),
{
    if actions.len() == 0 {
        seq![]
    } else {
        let front = locally_missing(capabilities, actions.drop_last());
        let name = actions.last().name;
        if capabilities.contains(name) || front.contains(name) {
            front
        } else {
            front.push(name)
        }
    }
}

/// What the node itself cannot execute of a recipe.
pub fn find_locally_missing(capabilities: &Vec<String>, recipe: &Recipe) -> (r: Vec<String>)
    ensures
        text::views(r@) == locally_missing(
            text::views(capabilities@),
            parser::flattened(recipe@.steps),
        ),
{
    let actions = flatten_recipe(recipe);
    let ghost caps = text::views(capabilities@);
    let ghost all = text::views(actions@);
    let mut out: Vec<String> = Vec::new();
    assert(text::views(out@) =~= locally_missing(caps, all.take(0)));
    for i in 0..actions.len()
        invariant
            caps == text::views(capabilities@),
            all == text::views(actions@),
            text::views(out@) == locally_missing(caps, all.take(i as int)),
    {
        assert(all.take(i + 1).drop_last() =~= all.take(i as int));
        assert(all.take(i + 1).last() == actions@[i as int]@);
        let name = actions[i].name.as_str();
        if !contains_text(capabilities, name) && !contains_text(&out, name) {
            let ghost was = text::views(out@);
            out.push(actions[i].name.clone());
            assert(text::views(out@) =~= was.push(name@));
        }
    }
    assert(all.take(all.len() as int) =~= all);
    out
}

/// A recipe as it is shown, from its quoted name and the quoted names of what is missing.
pub open spec fn recipe_entry(name: Seq<char>, missing: Seq<Seq<char>>) -> Seq<char> {
    name + ": Local { missing_actions: "@ + bracketed(missing) + " }"@
}

/// A recipe as it is shown, from its quoted name and the quoted names of what is missing.
pub fn show_recipe(name: &str, missing: &Vec<String>) -> (r: String)
    ensures
        r@ == recipe_entry(name@, text::views(missing@)),
{
    let list = bracket(missing);
    name.to_string().concat(": Local { missing_actions: ").concat(list.as_str()).concat(" }")
}

/// The recipes of a node as they are shown.
pub open spec fn recipe_entries(capabilities: Seq<Seq<char>>, recipes: Seq<RecipeView>) -> Seq<
    Seq<char>,
> {
    Seq::new(
        recipes.len(),
        |i: int|
            recipe_entry(
                quoted(recipes[i].name),
                all_quoted(locally_missing(capabilities, parser::flattened(recipes[i].steps))),
            ),
    )
}

/// All recipes of a node in one line.
pub open spec fn recipes_text(state: NodeView) -> Seq<char> {
    "{"@ + text::join(
        recipe_entries(state.identity.capabilities, state.identity.recipes),
        ", "@,
    ) + "}"@
}

/// All recipes of a node in one line, from the entries.
pub fn braced(entries: &Vec<String>) -> (r: String)
    ensures
        r@ == "{"@ + text::join(text::views(entries@), ", "@) + "}"@,
{
    let inner = join_text(entries, ", ");
    "{".to_string().concat(inner.as_str()).concat("}")
}

/// All recipes of a node in one line, each with what the node itself cannot execute of it.
pub fn format_recipes(state: &NodeState) -> (r: String)
    ensures
        r@ == recipes_text(state@),
{
    let ghost caps = state@.identity.capabilities;
    let ghost recipes = state@.identity.recipes;
    let mut entries: Vec<String> = Vec::new();
    for i in 0..state.identity.recipes.len()
        invariant
            caps == text::views(state.identity.capabilities@),
            recipes == text::views(state.identity.recipes@),
            entries@.len() == i,
            forall|j: int|
                0 <= j < i ==> (#[trigger] entries@[j])@ == recipe_entries(caps, recipes)[j],
    {
        let recipe = &state.identity.recipes[i];
        let missing = find_locally_missing(&state.identity.capabilities, recipe);
        let name = quote(recipe.name.as_str());
        let names = quote_all(&missing);
        entries.push(show_recipe(name.as_str(), &names));
    }
    assert(text::views(entries@) =~= recipe_entries(caps, recipes));
    braced(&entries)
}

// ── Status ───────────────────────────────────────────────────────────────────

/// A version as it is shown.
pub open spec fn version_text(v: Version) -> Seq<char> {
    number::decimal(v.counter as nat) + "#"@ + number::decimal(v.generation as nat)
}

/// A version as it is shown.
pub fn show_version(v: Version) -> (r: String)
    ensures
        r@ == version_text(v),
{
    let generation = decimal_text(v.generation as u128);
    decimal_text(v.counter as u128).concat("#").concat(generation.as_str())
}

/// The milliseconds since a peer was seen; none where it never was.
pub open spec fn unseen_ms(p: PeerView, now_us: u64) -> nat {
    if p.last_seen_us == 0 || now_us < p.last_seen_us {
        0
    } else {
        ((now_us - p.last_seen_us) / 1000) as nat
    }
}

/// How reachable a peer is, as it is shown: its round-trip time in milliseconds where it was
/// measured, for which the text is given, else the time since it was seen.
pub open spec fn reach_text(p: PeerView, now_us: u64, rtt_ms: Seq<char>) -> Seq<char> {
    match p.rtt_us {
        Some(rtt) => rtt_ms + " ms"@,
        None => number::decimal(unseen_ms(p, now_us)) + " ms ago"@,
    }
}

/// A peer as it is shown.
pub open spec fn peer_row(
    addr: Seq<char>,
    p: PeerView,
    now_us: u64,
    rtt_ms: Seq<char>,
) -> Seq<char> {
    "  "@ + addr + " (v"@ + version_text(p.version) + " "@ + reach_text(p, now_us, rtt_ms) + ")"@
}

/// A peer as it is shown. `rtt_ms` is its round-trip time in milliseconds as text; it counts only
/// where it was measured.
pub fn show_peer(addr: &str, info: &PeerInfo, now_us: u64, rtt_ms: &str) -> (r: String)
    ensures
        r@ == peer_row(addr@, info@, now_us, rtt_ms@),
{
    let version = show_version(info.version);
    let reach = match info.rtt_us {
        Some(_) => rtt_ms.to_string().concat(" ms"),
        None => {
            let elapsed: u64 = if info.last_seen_us == 0 || now_us < info.last_seen_us {
                0
            } else {
                (now_us - info.last_seen_us) / 1000
            };
            decimal_text(elapsed as u128).concat(" ms ago")
        },
    };
    "  ".to_string().concat(addr).concat(" (v").concat(version.as_str()).concat(" ").concat(
        reach.as_str(),
    ).concat(")")
}

/// A line of the status: a label, which may be empty, and a text.
#[derive(Debug, PartialEq, Eq)]
pub struct StatusLine {
    pub label: String,
    pub text: String,
}

impl View for StatusLine {
    type V = (Seq<char>, Seq<char>);

    open spec fn view(&self) -> (Seq<char>, Seq<char>) {
        (self.label@, self.text@)
    }
}

/// The peers that are shown: all but the node itself, in ascending order.
pub open spec fn shown_peers(state: NodeView) -> Seq<Seq<char>> {
    table::others(order::sorted(state.gossip.peers.dom()), state.identity.addr)
}

/// The lines about the peers.
pub open spec fn peer_lines(state: NodeView, now_us: u64, rtts_ms: Seq<Seq<char>>) -> Seq<
    (Seq<char>, Seq<char>),
> {
    let addrs = shown_peers(state);
    if addrs.len() == 0 {
        seq![(""@, "  (none)"@)]
    } else {
        Seq::new(
            addrs.len(),
            |i: int| (""@, peer_row(addrs[i], state.gossip.peers[addrs[i]], now_us, rtts_ms[i])),
        )
    }
}

/// The status of a node as it is shown.
pub open spec fn status_lines(state: NodeView, now_us: u64, rtts_ms: Seq<Seq<char>>) -> Seq<
    (Seq<char>, Seq<char>),
> {
    seq![
        ("Capabilities: "@, bracketed(all_quoted(state.identity.capabilities))),
        ("Recipes: "@, recipes_text(state)),
        ("Known peers:"@, ""@),
    ] + peer_lines(state, now_us, rtts_ms) + seq![
        ("Host: "@, state.identity.addr),
        ("Current version: "@, version_text(state.gossip.version)),
    ]
}

/// A line of the status.
fn status_line(label: &str, text: &str) -> (r: StatusLine)
    ensures
        r@ == (label@, text@),
{
    StatusLine { label: label.to_string(), text: text.to_string() }
}

/// The lines about the peers.
pub fn show_peers(state: &NodeState, now_us: u64, rtts_ms: &Vec<String>) -> (r: Vec<StatusLine>)
    requires
        rtts_ms@.len() == shown_peers(state@).len(),
    ensures
        text::views(r@) == peer_lines(state@, now_us, text::views(rtts_ms@)),
{
    let addrs = ping_targets(state);
    let known: usize = state.gossip.peers.len();
    let ghost all = shown_peers(state@);
    assert(known == state@.gossip.peers.dom().len());
    assert(text::views(addrs@).len() == addrs@.len());
    let mut out: Vec<StatusLine> = Vec::new();
    if addrs.len() == 0 {
        out.push(status_line("", "  (none)"));
        assert(text::views(out@) =~= peer_lines(state@, now_us, text::views(rtts_ms@)));
        return out;
    }
    for i in 0..addrs.len()
        invariant
            all == shown_peers(state@),
            state@.gossip.peers.dom().finite(),
            text::views(addrs@) == all,
            rtts_ms@.len() == all.len(),
            out@.len() == i,
            forall|j: int|
                0 <= j < i ==> (#[trigger] out@[j])@ == (
                    ""@,
                    peer_row(all[j], state@.gossip.peers[all[j]], now_us, rtts_ms@[j]@),
                ),
    {
        assert(all[i as int] == addrs@[i as int]@);
        proof {
            lemma_shown_is_known(state, i as int);
        }
        match state.gossip.peers.get(addrs[i].as_str()) {
            Some(info) => {
                let row = show_peer(addrs[i].as_str(), info, now_us, rtts_ms[i].as_str());
                out.push(status_line("", row.as_str()));
            },
            None => {},
        }
    }
    assert(text::views(out@) =~= peer_lines(state@, now_us, text::views(rtts_ms@)));
    out
}

/// A peer that is shown is known.
proof fn lemma_shown_is_known(state: &NodeState, i: int)
    requires
        0 <= i < shown_peers(state@).len(),
        state@.gossip.peers.dom().finite(),
    ensures
        state@.gossip.peers.contains_key(shown_peers(state@)[i]),
{
    let keys = order::sorted(state@.gossip.peers.dom());
    order::lemma_sorted(state@.gossip.peers.dom());
    table::lemma_others_within(keys, state@.identity.addr, i);
    assert(keys.to_set().contains(shown_peers(state@)[i]));
}

/// The status of a node as it is shown at `now_us`. `rtts_ms` are the round-trip times of the shown
/// peers in milliseconds, as text; each counts only where it was measured.
pub fn show_status_lines(state: &NodeState, now_us: u64, rtts_ms: &Vec<String>) -> (r: Vec<
    StatusLine,
>)
    requires
        rtts_ms@.len() == shown_peers(state@).len(),
    ensures
        text::views(r@) == status_lines(state@, now_us, text::views(rtts_ms@)),
{
    let quoted_caps = quote_all(&state.identity.capabilities);
    let caps = bracket(&quoted_caps);
    let recipes = format_recipes(state);
    let version = show_version(state.gossip.version);
    let mut peers = show_peers(state, now_us, rtts_ms);
    let ghost shown = text::views(peers@);
    let mut out: Vec<StatusLine> = Vec::new();
    out.push(status_line("Capabilities: ", caps.as_str()));
    out.push(status_line("Recipes: ", recipes.as_str()));
    out.push(status_line("Known peers:", ""));
    let ghost head = text::views(out@);
    out.append(&mut peers);
    assert(text::views(out@) =~= head + shown);
    out.push(status_line("Host: ", state.identity.addr.as_str()));
    out.push(status_line("Current version: ", version.as_str()));
    assert(text::views(out@) =~= status_lines(state@, now_us, text::views(rtts_ms@)));
    out
}

// ── Command line ─────────────────────────────────────────────────────────────

/// The title of the command line.
pub fn command_title(mode: Mode) -> (r: &'static str)
    ensures
        r@ == match mode {
            Mode::Editing => "Edit Command (use 'help' for help and <Tab> for completion)"@,
            Mode::Normal => "Command"@,
        },
{
    match mode {
        Mode::Editing => "Edit Command (use 'help' for help and <Tab> for completion)",
        Mode::Normal => "Command",
    }
}

// ── Laws ─────────────────────────────────────────────────────────────────────

/// A status is shown by its name, with the reason behind it where there is one.
pub proof fn statuses_are_shown_with_their_reason(status: &OrderStatus, r: String)
    requires
        call_ensures(show_status, (status,), r),
    ensures
        status@ is Sending ==> r@ == "Sending"@,
        status@ is Receipt ==> r@ == "Receipt"@,
        status@ is Delivered ==> r@ == "Delivered"@,
        status@ matches StatusView::Declined(m) ==> r@ == "Declined: "@ + m,
        status@ matches StatusView::Failed(m) ==> r@ == "Failed: "@ + m,
        status@ matches StatusView::Error(m) ==> r@ == "Error: "@ + m,
{
}

/// `r` is how `s` starts: all of it, or its first eight characters.
pub open spec fn is_start(r: Seq<char>, s: Seq<char>) -> bool {
    &&& r.len() <= 8
    &&& r.len() < 8 ==> r == s
    &&& exists|rest: Seq<char>| s == #[trigger] (r + rest)
}

/// An order is shown by the start of the identifier that the server gave it, else by the start of
/// its own.
pub proof fn orders_are_shown_by_their_identifier(order: &Order, own: String, r: String)
    requires
        call_ensures(decimal_text, (order.id,), own),
        call_ensures(show_id, (order,), r),
    ensures
        order@.server_id matches Some(id) ==> is_start(r@, id),
        order@.server_id is None ==> is_start(r@, "local-"@ + own@),
{
    let s = match order@.server_id {
        Some(id) => id,
        None => "local-"@ + own@,
    };
    assert(s =~= r@ + s.skip(r@.len() as int));
}

/// An order is shown with its identifier, its recipe, its age and its status.
pub proof fn orders_are_shown_whole(
    order: &Order,
    now: UnixTime,
    id: String,
    age: u64,
    age_text: String,
    status: String,
    r: String,
)
    requires
        call_ensures(show_id, (order,), id),
        call_ensures(Order::elapsed_ms, (order, now), age),
        call_ensures(decimal_text, (age as u128,), age_text),
        call_ensures(show_status, (&order.status,), status),
        call_ensures(show_order, (order, now), r),
    ensures
        r@ == "["@ + id@ + "] "@ + order@.recipe_name + " ("@ + age_text@ + "ms ago) - "@
            + status@,
{
}

/// The orders of one time.
pub open spec fn of_time(t: u64) -> spec_fn(OrderView) -> bool {
    |o: OrderView| o.timestamp_ms == t
}

/// Orders are sorted by their times: none is lost or doubled, an earlier one comes first, and those
/// of the same time stay in the order in which they came.
pub proof fn orders_are_sorted_by_time(orders: Vec<Order>, r: Vec<Order>)
    requires
        call_ensures(sort_orders, (orders,), r),
    ensures
        text::views(r@).to_multiset() == text::views(orders@).to_multiset(),
        forall|i: int, j: int|
            0 <= i <= j < r@.len() ==> (#[trigger] r@[i])@.timestamp_ms <= (
            #[trigger] r@[j])@.timestamp_ms,
        forall|t: u64|
            text::views(r@).filter(#[trigger] of_time(t)) == text::views(orders@).filter(
                of_time(t),
            ),
{
    let all = text::views(orders@);
    let sorted = text::views(r@);
    orders_are_shown_by_time(all);
    assert(sorted.len() == r@.len());
    assert forall|i: int, j: int| 0 <= i <= j < r@.len() implies (#[trigger] r@[i])@.timestamp_ms
        <= (#[trigger] r@[j])@.timestamp_ms by {
        assert(sorted[i].timestamp_ms <= sorted[j].timestamp_ms);
    }
    assert forall|t: u64| sorted.filter(#[trigger] of_time(t)) == all.filter(of_time(t)) by {
        lemma_stable(all, t);
    }
}

proof fn lemma_stable(orders: Seq<OrderView>, t: u64)
    ensures
        by_time(orders).filter(of_time(t)) == orders.filter(of_time(t)),
    decreases orders.len(),
{
    let keep = of_time(t);
    if orders.len() == 0 {
        assert(by_time(orders) =~= orders);
    } else {
        let rest = orders.drop_last();
        let o = orders.last();
        let front = by_time(rest);
        let p = place(front, o);
        lemma_stable(rest, t);
        lemma_place(front, o);
        let a = front.take(p);
        let b = front.skip(p);
        assert(front =~= a + b);
        assert(front.insert(p, o) =~= a.push(o) + b);
        Seq::filter_distributes_over_add(a, b, keep);
        Seq::filter_distributes_over_add(a.push(o), b, keep);
        a.lemma_filter_push(o, keep);
        assert(rest.push(o) =~= orders);
        rest.lemma_filter_push(o, keep);
        if keep(o) {
            assert forall|i: int| 0 <= i < b.len() implies !keep(#[trigger] b[i]) by {
                assert(b[i] == front[p + i]);
            }
            lemma_none_kept(b, keep);
            assert(a.filter(keep).push(o) + b.filter(keep) =~= (a.filter(keep) + b.filter(
                keep,
            )).push(o));
        }
    }
}

proof fn lemma_none_kept<T>(s: Seq<T>, keep: spec_fn(T) -> bool)
    requires
        forall|i: int| 0 <= i < s.len() ==> !keep(#[trigger] s[i]),
    ensures
        s.filter(keep).len() == 0,
    decreases s.len(),
{
    reveal(Seq::filter);
    if s.len() > 0 {
        let front = s.drop_last();
        assert forall|i: int| 0 <= i < front.len() implies !keep(#[trigger] front[i]) by {
            assert(front[i] == s[i]);
        }
        lemma_none_kept(front, keep);
        assert(front.push(s.last()) =~= s);
        front.lemma_filter_push(s.last(), keep);
    }
}

/// `m` names exactly those of the actions that are not among the capabilities, each once, in the
/// order in which they first come up.
pub open spec fn is_left_over(
    capabilities: Seq<Seq<char>>,
    actions: Seq<ActionView>,
    m: Seq<Seq<char>>,
) -> bool {
    &&& m.no_duplicates()
    &&& forall|n: Seq<char>| #[trigger]
        m.contains(n) <==> !capabilities.contains(n) && exists|i: int|
            0 <= i < actions.len() && (#[trigger] actions[i]).name == n
    &&& forall|i: int, j: int|
        0 <= i < j < m.len() ==> listing::comes_up_before(
            actions,
            #[trigger] m[i],
            #[trigger] m[j],
        )
}

/// What the node itself cannot execute of a recipe are exactly those of its actions that are not
/// among its capabilities.
pub proof fn locally_missing_is_what_the_node_cannot(
    capabilities: &Vec<String>,
    recipe: &Recipe,
    r: Vec<String>,
)
    requires
        call_ensures(find_locally_missing, (capabilities, recipe), r),
    ensures
        is_left_over(
            text::views(capabilities@),
            parser::flattened(recipe@.steps),
            text::views(r@),
        ),
{
    lemma_left_over(text::views(capabilities@), parser::flattened(recipe@.steps));
}

proof fn lemma_left_over(capabilities: Seq<Seq<char>>, actions: Seq<ActionView>)
    ensures
        is_left_over(capabilities, actions, locally_missing(capabilities, actions)),
    decreases actions.len(),
{
    let all = locally_missing(capabilities, actions);
    if actions.len() > 0 {
        let rest = actions.drop_last();
        let front = locally_missing(capabilities, rest);
        let last = actions.last().name;
        lemma_left_over(capabilities, rest);
        assert forall|n: Seq<char>| #[trigger] all.contains(n) <==> !capabilities.contains(n)
            && exists|i: int| 0 <= i < actions.len() && (#[trigger] actions[i]).name == n by {
            if all.contains(n) {
                let k = choose|k: int| 0 <= k < all.len() && all[k] == n;
                if k < front.len() {
                    assert(front[k] == n);
                    assert(front.contains(n));
                    let i = choose|i: int| 0 <= i < rest.len() && (#[trigger] rest[i]).name == n;
                    assert(actions[i].name == n);
                } else {
                    assert(actions[actions.len() - 1].name == n);
                }
            }
            if !capabilities.contains(n) && exists|i: int|
                0 <= i < actions.len() && (#[trigger] actions[i]).name == n {
                let i = choose|i: int| 0 <= i < actions.len() && (#[trigger] actions[i]).name == n;
                if i < rest.len() {
                    assert(rest[i].name == n);
                    assert(front.contains(n));
                    let k = choose|k: int| 0 <= k < front.len() && front[k] == n;
                    assert(all[k] == n);
                } else if front.contains(n) {
                    let k = choose|k: int| 0 <= k < front.len() && front[k] == n;
                    assert(all[k] == n);
                } else {
                    assert(all[front.len() as int] == n);
                }
            }
        }
        assert forall|i: int, j: int| 0 <= i < j < all.len() implies listing::comes_up_before(
            actions,
            #[trigger] all[i],
            #[trigger] all[j],
        ) by {
            let k = if j < front.len() {
                assert(listing::comes_up_before(rest, front[i], front[j]));
                choose|k: int|
                    {
                        &&& 0 <= k < rest.len()
                        &&& (#[trigger] rest[k]).name == front[i]
                        &&& forall|l: int| 0 <= l <= k ==> (#[trigger] rest[l]).name != front[j]
                    }
            } else {
                assert(front.contains(front[i]));
                choose|k: int| 0 <= k < rest.len() && (#[trigger] rest[k]).name == front[i]
            };
            assert(actions[k].name == all[i]);
            assert forall|l: int| 0 <= l <= k implies (#[trigger] actions[l]).name != all[j] by {
                assert(rest[l].name == actions[l].name);
            }
        }
        assert(all.no_duplicates()) by {
            assert forall|i: int, j: int| 0 <= i < all.len() && 0 <= j < all.len() && i
                != j implies all[i] != all[j] by {
                if i < front.len() && j < front.len() {
                    assert(front[i] != front[j]);
                } else if i < front.len() {
                    assert(front.contains(front[i]));
                } else if j < front.len() {
                    assert(front.contains(front[j]));
                }
            }
        }
    }
}

/// Lists are shown in brackets and recipes in braces, with a comma between each two items.
pub proof fn lists_are_shown_in_brackets(items: &Vec<String>, inner: String, b: String, c: String)
    requires
        call_ensures(join_text, (items, ", "), inner),
        call_ensures(bracket, (items,), b),
        call_ensures(braced, (items,), c),
    ensures
        b@ == "["@ + inner@ + "]"@,
        c@ == "{"@ + inner@ + "}"@,
{
}

/// A recipe is shown with its name and everything that is missing.
pub proof fn recipes_are_shown_with_what_is_missing(
    name: &str,
    missing: &Vec<String>,
    inner: String,
    r: String,
)
    requires
        call_ensures(join_text, (missing, ", "), inner),
        call_ensures(show_recipe, (name, missing), r),
    ensures
        r@ == name@ + ": Local { missing_actions: ["@ + inner@ + "] }"@,
{
    let a = name@;
    let list = "["@ + inner@ + "]"@;
    reveal_strlit(": Local { missing_actions: ");
    reveal_strlit(": Local { missing_actions: [");
    reveal_strlit("[");
    reveal_strlit("]");
    reveal_strlit(" }");
    reveal_strlit("] }");
    assert(": Local { missing_actions: "@ + "["@ =~= ": Local { missing_actions: ["@);
    assert("]"@ + " }"@ =~= "] }"@);
    assert(a + ": Local { missing_actions: "@ + list + " }"@ =~= a + (": Local { missing_actions: "@
        + "["@) + inner@ + ("]"@ + " }"@));
}

/// `entry` shows a recipe of a node: its quoted name and the quoted names of what the node cannot
/// execute of it.
pub open spec fn is_entry(
    entry: Seq<char>,
    capabilities: Seq<Seq<char>>,
    recipe: RecipeView,
) -> bool {
    exists|missing: Seq<Seq<char>>|
        {
            &&& #[trigger] is_left_over(capabilities, parser::flattened(recipe.steps), missing)
            &&& entry == quoted(recipe.name) + ": Local { missing_actions: "@ + ("["@ + text::join(
                Seq::new(missing.len(), |i: int| quoted(missing[i])),
                ", "@,
            ) + "]"@) + " }"@
        }
}

/// `shown` shows all recipes of a node, in the order in which it has them.
pub open spec fn are_shown(
    shown: Seq<char>,
    capabilities: Seq<Seq<char>>,
    recipes: Seq<RecipeView>,
) -> bool {
    exists|entries: Seq<Seq<char>>|
        {
            &&& entries.len() == recipes.len()
            &&& forall|i: int|
                0 <= i < recipes.len() ==> is_entry(#[trigger] entries[i], capabilities, recipes[i])
            &&& shown == "{"@ + #[trigger] text::join(entries, ", "@) + "}"@
        }
}

/// All recipes of a node are shown, each with what the node itself cannot execute of it.
pub proof fn all_own_recipes_are_shown(state: &NodeState, r: String)
    requires
        call_ensures(format_recipes, (state,), r),
    ensures
        are_shown(r@, state@.identity.capabilities, state@.identity.recipes),
{
    lemma_shown(state@);
}

proof fn lemma_shown(state: NodeView)
    ensures
        are_shown(recipes_text(state), state.identity.capabilities, state.identity.recipes),
{
    let caps = state.identity.capabilities;
    let recipes = state.identity.recipes;
    let entries = recipe_entries(caps, recipes);
    assert forall|i: int| 0 <= i < recipes.len() implies is_entry(
        #[trigger] entries[i],
        caps,
        recipes[i],
    ) by {
        let missing = locally_missing(caps, parser::flattened(recipes[i].steps));
        lemma_left_over(caps, parser::flattened(recipes[i].steps));
        assert(all_quoted(missing) =~= Seq::new(missing.len(), |k: int| quoted(missing[k])));
    }
    assert(recipes_text(state) == "{"@ + text::join(entries, ", "@) + "}"@);
}

/// A version is shown by its counter and its generation.
pub proof fn versions_are_shown_by_counter_and_generation(
    v: Version,
    counter: String,
    generation: String,
    r: String,
)
    requires
        call_ensures(decimal_text, (v.counter as u128,), counter),
        call_ensures(decimal_text, (v.generation as u128,), generation),
        call_ensures(show_version, (v,), r),
    ensures
        r@ == counter@ + "#"@ + generation@,
{
}

/// `row` shows a peer: its address, its version, and its round-trip time where that was measured,
/// else the whole milliseconds since it was seen, which are none where it never was or where the
/// clock went back.
pub open spec fn is_peer_row(
    row: Seq<char>,
    addr: Seq<char>,
    p: PeerView,
    now_us: u64,
    rtt_ms: Seq<char>,
) -> bool {
    let front = "  "@ + addr + " (v"@ + version_text(p.version) + " "@;
    if p.rtt_us is Some {
        row == front + (rtt_ms + " ms"@) + ")"@
    } else {
        exists|ms: nat|
            {
                &&& row == front + (#[trigger] number::decimal(ms) + " ms ago"@) + ")"@
                &&& if p.last_seen_us == 0 || now_us < p.last_seen_us {
                    ms == 0
                } else {
                    p.last_seen_us + 1_000 * ms <= now_us < p.last_seen_us + 1_000 * (ms + 1)
                }
            }
    }
}

proof fn lemma_peer_row(addr: Seq<char>, p: PeerView, now_us: u64, rtt_ms: Seq<char>)
    ensures
        is_peer_row(peer_row(addr, p, now_us, rtt_ms), addr, p, now_us, rtt_ms),
{
    let ms = unseen_ms(p, now_us);
    let front = "  "@ + addr + " (v"@ + version_text(p.version) + " "@;
    if p.rtt_us is None {
        assert(peer_row(addr, p, now_us, rtt_ms) == front + (number::decimal(ms) + " ms ago"@)
            + ")"@);
    }
}

/// A peer is shown with its address, its version and how reachable it is.
pub proof fn peers_are_shown_with_their_reach(
    addr: &str,
    info: &PeerInfo,
    now_us: u64,
    rtt_ms: &str,
    r: String,
)
    requires
        call_ensures(show_peer, (addr, info, now_us, rtt_ms), r),
    ensures
        is_peer_row(r@, addr@, info@, now_us, rtt_ms@),
{
    lemma_peer_row(addr@, info@, now_us, rtt_ms@);
}

/// `lines` show the peers: each peer but the node itself in a line of its own, in the order of
/// `addrs`, or one line that says that there is none.
pub open spec fn are_peer_lines(
    lines: Seq<(Seq<char>, Seq<char>)>,
    state: NodeView,
    now_us: u64,
    rtts_ms: Seq<Seq<char>>,
    addrs: Seq<Seq<char>>,
) -> bool {
    &&& addrs.len() == 0 ==> lines == seq![(""@, "  (none)"@)]
    &&& addrs.len() > 0 ==> lines.len() == addrs.len()
    &&& forall|i: int|
        0 <= i < addrs.len() ==> (#[trigger] lines[i]).0 == ""@ && is_peer_row(
            lines[i].1,
            addrs[i],
            state.gossip.peers[addrs[i]],
            now_us,
            rtts_ms[i],
        )
}

/// `addrs` are all peers that a node knows but the node itself, in ascending order.
pub open spec fn are_all_others(addrs: Seq<Seq<char>>, state: NodeView) -> bool {
    &&& order::ascending(addrs)
    &&& forall|k: Seq<char>| #[trigger]
        addrs.contains(k) <==> state.gossip.peers.contains_key(k) && k != state.identity.addr
}

proof fn lemma_peer_lines(
    state: NodeView,
    now_us: u64,
    rtts_ms: Seq<Seq<char>>,
    addrs: Seq<Seq<char>>,
)
    requires
        state.gossip.peers.dom().finite(),
        are_all_others(addrs, state),
    ensures
        are_peer_lines(peer_lines(state, now_us, rtts_ms), state, now_us, rtts_ms, addrs),
{
    let shown = shown_peers(state);
    let keys = order::sorted(state.gossip.peers.dom());
    order::lemma_sorted(state.gossip.peers.dom());
    table::lemma_sorted_holds(state.gossip.peers);
    table::lemma_others_hold(keys, state.identity.addr);
    order::lemma_filter_ascending(keys, table::is_other(state.identity.addr));
    assert(shown.to_set() =~= addrs.to_set()) by {
        assert forall|k: Seq<char>| shown.to_set().contains(k) <==> addrs.to_set().contains(k) by {
            assert(shown.contains(k) <==> addrs.contains(k));
        }
    }
    order::lemma_ascending_unique(shown, addrs);
    let lines = peer_lines(state, now_us, rtts_ms);
    assert forall|i: int| 0 <= i < addrs.len() implies (#[trigger] lines[i]).0 == ""@
        && is_peer_row(
        lines[i].1,
        addrs[i],
        state.gossip.peers[addrs[i]],
        now_us,
        rtts_ms[i],
    ) by {
        lemma_peer_row(addrs[i], state.gossip.peers[addrs[i]], now_us, rtts_ms[i]);
    }
}

/// All known peers but the node itself are shown, in ascending order of their addresses.
pub proof fn all_other_peers_are_shown(
    state: &NodeState,
    now_us: u64,
    rtts_ms: &Vec<String>,
    addrs: Seq<Seq<char>>,
    r: Vec<StatusLine>,
)
    requires
        state@.gossip.peers.dom().finite(),
        are_all_others(addrs, state@),
        call_ensures(show_peers, (state, now_us, rtts_ms), r),
    ensures
        are_peer_lines(text::views(r@), state@, now_us, text::views(rtts_ms@), addrs),
{
    lemma_peer_lines(state@, now_us, text::views(rtts_ms@), addrs);
}

/// The status of a node shows its capabilities, its recipes, the peers, its address and its
/// version, in this order.
pub proof fn the_status_shows_the_node(
    state: &NodeState,
    now_us: u64,
    rtts_ms: &Vec<String>,
    addrs: Seq<Seq<char>>,
    version: String,
    r: Vec<StatusLine>,
)
    requires
        state@.gossip.peers.dom().finite(),
        are_all_others(addrs, state@),
        call_ensures(show_version, (state.gossip.version,), version),
        call_ensures(show_status_lines, (state, now_us, rtts_ms), r),
    ensures
        ({
            let caps = state@.identity.capabilities;
            let lines = text::views(r@);
            let n = lines.len();
            &&& n >= 6
            &&& lines[0] == (
                "Capabilities: "@,
                "["@ + text::join(Seq::new(caps.len(), |i: int| quoted(caps[i])), ", "@) + "]"@,
            )
            &&& lines[1].0 == "Recipes: "@
            &&& are_shown(lines[1].1, caps, state@.identity.recipes)
            &&& lines[2] == ("Known peers:"@, ""@)
            &&& are_peer_lines(
                lines.subrange(3, n - 2),
                state@,
                now_us,
                text::views(rtts_ms@),
                addrs,
            )
            &&& lines[n - 2] == ("Host: "@, state@.identity.addr)
            &&& lines[n - 1] == ("Current version: "@, version@)
        }),
{
    let caps = state@.identity.capabilities;
    let lines = text::views(r@);
    let peers = peer_lines(state@, now_us, text::views(rtts_ms@));
    lemma_shown(state@);
    lemma_peer_lines(state@, now_us, text::views(rtts_ms@), addrs);
    assert(all_quoted(caps) =~= Seq::new(caps.len(), |i: int| quoted(caps[i])));
    assert(lines.len() == peers.len() + 5);
    assert(lines.subrange(3, lines.len() - 2) =~= peers);
}

/// The title of the command line tells the two modes apart.
pub proof fn the_title_tells_the_mode(mode: Mode, r: &'static str)
    requires
        call_ensures(command_title, (mode,), r),
    ensures
        mode == Mode::Normal ==> r@ == "Command"@,
        mode == Mode::Editing ==> r@
            == "Edit Command (use 'help' for help and <Tab> for completion)"@,
{
}

} // verus!
