//! Which recipes the cluster knows, and what is missing for them.
use crate::network::udp::table;
use crate::node::NodeState;
use crate::node::NodeView;
use crate::node::PeerView;
use crate::order;
use crate::protocol::ActionView;
use crate::protocol::AnnounceView;
use crate::protocol::AvailabilityView;
use crate::protocol::RecipeAvailability;
use crate::protocol::RecipeStatus;
use crate::protocol::RemoteRecipeStatus;
use crate::protocol::Required;
use crate::protocol::TcpMessage;
use crate::protocol::TcpView;
use crate::recipe::flatten_recipe;
use crate::recipe::parser;
use crate::recipe::Recipe;
use crate::recipe::RecipeView;
use crate::string_map::StringMap;
use crate::text;
use crate::text::contains_text;
use vstd::prelude::*;

verus! {

// ── Who knows what ───────────────────────────────────────────────────────────

/// Of some addresses those whose peers advertise a recipe, in the same order.
pub open spec fn advertisers(
    addrs: Seq<Seq<char>>,
    peers: Map<Seq<char>, PeerView>,
    recipe: Seq<char>,
) -> Seq<Seq<char>> {
    addrs.filter(|a: Seq<char>| peers[a].recipes.contains(recipe))
}

/// The peers that advertise a recipe, in ascending order of their addresses.
pub open spec fn recipe_peers(state: NodeView, recipe: Seq<char>) -> Seq<Seq<char>> {
    advertisers(order::sorted(state.gossip.peers.dom()), state.gossip.peers, recipe)
}

/// The peers that can execute an action, in ascending order of their addresses.
pub open spec fn capable_peers(state: NodeView, action: Seq<char>) -> Seq<Seq<char>> {
    order::sorted(state.gossip.peers.dom()).filter(
        |a: Seq<char>| state.gossip.peers[a].capabilities.contains(action),
    )
}

/// The node has a recipe of that name.
pub open spec fn has_recipe(state: NodeView, recipe: Seq<char>) -> bool {
    table::recipe_names(state.identity.recipes).contains(recipe)
}

/// The node itself can execute an action.
pub open spec fn can_execute(state: NodeView, action: Seq<char>) -> bool {
    state.identity.capabilities.contains(action)
}

/// The node or one of its peers can execute an action.
pub open spec fn cluster_can(state: NodeView, action: Seq<char>) -> bool {
    can_execute(state, action) || capable_peers(state, action).len() > 0
}

/// The peers that advertise a recipe, in ascending order of their addresses.
pub fn find_recipe_peers(state: &NodeState, recipe: &str) -> (r: Vec<String>)
    ensures
        text::views(r@) == recipe_peers(state@, recipe@),
{
    let ghost peers = state@.gossip.peers;
    let ghost keys = order::sorted(peers.dom());
    let ghost keep = |a: Seq<char>| peers[a].recipes.contains(recipe@);
    let count: usize = state.gossip.peers.len();
    let mut out: Vec<String> = Vec::new();
    assert(text::views(out@) =~= keys.take(0).filter(keep)) by {
        reveal(Seq::filter);
    }
    for i in 0..count
        invariant
            peers == state.gossip.peers@,
            keys == order::sorted(peers.dom()),
            keep == (|a: Seq<char>| peers[a].recipes.contains(recipe@)),
            count == keys.len(),
            text::views(out@) == keys.take(i as int).filter(keep),
    {
        assert(keys.take(i + 1) =~= keys.take(i as int).push(keys[i as int]));
        proof {
            keys.take(i as int).lemma_filter_push(keys[i as int], keep);
        }
        let info = state.gossip.peers.value_at(i);
        if contains_text(&info.recipes, recipe) {
            let ghost was = text::views(out@);
            let key = state.gossip.peers.key_at(i).clone();
            out.push(key);
            assert(text::views(out@) =~= was.push(keys[i as int]));
        }
    }
    assert(keys.take(keys.len() as int) =~= keys);
    assert(recipe_peers(state@, recipe@) =~= keys.filter(keep));
    out
}

/// The peers that can execute an action, in ascending order of their addresses.
pub fn find_capable_peers(state: &NodeState, action: &str) -> (r: Vec<String>)
    ensures
        text::views(r@) == capable_peers(state@, action@),
{
    let ghost peers = state@.gossip.peers;
    let ghost keys = order::sorted(peers.dom());
    let ghost keep = |a: Seq<char>| peers[a].capabilities.contains(action@);
    let count: usize = state.gossip.peers.len();
    let mut out: Vec<String> = Vec::new();
    assert(text::views(out@) =~= keys.take(0).filter(keep)) by {
        reveal(Seq::filter);
    }
    for i in 0..count
        invariant
            peers == state.gossip.peers@,
            keys == order::sorted(peers.dom()),
            keep == (|a: Seq<char>| peers[a].capabilities.contains(action@)),
            count == keys.len(),
            text::views(out@) == keys.take(i as int).filter(keep),
    {
        assert(keys.take(i + 1) =~= keys.take(i as int).push(keys[i as int]));
        proof {
            keys.take(i as int).lemma_filter_push(keys[i as int], keep);
        }
        let info = state.gossip.peers.value_at(i);
        if contains_text(&info.capabilities, action) {
            let ghost was = text::views(out@);
            let key = state.gossip.peers.key_at(i).clone();
            out.push(key);
            assert(text::views(out@) =~= was.push(keys[i as int]));
        }
    }
    assert(keys.take(keys.len() as int) =~= keys);
    assert(capable_peers(state@, action@) =~= keys.filter(keep));
    out
}

/// The first recipe of that name that the node has.
pub fn find_recipe<'a>(recipes: &'a Vec<Recipe>, name: &str) -> (r: Option<&'a Recipe>)
    ensures
        match r {
            Some(recipe) => {
                let i = table::recipe_names(text::views(recipes@)).index_of_first(name@);
                &&& i is Some
                &&& recipe@ == text::views(recipes@)[i->0]
                &&& table::recipe_names(text::views(recipes@)).contains(name@)
            },
            None => !table::recipe_names(text::views(recipes@)).contains(name@),
        },
{
    let ghost names = table::recipe_names(text::views(recipes@));
    for i in 0..recipes.len()
        invariant
            names == table::recipe_names(text::views(recipes@)),
            forall|j: int| 0 <= j < i ==> names[j] != name@,
    {
        assert(names[i as int] == recipes@[i as int].name@);
        if crate::text::same_text(recipes[i].name.as_str(), name) {
            proof {
                names.index_of_first_ensures(name@);
                assert(names.contains(names[i as int]));
            }
            return Some(&recipes[i]);
        }
    }
    None
}

// ── Missing actions ──────────────────────────────────────────────────────────

/// The names among the actions that the cluster cannot execute, each once, in the order in which
/// they first come up.
pub open spec fn missing(state: NodeView, actions: Seq<ActionView>) -> Seq<Seq<char>>
    decreases actions.len(),
{
    if actions.len() == 0 {
        seq![]
    } else {
        let front = missing(state, actions.drop_last());
        let name = actions.last().name;
        if cluster_can(state, name) || front.contains(name) {
            front
        } else {
            front.push(name)
        }
    }
}

/// What is missing for a recipe.
pub fn find_missing(state: &NodeState, recipe: &Recipe) -> (r: Vec<String>)
    ensures
        text::views(r@) == missing(state@, parser::flattened(recipe@.steps)),
{
    let actions = flatten_recipe(recipe);
    let ghost all = text::views(actions@);
    let mut out: Vec<String> = Vec::new();
    assert(text::views(out@) =~= missing(state@, all.take(0)));
    for i in 0..actions.len()
        invariant
            all == text::views(actions@),
            text::views(out@) == missing(state@, all.take(i as int)),
    {
        assert(all.take(i + 1).drop_last() =~= all.take(i as int));
        assert(all.take(i + 1).last() == actions@[i as int]@);
        let name = actions[i].name.as_str();
        if !contains_text(&state.identity.capabilities, name) && find_capable_peers(
            state,
            name,
        ).len() == 0 && !contains_text(&out, name) {
            let ghost was = text::views(out@);
            out.push(actions[i].name.clone());
            assert(text::views(out@) =~= was.push(name@));
        }
    }
    assert(all.take(all.len() as int) =~= all);
    out
}

// ── The list ─────────────────────────────────────────────────────────────────

/// The availability of a local recipe. Of two recipes of one name the later one counts.
pub open spec fn local_availability(state: NodeView, recipes: Seq<RecipeView>, name: Seq<char>) -> AvailabilityView {
    let i = table::recipe_names(recipes).index_of_last(name)->0;
    AvailabilityView::Local { missing_actions: missing(state, parser::flattened(recipes[i].steps)) }
}

/// The availability of all recipes that are local or advertised by one of some peers.
pub open spec fn availability(state: NodeView, addrs: Seq<Seq<char>>) -> Map<
    Seq<char>,
    AvailabilityView,
> {
    Map::new(
        |n: Seq<char>|
            has_recipe(state, n) || advertisers(addrs, state.gossip.peers, n).len() > 0,
        |n: Seq<char>|
            if has_recipe(state, n) {
                local_availability(state, state.identity.recipes, n)
            } else {
                AvailabilityView::Remote { host: advertisers(addrs, state.gossip.peers, n)[0] }
            },
    )
}

/// The recipes that the cluster knows: the local ones with what is missing for them, and of the
/// others the least address that advertises them.
pub open spec fn recipe_list(state: NodeView) -> Map<Seq<char>, AvailabilityView> {
    availability(state, order::sorted(state.gossip.peers.dom()))
}

/// The availability of the first few local recipes.
spec fn local_part(state: NodeView, recipes: Seq<RecipeView>) -> Map<Seq<char>, AvailabilityView> {
    Map::new(
        |n: Seq<char>| table::recipe_names(recipes).contains(n),
        |n: Seq<char>| local_availability(state, recipes, n),
    )
}

/// The local recipes with what is missing for them.
fn list_local(state: &NodeState) -> (r: StringMap<RecipeAvailability>)
    ensures
        r@ == local_part(state@, state@.identity.recipes),
{
    let ghost all = state@.identity.recipes;
    let mut recipes: StringMap<RecipeAvailability> = StringMap::new();
    assert(recipes@ =~= local_part(state@, all.take(0)));
    for i in 0..state.identity.recipes.len()
        invariant
            all == state@.identity.recipes,
            recipes@ == local_part(state@, all.take(i as int)),
    {
        let recipe = &state.identity.recipes[i];
        let missing_actions = find_missing(state, recipe);
        let ghost was = recipes@;
        recipes.insert(
            recipe.name.clone(),
            RecipeAvailability::Local { local: RecipeStatus { missing_actions } },
        );
        proof {
            let before = all.take(i as int);
            let next = all.take(i + 1);
            let r = all[i as int];
            let old_names = table::recipe_names(before);
            let names = table::recipe_names(next);
            assert(names =~= old_names.push(r.name));
            assert forall|n: Seq<char>|
                names.contains(n) == (old_names.contains(n) || n == r.name) by {
                vstd::seq_lib::lemma_seq_contains_after_push(old_names, r.name, n);
            }
            assert forall|n: Seq<char>| names.contains(n) implies recipes@[n]
                == local_availability(state@, next, n) by {
                names.index_of_last_ensures(n);
                old_names.index_of_last_ensures(n);
                if n == r.name {
                    assert(names.index_of_last(n) == Some(i as int)) by {
                        assert(names[i as int] == n);
                    }
                    assert(next[i as int] == r);
                } else {
                    let a = names.index_of_last(n)->0;
                    let b = old_names.index_of_last(n)->0;
                    assert(a < i);
                    assert(names[a] == old_names[a]);
                    assert(names[b] == old_names[b]);
                    assert(a == b);
                    assert(next[a] == before[a]);
                }
            }
            assert(recipes@ =~= local_part(state@, next));
        }
    }
    assert(all.take(all.len() as int) =~= all);
    recipes
}

/// The list with the recipes of one more peer, of which some names have been taken in.
spec fn with_peer(
    list: Map<Seq<char>, AvailabilityView>,
    names: Seq<Seq<char>>,
    host: Seq<char>,
) -> Map<Seq<char>, AvailabilityView> {
    Map::new(
        |n: Seq<char>| list.contains_key(n) || names.contains(n),
        |n: Seq<char>|
            if list.contains_key(n) {
                list[n]
            } else {
                AvailabilityView::Remote { host }
            },
    )
}

/// Adds the recipes of one peer to the list.
fn list_peer(recipes: &mut StringMap<RecipeAvailability>, names: &Vec<String>, host: &String)
    ensures
        final(recipes)@ == with_peer(old(recipes)@, text::views(names@), host@),
{
    let ghost base = recipes@;
    let ghost all = text::views(names@);
    assert(recipes@ =~= with_peer(base, all.take(0), host@));
    for i in 0..names.len()
        invariant
            all == text::views(names@),
            recipes@ == with_peer(base, all.take(i as int), host@),
    {
        let ghost some = all.take(i as int);
        let ghost x = all[i as int];
        assert(all.take(i + 1) =~= some.push(x));
        assert forall|n: Seq<char>| all.take(i + 1).contains(n) == (some.contains(n) || n == x) by {
            vstd::seq_lib::lemma_seq_contains_after_push(some, x, n);
        }
        if !recipes.contains_key(names[i].as_str()) {
            recipes.insert(
                names[i].clone(),
                RecipeAvailability::Remote {
                    remote: RemoteRecipeStatus { host: Required(host.clone()) },
                },
            );
        }
        assert(recipes@ =~= with_peer(base, all.take(i + 1), host@));
    }
    assert(all.take(all.len() as int) =~= all);
}

/// One more peer adds what it advertises and nobody before it did.
proof fn lemma_with_peer(state: NodeView, addrs: Seq<Seq<char>>, host: Seq<char>)
    ensures
        with_peer(
            availability(state, addrs),
            state.gossip.peers[host].recipes,
            host,
        ) == availability(state, addrs.push(host)),
{
    let peers = state.gossip.peers;
    let names = peers[host].recipes;
    let a = availability(state, addrs);
    let b = availability(state, addrs.push(host));
    assert forall|n: Seq<char>|
        #![trigger a.contains_key(n)]
        {
            &&& advertisers(addrs.push(host), peers, n) == (if names.contains(n) {
                advertisers(addrs, peers, n).push(host)
            } else {
                advertisers(addrs, peers, n)
            })
        } by {
        let keep = |x: Seq<char>| peers[x].recipes.contains(n);
        addrs.lemma_filter_push(host, keep);
    }
    assert forall|n: Seq<char>| b.contains_key(n) == (a.contains_key(n) || names.contains(n)) by {
        assert(a.contains_key(n) || !a.contains_key(n));
    }
    assert forall|n: Seq<char>| b.contains_key(n) implies b[n] == with_peer(a, names, host)[n] by {
        assert(a.contains_key(n) || !a.contains_key(n));
    }
    assert(with_peer(a, names, host) =~= b);
}

/// Builds the recipe list answer for a `ListRecipes` command.
///
/// For each recipe the node knows, computes which actions are required but not covered by known
/// cluster capabilities. Each action name appears at most once, in recipe order. Recipes that are
/// known from gossip alone are listed with the least address that advertises them.
pub fn handle_list_recipes(state: &NodeState) -> (r: TcpMessage)
    ensures
        r@ == (TcpView::RecipeListAnswer { recipes: recipe_list(state@) }),
{
    let mut recipes = list_local(state);
    let ghost s = state@;
    let ghost keys = order::sorted(s.gossip.peers.dom());
    let count: usize = state.gossip.peers.len();
    proof {
        assert forall|n: Seq<char>| advertisers(keys.take(0), s.gossip.peers, n).len() == 0 by {
            reveal(Seq::filter);
        }
        assert(recipes@ =~= availability(s, keys.take(0)));
    }
    for i in 0..count
        invariant
            s == state@,
            keys == order::sorted(state.gossip.peers@.dom()),
            count == keys.len(),
            recipes@ == availability(s, keys.take(i as int)),
    {
        let host = state.gossip.peers.key_at(i);
        let info = state.gossip.peers.value_at(i);
        list_peer(&mut recipes, &info.recipes, host);
        proof {
            lemma_with_peer(s, keys.take(i as int), keys[i as int]);
            assert(keys.take(i + 1) =~= keys.take(i as int).push(keys[i as int]));
        }
    }
    assert(keys.take(keys.len() as int) =~= keys);
    TcpMessage::RecipeListAnswer { recipes }
}

// ── Laws ─────────────────────────────────────────────────────────────────────

/// What is missing for a recipe is named once each, comes from the recipe, and is nothing that the
/// cluster can do; and whatever the cluster cannot do of the recipe is named.
pub proof fn missing_actions_are_exact(state: NodeView, actions: Seq<ActionView>)
    ensures
        missing(state, actions).no_duplicates(),
        forall|n: Seq<char>| #[trigger]
            missing(state, actions).contains(n) <==> !cluster_can(state, n) && exists|i: int|
                0 <= i < actions.len() && (#[trigger] actions[i]).name == n,
    decreases actions.len(),
{
    if actions.len() > 0 {
        let rest = actions.drop_last();
        missing_actions_are_exact(state, rest);
        let front = missing(state, rest);
        let name = actions.last().name;
        let all = missing(state, actions);
        assert forall|n: Seq<char>| #[trigger] all.contains(n) <==> !cluster_can(state, n)
            && exists|i: int| 0 <= i < actions.len() && (#[trigger] actions[i]).name == n by {
            assert(front.contains(n) <==> !cluster_can(state, n) && exists|i: int|
                0 <= i < rest.len() && (#[trigger] rest[i]).name == n);
            if front.contains(n) {
                let i = choose|i: int| 0 <= i < rest.len() && (#[trigger] rest[i]).name == n;
                assert(actions[i].name == n);
                let j = choose|j: int| 0 <= j < front.len() && front[j] == n;
                assert(all[j] == n);
            }
            if !cluster_can(state, n) && exists|i: int|
                0 <= i < actions.len() && (#[trigger] actions[i]).name == n {
                let i = choose|i: int| 0 <= i < actions.len() && (#[trigger] actions[i]).name == n;
                if i < rest.len() {
                    assert(rest[i].name == n);
                } else {
                    assert(n == name);
                    if !front.contains(name) {
                        assert(all[all.len() - 1] == n);
                    }
                }
            }
            if all.contains(n) && !front.contains(n) {
                assert(n == name);
                assert(actions[actions.len() - 1].name == n);
            }
        }
    } else {
        assert(missing(state, actions).len() == 0);
    }
}

/// Missing actions are named in recipe order: what is missing for the front of a recipe comes
/// first among what is missing for the whole.
pub proof fn missing_actions_keep_order(state: NodeView, actions: Seq<ActionView>, k: int)
    requires
        0 <= k <= actions.len(),
    ensures
        missing(state, actions.take(k)).is_prefix_of(missing(state, actions)),
    decreases actions.len(),
{
    if k == actions.len() {
        assert(actions.take(k) =~= actions);
        assert(missing(state, actions).take(missing(state, actions).len() as int) =~= missing(
            state,
            actions,
        ));
    } else {
        let rest = actions.drop_last();
        missing_actions_keep_order(state, rest, k);
        assert(rest.take(k) =~= actions.take(k));
        let part = missing(state, actions.take(k));
        let front = missing(state, rest);
        let all = missing(state, actions);
        assert(all.take(part.len() as int) =~= front.take(part.len() as int));
    }
}

/// The host of a remote recipe is a peer that advertises it, and no peer with a smaller address
/// does.
pub proof fn remote_host_is_least(state: NodeView, name: Seq<char>)
    requires
        state.gossip.peers.dom().finite(),
        recipe_list(state).contains_key(name),
        recipe_list(state)[name] is Remote,
    ensures
        ({
            let host = recipe_list(state)[name]->host;
            let peers = state.gossip.peers;
            &&& peers.contains_key(host)
            &&& peers[host].recipes.contains(name)
            &&& forall|p: Seq<char>| #[trigger]
                peers.contains_key(p) && peers[p].recipes.contains(name) ==> !order::before(p, host)
        }),
{
    let peers = state.gossip.peers;
    let keys = order::sorted(peers.dom());
    let keep = |x: Seq<char>| peers[x].recipes.contains(name);
    let hosts = keys.filter(keep);
    let host = hosts[0];
    order::lemma_sorted(peers.dom());
    keys.lemma_filter_pred(keep, 0);
    assert(hosts.contains(host));
    keys.lemma_filter_contains_rev(keep, host);
    assert(keys.to_set().contains(host));
    assert forall|p: Seq<char>| #[trigger]
        peers.contains_key(p) && peers[p].recipes.contains(name) implies !order::before(p, host) by {
        assert(keys.to_set().contains(p));
        let i = choose|i: int| 0 <= i < keys.len() && keys[i] == p;
        lemma_first_kept(keys, keep, i);
        let j = choose|j: int| 0 <= j <= i && keys[j] == host;
        order::lemma_before_irreflexive(p);
        if order::before(p, host) {
            if j < i {
                assert(order::before(keys[j], keys[i]));
                order::lemma_before_transitive(p, host, p);
            }
        }
    }
}

/// What a peer announces counts at once: whoever has heard its announcement lists the announced
/// recipes, asks the peer for them, and turns to it for the announced actions.
pub proof fn announced_peers_are_asked(
    state: NodeView,
    a: AnnounceView,
    now: u64,
    recipe: Seq<char>,
    action: Seq<char>,
)
    requires
        state.gossip.peers.dom().finite(),
    ensures
        ({
            let next = NodeView { gossip: table::announced(state.gossip, a, now), ..state };
            &&& a.recipes.contains(recipe) ==> recipe_list(next).contains_key(recipe)
                && recipe_peers(next, recipe).contains(a.node_addr)
            &&& a.capabilities.contains(action) ==> cluster_can(next, action) && capable_peers(
                next,
                action,
            ).contains(a.node_addr)
        }),
{
    let next = NodeView { gossip: table::announced(state.gossip, a, now), ..state };
    let peers = next.gossip.peers;
    let keys = order::sorted(peers.dom());
    vstd::seq_lib::seq_to_set_is_finite(a.peers);
    assert(peers.dom() =~= state.gossip.peers.dom().insert(a.node_addr).union(a.peers.to_set()));
    order::lemma_sorted(peers.dom());
    assert(keys.to_set().contains(a.node_addr));
    let i = choose|i: int| 0 <= i < keys.len() && keys[i] == a.node_addr;
    if a.recipes.contains(recipe) {
        keys.lemma_filter_contains(|x: Seq<char>| peers[x].recipes.contains(recipe), i);
        assert(recipe_peers(next, recipe).contains(a.node_addr));
    }
    if a.capabilities.contains(action) {
        keys.lemma_filter_contains(
            |x: Seq<char>| next.gossip.peers[x].capabilities.contains(action),
            i,
        );
        assert(capable_peers(next, action).contains(a.node_addr));
    }
}

/// The first item that a filter keeps stands no later than any other that it keeps.
proof fn lemma_first_kept<T>(s: Seq<T>, keep: spec_fn(T) -> bool, i: int)
    requires
        0 <= i < s.len(),
        keep(s[i]),
    ensures
        s.filter(keep).len() > 0,
        exists|j: int| 0 <= j <= i && s[j] == s.filter(keep)[0],
    decreases s.len(),
{
    let front = s.drop_last();
    assert(front.push(s.last()) =~= s);
    front.lemma_filter_push(s.last(), keep);
    if i < s.len() - 1 {
        assert(front[i] == s[i]);
        lemma_first_kept(front, keep, i);
        let j = choose|j: int| 0 <= j <= i && front[j] == front.filter(keep)[0];
        assert(s[j] == s.filter(keep)[0]);
    } else if front.filter(keep).len() > 0 {
        let first = front.filter(keep)[0];
        assert(front.filter(keep).contains(first));
        front.lemma_filter_contains_rev(keep, first);
        let j = choose|j: int| 0 <= j < front.len() && front[j] == first;
        assert(s[j] == s.filter(keep)[0]);
    } else {
        assert(s[i] == s.filter(keep)[0]);
    }
}

/// What a filter keeps of the sorted addresses are the peers for which it holds, still in ascending
/// order.
proof fn lemma_kept_peers(peers: Map<Seq<char>, PeerView>, keep: spec_fn(Seq<char>) -> bool)
    requires
        peers.dom().finite(),
    ensures
        order::ascending(order::sorted(peers.dom()).filter(keep)),
        forall|p: Seq<char>| #[trigger]
            order::sorted(peers.dom()).filter(keep).contains(p) <==> peers.contains_key(p) && keep(
                p,
            ),
{
    let keys = order::sorted(peers.dom());
    let kept = keys.filter(keep);
    table::lemma_sorted_holds(peers);
    order::lemma_filter_ascending(keys, keep);
    assert forall|p: Seq<char>| #[trigger] kept.contains(p) <==> peers.contains_key(p) && keep(
        p,
    ) by {
        if kept.contains(p) {
            keys.lemma_filter_contains_rev(keep, p);
            let i = choose|i: int| 0 <= i < kept.len() && kept[i] == p;
            keys.lemma_filter_pred(keep, i);
        }
        if peers.contains_key(p) && keep(p) {
            assert(keys.contains(p));
            let i = choose|i: int| 0 <= i < keys.len() && keys[i] == p;
            keys.lemma_filter_contains(keep, i);
        }
    }
}

/// A peer is turned to for an action exactly where it is known and its announced capabilities hold
/// the action; the peers come in ascending order, each once.
pub proof fn capable_peers_are_those_that_can(state: &NodeState, action: &str, r: Vec<String>)
    requires
        state@.gossip.peers.dom().finite(),
        call_ensures(find_capable_peers, (state, action), r),
    ensures
        order::ascending(text::views(r@)),
        forall|p: Seq<char>| #[trigger]
            text::views(r@).contains(p) <==> state@.gossip.peers.contains_key(p)
                && state@.gossip.peers[p].capabilities.contains(action@),
{
    lemma_capable(state@, action@);
}

/// The peers that can execute an action, in ascending order.
pub proof fn lemma_capable(state: NodeView, action: Seq<char>)
    requires
        state.gossip.peers.dom().finite(),
    ensures
        order::ascending(capable_peers(state, action)),
        forall|p: Seq<char>| #[trigger]
            capable_peers(state, action).contains(p) <==> state.gossip.peers.contains_key(p)
                && state.gossip.peers[p].capabilities.contains(action),
{
    lemma_kept_peers(
        state.gossip.peers,
        |a: Seq<char>| state.gossip.peers[a].capabilities.contains(action),
    );
}

/// A peer is turned to for a recipe exactly where it is known and has announced the recipe; the
/// peers come in ascending order, each once.
pub proof fn recipe_peers_are_those_that_advertise(
    state: &NodeState,
    recipe: &str,
    r: Vec<String>,
)
    requires
        state@.gossip.peers.dom().finite(),
        call_ensures(find_recipe_peers, (state, recipe), r),
    ensures
        order::ascending(text::views(r@)),
        forall|p: Seq<char>| #[trigger]
            text::views(r@).contains(p) <==> state@.gossip.peers.contains_key(p)
                && state@.gossip.peers[p].recipes.contains(recipe@),
{
    lemma_advertisers(state@, recipe@);
}

/// The peers that advertise a recipe, in ascending order.
pub proof fn lemma_advertisers(state: NodeView, recipe: Seq<char>)
    requires
        state.gossip.peers.dom().finite(),
    ensures
        order::ascending(recipe_peers(state, recipe)),
        forall|p: Seq<char>| #[trigger]
            recipe_peers(state, recipe).contains(p) <==> state.gossip.peers.contains_key(p)
                && state.gossip.peers[p].recipes.contains(recipe),
{
    let peers = state.gossip.peers;
    lemma_kept_peers(peers, |a: Seq<char>| peers[a].recipes.contains(recipe));
}

/// Any list of the capable peers in ascending order is the one that is gone through.
pub proof fn lemma_capable_is(state: NodeView, action: Seq<char>, hosts: Seq<Seq<char>>)
    requires
        state.gossip.peers.dom().finite(),
        order::ascending(hosts),
        forall|p: Seq<char>| #[trigger]
            hosts.contains(p) <==> state.gossip.peers.contains_key(p)
                && state.gossip.peers[p].capabilities.contains(action),
    ensures
        capable_peers(state, action) == hosts,
{
    lemma_capable(state, action);
    let own = capable_peers(state, action);
    assert forall|p: Seq<char>| own.to_set().contains(p) <==> hosts.to_set().contains(p) by {
        assert(own.contains(p) <==> hosts.contains(p));
    }
    assert(own.to_set() =~= hosts.to_set());
    order::lemma_ascending_unique(own, hosts);
}

/// Any list of the advertising peers in ascending order is the one that is gone through.
pub proof fn lemma_advertisers_are(state: NodeView, recipe: Seq<char>, hosts: Seq<Seq<char>>)
    requires
        state.gossip.peers.dom().finite(),
        order::ascending(hosts),
        forall|p: Seq<char>| #[trigger]
            hosts.contains(p) <==> state.gossip.peers.contains_key(p)
                && state.gossip.peers[p].recipes.contains(recipe),
    ensures
        recipe_peers(state, recipe) == hosts,
{
    lemma_advertisers(state, recipe);
    let own = recipe_peers(state, recipe);
    assert forall|p: Seq<char>| own.to_set().contains(p) <==> hosts.to_set().contains(p) by {
        assert(own.contains(p) <==> hosts.contains(p));
    }
    assert(own.to_set() =~= hosts.to_set());
    order::lemma_ascending_unique(own, hosts);
}

/// The first recipe of a name is found, and none where there is none.
pub proof fn the_first_recipe_of_a_name_is_found(
    recipes: &Vec<Recipe>,
    name: &str,
    r: Option<&Recipe>,
)
    requires
        call_ensures(find_recipe, (recipes, name), r),
    ensures
        match r {
            Some(recipe) => exists|i: int|
                {
                    &&& 0 <= i < recipes@.len()
                    &&& #[trigger] recipes@[i]@ == recipe@
                    &&& recipe@.name == name@
                    &&& forall|j: int| 0 <= j < i ==> (#[trigger] recipes@[j])@.name != name@
                },
            None => forall|j: int| 0 <= j < recipes@.len() ==> (#[trigger] recipes@[j])@.name
                != name@,
        },
{
    let names = table::recipe_names(text::views(recipes@));
    names.index_of_first_ensures(name@);
    match r {
        Some(recipe) => {
            let i = names.index_of_first(name@)->0;
            assert(names[i] == name@);
            assert(recipes@[i]@ == recipe@);
            assert forall|j: int| 0 <= j < i implies (#[trigger] recipes@[j])@.name != name@ by {
                assert(names[j] == recipes@[j]@.name);
            }
        },
        None => {
            assert forall|j: int| 0 <= j < recipes@.len() implies (#[trigger] recipes@[j])@.name
                != name@ by {
                assert(names.contains(names[j]));
            }
        },
    }
}

/// Neither the node nor any peer that it knows can execute an action.
pub open spec fn nobody_can(state: NodeView, action: Seq<char>) -> bool {
    &&& !state.identity.capabilities.contains(action)
    &&& forall|p: Seq<char>| #[trigger]
        state.gossip.peers.contains_key(p) ==> !state.gossip.peers[p].capabilities.contains(action)
}

/// `m` names exactly those of the actions that nobody can execute, each once, in the order in which
/// they first come up.
pub open spec fn is_exactly_missing(
    state: NodeView,
    actions: Seq<ActionView>,
    m: Seq<Seq<char>>,
) -> bool {
    &&& m.no_duplicates()
    &&& forall|n: Seq<char>| #[trigger]
        m.contains(n) <==> nobody_can(state, n) && exists|i: int|
            0 <= i < actions.len() && (#[trigger] actions[i]).name == n
    &&& forall|i: int, j: int|
        0 <= i < j < m.len() ==> comes_up_before(actions, #[trigger] m[i], #[trigger] m[j])
}

/// Among the actions there is one of name `a` before any of name `b`.
pub open spec fn comes_up_before(actions: Seq<ActionView>, a: Seq<char>, b: Seq<char>) -> bool {
    exists|k: int|
        {
            &&& 0 <= k < actions.len()
            &&& (#[trigger] actions[k]).name == a
            &&& forall|l: int| 0 <= l <= k ==> (#[trigger] actions[l]).name != b
        }
}

proof fn lemma_cluster_can(state: NodeView, action: Seq<char>)
    requires
        state.gossip.peers.dom().finite(),
    ensures
        cluster_can(state, action) == !nobody_can(state, action),
{
    lemma_capable(state, action);
    let hosts = capable_peers(state, action);
    if hosts.len() > 0 {
        assert(hosts.contains(hosts[0]));
    }
    if !nobody_can(state, action) && !state.identity.capabilities.contains(action) {
        let p = choose|p: Seq<char>| #[trigger]
            state.gossip.peers.contains_key(p) && state.gossip.peers[p].capabilities.contains(
                action,
            );
        assert(hosts.contains(p));
    }
}

proof fn lemma_missing_order(state: NodeView, actions: Seq<ActionView>)
    ensures
        forall|i: int, j: int|
            0 <= i < j < missing(state, actions).len() ==> comes_up_before(
                actions,
                #[trigger] missing(state, actions)[i],
                #[trigger] missing(state, actions)[j],
            ),
    decreases actions.len(),
{
    if actions.len() > 0 {
        let rest = actions.drop_last();
        lemma_missing_order(state, rest);
        missing_actions_are_exact(state, rest);
        let front = missing(state, rest);
        let all = missing(state, actions);
        assert forall|i: int, j: int| 0 <= i < j < all.len() implies comes_up_before(
            actions,
            #[trigger] all[i],
            #[trigger] all[j],
        ) by {
            if j < front.len() {
                assert(comes_up_before(rest, front[i], front[j]));
                let k = choose|k: int|
                    {
                        &&& 0 <= k < rest.len()
                        &&& (#[trigger] rest[k]).name == front[i]
                        &&& forall|l: int| 0 <= l <= k ==> (#[trigger] rest[l]).name != front[j]
                    };
                assert(actions[k].name == all[i]);
                assert forall|l: int| 0 <= l <= k implies (#[trigger] actions[l]).name != all[j] by {
                    assert(rest[l].name != front[j]);
                }
            } else {
                assert(front.contains(front[i]));
                let k = choose|k: int| 0 <= k < rest.len() && (#[trigger] rest[k]).name == front[i];
                assert(actions[k].name == all[i]);
                assert forall|l: int| 0 <= l <= k implies (#[trigger] actions[l]).name != all[j] by {
                    assert(rest[l].name == actions[l].name);
                }
            }
        }
    }
}

proof fn lemma_exactly_missing(state: NodeView, actions: Seq<ActionView>)
    requires
        state.gossip.peers.dom().finite(),
    ensures
        is_exactly_missing(state, actions, missing(state, actions)),
{
    let m = missing(state, actions);
    missing_actions_are_exact(state, actions);
    lemma_missing_order(state, actions);
    assert forall|n: Seq<char>| #[trigger] m.contains(n) <==> nobody_can(state, n) && exists|i: int|
        0 <= i < actions.len() && (#[trigger] actions[i]).name == n by {
        lemma_cluster_can(state, n);
    }
}

/// What is missing for a recipe are exactly those of its actions that neither the node nor a peer
/// has among its capabilities.
pub proof fn missing_is_what_nobody_can(state: &NodeState, recipe: &Recipe, r: Vec<String>)
    requires
        state@.gossip.peers.dom().finite(),
        call_ensures(find_missing, (state, recipe), r),
    ensures
        is_exactly_missing(state@, parser::flattened(recipe@.steps), text::views(r@)),
{
    lemma_exactly_missing(state@, parser::flattened(recipe@.steps));
}

/// The list of recipes holds every own recipe and every recipe that a known peer has announced,
/// and no other. An own recipe is listed as local, with exactly what nobody can do of it; any other
/// with the least address of those that have announced it.
pub proof fn all_known_recipes_are_listed(state: &NodeState, r: TcpMessage)
    requires
        state@.gossip.peers.dom().finite(),
        call_ensures(handle_list_recipes, (state,), r),
    ensures
        r@ matches TcpView::RecipeListAnswer { recipes } && is_full_list(state@, recipes),
{
    lemma_full_list(state@);
}

/// `list` is the list of all recipes that a node knows.
pub open spec fn is_full_list(state: NodeView, list: Map<Seq<char>, AvailabilityView>) -> bool {
    let own = state.identity.recipes;
    let peers = state.gossip.peers;
    &&& forall|n: Seq<char>| #[trigger]
        list.contains_key(n) <==> is_own(own, n) || is_advertised(peers, n)
    &&& forall|i: int|
        0 <= i < own.len() && (forall|j: int|
            i < j < own.len() ==> own[j].name != (#[trigger] own[i]).name) ==> {
            &&& list[(#[trigger] own[i]).name] matches AvailabilityView::Local { missing_actions }
                && is_exactly_missing(state, parser::flattened(own[i].steps), missing_actions)
        }
    &&& forall|n: Seq<char>| #[trigger]
        list.contains_key(n) && !is_own(own, n) ==> {
            &&& list[n] matches AvailabilityView::Remote { host } && is_least_host(peers, n, host)
        }
}

/// Some recipe has that name.
pub open spec fn is_own(recipes: Seq<RecipeView>, name: Seq<char>) -> bool {
    exists|i: int| 0 <= i < recipes.len() && (#[trigger] recipes[i]).name == name
}

/// Some known peer has announced the recipe.
pub open spec fn is_advertised(peers: Map<Seq<char>, PeerView>, name: Seq<char>) -> bool {
    exists|p: Seq<char>| #[trigger] peers.contains_key(p) && peers[p].recipes.contains(name)
}

/// `host` has announced the recipe, and no peer with a smaller address has.
pub open spec fn is_least_host(
    peers: Map<Seq<char>, PeerView>,
    name: Seq<char>,
    host: Seq<char>,
) -> bool {
    &&& peers.contains_key(host)
    &&& peers[host].recipes.contains(name)
    &&& forall|p: Seq<char>| #[trigger]
        peers.contains_key(p) && peers[p].recipes.contains(name) ==> !order::before(p, host)
}

/// A node has a recipe where one of its recipes has that name.
pub proof fn lemma_is_own(state: NodeView, name: Seq<char>)
    ensures
        has_recipe(state, name) == is_own(state.identity.recipes, name),
{
    let own = state.identity.recipes;
    let names = table::recipe_names(own);
    if names.contains(name) {
        let i = choose|i: int| 0 <= i < names.len() && names[i] == name;
        assert(own[i].name == name);
    }
    if is_own(own, name) {
        let i = choose|i: int| 0 <= i < own.len() && (#[trigger] own[i]).name == name;
        assert(names[i] == name);
    }
}

/// Some peer advertises a recipe where one has announced it.
pub proof fn lemma_is_advertised(state: NodeView, name: Seq<char>)
    requires
        state.gossip.peers.dom().finite(),
    ensures
        (recipe_peers(state, name).len() > 0) == is_advertised(state.gossip.peers, name),
{
    let peers = state.gossip.peers;
    let hosts = recipe_peers(state, name);
    lemma_advertisers(state, name);
    if hosts.len() > 0 {
        assert(hosts.contains(hosts[0]));
    }
    if is_advertised(peers, name) {
        let p = choose|p: Seq<char>| #[trigger]
            peers.contains_key(p) && peers[p].recipes.contains(name);
        assert(hosts.contains(p));
    }
}

/// The list of recipes is full.
pub proof fn lemma_full_list(state: NodeView)
    requires
        state.gossip.peers.dom().finite(),
    ensures
        is_full_list(state, recipe_list(state)),
{
    let own = state.identity.recipes;
    let names = table::recipe_names(own);
    let peers = state.gossip.peers;
    let list = recipe_list(state);
    assert forall|n: Seq<char>| #[trigger] list.contains_key(n) <==> is_own(own, n)
        || is_advertised(peers, n) by {
        lemma_is_own(state, n);
        lemma_is_advertised(state, n);
    }
    assert forall|i: int|
        0 <= i < own.len() && (forall|j: int|
            i < j < own.len() ==> own[j].name != (#[trigger] own[i]).name) implies {
        &&& list[(#[trigger] own[i]).name] matches AvailabilityView::Local { missing_actions }
            && is_exactly_missing(state, parser::flattened(own[i].steps), missing_actions)
    } by {
        let n = own[i].name;
        assert(names[i] == n);
        assert(has_recipe(state, n));
        names.index_of_last_ensures(n);
        let k = names.index_of_last(n)->0;
        assert(names[k] == own[k].name);
        assert(k == i);
        lemma_exactly_missing(state, parser::flattened(own[i].steps));
    }
    assert forall|n: Seq<char>| #[trigger] list.contains_key(n) && !is_own(own, n) implies {
        &&& list[n] matches AvailabilityView::Remote { host } && is_least_host(peers, n, host)
    } by {
        lemma_is_own(state, n);
        remote_host_is_least(state, n);
    }
}

} // verus!
