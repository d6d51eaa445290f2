//! Handing out recipes, one's own and those of peers.
use crate::network::udp::table;
use crate::node::NodeState;
use crate::node::NodeView;
use crate::order;
use crate::protocol::TcpMessage;
use crate::protocol::TcpView;
use crate::recipe::RecipeView;
use crate::server::handlers::listing;
use crate::server::handlers::listing::find_recipe;
use crate::server::handlers::listing::find_recipe_peers;
use crate::server::handlers::task;
use crate::server::handlers::task::error3;
use crate::server::handlers::task::Event;
use crate::server::handlers::task::EventView;
use crate::server::handlers::task::Task;
use crate::server::handlers::task::TaskView;
use crate::text;
use vstd::prelude::*;

verus! {

/// A search for a recipe among peers.
#[derive(Debug, PartialEq, Eq)]
pub struct Search {
    /// The recipe that is looked for.
    pub recipe_name: String,
    /// The peers that may have it.
    pub peers: Vec<String>,
    /// How many of them have been asked and have not responded.
    pub tried: usize,
}

/// What a [`Search`] holds: the recipe and the peers that have not failed yet, the one being asked
/// first.
#[verifier::ext_equal]
pub struct SearchView {
    pub recipe_name: Seq<char>,
    pub peers: Seq<Seq<char>>,
}

impl Search {
    /// No more peers were tried than there are.
    pub open spec fn wf(self) -> bool {
        self.tried <= self.peers@.len()
    }
}

impl View for Search {
    type V = SearchView;

    open spec fn view(&self) -> SearchView {
        SearchView {
            recipe_name: self.recipe_name@,
            peers: text::views(self.peers@).skip(self.tried as int),
        }
    }
}

/// The answer where no peer responds.
pub open spec fn not_found(recipe_name: Seq<char>) -> TcpView {
    task::error(
        "recipe '"@ + recipe_name + "' not found locally and no peer advertised it"@,
    )
}

/// What a search does next: it asks the first peer, or gives up where there is none.
pub open spec fn search_task(search: SearchView) -> TaskView {
    if search.peers.len() == 0 {
        TaskView::Answer(not_found(search.recipe_name))
    } else {
        TaskView::Ask {
            peer: search.peers[0],
            message: TcpView::GetRecipe { recipe_name: search.recipe_name },
        }
    }
}

/// The search after the peer that was asked did not respond.
pub open spec fn search_rest(search: SearchView) -> SearchView {
    SearchView { peers: search.peers.drop_first(), ..search }
}

/// What a search does after an event: the response of a peer is the answer; without one the next
/// peer is asked.
pub open spec fn search_resumed(search: SearchView, event: EventView) -> TaskView {
    match event {
        EventView::Answered { message, shown } => TaskView::Answer(message),
        _ => search_task(search_rest(search)),
    }
}

impl Search {
    /// What is to be done for the search now.
    pub fn task(&self) -> (r: Task)
        requires
            self.wf(),
        ensures
            r@ == search_task(self@),
    {
        if self.tried == self.peers.len() {
            return Task::Answer(
                error3(
                    "recipe '",
                    self.recipe_name.as_str(),
                    "' not found locally and no peer advertised it",
                ),
            );
        }
        assert(self@.peers[0] == self.peers@[self.tried as int]@);
        Task::Ask {
            peer: self.peers[self.tried].clone(),
            message: TcpMessage::GetRecipe { recipe_name: self.recipe_name.clone() },
        }
    }

    /// Goes on to the next peer.
    pub fn skip_peer(&mut self)
        requires
            old(self).wf(),
            old(self)@.peers.len() > 0,
        ensures
            final(self).wf(),
            final(self)@ == search_rest(old(self)@),
    {
        let ghost before = self@.peers;
        assert(self.tried < self.peers.len());
        self.tried = self.tried + 1;
        assert(self@.peers =~= before.drop_first());
    }

    /// What is to be done for the search after an event.
    pub fn resume(&mut self, event: Event) -> (r: Task)
        requires
            old(self).wf(),
            task::fits(search_task(old(self)@), event@),
        ensures
            final(self).wf(),
            r@ == search_resumed(old(self)@, event@),
            final(self)@ == (if event is Answered {
                old(self)@
            } else {
                search_rest(old(self)@)
            }),
    {
        match event {
            Event::Answered { message, shown: _ } => Task::Answer(message),
            _ => {
                self.skip_peer();
                self.task()
            },
        }
    }
}

/// Begins to look for a recipe among the peers that advertise it.
pub fn search_recipe(state: &NodeState, recipe_name: &str) -> (r: Search)
    ensures
        r.wf(),
        r@ == (SearchView {
            recipe_name: recipe_name@,
            peers: listing::recipe_peers(state@, recipe_name@),
        }),
{
    let peers = find_recipe_peers(state, recipe_name);
    assert(text::views(peers@).skip(0) =~= text::views(peers@));
    Search { recipe_name: recipe_name.to_string(), peers, tried: 0 }
}

/// The source of the first own recipe of that name.
pub open spec fn own_source(state: NodeView, recipe_name: Seq<char>) -> Seq<char> {
    let i = table::recipe_names(state.identity.recipes).index_of_first(recipe_name)->0;
    state.identity.recipes[i].source
}

/// Returns the canonical text of a named recipe.
///
/// Used by a peer that does not hold the recipe file itself. An own recipe is answered at once.
/// Otherwise the peers that advertise it are asked in turn, and the first response is the answer.
pub fn handle_get_recipe(state: &NodeState, recipe_name: &str) -> (r: (Search, Task))
    ensures
        r.0.wf(),
        r.0@ == (SearchView {
            recipe_name: recipe_name@,
            peers: listing::recipe_peers(state@, recipe_name@),
        }),
        r.1@ == (if listing::has_recipe(state@, recipe_name@) {
            TaskView::Answer(
                TcpView::RecipeAnswer { recipe: own_source(state@, recipe_name@) },
            )
        } else {
            search_task(r.0@)
        }),
{
    let search = search_recipe(state, recipe_name);
    match find_recipe(&state.identity.recipes, recipe_name) {
        Some(recipe) => {
            let task = Task::Answer(TcpMessage::RecipeAnswer { recipe: recipe.source.clone() });
            (search, task)
        },
        None => {
            let task = search.task();
            (search, task)
        },
    }
}

// ── Laws ─────────────────────────────────────────────────────────────────────

/// How a search ends if each peer either responds with a given message or fails: with the response
/// of the first peer that does, or with an error.
pub open spec fn search_outcome(
    search: SearchView,
    responses: Map<Seq<char>, TcpView>,
) -> TcpView
    decreases search.peers.len(),
{
    if search.peers.len() == 0 {
        not_found(search.recipe_name)
    } else if responses.contains_key(search.peers[0]) {
        responses[search.peers[0]]
    } else {
        search_outcome(search_rest(search), responses)
    }
}

/// The answer of a search is the response of the first peer that responds.
pub proof fn first_response_is_the_answer(
    search: SearchView,
    responses: Map<Seq<char>, TcpView>,
    k: int,
)
    requires
        0 <= k < search.peers.len(),
        responses.contains_key(search.peers[k]),
        forall|i: int| 0 <= i < k ==> !responses.contains_key(#[trigger] search.peers[i]),
    ensures
        search_outcome(search, responses) == responses[search.peers[k]],
    decreases k,
{
    if k > 0 {
        assert(!responses.contains_key(search.peers[0]));
        let rest = search_rest(search);
        assert(rest.peers[k - 1] == search.peers[k]);
        assert forall|i: int| 0 <= i < k - 1 implies !responses.contains_key(
            #[trigger] rest.peers[i],
        ) by {
            assert(rest.peers[i] == search.peers[i + 1]);
        }
        first_response_is_the_answer(rest, responses, k - 1);
    }
}

/// A search of peers of which none responds ends in an error that names the recipe.
pub proof fn search_without_response_fails(search: SearchView, responses: Map<Seq<char>, TcpView>)
    requires
        forall|i: int|
            0 <= i < search.peers.len() ==> !responses.contains_key(#[trigger] search.peers[i]),
    ensures
        search_outcome(search, responses) == not_found(search.recipe_name),
    decreases search.peers.len(),
{
    if search.peers.len() > 0 {
        assert(!responses.contains_key(search.peers[0]));
        let rest = search_rest(search);
        assert forall|i: int| 0 <= i < rest.peers.len() implies !responses.contains_key(
            #[trigger] rest.peers[i],
        ) by {
            assert(rest.peers[i] == search.peers[i + 1]);
        }
        search_without_response_fails(rest, responses);
    }
}

/// Each step of a search leads to the outcome: an answer is the outcome, and after an event that
/// agrees with the responses the rest of the search has the same outcome.
pub proof fn search_steps_lead_to_the_outcome(
    search: SearchView,
    responses: Map<Seq<char>, TcpView>,
    event: EventView,
)
    requires
        search.peers.len() > 0 ==> match event {
            EventView::Answered { message, shown } => responses.contains_key(search.peers[0])
                && responses[search.peers[0]] == message,
            _ => !responses.contains_key(search.peers[0]),
        },
    ensures
        search.peers.len() == 0 ==> search_task(search) == TaskView::Answer(
            search_outcome(search, responses),
        ),
        search.peers.len() > 0 ==> match event {
            EventView::Answered { message, shown } => search_resumed(search, event)
                == TaskView::Answer(search_outcome(search, responses)),
            _ => {
                &&& search_outcome(search_rest(search), responses) == search_outcome(
                    search,
                    responses,
                )
                &&& search_resumed(search, event) == search_task(search_rest(search))
            },
        },
{
}

/// `hosts` are the peers that have announced a recipe, in ascending order.
pub open spec fn is_advertiser_list(
    state: NodeView,
    recipe: Seq<char>,
    hosts: Seq<Seq<char>>,
) -> bool {
    &&& order::ascending(hosts)
    &&& forall|p: Seq<char>| #[trigger]
        hosts.contains(p) <==> state.gossip.peers.contains_key(p)
            && state.gossip.peers[p].recipes.contains(recipe)
}

/// `i` is the place of the first recipe of that name.
pub open spec fn is_first(recipes: Seq<RecipeView>, name: Seq<char>, i: int) -> bool {
    &&& 0 <= i < recipes.len()
    &&& recipes[i].name == name
    &&& forall|j: int| 0 <= j < i ==> (#[trigger] recipes[j]).name != name
}

/// `task` asks the first of `hosts` for a recipe; without one it answers that the recipe was not
/// found.
pub open spec fn asks_for(recipe: Seq<char>, hosts: Seq<Seq<char>>, task: TaskView) -> bool {
    task == (if hosts.len() > 0 {
        TaskView::Ask { peer: hosts[0], message: TcpView::GetRecipe { recipe_name: recipe } }
    } else {
        TaskView::Answer(
            TcpView::Error {
                message: "recipe '"@ + recipe + "' not found locally and no peer advertised it"@,
            },
        )
    })
}

/// The first own recipe of a name is where the search in the own recipes ends.
pub proof fn lemma_first(recipes: Seq<RecipeView>, name: Seq<char>, i: int)
    requires
        is_first(recipes, name, i),
    ensures
        table::recipe_names(recipes).contains(name),
        table::recipe_names(recipes).index_of_first(name) == Some(i),
{
    let names = table::recipe_names(recipes);
    assert(names[i] == name);
    names.index_of_first_ensures(name);
    let k = names.index_of_first(name)->0;
    assert(names[k] == recipes[k].name);
    if k < i {
        assert(recipes[k].name != name);
    }
}

/// An own recipe is handed out as it is, the first one of its name. For any other recipe the peers
/// that have announced it are asked, the one with the least address first.
pub proof fn own_recipes_are_handed_out(
    state: &NodeState,
    recipe_name: &str,
    hosts: Seq<Seq<char>>,
    r: (Search, Task),
)
    requires
        state@.gossip.peers.dom().finite(),
        is_advertiser_list(state@, recipe_name@, hosts),
        call_ensures(handle_get_recipe, (state, recipe_name), r),
    ensures
        r.0@ == (SearchView { recipe_name: recipe_name@, peers: hosts }),
        forall|i: int| #[trigger]
            is_first(state@.identity.recipes, recipe_name@, i) ==> r.1@ == TaskView::Answer(
                TcpView::RecipeAnswer { recipe: state@.identity.recipes[i].source },
            ),
        !listing::is_own(state@.identity.recipes, recipe_name@) ==> asks_for(
            recipe_name@,
            hosts,
            r.1@,
        ),
{
    listing::lemma_advertisers_are(state@, recipe_name@, hosts);
    listing::lemma_is_own(state@, recipe_name@);
    assert forall|i: int| #[trigger]
        is_first(state@.identity.recipes, recipe_name@, i) implies r.1@ == TaskView::Answer(
        TcpView::RecipeAnswer { recipe: state@.identity.recipes[i].source },
    ) by {
        lemma_first(state@.identity.recipes, recipe_name@, i);
    }
}

/// The response of the peer that was asked is the answer, whatever it says; after a peer that fails
/// the next one is asked, until there is none.
pub proof fn advertisers_are_asked_in_turn(search: &mut Search, event: Event, r: Task)
    requires
        old(search)@.peers.len() > 0,
        call_ensures(Search::resume, (search, event), r),
    ensures
        event@ matches EventView::Answered { message, shown } ==> r@ == TaskView::Answer(message),
        event@ is Failed ==> {
            &&& final(search)@.recipe_name == old(search)@.recipe_name
            &&& final(search)@.peers == old(search)@.peers.skip(1)
            &&& asks_for(old(search)@.recipe_name, old(search)@.peers.skip(1), r@)
        },
{
    assert(old(search)@.peers.drop_first() =~= old(search)@.peers.skip(1));
}

/// What becomes of a search while one peer after the other fails, each for its own reason.
pub open spec fn search_after(search: SearchView, whys: Seq<Seq<char>>) -> (SearchView, TaskView)
    decreases whys.len(),
{
    if whys.len() == 0 {
        (search, search_task(search))
    } else {
        let before = search_after(search, whys.drop_last()).0;
        (search_rest(before), search_resumed(before, EventView::Failed(whys.last())))
    }
}

/// Every peer that is to be asked gets its turn: after as many failures as there are peers before
/// one, that one is asked; only after the failure of all of them the recipe counts as not found.
pub proof fn every_advertiser_gets_its_turn(search: SearchView, whys: Seq<Seq<char>>)
    requires
        whys.len() <= search.peers.len(),
    ensures
        search_after(search, whys).0.recipe_name == search.recipe_name,
        search_after(search, whys).0.peers == search.peers.skip(whys.len() as int),
        asks_for(
            search.recipe_name,
            search.peers.skip(whys.len() as int),
            search_after(search, whys).1,
        ),
    decreases whys.len(),
{
    if whys.len() == 0 {
        assert(search.peers.skip(0) =~= search.peers);
    } else {
        every_advertiser_gets_its_turn(search, whys.drop_last());
        assert(search.peers.skip(whys.len() - 1).drop_first() =~= search.peers.skip(
            whys.len() as int,
        ));
    }
}

/// A search starts with all peers that have announced the recipe.
pub proof fn searches_start_with_all_advertisers(state: &NodeState, recipe_name: &str, r: Search)
    requires
        state@.gossip.peers.dom().finite(),
        call_ensures(search_recipe, (state, recipe_name), r),
    ensures
        r@.recipe_name == recipe_name@,
        is_advertiser_list(state@, recipe_name@, r@.peers),
{
    listing::lemma_advertisers(state@, recipe_name@);
}

/// A search asks its first peer for its recipe, and gives up where none is left.
pub proof fn searches_ask_their_first_peer(search: &Search, r: Task)
    requires
        call_ensures(Search::task, (search,), r),
    ensures
        asks_for(search@.recipe_name, search@.peers, r@),
{
}

/// Going on leaves out the first peer and no other.
pub proof fn searches_go_on_peer_by_peer(search: &mut Search)
    requires
        old(search)@.peers.len() > 0,
        call_ensures(Search::skip_peer, (search,), ()),
    ensures
        old(search)@.peers == seq![old(search)@.peers[0]] + final(search)@.peers,
        final(search)@.recipe_name == old(search)@.recipe_name,
{
    let all = old(search)@.peers;
    assert(all =~= seq![all[0]] + all.drop_first());
}

} // verus!
