//! Listing, handing out, ordering, executing and delivering.
use pizza_factory::network::udp::gossip::handle_udp_message_shared;
use pizza_factory::node::GossipState;
use pizza_factory::node::Identity;
use pizza_factory::node::NodeState;
use pizza_factory::node::PeerInfo;
use pizza_factory::protocol::addr;
use pizza_factory::protocol::uuid;
use pizza_factory::protocol::ActionDef;
use pizza_factory::protocol::Announce;
use pizza_factory::protocol::OrderResult;
use pizza_factory::protocol::ProcessPayload;
use pizza_factory::protocol::RecipeAvailability;
use pizza_factory::protocol::Required;
use pizza_factory::protocol::TcpMessage;
use pizza_factory::protocol::UdpMessage;
use pizza_factory::protocol::Update;
use pizza_factory::protocol::Version;
use pizza_factory::recipe::Recipe;
use pizza_factory::recipe::Step;
use pizza_factory::server::handlers::apply_action;
use pizza_factory::server::handlers::deliver::build_result;
use pizza_factory::server::handlers::deliver::open_delivery;
use pizza_factory::server::handlers::deliver::open_delivery_at;
use pizza_factory::server::handlers::deliver::Delivery;
use pizza_factory::server::handlers::handle_deliver;
use pizza_factory::server::handlers::handle_get_recipe;
use pizza_factory::server::handlers::handle_list_recipes;
use pizza_factory::server::handlers::handle_order;
use pizza_factory::server::handlers::handle_process_payload;
use pizza_factory::server::handlers::order::plan_order;
use pizza_factory::server::handlers::order::start_order;
use pizza_factory::server::handlers::order::OrderJob;
use pizza_factory::server::handlers::process::ProcessJob;
use pizza_factory::server::handlers::task::Event;
use pizza_factory::server::handlers::task::Task;
use pizza_factory::server::handlers::KNOWN_ACTIONS;
use pizza_factory::server::tcp::dispatch;
use pizza_factory::server::tcp::Job;
use pizza_factory::server::tcp::Request;
use pizza_factory::string_map::StringMap;

fn action(name: &str) -> ActionDef {
    ActionDef { name: name.to_string(), params: StringMap::new() }
}

fn action_with(name: &str, key: &str, value: &str) -> ActionDef {
    let mut params = StringMap::new();
    params.insert(key.to_string(), value.to_string());
    ActionDef { name: name.to_string(), params }
}

fn build_state(capabilities: Vec<&str>, recipes: Vec<&str>) -> NodeState {
    let local_recipes = recipes
        .into_iter()
        .map(|name| Recipe {
            name: name.to_string(),
            steps: vec![Step::Single(action("MakeDough"))],
            source: format!("{name} = MakeDough"),
        })
        .collect();
    NodeState {
        identity: Identity {
            addr: "127.0.0.1:8000".to_string(),
            capabilities: capabilities.into_iter().map(str::to_string).collect(),
            recipes: local_recipes,
        },
        gossip: GossipState {
            peers: StringMap::new(),
            version: Version { counter: 1, generation: 1 },
        },
        pending_orders: StringMap::new(),
    }
}

fn add_peer(state: &mut NodeState, addr: &str, capabilities: Vec<&str>, recipes: Vec<&str>) {
    state.gossip.peers.insert(
        addr.to_string(),
        PeerInfo {
            capabilities: capabilities.into_iter().map(str::to_string).collect(),
            recipes: recipes.into_iter().map(str::to_string).collect(),
            version: Version { counter: 1, generation: 1 },
            last_seen_us: 1,
            rtt_us: None,
        },
    );
}

fn payload_of(order_id: u128, host: &str, actions: Vec<ActionDef>) -> ProcessPayload {
    ProcessPayload {
        order_id: uuid(order_id),
        order_timestamp: 1,
        delivery_host: addr(host),
        action_index: 0,
        action_sequence: actions,
        content: String::new(),
        updates: vec![],
    }
}

fn local_missing(response: TcpMessage, recipe: &str) -> Vec<String> {
    match response {
        TcpMessage::RecipeListAnswer { recipes } => match recipes.get(recipe) {
            Some(RecipeAvailability::Local { local }) => local.missing_actions.clone(),
            other => panic!("expected local availability, got {other:?}"),
        },
        other => panic!("expected RecipeListAnswer, got {other:?}"),
    }
}

fn remote_host(response: TcpMessage, recipe: &str) -> String {
    match response {
        TcpMessage::RecipeListAnswer { recipes } => match recipes.get(recipe) {
            Some(RecipeAvailability::Remote { remote }) => remote.host.0.clone(),
            other => panic!("expected remote availability, got {other:?}"),
        },
        other => panic!("expected RecipeListAnswer, got {other:?}"),
    }
}

// ── Listing ──────────────────────────────────────────────────────────────────

#[test]
fn handle_list_recipes_returns_local_entries_when_local_recipes_exist() {
    let state = build_state(vec!["MakeDough"], vec!["Margherita"]);
    assert!(
        local_missing(handle_list_recipes(&state), "Margherita").is_empty(),
        "expected local recipe to be complete"
    );
}

#[test]
fn handle_list_recipes_local_missing_actions_account_for_peer_capabilities() {
    let mut state = build_state(vec!["MakeDough"], vec![]);
    state.identity.recipes = vec![Recipe {
        name: "Margherita".to_string(),
        steps: vec![
            Step::Single(action("MakeDough")),
            Step::Single(action("AddBase")),
            Step::Single(action("Bake")),
        ],
        source: "Margherita = MakeDough -> AddBase -> Bake".to_string(),
    }];
    add_peer(&mut state, "127.0.0.1:8002", vec!["AddBase"], vec![]);
    assert_eq!(
        local_missing(handle_list_recipes(&state), "Margherita"),
        vec!["Bake".to_string()]
    );
}

#[test]
fn handle_list_recipes_returns_remote_host_when_recipe_is_remote_only() {
    let mut state = build_state(vec![], vec![]);
    add_peer(&mut state, "127.0.0.1:8000", vec!["MakeDough"], vec!["Margherita"]);
    assert_eq!(remote_host(handle_list_recipes(&state), "Margherita"), "127.0.0.1:8000");
}

#[test]
fn handle_list_recipes_remote_host_is_deterministic_across_multiple_peers() {
    let mut state = build_state(vec![], vec![]);
    add_peer(&mut state, "127.0.0.1:8002", vec!["MakeDough"], vec!["Margherita"]);
    add_peer(&mut state, "127.0.0.1:8000", vec!["Bake"], vec!["Margherita"]);
    assert_eq!(remote_host(handle_list_recipes(&state), "Margherita"), "127.0.0.1:8000");
}

#[test]
fn missing_actions_are_named_once_and_in_recipe_order() {
    let mut state = build_state(vec!["MakeDough"], vec![]);
    state.identity.recipes = vec![Recipe {
        name: "R".to_string(),
        steps: vec![
            Step::Repeated(action("Bake"), 3),
            Step::Single(action("MakeDough")),
            Step::Parallel(vec![action("AddHam"), action("Bake")]),
            Step::Single(action("AddBase")),
        ],
        source: String::new(),
    }];
    assert_eq!(
        local_missing(handle_list_recipes(&state), "R"),
        vec!["Bake", "AddHam", "AddBase"]
    );
}

#[test]
fn own_recipes_win_over_those_of_peers() {
    let mut state = build_state(vec![], vec!["Margherita"]);
    add_peer(&mut state, "a", vec!["MakeDough"], vec!["Margherita", "Funghi"]);
    let listed = handle_list_recipes(&state);
    assert!(local_missing(listed, "Margherita").is_empty());
    assert_eq!(remote_host(handle_list_recipes(&state), "Funghi"), "a");
}

#[test]
fn announced_recipes_and_actions_count_at_once() {
    let mut state = build_state(vec![], vec!["Margherita"]);
    assert_eq!(local_missing(handle_list_recipes(&state), "Margherita"), vec!["MakeDough"]);
    let announce = UdpMessage::Announce(Announce {
        node_addr: addr("peer"),
        capabilities: vec!["MakeDough".to_string()],
        recipes: vec!["Funghi".to_string()],
        peers: vec![],
        version: Version { counter: 1, generation: 1 },
    });
    handle_udp_message_shared(&mut state, "peer", &announce);
    assert!(local_missing(handle_list_recipes(&state), "Margherita").is_empty());
    assert_eq!(remote_host(handle_list_recipes(&state), "Funghi"), "peer");
    let (_, task) = handle_get_recipe(&state, "Funghi");
    assert!(matches!(task, Task::Ask { ref peer, .. } if peer == "peer"));
    let payload = payload_of(0, "home", vec![action("MakeDough")]);
    let (_, task) = handle_process_payload(&state, "R", payload);
    assert!(matches!(task, Task::Ask { ref peer, .. } if peer == "peer"));
}

// ── Handing out ──────────────────────────────────────────────────────────────

#[test]
fn own_recipes_are_handed_out_at_once() {
    let state = build_state(vec![], vec!["Margherita"]);
    let (_, task) = handle_get_recipe(&state, "Margherita");
    assert_eq!(
        task,
        Task::Answer(TcpMessage::RecipeAnswer { recipe: "Margherita = MakeDough".to_string() })
    );
}

#[test]
fn peers_are_asked_in_turn_for_a_recipe() {
    let mut state = build_state(vec![], vec![]);
    add_peer(&mut state, "b", vec![], vec!["Funghi"]);
    add_peer(&mut state, "c", vec![], vec![]);
    add_peer(&mut state, "a", vec![], vec!["Funghi"]);
    let ask = |peer: &str| Task::Ask {
        peer: peer.to_string(),
        message: TcpMessage::GetRecipe { recipe_name: "Funghi".to_string() },
    };
    let (mut search, task) = handle_get_recipe(&state, "Funghi");
    assert_eq!(task, ask("a"));
    assert_eq!(search.resume(Event::Failed("no".to_string())), ask("b"));
    let declined = TcpMessage::OrderDeclined { message: "busy".to_string() };
    assert_eq!(
        search.resume(Event::Answered { message: declined.clone(), shown: String::new() }),
        Task::Answer(declined)
    );

    let (mut search, _) = handle_get_recipe(&state, "Funghi");
    search.resume(Event::Failed("no".to_string()));
    assert_eq!(
        search.resume(Event::Failed("no".to_string())),
        Task::Answer(TcpMessage::Error {
            message: "recipe 'Funghi' not found locally and no peer advertised it".to_string()
        })
    );
}

// ── Executing ────────────────────────────────────────────────────────────────

#[test]
fn handle_process_payload_executes_all_capable_actions_and_delivers() {
    let state = build_state(vec!["MakeDough"], vec![]);
    let payload = payload_of(0, "127.0.0.1:9000", vec![action("MakeDough")]);
    let (job, task) = handle_process_payload(&state, "TestRecipe", payload);
    match task {
        Task::Tell { peer, message: TcpMessage::Deliver { payload, error } } => {
            assert_eq!(peer, "127.0.0.1:9000");
            assert!(error.is_none(), "expected no error in deliver");
            assert!(
                payload.content.is_empty(),
                "MakeDough should produce no content, got: {:?}",
                payload.content
            );
            assert_eq!(payload.action_index, 1, "action_index should be past MakeDough");
            assert_eq!(payload.updates.len(), 2, "expected Action + Forward updates");
            assert!(matches!(&payload.updates[0], Update::Action { action, .. }
                if action.name == "MakeDough"));
            assert!(matches!(&payload.updates[1], Update::Forward { to, .. }
                if to.0 == "127.0.0.1:9000"));
        }
        other => panic!("expected Deliver, got {other:?}"),
    }
    let (job, task) = job.resume(Event::Done);
    assert_eq!(job, ProcessJob::Finished);
    assert_eq!(
        task,
        Task::Answer(TcpMessage::CompletedOrder {
            recipe_name: "TestRecipe".to_string(),
            result: String::new()
        })
    );
}

#[test]
fn handle_process_payload_reports_candidate_peer_when_missing_capability() {
    let state = build_state(vec!["Bake"], vec![]);
    let payload = payload_of(0, "127.0.0.1:9000", vec![action("MakeDough")]);
    let (job, task) = handle_process_payload(&state, "TestRecipe", payload);
    match task {
        Task::Tell { peer, message: TcpMessage::Deliver { payload, error } } => {
            assert_eq!(peer, "127.0.0.1:9000");
            assert_eq!(payload.action_index, 0, "action should not advance");
            assert_eq!(
                error.as_deref(),
                Some("Action MakeDough not available"),
                "expected business failure in deliver"
            );
        }
        other => panic!("expected Deliver, got {other:?}"),
    }
    let (_, response) = job.resume(Event::Done);
    assert!(
        matches!(response, Task::Answer(TcpMessage::CompletedOrder { ref result, .. })
            if result.is_empty()),
        "expected placeholder CompletedOrder after failure deliver, got {response:?}"
    );
}

#[test]
fn payloads_are_forwarded_to_each_capable_peer_before_giving_up() {
    let mut state = build_state(vec!["MakeDough"], vec![]);
    add_peer(&mut state, "p2", vec!["Bake"], vec![]);
    add_peer(&mut state, "p1", vec!["Bake"], vec![]);
    add_peer(&mut state, "p0", vec![], vec![]);
    let payload = payload_of(0, "home", vec![action("MakeDough"), action("Bake")]);
    let (mut job, mut task) = handle_process_payload(&state, "R", payload);
    for expected in ["p1", "p2"] {
        match task {
            Task::Ask { peer, message: TcpMessage::ProcessPayload { payload } } => {
                assert_eq!(peer, expected);
                assert_eq!(payload.action_index, 1);
                assert_eq!(payload.updates.len(), 2);
                assert!(matches!(&payload.updates[1], Update::Forward { to, .. }
                    if to.0 == expected));
            }
            other => panic!("expected a forward, got {other:?}"),
        }
        (job, task) = job.resume(Event::Failed("refused".to_string()));
    }
    match &task {
        Task::Tell { peer, message: TcpMessage::Deliver { payload, error } } => {
            assert_eq!(peer, "home");
            assert_eq!(payload.updates.len(), 1);
            assert_eq!(error.as_deref(), Some("Action Bake not available"));
        }
        other => panic!("expected the failure to be delivered, got {other:?}"),
    }
    let (_, task) = job.resume(Event::Failed("connect home: refused".to_string()));
    assert_eq!(
        task,
        Task::Answer(TcpMessage::Error {
            message: "deliver failure 'Action Bake not available' to home failed: connect home: refused".to_string()
        })
    );
}

#[test]
fn the_response_of_a_peer_is_the_answer() {
    let mut state = build_state(vec![], vec![]);
    add_peer(&mut state, "p", vec!["Bake"], vec![]);
    let (job, _) = handle_process_payload(&state, "R", payload_of(0, "home", vec![action("Bake")]));
    let response = TcpMessage::OrderDeclined { message: "busy".to_string() };
    let (job, task) = job.resume(Event::Answered { message: response.clone(), shown: String::new() });
    assert_eq!(job, ProcessJob::Finished);
    assert_eq!(task, Task::Answer(response));
}

#[test]
fn the_route_does_not_change_the_pizza() {
    let actions = || vec![action("MakeDough"), action("AddCheese"), action("Bake")];
    let delivered = |task: Task| match task {
        Task::Tell { message: TcpMessage::Deliver { payload, error: None }, .. } => payload,
        other => panic!("expected a delivery, got {other:?}"),
    };
    let alone = build_state(vec!["MakeDough", "AddCheese", "Bake"], vec![]);
    let (_, task) = handle_process_payload(&alone, "R", payload_of(0, "home", actions()));
    let by_one = delivered(task);

    let mut first = build_state(vec!["MakeDough", "AddCheese"], vec![]);
    add_peer(&mut first, "second", vec!["Bake"], vec![]);
    let second = build_state(vec!["Bake"], vec![]);
    let (_, task) = handle_process_payload(&first, "R", payload_of(0, "home", actions()));
    let half = match task {
        Task::Ask { message: TcpMessage::ProcessPayload { payload }, .. } => payload,
        other => panic!("expected a forward, got {other:?}"),
    };
    assert_eq!(half.action_index, 2);
    let (_, task) = handle_process_payload(&second, "R", half);
    let by_two = delivered(task);
    assert_eq!(by_two.content, by_one.content);
    assert_eq!(by_two.content, "Cheese x1\nBaked(0)\n");
    assert_eq!(by_two.action_index, 3);
    assert_eq!(by_two.updates.len(), by_one.updates.len() + 1);
}

#[test]
fn failed_deliveries_are_reported() {
    let state = build_state(vec![], vec![]);
    let (job, _) = handle_process_payload(&state, "R", payload_of(0, "home", vec![]));
    let (_, task) = job.resume(Event::Failed("write frame: gone".to_string()));
    assert_eq!(
        task,
        Task::Answer(TcpMessage::Error {
            message: "deliver to home failed: write frame: gone".to_string()
        })
    );
}

#[test]
fn every_action_has_its_line() {
    let line = |a: ActionDef| apply_action(&a, "");
    assert_eq!(line(action("MakeDough")), "");
    assert_eq!(line(action("AddBase")), "Dough + Base(unknown): ready\n");
    assert_eq!(
        line(action_with("AddBase", "base_type", "tomato")),
        "Dough + Base(tomato): ready\n"
    );
    assert_eq!(line(action("AddCheese")), "Cheese x1\n");
    assert_eq!(line(action_with("AddCheese", "amount", "3")), "Cheese x3\n");
    assert_eq!(line(action("AddPepperoni")), "Pepperoni slices x0\n");
    assert_eq!(
        line(action_with("AddPepperoni", "slices", "12")),
        "Pepperoni slices x12\n"
    );
    assert_eq!(line(action("Bake")), "Baked(0)\n");
    assert_eq!(line(action_with("Bake", "duration", "6")), "Baked(6)\n");
    assert_eq!(line(action("AddOliveOil")), "OliveOil: added\n");
    assert_eq!(line(action("AddMushrooms")), "Mushrooms: added\n");
    assert_eq!(line(action("AddBasil")), "Basil: added\n");
    assert_eq!(line(action("AddGarlic")), "Garlic: added\n");
    assert_eq!(line(action("AddOregano")), "Oregano: added\n");
    assert_eq!(line(action("AddHam")), "AddHam: done\n");
    assert_eq!(apply_action(&action("Bake"), "Cheese x1\n"), "Cheese x1\nBaked(0)\n");
    assert_eq!(KNOWN_ACTIONS.len(), 17);
    assert!(KNOWN_ACTIONS.contains(&"AddPineapple"));
}

// ── Ordering ─────────────────────────────────────────────────────────────────

#[test]
fn handle_order_sends_receipt_then_returns_completed_order() {
    let mut state = build_state(vec!["MakeDough"], vec!["Margherita"]);
    let (job, task) = handle_order(&state, "Margherita", 7);
    let receipt = match task {
        Task::Write(TcpMessage::OrderReceipt { order_id }) => order_id.0,
        other => panic!("expected OrderReceipt as frame 1, got {other:?}"),
    };
    assert!(state.pending_orders.is_empty());

    let (job, task) = job.resume(&mut state, Event::Done);
    assert_eq!(state.pending_orders.get(&receipt), Some(&7));
    let (payload, error) = match task {
        Task::Tell { peer, message: TcpMessage::Deliver { payload, error } } => {
            assert_eq!(peer, "127.0.0.1:8000");
            (payload, error)
        }
        other => panic!("expected the order to be delivered to its own node, got {other:?}"),
    };
    assert_eq!(payload.order_id.0, receipt);

    let delivery = open_delivery(payload, error);
    let (signal, _) = handle_deliver(&mut state, delivery, Some("{}".to_string()));
    let signal = signal.expect("expected the waiter to be told");
    assert_eq!(signal.ticket, 7);
    assert!(state.pending_orders.is_empty());

    let (job, task) = job.resume(&mut state, Event::Done);
    assert_eq!(task, Task::Await);
    let (job, task) = job.resume(&mut state, Event::Delivered(signal.message));
    assert_eq!(job, OrderJob::Finished);
    assert!(
        matches!(task, Task::Answer(TcpMessage::CompletedOrder { ref recipe_name, ref result })
            if recipe_name == "Margherita" && result == "{}"),
        "expected CompletedOrder(Margherita) as frame 2, got {task:?}"
    );
}

#[test]
fn handle_order_declines_when_recipe_unknown_or_unreachable() {
    let mut state = build_state(vec!["MakeDough"], vec![]);
    let (_, response) = handle_order(&state, "UnknownPizza", 1);
    assert!(
        matches!(response, Task::Answer(TcpMessage::OrderDeclined { ref message })
            if message == "Unknown recipe"),
        "expected OrderDeclined with 'Unknown recipe', got {response:?}"
    );

    add_peer(&mut state, "127.0.0.1:19999", vec!["Bake"], vec!["Pepperoni"]);
    let (job, task) = handle_order(&state, "Pepperoni", 2);
    assert!(matches!(task, Task::Write(TcpMessage::OrderReceipt { .. })));
    let (job, task) = job.resume(&mut state, Event::Done);
    assert!(matches!(task, Task::Ask { ref peer, .. } if peer == "127.0.0.1:19999"));
    let (_, response) = job.resume(&mut state, Event::Failed("connection refused".to_string()));
    assert_eq!(
        response,
        Task::Answer(TcpMessage::Error {
            message: "fetch recipe: recipe 'Pepperoni' not found locally and no peer advertised it".to_string()
        })
    );
}

#[test]
fn handle_order_returns_failed_order_when_remote_reports_unavailable_action() {
    let mut state = build_state(vec![], vec![]);
    add_peer(&mut state, "remote", vec!["MakeDough"], vec!["Margherita"]);

    let (job, task) = handle_order(&state, "Margherita", 3);
    assert!(
        matches!(task, Task::Write(TcpMessage::OrderReceipt { .. })),
        "expected OrderReceipt as frame 1, got {task:?}"
    );
    let (job, task) = job.resume(&mut state, Event::Done);
    assert_eq!(
        task,
        Task::Ask {
            peer: "remote".to_string(),
            message: TcpMessage::GetRecipe { recipe_name: "Margherita".to_string() }
        }
    );
    let recipe = "Margherita = MakeDough -> AddBasil(leaves=3)".to_string();
    let (job, task) = job.resume(
        &mut state,
        Event::Answered { message: TcpMessage::RecipeAnswer { recipe }, shown: String::new() },
    );
    let payload = match task {
        Task::Ask { peer, message: TcpMessage::ProcessPayload { payload } } => {
            assert_eq!(peer, "remote");
            payload
        }
        other => panic!("unexpected request at remote peer: {other:?}"),
    };

    let delivery = open_delivery(payload, Some("Action AddBasil not available".to_string()));
    let (signal, _) = handle_deliver(&mut state, delivery, None);
    let placeholder = TcpMessage::CompletedOrder {
        recipe_name: "unknown".to_string(),
        result: String::new(),
    };
    let (job, task) =
        job.resume(&mut state, Event::Answered { message: placeholder, shown: String::new() });
    assert_eq!(task, Task::Await);
    let (_, response) = job.resume(&mut state, Event::Delivered(signal.unwrap().message));
    assert!(
        matches!(response, Task::Answer(TcpMessage::FailedOrder { ref recipe_name, ref error })
            if recipe_name == "Margherita" && error == "Action AddBasil not available"),
        "expected FailedOrder as frame 2, got {response:?}"
    );
}

#[test]
fn receipts_carry_the_identifier_in_its_hyphenated_form() {
    let state = build_state(vec![], vec!["Margherita"]);
    let id: u128 = 0x0123_4567_89ab_cdef_0f1e_2d3c_4b5a_6978;
    let (_, task) = start_order(&state, "Margherita", id, 0);
    assert_eq!(
        task,
        Task::Write(TcpMessage::OrderReceipt {
            order_id: Required("01234567-89ab-cdef-0f1e-2d3c4b5a6978".to_string())
        })
    );
}

#[test]
fn fresh_identifiers_are_random_and_differ() {
    let state = build_state(vec![], vec!["Margherita"]);
    let ids: Vec<String> = (0..20)
        .map(|_| match handle_order(&state, "Margherita", 0).1 {
            Task::Write(TcpMessage::OrderReceipt { order_id }) => order_id.0,
            other => panic!("expected a receipt, got {other:?}"),
        })
        .collect();
    for (i, id) in ids.iter().enumerate() {
        let chars: Vec<char> = id.chars().collect();
        assert_eq!(chars.len(), 36);
        assert_eq!(chars[14], '4');
        assert!("89ab".contains(chars[19]));
        assert!(!ids[..i].contains(id));
        assert_eq!(::uuid::Uuid::parse_str(id).unwrap().to_string(), *id);
    }
}

#[test]
fn receipts_that_cannot_be_sent_end_the_order() {
    let cases = [
        (Event::NotEncoded("bad".to_string()), "encode receipt: bad"),
        (Event::Failed("gone".to_string()), "send receipt: gone"),
    ];
    for (event, message) in cases {
        let mut state = build_state(vec!["MakeDough"], vec!["Margherita"]);
        let (job, _) = handle_order(&state, "Margherita", 0);
        let (job, task) = job.resume(&mut state, event);
        assert_eq!(job, OrderJob::Finished);
        assert_eq!(task, Task::Answer(TcpMessage::Error { message: message.to_string() }));
        assert!(state.pending_orders.is_empty());
    }
}

#[test]
fn fetched_recipes_may_be_unusable() {
    let respond = |message: TcpMessage, shown: &str| {
        let mut state = build_state(vec!["MakeDough"], vec![]);
        add_peer(&mut state, "p", vec![], vec!["Funghi"]);
        let (job, _) = handle_order(&state, "Funghi", 0);
        let (job, _) = job.resume(&mut state, Event::Done);
        let (_, task) =
            job.resume(&mut state, Event::Answered { message, shown: shown.to_string() });
        match task {
            Task::Answer(TcpMessage::Error { message }) => message,
            other => panic!("expected an error, got {other:?}"),
        }
    };
    let answer = |recipe: &str| TcpMessage::RecipeAnswer { recipe: recipe.to_string() };
    assert_eq!(respond(answer("Funghi"), ""), "parse recipe: recipe block is missing '='");
    assert_eq!(
        respond(answer("Marinara = MakeDough"), ""),
        "recipe 'Funghi' not found after fetch"
    );
    assert_eq!(
        respond(TcpMessage::Error { message: "nope".to_string() }, ""),
        "fetch recipe: nope"
    );
    assert_eq!(
        respond(TcpMessage::ListRecipes, "ListRecipes"),
        "unexpected get_recipe response: ListRecipes"
    );
}

#[test]
fn orders_that_fail_on_the_way_are_settled() {
    let mut state = build_state(vec!["MakeDough"], vec!["Margherita"]);
    let (job, _) = handle_order(&state, "Margherita", 0);
    let (job, _) = job.resume(&mut state, Event::Done);
    assert_eq!(state.pending_orders.len(), 1);
    let (_, task) = job.resume(&mut state, Event::Failed("refused".to_string()));
    assert_eq!(
        task,
        Task::Answer(TcpMessage::Error {
            message: "deliver to 127.0.0.1:8000 failed: refused".to_string()
        })
    );
    assert!(state.pending_orders.is_empty());
}

#[test]
fn orders_that_are_not_delivered_in_time_fail() {
    let mut state = build_state(vec!["MakeDough"], vec!["Margherita"]);
    let (job, _) = handle_order(&state, "Margherita", 0);
    let (job, _) = job.resume(&mut state, Event::Done);
    let (job, task) = job.resume(&mut state, Event::Done);
    assert_eq!(task, Task::Await);
    let (_, task) = job.resume(&mut state, Event::TimedOut);
    assert_eq!(
        task,
        Task::Answer(TcpMessage::Error {
            message: "order timed out waiting for deliver".to_string()
        })
    );
    assert!(state.pending_orders.is_empty());
}

#[test]
fn plans_list_the_actions_of_the_first_recipe_of_that_name() {
    let source = "A = X\n\nB = Y -> Z^2\n\nB = W";
    let actions = plan_order(source, "B").unwrap();
    let names: Vec<&str> = actions.iter().map(|a| a.name.as_str()).collect();
    assert_eq!(names, vec!["Y", "Z", "Z"]);
    assert_eq!(plan_order(source, "C").unwrap_err(), "recipe 'C' not found after fetch");
}

// ── Delivering ───────────────────────────────────────────────────────────────

#[test]
fn handle_deliver_with_error_signals_failed_order() {
    let mut state = build_state(vec!["MakeDough"], vec![]);
    let id = ::uuid::Uuid::new_v4();
    state.pending_orders.insert(id.to_string(), 5);
    let payload = payload_of(id.as_u128(), "127.0.0.1:9000", vec![]);
    let delivery = open_delivery(payload, Some("Action AddBasil not available".to_string()));
    let (signal, _ack) = handle_deliver(&mut state, delivery, None);
    let signal = signal.expect("expected failed order through channel");
    assert_eq!(signal.ticket, 5);
    let delivered = signal.message;
    assert!(
        matches!(delivered, TcpMessage::FailedOrder { ref error, .. }
            if error == "Action AddBasil not available"),
        "expected FailedOrder signaled to waiting order handler, got {delivered:?}"
    );
}

#[test]
fn deliveries_reach_their_waiter_once() {
    let mut state = build_state(vec![], vec![]);
    let payload = payload_of(1, "home", vec![]);
    let id = payload.order_id.0.clone();
    state.pending_orders.insert(id, 5);
    state.pending_orders.insert("other".to_string(), 6);
    let ack = TcpMessage::Error { message: "deliver processed".to_string() };
    let (first, reply) = handle_deliver(&mut state, open_delivery(payload.clone(), None), None);
    assert!(first.is_some());
    assert_eq!(reply, ack);
    let (second, reply) = handle_deliver(&mut state, open_delivery(payload, None), None);
    assert!(second.is_none());
    assert_eq!(reply, ack);
    assert_eq!(state.pending_orders.get("other"), Some(&6));
}

#[test]
fn completed_orders_are_reported_with_their_trace() {
    let mut payload = payload_of(1, "home", vec![]);
    payload.content = "Baked(6)\n".to_string();
    payload.updates = vec![Update::Action { action: action("Bake"), timestamp: 3 }];
    match open_delivery_at(payload, None, 9) {
        Delivery::Completed(OrderResult { order_id, order_timestamp, content, updates }) => {
            assert_eq!(order_id.0, "00000000-0000-0000-0000-000000000001");
            assert_eq!(order_timestamp, 1);
            assert_eq!(content, "Baked(6)\n");
            assert_eq!(updates.len(), 2);
            assert_eq!(updates[1], Update::Deliver { timestamp: 9 });
        }
        other => panic!("expected a completed order, got {other:?}"),
    }
}

#[test]
fn results_without_their_json_form_are_the_content() {
    let result = || OrderResult {
        order_id: uuid(0),
        order_timestamp: 0,
        content: "Baked(6)\n".to_string(),
        updates: vec![],
    };
    assert_eq!(build_result(result(), Some("{ }".to_string())), "{ }");
    assert_eq!(build_result(result(), None), "Baked(6)\n");
}

// ── Dispatching ──────────────────────────────────────────────────────────────

#[test]
fn requests_reach_their_handlers() {
    let mut state = build_state(vec!["MakeDough"], vec!["Margherita"]);
    assert_eq!(
        dispatch(&state, TcpMessage::ListRecipes, 0),
        Request::Serve(Job::Done, Task::Answer(handle_list_recipes(&state)))
    );
    assert!(matches!(
        dispatch(&state, TcpMessage::GetRecipe { recipe_name: "Margherita".to_string() }, 0),
        Request::Serve(Job::Search(_), Task::Answer(TcpMessage::RecipeAnswer { .. }))
    ));
    assert!(matches!(
        dispatch(&state, TcpMessage::Order { recipe_name: "Margherita".to_string() }, 0),
        Request::Serve(Job::Order(_), Task::Write(TcpMessage::OrderReceipt { .. }))
    ));
    let payload = payload_of(1, "home", vec![action("MakeDough")]);
    assert!(matches!(
        dispatch(&state, TcpMessage::Deliver { payload: payload.clone(), error: None }, 0),
        Request::Delivered(Delivery::Completed(_))
    ));
    assert_eq!(
        dispatch(&state, TcpMessage::OrderDeclined { message: String::new() }, 0),
        Request::Serve(
            Job::Done,
            Task::Answer(TcpMessage::Error { message: "unexpected message type".to_string() })
        )
    );
    match dispatch(&state, TcpMessage::ProcessPayload { payload }, 0) {
        Request::Serve(job, Task::Tell { .. }) => {
            let (_, task) = job.resume(&mut state, Event::Done);
            assert_eq!(
                task,
                Task::Answer(TcpMessage::CompletedOrder {
                    recipe_name: "unknown".to_string(),
                    result: String::new()
                })
            );
        }
        other => panic!("expected the payload to be delivered, got {other:?}"),
    }
}
