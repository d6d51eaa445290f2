//! The client, the clock and the start of a node.
use pizza_factory::cli::client_impl::format_recipe_row;
use pizza_factory::cli::client_impl::get_recipe_lines;
use pizza_factory::cli::client_impl::info_line;
use pizza_factory::cli::client_impl::list_recipes_compat_lines;
use pizza_factory::cli::client_impl::list_recipes_lines;
use pizza_factory::cli::client_impl::now_rfc3339;
use pizza_factory::cli::client_impl::order_receipt;
use pizza_factory::cli::client_impl::order_receipt_at;
use pizza_factory::cli::client_impl::order_request;
use pizza_factory::cli::client_impl::order_result;
use pizza_factory::cli::client_impl::print_recipe_row;
use pizza_factory::cli::client_impl::Line;
use pizza_factory::cli::client_impl::RecipeAvailabilityCompat;
use pizza_factory::cli::client_impl::RecipeStatusCompat;
use pizza_factory::cli::client_impl::TcpMessageCompat;
use pizza_factory::cli::start::StartArgs;
use pizza_factory::clock::date_of;
use pizza_factory::clock::now_micros;
use pizza_factory::clock::now_secs;
use pizza_factory::clock::rfc3339;
use pizza_factory::clock::UnixTime;
use pizza_factory::node::load_recipes;
use pizza_factory::node::parse_capabilities;
use pizza_factory::node::NodeError;
use pizza_factory::node::NodeState;
use pizza_factory::node::PeerInfo;
use pizza_factory::protocol::addr;
use pizza_factory::protocol::pick_remote_host;
use pizza_factory::protocol::uuid;
use pizza_factory::protocol::RecipeAvailability;
use pizza_factory::protocol::RecipeAvailabilityWire;
use pizza_factory::protocol::RecipeStatus;
use pizza_factory::protocol::RemoteRecipeStatus;
use pizza_factory::protocol::Required;
use pizza_factory::protocol::TcpMessage;
use pizza_factory::protocol::Version;
use pizza_factory::recipe::ParseError;
use pizza_factory::store::get_orders;
use pizza_factory::store::init_store;
use pizza_factory::store::OrderStatus;
use pizza_factory::string_map::StringMap;

fn texts(items: &[&str]) -> Vec<String> {
    items.iter().map(|s| s.to_string()).collect()
}

fn local(missing: &[&str]) -> RecipeAvailability {
    RecipeAvailability::Local { local: RecipeStatus { missing_actions: texts(missing) } }
}

fn remote(host: &str) -> RecipeAvailability {
    RecipeAvailability::Remote { remote: RemoteRecipeStatus { host: addr(host) } }
}

// ── Availability ─────────────────────────────────────────────────────────────

#[test]
fn list_recipes_legacy_remote_peers_decodes_to_remote_host() {
    let wire = RecipeAvailabilityWire::LegacyFlat {
        missing_actions: vec![],
        remote_peers: vec!["127.0.0.1:8002".to_string(), "127.0.0.1:8000".to_string()],
    };
    match RecipeAvailability::from_wire(wire) {
        RecipeAvailability::Remote { remote } => assert_eq!(remote.host.0, "127.0.0.1:8000"),
        other => panic!("expected remote availability, got {other:?}"),
    }
}

#[test]
fn every_shape_of_availability_has_its_canonical_form() {
    let status = |missing: &[&str]| RecipeStatus { missing_actions: texts(missing) };
    let cases = [
        (RecipeAvailabilityWire::Local { local: status(&["Bake"]) }, local(&["Bake"])),
        (
            RecipeAvailabilityWire::Remote { remote: RemoteRecipeStatus { host: addr("h") } },
            remote("h"),
        ),
        (
            RecipeAvailabilityWire::LegacyFull {
                local: status(&["Bake"]),
                remote_peers: texts(&["h"]),
            },
            local(&["Bake"]),
        ),
        (
            RecipeAvailabilityWire::LegacyFlat {
                missing_actions: texts(&["Bake"]),
                remote_peers: texts(&["h"]),
            },
            local(&["Bake"]),
        ),
        (
            RecipeAvailabilityWire::LegacyFlat { missing_actions: vec![], remote_peers: vec![] },
            local(&[]),
        ),
        (
            RecipeAvailabilityWire::LegacyRemoteOnly { remote_peers: texts(&["b", "a", "c"]) },
            remote("a"),
        ),
        (RecipeAvailabilityWire::LegacyRemoteOnly { remote_peers: vec![] }, local(&[])),
    ];
    for (wire, expected) in cases {
        assert_eq!(RecipeAvailability::from_wire(wire), expected);
    }
    assert_eq!(pick_remote_host(&vec![]), None);
    assert_eq!(pick_remote_host(&texts(&["b", "a", "b"])), Some("a".to_string()));
}

// ── Recipe rows ──────────────────────────────────────────────────────────────

#[test]
fn recipe_rows_say_where_or_what_is_missing() {
    let none: Vec<String> = vec![];
    assert_eq!(
        print_recipe_row("Funghi", &texts(&["Bake"]), &texts(&["a", "b"])),
        "  - Funghi: available at [a, b]"
    );
    assert_eq!(print_recipe_row("Funghi", &none, &none), "  - Funghi: local (complete)");
    assert_eq!(
        print_recipe_row("Funghi", &texts(&["Bake", "AddHam"]), &none),
        "  - Funghi: missing actions [Bake, AddHam]"
    );
    assert_eq!(format_recipe_row("Funghi", &local(&[])), "  - Funghi: local (complete)");
    assert_eq!(format_recipe_row("Funghi", &remote("a")), "  - Funghi: available at [a]");
}

#[test]
fn listed_recipes_come_in_order_of_their_names() {
    let mut recipes = StringMap::new();
    recipes.insert("Margherita".to_string(), local(&["Bake"]));
    recipes.insert("Funghi".to_string(), remote("a"));
    assert_eq!(
        list_recipes_lines(&TcpMessage::RecipeListAnswer { recipes }, ""),
        vec![
            Line::Out("Available recipes:".to_string()),
            Line::Out("  - Funghi: available at [a]".to_string()),
            Line::Out("  - Margherita: missing actions [Bake]".to_string()),
        ]
    );
    assert_eq!(
        list_recipes_lines(&TcpMessage::Error { message: "no".to_string() }, ""),
        vec![Line::Fault("Error: no".to_string())]
    );
    assert_eq!(
        list_recipes_lines(&TcpMessage::ListRecipes, "ListRecipes"),
        vec![Line::Fault("Unexpected response: ListRecipes".to_string())]
    );
}

#[test]
fn compatible_lists_are_read_too() {
    let entry = |local: &[&str], missing: &[&str], peers: &[&str]| RecipeAvailabilityCompat {
        local: RecipeStatusCompat { missing_actions: texts(local) },
        missing_actions: texts(missing),
        remote_peers: texts(peers),
    };
    let mut recipes = StringMap::new();
    recipes.insert("B".to_string(), entry(&["Bake"], &["AddHam"], &[]));
    recipes.insert("A".to_string(), entry(&[], &["AddHam"], &[]));
    recipes.insert("C".to_string(), entry(&[], &[], &["h"]));
    assert_eq!(
        list_recipes_compat_lines(&TcpMessageCompat::RecipeListAnswer { recipes }),
        vec![
            Line::Out("Available recipes:".to_string()),
            Line::Out("  - A: missing actions [AddHam]".to_string()),
            Line::Out("  - B: missing actions [Bake]".to_string()),
            Line::Out("  - C: available at [h]".to_string()),
        ]
    );
    assert_eq!(
        list_recipes_compat_lines(&TcpMessageCompat::Error { message: "no".to_string() }),
        vec![Line::Fault("Error: no".to_string())]
    );
}

#[test]
fn recipes_are_shown_with_their_source() {
    let answer = TcpMessage::RecipeAnswer { recipe: "Funghi = Bake".to_string() };
    assert_eq!(
        get_recipe_lines("Funghi", &answer, ""),
        vec![Line::Out("Recipe 'Funghi' source:\nFunghi = Bake".to_string())]
    );
    assert_eq!(
        get_recipe_lines("Funghi", &TcpMessage::Error { message: "no".to_string() }, ""),
        vec![Line::Fault("Error: no".to_string())]
    );
    assert_eq!(
        get_recipe_lines("Funghi", &TcpMessage::ListRecipes, "ListRecipes"),
        vec![Line::Fault("Unexpected response: ListRecipes".to_string())]
    );
}

// ── Orders ───────────────────────────────────────────────────────────────────

#[test]
fn an_order_is_noted_from_receipt_to_delivery() {
    let mut store = init_store();
    let (request, line) = order_request("peer", "Funghi");
    assert_eq!(request, TcpMessage::Order { recipe_name: "Funghi".to_string() });
    assert_eq!(line, Line::Info("Ordering recipe recipe=Funghi peer=peer".to_string()));

    let receipt = TcpMessage::OrderReceipt { order_id: uuid(1) };
    let (id, line, more) = order_receipt(&mut store, "Funghi", receipt, "");
    assert!(more);
    assert_eq!((id >> 76) & 0xf, 4);
    assert_eq!((id >> 62) & 0x3, 2);
    assert_eq!(
        line,
        Line::Info(
            "Order receipt 00000000-0000-0000-0000-000000000001; waiting for completion..."
                .to_string()
        )
    );
    let orders = get_orders(&store);
    assert_eq!(orders.len(), 1);
    assert_eq!(orders[0].id, id);
    assert_eq!(orders[0].status, OrderStatus::Receipt);

    let done = TcpMessage::CompletedOrder {
        recipe_name: "Funghi".to_string(),
        result: "{}".to_string(),
    };
    assert_eq!(
        order_result(&mut store, id, done, ""),
        vec![
            Line::Info("Order completed successfully".to_string()),
            Line::Info("Recipe Funghi:".to_string()),
            Line::Out("{}".to_string()),
        ]
    );
    let orders = get_orders(&store);
    assert_eq!(orders[0].status, OrderStatus::Delivered);
    assert_eq!(orders[0].server_id.as_deref(), Some("00000000-0000-0000-0000-000000000001"));
    assert_eq!(orders[0].recipe_name, "Funghi");
}

#[test]
fn first_responses_that_end_an_order() {
    let cases = [
        (
            TcpMessage::OrderDeclined { message: "Unknown recipe".to_string() },
            "Order of 'Funghi' declined: Unknown recipe",
            OrderStatus::Declined("Unknown recipe".to_string()),
        ),
        (
            TcpMessage::Error { message: "no".to_string() },
            "Error: no",
            OrderStatus::Error("no".to_string()),
        ),
        (TcpMessage::ListRecipes, "Unexpected response: ListRecipes", OrderStatus::Sending),
    ];
    for (response, line, status) in cases {
        let mut store = init_store();
        let (said, more) =
            order_receipt_at(&mut store, 3, 17, "Funghi", response, "ListRecipes");
        assert_eq!(said, Line::Info(line.to_string()));
        assert!(!more);
        let orders = get_orders(&store);
        assert_eq!(orders.len(), 1);
        assert_eq!(orders[0].id, 3);
        assert_eq!(orders[0].server_id, None);
        assert_eq!(orders[0].status, status);
        assert_eq!(orders[0].timestamp_ms, 17);
    }
}

#[test]
fn second_responses_other_than_success() {
    let cases = [
        (
            TcpMessage::FailedOrder { recipe_name: "Funghi".to_string(), error: "burnt".to_string() },
            "Order of 'Funghi' failed: burnt",
            OrderStatus::Failed("burnt".to_string()),
        ),
        (
            TcpMessage::Error { message: "late".to_string() },
            "Execution error: late",
            OrderStatus::Error("late".to_string()),
        ),
        (TcpMessage::ListRecipes, "Unexpected result: ListRecipes", OrderStatus::Receipt),
    ];
    for (response, line, status) in cases {
        let mut store = init_store();
        let receipt = TcpMessage::OrderReceipt { order_id: Required("s".to_string()) };
        order_receipt_at(&mut store, 3, 17, "Funghi", receipt, "");
        assert_eq!(
            order_result(&mut store, 3, response, "ListRecipes"),
            vec![Line::Info(line.to_string())]
        );
        assert_eq!(get_orders(&store)[0].status, status);
    }
}

// ── Clock ────────────────────────────────────────────────────────────────────

#[test]
fn points_in_time_as_text() {
    let at = |secs: u64, nanos: u32| rfc3339(UnixTime { secs, nanos });
    assert_eq!(at(0, 0), "1970-01-01T00:00:00.000000Z");
    assert_eq!(at(1_700_000_000, 123_456_789), "2023-11-14T22:13:20.123456Z");
    assert_eq!(at(951_782_400, 999_999_999), "2000-02-29T00:00:00.999999Z");
    assert_eq!(at(4_107_542_399, 0), "2100-02-28T23:59:59.000000Z");
    assert_eq!(at(4_107_542_400, 0), "2100-03-01T00:00:00.000000Z");
    assert_eq!(at(253_402_300_800, 0), "10000-01-01T00:00:00.000000Z");
    assert_eq!(
        info_line(UnixTime { secs: 0, nanos: 0 }, "hello"),
        "1970-01-01T00:00:00.000000Z  INFO hello"
    );
}

#[test]
fn dates_follow_each_other() {
    let mut previous = (1969, 12, 31);
    for days in 0..60_000 {
        let date = date_of(days);
        assert!(date > previous);
        if date.1 == previous.1 {
            assert_eq!(date.2, previous.2 + 1);
        } else {
            assert_eq!(date.2, 1);
        }
        previous = date;
    }
    assert_eq!(date_of(11_016), (2000, 2, 29));
}

#[test]
fn the_clock_runs() {
    assert!(now_secs() > 1_600_000_000);
    let a = UnixTime::now();
    let b = now_micros();
    assert!(a.nanos < 1_000_000_000);
    assert!(a.secs.abs_diff(b / 1_000_000) <= 5);
    assert_eq!(UnixTime::of_reading(Some((2, 3))), UnixTime { secs: 2, nanos: 3 });
    assert_eq!(UnixTime::of_reading(None), UnixTime { secs: 0, nanos: 0 });
    assert_eq!(UnixTime { secs: 2, nanos: 3_004_005 }.micros(), 2_003_004);
    assert_eq!(UnixTime { secs: 2, nanos: 3_004_005 }.millis(), 2_003);
    assert_eq!(UnixTime { secs: u64::MAX, nanos: 0 }.millis(), u64::MAX - 999);
    let stamp = now_rfc3339();
    assert_eq!(stamp.len(), 27);
    assert!(stamp.as_str() > "2020");
    assert!(stamp.ends_with('Z'));
}

// ── Start ────────────────────────────────────────────────────────────────────

#[test]
fn capabilities_come_repeated_or_separated_by_commas() {
    assert_eq!(
        parse_capabilities(&texts(&["MakeDough", " AddBase, AddCheese,,Bake ", ""])),
        texts(&["MakeDough", "AddBase", "AddCheese", "Bake"])
    );
}

fn start_args(recipes_file: Option<&str>) -> StartArgs {
    StartArgs {
        host: "own".to_string(),
        capabilities: texts(&["MakeDough,Bake"]),
        peers: texts(&["b", "a", "b"]),
        recipes_file: recipes_file.map(str::to_string),
    }
}

#[test]
fn nodes_start_with_what_they_are_given() {
    let started = UnixTime { secs: 42, nanos: 7 };
    let state =
        NodeState::new(&start_args(Some("r")), Ok("A = X\n\nB = Y".to_string()), started).unwrap();
    assert_eq!(state.identity.addr, "own");
    assert_eq!(state.identity.capabilities, texts(&["MakeDough", "Bake"]));
    let names: Vec<&str> = state.identity.recipes.iter().map(|r| r.name.as_str()).collect();
    assert_eq!(names, vec!["A", "B"]);
    assert_eq!(state.gossip.version, Version { counter: 0, generation: 42 });
    assert_eq!(state.gossip.peers.len(), 2);
    assert_eq!(state.gossip.peers.get("a"), Some(&PeerInfo::unknown()));
    assert!(state.pending_orders.is_empty());

    let bare = NodeState::new(&start_args(None), Ok("nonsense".to_string()), started).unwrap();
    assert!(bare.identity.recipes.is_empty());
}

#[test]
fn nodes_do_not_start_with_a_bad_recipes_file() {
    let started = UnixTime { secs: 42, nanos: 7 };
    let unreadable = std::io::Error::other("gone");
    let e = NodeState::new(&start_args(Some("r")), Err(unreadable), started).unwrap_err();
    assert_eq!(e.message(), "Failed to read recipes file: r");
    match e {
        NodeError::RecipesFileRead { path, cause } => {
            assert_eq!(path, "r");
            assert_eq!(cause.to_string(), "gone");
        }
        other => panic!("expected a read error, got {other:?}"),
    }
    let e = load_recipes(&Some("r".to_string()), Ok("nonsense".to_string())).unwrap_err();
    assert_eq!(e.message(), "Failed to parse recipes file: r");
    match e {
        NodeError::RecipesFileParse { path, cause } => {
            assert_eq!(path, "r");
            assert_eq!(cause, ParseError::MissingEquals);
        }
        other => panic!("expected a parse error, got {other:?}"),
    }
}
