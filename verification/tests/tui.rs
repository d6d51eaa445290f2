//! The interactive interface.
use pizza_factory::clock::UnixTime;
use pizza_factory::node::GossipState;
use pizza_factory::node::Identity;
use pizza_factory::node::NodeState;
use pizza_factory::node::PeerInfo;
use pizza_factory::protocol::Version;
use pizza_factory::recipe::parse_recipes;
use pizza_factory::store::Order;
use pizza_factory::store::OrderStatus;
use pizza_factory::string_map::StringMap;
use pizza_factory::tui::app::App;
use pizza_factory::tui::app::Input;
use pizza_factory::tui::app::Key;
use pizza_factory::tui::app::LoggerEvent;
use pizza_factory::tui::app::Mode;
use pizza_factory::tui::app::Reaction;
use pizza_factory::tui::command::command_line;
use pizza_factory::tui::command::execute;
use pizza_factory::tui::command::text_lines;
use pizza_factory::tui::command::unknown_command_lines;
use pizza_factory::tui::command::LogLine;
use pizza_factory::tui::command::TuiCommand;
use pizza_factory::tui::ui::bracket;
use pizza_factory::tui::ui::command_title;
use pizza_factory::tui::ui::format_recipes;
use pizza_factory::tui::ui::show_order;
use pizza_factory::tui::ui::show_recipe;
use pizza_factory::tui::ui::show_status;
use pizza_factory::tui::ui::show_status_lines;
use pizza_factory::tui::ui::sort_orders;

fn press(app: &mut App, key: Key) -> Reaction {
    app.handle_key(Input::Press(key))
}

fn build_state(capabilities: &[&str], recipes: &str) -> NodeState {
    NodeState {
        identity: Identity {
            addr: "own".to_string(),
            capabilities: capabilities.iter().map(|s| s.to_string()).collect(),
            recipes: parse_recipes(recipes).unwrap(),
        },
        gossip: GossipState {
            peers: StringMap::new(),
            version: Version { counter: 3, generation: 42 },
        },
        pending_orders: StringMap::new(),
    }
}

fn order(id: u128, timestamp_ms: u64, status: OrderStatus) -> Order {
    Order { id, server_id: None, recipe_name: "Funghi".to_string(), status, timestamp_ms }
}

// ── Keys ─────────────────────────────────────────────────────────────────────

#[test]
fn normal_mode_steers_the_log_view() {
    let cases = [
        (Key::Up, LoggerEvent::UpKey),
        (Key::Down, LoggerEvent::DownKey),
        (Key::Left, LoggerEvent::LeftKey),
        (Key::Right, LoggerEvent::RightKey),
        (Key::Char('+'), LoggerEvent::PlusKey),
        (Key::Char('-'), LoggerEvent::MinusKey),
        (Key::Char(' '), LoggerEvent::SpaceKey),
        (Key::Char('h'), LoggerEvent::HideKey),
        (Key::Char('f'), LoggerEvent::FocusKey),
        (Key::PageUp, LoggerEvent::PrevPageKey),
        (Key::PageDown, LoggerEvent::NextPageKey),
        (Key::Esc, LoggerEvent::EscapeKey),
    ];
    let mut app = App::new();
    for (key, event) in cases {
        assert_eq!(press(&mut app, key), Reaction::Logger(event));
        assert_eq!(app, App::new());
    }
    for key in [Key::Char('x'), Key::Enter, Key::Backspace, Key::Other] {
        assert_eq!(press(&mut app, key), Reaction::Nothing);
        assert_eq!(app, App::new());
    }
}

#[test]
fn only_q_leaves_and_only_in_normal_mode() {
    let mut app = App::new();
    assert_eq!(press(&mut app, Key::Char('q')), Reaction::Quit);
    assert_eq!(press(&mut app, Key::Char('Q')), Reaction::Quit);
    assert_eq!(app.handle_key(Input::Other), Reaction::Nothing);
    press(&mut app, Key::Char('e'));
    assert_eq!(app.mode, Mode::Editing);
    assert_eq!(press(&mut app, Key::Char('q')), Reaction::Nothing);
    assert_eq!(app.input, "q");
}

#[test]
fn commands_are_edited_and_entered() {
    let mut app = App::new();
    press(&mut app, Key::Char('e'));
    for c in " é x\u{3000}".chars() {
        press(&mut app, Key::Char(c));
    }
    assert_eq!(app.input, " é x\u{3000}");
    press(&mut app, Key::Char('!'));
    press(&mut app, Key::Backspace);
    assert_eq!(app.input, " é x\u{3000}");
    assert_eq!(press(&mut app, Key::Up), Reaction::Nothing);
    assert_eq!(
        press(&mut app, Key::Enter),
        Reaction::UnknownCommand("é x".to_string())
    );
    assert_eq!(app, App::new());
    assert_eq!(
        unknown_command_lines("é x"),
        vec![
            LogLine::Info("> é x".to_string()),
            LogLine::Warn("Unknown command: 'é x'".to_string()),
        ]
    );

    press(&mut app, Key::Char('e'));
    assert_eq!(press(&mut app, Key::Backspace), Reaction::Nothing);
    press(&mut app, Key::Char(' '));
    assert_eq!(press(&mut app, Key::Enter), Reaction::Nothing);
    assert_eq!(app, App::new());

    press(&mut app, Key::Char('e'));
    press(&mut app, Key::Char('x'));
    assert_eq!(press(&mut app, Key::Esc), Reaction::Nothing);
    assert_eq!(app, App::new());
}

// ── Commands ─────────────────────────────────────────────────────────────────

#[test]
fn command_lines_are_words() {
    assert_eq!(command_line("  list-recipes \t now\n"), vec!["tui", "list-recipes", "now"]);
    assert_eq!(command_line(" \u{2003} "), vec!["tui"]);
}

#[test]
fn texts_are_cut_into_lines() {
    for text in ["", "a", "a\n", "a\r\nb", "a\n\nb\r", "\r\n", "a\r\r\nb\n"] {
        let expected: Vec<&str> = text.lines().collect();
        assert_eq!(text_lines(text), expected, "{text:?}");
    }
}

#[test]
fn help_leaves_out_the_usage() {
    let state = build_state(&[], "");
    let help = TuiCommand::Help("Usage: x\n\nCommands:\n  help\n".to_string());
    assert_eq!(
        execute(&help, &state),
        vec![
            LogLine::Info("".to_string()),
            LogLine::Info("Commands:".to_string()),
            LogLine::Info("  help".to_string()),
        ]
    );
    let invalid = TuiCommand::Invalid("error: bad\nUsage: x".to_string());
    assert_eq!(
        execute(&invalid, &state),
        vec![LogLine::Warn("error: bad".to_string()), LogLine::Warn("Usage: x".to_string())]
    );
}

#[test]
fn capabilities_and_recipes_are_listed() {
    let empty = build_state(&[], "");
    assert_eq!(
        execute(&TuiCommand::ListCapabilities, &empty),
        vec![LogLine::Info("No capabilities".to_string())]
    );
    assert_eq!(
        execute(&TuiCommand::ListRecipes, &empty),
        vec![LogLine::Info("No recipes available".to_string())]
    );
    let state = build_state(&["MakeDough", "Bake"], "M = MakeDough\n\nA = AddHam");
    assert_eq!(
        execute(&TuiCommand::ListCapabilities, &state),
        vec![LogLine::Info("Capabilities: MakeDough, Bake".to_string())]
    );
    assert_eq!(
        execute(&TuiCommand::ListRecipes, &state),
        vec![
            LogLine::Info("Available recipes:".to_string()),
            LogLine::Info("  - A: missing actions [AddHam]".to_string()),
            LogLine::Info("  - M: local (complete)".to_string()),
        ]
    );
}

// ── Orders ───────────────────────────────────────────────────────────────────

#[test]
fn orders_are_shown_in_one_line() {
    let now = UnixTime { secs: 10, nanos: 0 };
    let mut placed = order(7, 9_500, OrderStatus::Failed("burnt".to_string()));
    assert_eq!(show_order(&placed, now), "[local-7] Funghi (500ms ago) - Failed: burnt");
    placed.id = 1_234_567;
    assert_eq!(show_order(&placed, now), "[local-12] Funghi (500ms ago) - Failed: burnt");
    placed.server_id = Some("éa345678-9".to_string());
    placed.timestamp_ms = 11_000;
    placed.status = OrderStatus::Receipt;
    assert_eq!(show_order(&placed, now), "[éa345678] Funghi (0ms ago) - Receipt");
    assert_eq!(show_status(&OrderStatus::Sending), "Sending");
    assert_eq!(show_status(&OrderStatus::Delivered), "Delivered");
    assert_eq!(show_status(&OrderStatus::Declined("no".to_string())), "Declined: no");
    assert_eq!(show_status(&OrderStatus::Error("no".to_string())), "Error: no");
}

#[test]
fn orders_are_sorted_by_time() {
    let orders: Vec<Order> = [(1, 5), (2, 3), (3, 5), (4, 1), (5, 3)]
        .iter()
        .map(|(id, at)| order(*id, *at, OrderStatus::Sending))
        .collect();
    let ids: Vec<u128> = sort_orders(orders).iter().map(|o| o.id).collect();
    assert_eq!(ids, vec![4, 2, 5, 1, 3]);
}

// ── Status ───────────────────────────────────────────────────────────────────

#[test]
fn recipes_are_shown_with_what_the_node_cannot_do() {
    assert_eq!(format_recipes(&build_state(&[], "")), "{}");
    let state = build_state(&["MakeDough"], "Q\"\\t = MakeDough -> Bake^2 -> AddHam\n\nB = MakeDough");
    assert_eq!(
        format_recipes(&state),
        "{\"Q\\\"\\\\t\": Local { missing_actions: [\"Bake\", \"AddHam\"] }, \"B\": Local { missing_actions: [] }}"
    );
    assert_eq!(
        show_recipe("\"B\"", &vec!["\"x\"".to_string()]),
        "\"B\": Local { missing_actions: [\"x\"] }"
    );
    assert_eq!(bracket(&vec!["a".to_string(), "b".to_string()]), "[a, b]");
}

#[test]
fn the_status_names_all_peers_but_oneself() {
    let mut state = build_state(&["Make\nDough"], "");
    let line = |label: &str, text: &str| (label.to_string(), text.to_string());
    let shown = |state: &NodeState, rtts: &[&str]| {
        let rtts: Vec<String> = rtts.iter().map(|s| s.to_string()).collect();
        show_status_lines(state, 5_000_000, &rtts)
            .into_iter()
            .map(|l| (l.label, l.text))
            .collect::<Vec<_>>()
    };
    assert_eq!(
        shown(&state, &[]),
        vec![
            line("Capabilities: ", "[\"Make\\nDough\"]"),
            line("Recipes: ", "{}"),
            line("Known peers:", ""),
            line("", "  (none)"),
            line("Host: ", "own"),
            line("Current version: ", "3#42"),
        ]
    );
    for (addr, last_seen_us, rtt_us) in [
        ("d", 9_000_000, None),
        ("own", 1, None),
        ("b", 2_999_500, None),
        ("a", 0, None),
        ("c", 1, Some(1_250)),
    ] {
        let mut info = PeerInfo::unknown();
        info.version = Version { counter: 1, generation: 2 };
        info.last_seen_us = last_seen_us;
        info.rtt_us = rtt_us;
        state.gossip.peers.insert(addr.to_string(), info);
    }
    let lines = shown(&state, &["", "", "1.2", ""]);
    assert_eq!(
        &lines[3..7],
        &[
            line("", "  a (v1#2 0 ms ago)"),
            line("", "  b (v1#2 2000 ms ago)"),
            line("", "  c (v1#2 1.2 ms)"),
            line("", "  d (v1#2 0 ms ago)"),
        ]
    );
}

#[test]
fn the_command_line_says_what_it_is() {
    assert_eq!(command_title(Mode::Normal), "Command");
    assert_eq!(
        command_title(Mode::Editing),
        "Edit Command (use 'help' for help and <Tab> for completion)"
    );
}
