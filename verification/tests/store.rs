//! The orders that were placed.
use pizza_factory::clock::UnixTime;
use pizza_factory::store::add_order;
use pizza_factory::store::get_orders;
use pizza_factory::store::init_store;
use pizza_factory::store::now_ms;
use pizza_factory::store::update_order_server_id;
use pizza_factory::store::update_order_status;
use pizza_factory::store::Order;
use pizza_factory::store::OrderStatus;

fn make_order(id: u128, recipe: &str) -> Order {
    Order {
        id,
        server_id: None,
        recipe_name: recipe.to_string(),
        status: OrderStatus::Sending,
        timestamp_ms: now_ms(),
    }
}

#[test]
fn test_add_order() {
    let mut store = init_store();
    add_order(&mut store, make_order(1, "margherita"));
    assert_eq!(get_orders(&store).len(), 1);
}

#[test]
fn test_add_multiple_orders() {
    let mut store = init_store();
    add_order(&mut store, make_order(1, "margherita"));
    add_order(&mut store, make_order(2, "pepperoni"));
    assert_eq!(get_orders(&store).len(), 2);
}

#[test]
fn test_add_order_overwrites_same_id() {
    let mut store = init_store();
    add_order(&mut store, make_order(1, "margherita"));
    add_order(&mut store, make_order(1, "pepperoni"));

    let orders = get_orders(&store);
    assert_eq!(orders.len(), 1);
    assert_eq!(orders[0].recipe_name, "pepperoni");
}

#[test]
fn test_update_order_server_id() {
    let mut store = init_store();
    add_order(&mut store, make_order(1, "margherita"));
    update_order_server_id(&mut store, 1, "server-uuid-123");

    let orders = get_orders(&store);
    assert_eq!(orders[0].server_id.as_deref(), Some("server-uuid-123"));
}

#[test]
fn test_update_order_status() {
    let mut store = init_store();
    add_order(&mut store, make_order(1, "margherita"));
    update_order_status(&mut store, 1, OrderStatus::Receipt);

    let orders = get_orders(&store);
    assert!(matches!(orders[0].status, OrderStatus::Receipt));
}

#[test]
fn test_update_order_status_failed() {
    let mut store = init_store();
    add_order(&mut store, make_order(1, "margherita"));
    update_order_status(&mut store, 1, OrderStatus::Failed("timeout".to_string()));

    let orders = get_orders(&store);
    assert!(matches!(&orders[0].status, OrderStatus::Failed(msg) if msg == "timeout"));
}

#[test]
fn test_update_nonexistent_order_does_not_panic() {
    let mut store = init_store();
    update_order_status(&mut store, 999, OrderStatus::Delivered);
    update_order_server_id(&mut store, 999, "some-id");
    assert!(get_orders(&store).is_empty());
}

#[test]
fn updates_leave_other_orders_alone() {
    let mut store = init_store();
    add_order(&mut store, make_order(1, "margherita"));
    add_order(&mut store, make_order(2, "pepperoni"));
    update_order_status(&mut store, 2, OrderStatus::Delivered);
    update_order_server_id(&mut store, 2, "x");
    let orders = get_orders(&store);
    let first = orders.iter().find(|o| o.id == 1).unwrap();
    let second = orders.iter().find(|o| o.id == 2).unwrap();
    assert_eq!(first.status, OrderStatus::Sending);
    assert_eq!(first.server_id, None);
    assert_eq!(second.status, OrderStatus::Delivered);
    assert_eq!(second.server_id.as_deref(), Some("x"));
}

#[test]
fn elapsed_time_of_an_order() {
    let mut order = make_order(1, "margherita");
    order.timestamp_ms = 10_250;
    assert_eq!(order.elapsed_ms(UnixTime { secs: 12, nanos: 5_000_000 }), 1_755);
    assert_eq!(order.elapsed_ms(UnixTime { secs: 9, nanos: 0 }), 0);
    assert!(now_ms() > 1_600_000_000_000);
}
