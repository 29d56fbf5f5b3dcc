use whisper::node::HandlerTable;

fn v(s: &str) -> Vec<u8> {
    s.as_bytes().to_vec()
}

#[test]
fn dispatch_names_the_registered_handler() {
    let mut table = HandlerTable::new();
    table.register_handler(&v("chat"), 7);
    let hit = table.dispatch(&v("MSG chat hello there")).expect("a handled delivery");
    assert_eq!(hit.0, 7);
    assert_eq!(hit.1, v("hello there"));
}

#[test]
fn dispatch_drops_unhandled_topics() {
    let mut table = HandlerTable::new();
    table.register_handler(&v("chat"), 7);
    assert!(table.dispatch(&v("MSG weather sunny")).is_none());
}

#[test]
fn dispatch_drops_malformed_and_non_delivery_lines() {
    let mut table = HandlerTable::new();
    table.register_handler(&v("chat"), 7);
    assert!(table.dispatch(&v("MSG chat")).is_none());
    assert!(table.dispatch(&v("SUBSCRIBED to chat")).is_none());
    assert!(table.dispatch(&v("")).is_none());
}

#[test]
fn registering_a_topic_twice_replaces_the_handler() {
    let mut table = HandlerTable::new();
    table.register_handler(&v("chat"), 1);
    table.register_handler(&v("chat"), 2);
    assert_eq!(table.lookup(&v("chat")), Some(2));
    let hit = table.dispatch(&v("MSG chat x")).expect("a handled delivery");
    assert_eq!(hit.0, 2);
}

#[test]
fn lookup_of_an_unregistered_topic_is_none() {
    let table = HandlerTable::new();
    assert_eq!(table.lookup(&v("chat")), None);
}
