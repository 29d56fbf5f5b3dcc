use whisper::broker::on_line;
use whisper::broker::settle_publish;
use whisper::broker::Action;
use whisper::registry::Registry;

fn v(s: &str) -> Vec<u8> {
    s.as_bytes().to_vec()
}

fn reply_of(action: Action) -> Vec<u8> {
    match action {
        Action::Reply { line } => line,
        Action::Deliver { .. } => panic!("expected a reply"),
    }
}

fn deliver_of(action: Action) -> (Vec<u8>, Vec<Vec<u8>>, Vec<u8>) {
    match action {
        Action::Deliver { topic, targets, frame } => (topic, targets, frame),
        Action::Reply { .. } => panic!("expected a fan-out"),
    }
}

#[test]
fn sub_without_topic_is_invalid_format() {
    let mut reg = Registry::new();
    let id = v("127.0.0.1:50000");
    reg.register(&id);
    let action = on_line(&mut reg, &id, v("SUB\n"));
    assert_eq!(reply_of(action), v("ERR invalid message format\n"));
}

#[test]
fn empty_line_is_invalid_format() {
    let mut reg = Registry::new();
    let id = v("c1");
    reg.register(&id);
    let action = on_line(&mut reg, &id, v("\n"));
    assert_eq!(reply_of(action), v("ERR invalid message format\n"));
}

#[test]
fn pub_without_message_is_missing_message() {
    let mut reg = Registry::new();
    let id = v("c1");
    reg.register(&id);
    let action = on_line(&mut reg, &id, v("PUB weather\n"));
    assert_eq!(reply_of(action), v("ERR missing message\n"));
}

#[test]
fn unrecognized_verb_is_unknown_command() {
    let mut reg = Registry::new();
    let id = v("c1");
    reg.register(&id);
    let action = on_line(&mut reg, &id, v("UNSUB weather\n"));
    assert_eq!(reply_of(action), v("ERR unknown command\n"));
}

#[test]
fn subscribe_is_acknowledged() {
    let mut reg = Registry::new();
    let id = v("c1");
    reg.register(&id);
    let action = on_line(&mut reg, &id, v("SUB weather\n"));
    assert_eq!(reply_of(action), v("SUBSCRIBED to weather\n"));
}

#[test]
fn publish_without_subscribers_delivers_to_nobody() {
    let mut reg = Registry::new();
    let id = v("c1");
    reg.register(&id);
    let action = on_line(&mut reg, &id, v("PUB weather sunny\n"));
    let (topic, targets, frame) = deliver_of(action);
    assert_eq!(topic, v("weather"));
    assert_eq!(targets.len(), 0);
    assert_eq!(frame, v("MSG weather sunny\n"));
    let n = settle_publish(&mut reg, &topic, &targets, &Vec::new());
    assert_eq!(n, 0);
}

#[test]
fn end_to_end_scenario() {
    let mut reg = Registry::new();
    let a = v("127.0.0.1:50001");
    let b = v("127.0.0.1:50002");
    reg.register(&a);
    reg.register(&b);

    // client A subscribes and is acknowledged
    let ack = on_line(&mut reg, &a, v("SUB weather\n"));
    assert_eq!(reply_of(ack), v("SUBSCRIBED to weather\n"));

    // client B publishes; A alone receives the frame, B gets no reply
    let action = on_line(&mut reg, &b, v("PUB weather sunny and warm\n"));
    let (topic, targets, frame) = deliver_of(action);
    assert_eq!(topic, v("weather"));
    assert_eq!(targets, vec![v("127.0.0.1:50001")]);
    assert_eq!(frame, v("MSG weather sunny and warm\n"));
    let n = settle_publish(&mut reg, &topic, &targets, &Vec::new());
    assert_eq!(n, 1);
}

#[test]
fn subscribing_twice_still_delivers_once() {
    let mut reg = Registry::new();
    let a = v("c1");
    let b = v("c2");
    reg.register(&a);
    reg.register(&b);
    reply_of(on_line(&mut reg, &a, v("SUB news\n")));
    reply_of(on_line(&mut reg, &a, v("SUB news\n")));
    let action = on_line(&mut reg, &b, v("PUB news hello\n"));
    let (topic, targets, frame) = deliver_of(action);
    assert_eq!(targets, vec![v("c1")]);
    assert_eq!(frame, v("MSG news hello\n"));
    let n = settle_publish(&mut reg, &topic, &targets, &Vec::new());
    assert_eq!(n, 1);
}

#[test]
fn cleanup_removes_subscriber_from_later_publishes() {
    let mut reg = Registry::new();
    let a = v("c1");
    let b = v("c2");
    let p = v("c3");
    reg.register(&a);
    reg.register(&b);
    reg.register(&p);
    reply_of(on_line(&mut reg, &a, v("SUB news\n")));
    reply_of(on_line(&mut reg, &b, v("SUB news\n")));

    // a's read loop sees end of stream
    reg.cleanup(&a);

    let action = on_line(&mut reg, &p, v("PUB news hi\n"));
    let (topic, targets, _) = deliver_of(action);
    assert_eq!(targets, vec![v("c2")]);
    let n = settle_publish(&mut reg, &topic, &targets, &Vec::new());
    assert_eq!(n, 1);
}

#[test]
fn failed_write_prunes_topic_but_keeps_other_subscriptions() {
    let mut reg = Registry::new();
    let a = v("c1");
    let b = v("c2");
    let p = v("c3");
    reg.register(&a);
    reg.register(&b);
    reg.register(&p);
    reply_of(on_line(&mut reg, &a, v("SUB news\n")));
    reply_of(on_line(&mut reg, &b, v("SUB news\n")));
    reply_of(on_line(&mut reg, &a, v("SUB sport\n")));

    // publishing to news: the write to a fails, b is delivered
    let action = on_line(&mut reg, &p, v("PUB news hi\n"));
    let (topic, targets, _) = deliver_of(action);
    assert_eq!(targets.len(), 2);
    assert!(targets.contains(&v("c1")));
    assert!(targets.contains(&v("c2")));
    let failed = vec![v("c1")];
    let n = settle_publish(&mut reg, &topic, &targets, &failed);
    assert_eq!(n, 1);

    // a is gone from news but still subscribed to sport
    let again = on_line(&mut reg, &p, v("PUB news again\n"));
    let (_, targets2, _) = deliver_of(again);
    assert_eq!(targets2, vec![v("c2")]);
    let sport = on_line(&mut reg, &p, v("PUB sport goal\n"));
    let (_, targets3, _) = deliver_of(sport);
    assert_eq!(targets3, vec![v("c1")]);
}

#[test]
fn message_keeps_its_inner_spaces() {
    let mut reg = Registry::new();
    let a = v("c1");
    let p = v("c2");
    reg.register(&a);
    reg.register(&p);
    reply_of(on_line(&mut reg, &a, v("SUB t\n")));
    let action = on_line(&mut reg, &p, v("PUB t a b   c\n"));
    let (_, _, frame) = deliver_of(action);
    assert_eq!(frame, v("MSG t a b   c\n"));
}

#[test]
fn sub_with_extra_field_uses_second_field_as_topic() {
    let mut reg = Registry::new();
    let a = v("c1");
    let p = v("c2");
    reg.register(&a);
    reg.register(&p);
    let ack = on_line(&mut reg, &a, v("SUB news extra\n"));
    assert_eq!(reply_of(ack), v("SUBSCRIBED to news\n"));
    let action = on_line(&mut reg, &p, v("PUB news hi\n"));
    let (_, targets, _) = deliver_of(action);
    assert_eq!(targets, vec![v("c1")]);
}

#[test]
fn each_subscriber_is_targeted_exactly_once() {
    let mut reg = Registry::new();
    let a = v("c1");
    let b = v("c2");
    let p = v("c3");
    reg.register(&a);
    reg.register(&b);
    reg.register(&p);
    reply_of(on_line(&mut reg, &a, v("SUB news\n")));
    reply_of(on_line(&mut reg, &b, v("SUB news\n")));
    let action = on_line(&mut reg, &p, v("PUB news hi\n"));
    let (topic, targets, frame) = deliver_of(action);
    assert_eq!(targets.len(), 2);
    assert_eq!(targets.iter().filter(|t| **t == v("c1")).count(), 1);
    assert_eq!(targets.iter().filter(|t| **t == v("c2")).count(), 1);
    assert_eq!(frame, v("MSG news hi\n"));
    assert_eq!(settle_publish(&mut reg, &topic, &targets, &Vec::new()), 2);
}

#[test]
fn all_writes_failing_empties_the_topic() {
    let mut reg = Registry::new();
    let a = v("c1");
    let p = v("c2");
    reg.register(&a);
    reg.register(&p);
    reply_of(on_line(&mut reg, &a, v("SUB news\n")));
    let action = on_line(&mut reg, &p, v("PUB news hi\n"));
    let (topic, targets, _) = deliver_of(action);
    let failed = targets.clone();
    let n = settle_publish(&mut reg, &topic, &targets, &failed);
    assert_eq!(n, 0);

    // the topic now holds an empty set; publishing to it targets nobody
    let again = on_line(&mut reg, &p, v("PUB news again\n"));
    let (topic2, targets2, _) = deliver_of(again);
    assert_eq!(targets2.len(), 0);
    assert_eq!(settle_publish(&mut reg, &topic2, &targets2, &Vec::new()), 0);
}

#[test]
fn registering_an_id_twice_keeps_one_entry() {
    let mut reg = Registry::new();
    let a = v("c1");
    let p = v("c2");
    reg.register(&a);
    reg.register(&a);
    reg.register(&p);
    reply_of(on_line(&mut reg, &a, v("SUB news\n")));
    let action = on_line(&mut reg, &p, v("PUB news hi\n"));
    let (_, targets, _) = deliver_of(action);
    assert_eq!(targets, vec![v("c1")]);
}

#[test]
fn topics_are_case_sensitive_and_independent() {
    let mut reg = Registry::new();
    let a = v("c1");
    let b = v("c2");
    let p = v("c3");
    reg.register(&a);
    reg.register(&b);
    reg.register(&p);
    reply_of(on_line(&mut reg, &a, v("SUB News\n")));
    reply_of(on_line(&mut reg, &b, v("SUB news\n")));
    let action = on_line(&mut reg, &p, v("PUB news x\n"));
    let (_, targets, _) = deliver_of(action);
    assert_eq!(targets, vec![v("c2")]);
}
