use whisper::msg::encode_pub;
use whisper::msg::encode_sub;
use whisper::msg::frame_err_bad_format;
use whisper::msg::frame_err_missing_message;
use whisper::msg::frame_err_unknown_command;
use whisper::msg::frame_msg;
use whisper::msg::frame_subscribed;
use whisper::msg::parse_frame;
use whisper::msg::parse_line;
use whisper::msg::Command;

fn v(s: &str) -> Vec<u8> {
    s.as_bytes().to_vec()
}

#[test]
fn parse_line_reads_sub() {
    match parse_line(&v("SUB weather")) {
        Command::Sub { topic } => assert_eq!(topic, v("weather")),
        _ => panic!("expected a subscription"),
    }
}

#[test]
fn parse_line_reads_pub_with_rest_of_line_message() {
    match parse_line(&v("PUB weather sunny and warm")) {
        Command::Pub { topic, message } => {
            assert_eq!(topic, v("weather"));
            assert_eq!(message, v("sunny and warm"));
        },
        _ => panic!("expected a publication"),
    }
}

#[test]
fn parse_line_flags_single_field() {
    assert!(matches!(parse_line(&v("SUB")), Command::BadFormat));
    assert!(matches!(parse_line(&v("")), Command::BadFormat));
}

#[test]
fn parse_line_flags_pub_without_message() {
    assert!(matches!(parse_line(&v("PUB weather")), Command::MissingMessage));
}

#[test]
fn parse_line_flags_unknown_verb() {
    assert!(matches!(parse_line(&v("HELLO weather")), Command::UnknownVerb));
    assert!(matches!(parse_line(&v("sub weather")), Command::UnknownVerb));
}

#[test]
fn frames_have_exactly_the_wire_bytes() {
    assert_eq!(frame_msg(&v("weather"), &v("sunny and warm")), v("MSG weather sunny and warm\n"));
    assert_eq!(frame_subscribed(&v("weather")), v("SUBSCRIBED to weather\n"));
    assert_eq!(frame_err_bad_format(), v("ERR invalid message format\n"));
    assert_eq!(frame_err_missing_message(), v("ERR missing message\n"));
    assert_eq!(frame_err_unknown_command(), v("ERR unknown command\n"));
}

#[test]
fn node_commands_have_exactly_the_wire_bytes() {
    assert_eq!(encode_sub(&v("weather")), v("SUB weather\n"));
    assert_eq!(encode_pub(&v("weather"), &v("sunny and warm")), v("PUB weather sunny and warm\n"));
}

#[test]
fn a_node_reads_back_what_a_broker_frames() {
    let mut frame = frame_msg(&v("weather"), &v("sunny and warm"));
    assert_eq!(frame.pop(), Some(b'\n'));
    let parsed = parse_frame(&frame).expect("a delivery frame");
    assert_eq!(parsed.0, v("weather"));
    assert_eq!(parsed.1, v("sunny and warm"));
}

#[test]
fn a_broker_reads_back_what_a_node_encodes() {
    let mut line = encode_sub(&v("news"));
    assert_eq!(line.pop(), Some(b'\n'));
    match parse_line(&line) {
        Command::Sub { topic } => assert_eq!(topic, v("news")),
        _ => panic!("expected a subscription"),
    }
    let mut line = encode_pub(&v("news"), &v("a b"));
    assert_eq!(line.pop(), Some(b'\n'));
    match parse_line(&line) {
        Command::Pub { topic, message } => {
            assert_eq!(topic, v("news"));
            assert_eq!(message, v("a b"));
        },
        _ => panic!("expected a publication"),
    }
}

#[test]
fn short_frames_are_not_deliveries() {
    assert!(parse_frame(&v("MSG weather")).is_none());
    assert!(parse_frame(&v("SUBSCRIBED to weather")).is_none());
    assert!(parse_frame(&v("")).is_none());
}
