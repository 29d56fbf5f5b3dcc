//! The line protocol: parsing commands and framing replies.
//!
//! A wire line is a byte string without its trailing newline. A command
//! line is split on single spaces into at most three fields: a verb, a
//! topic, and an optional rest-of-line message (which may itself contain
//! spaces — only the first two splits are significant).

use vstd::prelude::*;
use crate::bytes::sub_bytes;
use crate::bytes::extend_bytes;

verus! {

pub const SPACE: u8 = 32;
pub const NEWLINE: u8 = 10;

/// The field before the first space of `s` (all of `s` if it has none).
pub open spec fn split_head(s: Seq<u8>) -> Seq<u8>
    decreases s.len(),
{
    if s.len() == 0 {
        s
    } else if s[0] == SPACE {
        Seq::empty()
    } else {
        seq![s[0]] + split_head(s.drop_first())
    }
}

/// What follows the first space of `s`, or `None` if it has none.
pub open spec fn split_rest(s: Seq<u8>) -> Option<Seq<u8>>
    decreases s.len(),
{
    if s.len() == 0 {
        None
    } else if s[0] == SPACE {
        Some(s.drop_first())
    } else {
        split_rest(s.drop_first())
    }
}

/// Splitting at the first space: if `s[i]` is the first space of `s`,
/// the head is everything before it and the rest everything after it.
pub proof fn lemma_split_at(s: Seq<u8>, i: int)
    requires
        0 <= i < s.len(),
        s[i] == SPACE,
        forall|j: int| 0 <= j < i ==> s[j] != SPACE,
    ensures
        split_head(s) == s.take(i),
        split_rest(s) == Some(s.skip(i + 1)),
    decreases i,
{
    if i == 0 {
        assert(split_head(s) =~= s.take(0));
        assert(s.drop_first() =~= s.skip(1));
    } else {
        lemma_split_at(s.drop_first(), i - 1);
        assert(seq![s[0]] + s.drop_first().take(i - 1) =~= s.take(i));
        assert(s.drop_first().skip(i) =~= s.skip(i + 1));
    }
}

/// A string without a space splits into itself and no rest.
pub proof fn lemma_split_no_space(s: Seq<u8>)
    requires
        forall|j: int| 0 <= j < s.len() ==> s[j] != SPACE,
    ensures
        split_head(s) == s,
        split_rest(s) == None::<Seq<u8>>,
    decreases s.len(),
{
    if s.len() > 0 {
        lemma_split_no_space(s.drop_first());
        assert(seq![s[0]] + s.drop_first() =~= s);
    }
}

pub open spec fn verb_sub() -> Seq<u8> {
    seq![83u8, 85u8, 66u8]
}

pub open spec fn verb_pub() -> Seq<u8> {
    seq![80u8, 85u8, 66u8]
}

pub open spec fn verb_msg() -> Seq<u8> {
    seq![77u8, 83u8, 71u8]
}

/// A command line as the broker reads it.
pub enum CommandModel {
    /// `SUB <topic>` — subscribe the sender to the topic.
    Sub { topic: Seq<u8> },
    /// `PUB <topic> <message>` — publish the message to the topic.
    Pub { topic: Seq<u8>, message: Seq<u8> },
    /// Fewer than two fields.
    BadFormat,
    /// `PUB` with no message field.
    MissingMessage,
    /// An unrecognized verb.
    UnknownVerb,
}

/// An owned command, the result of parsing one line.
pub enum Command {
    Sub { topic: Vec<u8> },
    Pub { topic: Vec<u8>, message: Vec<u8> },
    BadFormat,
    MissingMessage,
    UnknownVerb,
}

impl View for Command {
    type V = CommandModel;

    open spec fn view(&self) -> CommandModel {
        match self {
            Command::Sub { topic } => CommandModel::Sub { topic: topic@ },
            Command::Pub { topic, message } => CommandModel::Pub {
                topic: topic@,
                message: message@,
            },
            Command::BadFormat => CommandModel::BadFormat,
            Command::MissingMessage => CommandModel::MissingMessage,
            Command::UnknownVerb => CommandModel::UnknownVerb,
        }
    }
}

/// How the broker reads one line (without its trailing newline):
/// fewer than two fields is malformed; `SUB` takes the second field as
/// the topic (any third field is ignored); `PUB` needs a third field,
/// the rest of the line, as the message; any other verb is unknown.
pub open spec fn parse_spec(line: Seq<u8>) -> CommandModel {
    match split_rest(line) {
        None => CommandModel::BadFormat,
        Some(rest) => {
            let verb = split_head(line);
            let topic = split_head(rest);
            if verb == verb_sub() {
                CommandModel::Sub { topic }
            } else if verb == verb_pub() {
                match split_rest(rest) {
                    None => CommandModel::MissingMessage,
                    Some(message) => CommandModel::Pub { topic, message },
                }
            } else {
                CommandModel::UnknownVerb
            }
        },
    }
}

/// The index of the first space of `v` at or after `from`, if any.
fn find_space(v: &Vec<u8>, from: usize) -> (r: Option<usize>)
    requires
        from <= v@.len(),
    ensures
        match r {
            Some(i) => from <= i < v@.len() && v@[i as int] == SPACE && (forall|j: int|
                from <= j < i ==> v@[j] != SPACE),
            None => forall|j: int| from <= j < v@.len() ==> v@[j] != SPACE,
        },
{
    let mut i: usize = from;
    while i < v.len()
        invariant
            from <= i <= v@.len(),
            forall|j: int| from <= j < i ==> v@[j] != SPACE,
        decreases v@.len() - i,
    {
        if v[i] == SPACE {
            return Some(i);
        }
        i = i + 1;
    }
    None
}

/// Whether `v` is the three given bytes.
fn is_verb(v: &Vec<u8>, a: u8, b: u8, c: u8) -> (r: bool)
    ensures
        r == (v@ == seq![a, b, c]),
{
    if v.len() == 3 && v[0] == a && v[1] == b && v[2] == c {
        proof {
            assert(v@ =~= seq![a, b, c]);
        }
        true
    } else {
        false
    }
}

/// Parses one command line, exactly as `parse_spec` reads it.
pub fn parse_line(line: &Vec<u8>) -> (c: Command)
    ensures
        c@ == parse_spec(line@),
{
    let first = find_space(line, 0);
    match first {
        None => {
            proof {
                lemma_split_no_space(line@);
            }
            Command::BadFormat
        },
        Some(i) => {
            proof {
                lemma_split_at(line@, i as int);
            }
            let n: usize = line.len();
            let verb = sub_bytes(line, 0, i);
            let ghost rest = line@.skip(i + 1);
            let second = find_space(line, i + 1);
            let topic_end: usize = match second {
                Some(j) => j,
                None => line.len(),
            };
            let topic = sub_bytes(line, i + 1, topic_end);
            proof {
                assert(verb@ == line@.take(i as int));
                match second {
                    Some(j) => {
                        assert(rest[j - i - 1] == SPACE);
                        assert(forall|k: int| 0 <= k < j - i - 1 ==> rest[k] != SPACE);
                        lemma_split_at(rest, j - i - 1);
                        assert(topic@ =~= rest.take(j - i - 1));
                        assert(rest.skip(j - i) =~= line@.skip(j + 1));
                    },
                    None => {
                        assert(forall|k: int| 0 <= k < rest.len() ==> rest[k] != SPACE);
                        lemma_split_no_space(rest);
                        assert(topic@ =~= rest);
                    },
                }
            }
            if is_verb(&verb, 83, 85, 66) {
                Command::Sub { topic }
            } else if is_verb(&verb, 80, 85, 66) {
                match second {
                    None => Command::MissingMessage,
                    Some(j) => {
                        let message = sub_bytes(line, j + 1, n);
                        proof {
                            assert(message@ =~= rest.skip(j - i));
                        }
                        Command::Pub { topic, message }
                    },
                }
            } else {
                Command::UnknownVerb
            }
        },
    }
}

/// `s` with every trailing newline removed, as the broker trims a
/// just-read line.
pub open spec fn chomp_spec(s: Seq<u8>) -> Seq<u8>
    decreases s.len(),
{
    if s.len() > 0 && s.last() == NEWLINE {
        chomp_spec(s.drop_last())
    } else {
        s
    }
}

/// Removes every trailing newline of `line`.
pub fn chomp(line: &mut Vec<u8>)
    ensures
        final(line)@ == chomp_spec(old(line)@),
{
    while line.len() > 0 && line[line.len() - 1] == NEWLINE
        invariant
            chomp_spec(line@) == chomp_spec(old(line)@),
        decreases line@.len(),
    {
        line.pop();
    }
}

/// The framed delivery `MSG <topic> <message>\n`.
pub open spec fn msg_line(topic: Seq<u8>, message: Seq<u8>) -> Seq<u8> {
    verb_msg() + seq![SPACE] + topic + seq![SPACE] + message + seq![NEWLINE]
}

/// The subscription command `SUB <topic>\n` a node sends.
pub open spec fn sub_line(topic: Seq<u8>) -> Seq<u8> {
    verb_sub() + seq![SPACE] + topic + seq![NEWLINE]
}

/// The publication command `PUB <topic> <message>\n` a node sends.
pub open spec fn pub_line(topic: Seq<u8>, message: Seq<u8>) -> Seq<u8> {
    verb_pub() + seq![SPACE] + topic + seq![SPACE] + message + seq![NEWLINE]
}

/// The acknowledgment `SUBSCRIBED to <topic>\n`.
pub open spec fn subscribed_line(topic: Seq<u8>) -> Seq<u8> {
    seq![83u8, 85, 66, 83, 67, 82, 73, 66, 69, 68, 32, 116, 111, 32] + topic + seq![NEWLINE]
}

/// The reply `ERR invalid message format\n`.
pub open spec fn err_bad_format_line() -> Seq<u8> {
    seq![69u8, 82, 82, 32, 105, 110, 118, 97, 108, 105, 100, 32, 109, 101, 115, 115, 97, 103, 101, 32, 102, 111, 114, 109, 97, 116, 10]
}

/// The reply `ERR missing message\n`.
pub open spec fn err_missing_message_line() -> Seq<u8> {
    seq![69u8, 82, 82, 32, 109, 105, 115, 115, 105, 110, 103, 32, 109, 101, 115, 115, 97, 103, 101, 10]
}

/// The reply `ERR unknown command\n`.
pub open spec fn err_unknown_command_line() -> Seq<u8> {
    seq![69u8, 82, 82, 32, 117, 110, 107, 110, 111, 119, 110, 32, 99, 111, 109, 109, 97, 110, 100, 10]
}

/// Frames a delivery as `MSG <topic> <message>\n`.
pub fn frame_msg(topic: &Vec<u8>, message: &Vec<u8>) -> (r: Vec<u8>)
    ensures
        r@ == msg_line(topic@, message@),
{
    let mut r: Vec<u8> = Vec::new();
    r.push(77);
    r.push(83);
    r.push(71);
    r.push(SPACE);
    extend_bytes(&mut r, topic);
    r.push(SPACE);
    extend_bytes(&mut r, message);
    r.push(NEWLINE);
    proof {
        assert(r@ =~= msg_line(topic@, message@));
    }
    r
}

/// Frames the acknowledgment `SUBSCRIBED to <topic>\n`.
pub fn frame_subscribed(topic: &Vec<u8>) -> (r: Vec<u8>)
    ensures
        r@ == subscribed_line(topic@),
{
    let mut r: Vec<u8> = Vec::new();
    r.push(83);
    r.push(85);
    r.push(66);
    r.push(83);
    r.push(67);
    r.push(82);
    r.push(73);
    r.push(66);
    r.push(69);
    r.push(68);
    r.push(SPACE);
    r.push(116);
    r.push(111);
    r.push(SPACE);
    extend_bytes(&mut r, topic);
    r.push(NEWLINE);
    proof {
        assert(r@ =~= subscribed_line(topic@));
    }
    r
}

/// The bytes of `ERR invalid message format\n`.
pub fn frame_err_bad_format() -> (r: Vec<u8>)
    ensures
        r@ == err_bad_format_line(),
{
    let mut r: Vec<u8> = Vec::new();
    r.push(69);
    r.push(82);
    r.push(82);
    r.push(SPACE);
    r.push(105);
    r.push(110);
    r.push(118);
    r.push(97);
    r.push(108);
    r.push(105);
    r.push(100);
    r.push(SPACE);
    r.push(109);
    r.push(101);
    r.push(115);
    r.push(115);
    r.push(97);
    r.push(103);
    r.push(101);
    r.push(SPACE);
    r.push(102);
    r.push(111);
    r.push(114);
    r.push(109);
    r.push(97);
    r.push(116);
    r.push(NEWLINE);
    proof {
        assert(r@ =~= err_bad_format_line());
    }
    r
}

/// The bytes of `ERR missing message\n`.
pub fn frame_err_missing_message() -> (r: Vec<u8>)
    ensures
        r@ == err_missing_message_line(),
{
    let mut r: Vec<u8> = Vec::new();
    r.push(69);
    r.push(82);
    r.push(82);
    r.push(SPACE);
    r.push(109);
    r.push(105);
    r.push(115);
    r.push(115);
    r.push(105);
    r.push(110);
    r.push(103);
    r.push(SPACE);
    r.push(109);
    r.push(101);
    r.push(115);
    r.push(115);
    r.push(97);
    r.push(103);
    r.push(101);
    r.push(NEWLINE);
    proof {
        assert(r@ =~= err_missing_message_line());
    }
    r
}

/// The bytes of `ERR unknown command\n`.
pub fn frame_err_unknown_command() -> (r: Vec<u8>)
    ensures
        r@ == err_unknown_command_line(),
{
    let mut r: Vec<u8> = Vec::new();
    r.push(69);
    r.push(82);
    r.push(82);
    r.push(SPACE);
    r.push(117);
    r.push(110);
    r.push(107);
    r.push(110);
    r.push(111);
    r.push(119);
    r.push(110);
    r.push(SPACE);
    r.push(99);
    r.push(111);
    r.push(109);
    r.push(109);
    r.push(97);
    r.push(110);
    r.push(100);
    r.push(NEWLINE);
    proof {
        assert(r@ =~= err_unknown_command_line());
    }
    r
}

/// Encodes the command a node sends to subscribe to `topic`.
pub fn encode_sub(topic: &Vec<u8>) -> (r: Vec<u8>)
    ensures
        r@ == sub_line(topic@),
{
    let mut r: Vec<u8> = Vec::new();
    r.push(83);
    r.push(85);
    r.push(66);
    r.push(SPACE);
    extend_bytes(&mut r, topic);
    r.push(NEWLINE);
    proof {
        assert(r@ =~= sub_line(topic@));
    }
    r
}

/// Encodes the command a node sends to publish `message` to `topic`.
pub fn encode_pub(topic: &Vec<u8>, message: &Vec<u8>) -> (r: Vec<u8>)
    ensures
        r@ == pub_line(topic@, message@),
{
    let mut r: Vec<u8> = Vec::new();
    r.push(80);
    r.push(85);
    r.push(66);
    r.push(SPACE);
    extend_bytes(&mut r, topic);
    r.push(SPACE);
    extend_bytes(&mut r, message);
    r.push(NEWLINE);
    proof {
        assert(r@ =~= pub_line(topic@, message@));
    }
    r
}

/// A topic token: it may not contain the field separator nor the line
/// delimiter.
pub open spec fn token_ok(t: Seq<u8>) -> bool {
    forall|i: int| 0 <= i < t.len() ==> t[i] != SPACE && t[i] != NEWLINE
}

/// A message body: it may contain spaces but no newline (no escaping
/// exists on this wire).
pub open spec fn body_ok(m: Seq<u8>) -> bool {
    forall|i: int| 0 <= i < m.len() ==> m[i] != NEWLINE
}

/// Splitting a line built as `a SPACE b`, with no space in `a`, gives
/// back `a` and `b`.
proof fn lemma_split_concat(a: Seq<u8>, b: Seq<u8>)
    requires
        forall|i: int| 0 <= i < a.len() ==> a[i] != SPACE,
    ensures
        split_head(a + seq![SPACE] + b) == a,
        split_rest(a + seq![SPACE] + b) == Some(b),
    decreases a.len(),
{
    let s = a + seq![SPACE] + b;
    if a.len() == 0 {
        assert(s[0] == SPACE);
        assert(s.drop_first() =~= b);
        assert(split_head(s) =~= a);
    } else {
        assert(s[0] == a[0]);
        lemma_split_concat(a.drop_first(), b);
        assert(s.drop_first() =~= a.drop_first() + seq![SPACE] + b);
        assert(seq![s[0]] + a.drop_first() =~= a);
    }
}

/// Chomping a newline-free payload with one newline appended gives the
/// payload back.
proof fn lemma_chomp_one(a: Seq<u8>)
    requires
        forall|i: int| 0 <= i < a.len() ==> a[i] != NEWLINE,
    ensures
        chomp_spec(a + seq![NEWLINE]) == a,
{
    let s = a + seq![NEWLINE];
    assert(s.last() == NEWLINE);
    assert(s.drop_last() =~= a);
    assert(chomp_spec(s) == chomp_spec(a));
    if a.len() > 0 {
        assert(a.last() != NEWLINE);
    }
    assert(chomp_spec(a) == a);
}

/// The broker reads a node's subscription command back as exactly the
/// subscription the node meant.
pub proof fn lemma_sub_round_trip(topic: Seq<u8>)
    requires
        token_ok(topic),
    ensures
        parse_spec(chomp_spec(sub_line(topic))) == (CommandModel::Sub { topic }),
{
    let payload = verb_sub() + seq![SPACE] + topic;
    assert(sub_line(topic) =~= payload + seq![NEWLINE]);
    assert forall|i: int| 0 <= i < payload.len() implies payload[i] != NEWLINE by {
        if i >= 4 {
            assert(payload[i] == topic[i - 4]);
        }
    }
    lemma_chomp_one(payload);
    assert(forall|i: int| 0 <= i < verb_sub().len() ==> verb_sub()[i] != SPACE);
    lemma_split_concat(verb_sub(), topic);
    lemma_split_no_space(topic);
}

/// The broker reads a node's publication command back as exactly the
/// publication the node meant.
pub proof fn lemma_pub_round_trip(topic: Seq<u8>, message: Seq<u8>)
    requires
        token_ok(topic),
        body_ok(message),
    ensures
        parse_spec(chomp_spec(pub_line(topic, message))) == (CommandModel::Pub {
            topic,
            message,
        }),
{
    let tail = topic + seq![SPACE] + message;
    let payload = verb_pub() + seq![SPACE] + tail;
    assert(pub_line(topic, message) =~= payload + seq![NEWLINE]);
    assert forall|i: int| 0 <= i < payload.len() implies payload[i] != NEWLINE by {
        if 4 <= i < 4 + topic.len() {
            assert(payload[i] == topic[i - 4]);
        } else if i >= 5 + topic.len() {
            assert(payload[i] == message[i - 5 - topic.len()]);
        }
    }
    lemma_chomp_one(payload);
    assert(forall|i: int| 0 <= i < verb_pub().len() ==> verb_pub()[i] != SPACE);
    lemma_split_concat(verb_pub(), tail);
    assert forall|i: int| 0 <= i < topic.len() implies topic[i] != SPACE by {}
    lemma_split_concat(topic, message);
    assert(verb_pub()[0] != verb_sub()[0]);
}

/// How a node reads one line it receives (without its trailing
/// newline): three fields whose verb is `MSG` name a topic and a
/// message body; anything else is ignored.
pub open spec fn parse_frame_spec(line: Seq<u8>) -> Option<(Seq<u8>, Seq<u8>)> {
    match split_rest(line) {
        None => None,
        Some(rest) => match split_rest(rest) {
            None => None,
            Some(body) => if split_head(line) == verb_msg() {
                Some((split_head(rest), body))
            } else {
                None
            },
        },
    }
}

/// Parses one received line into its topic and message body, if it is
/// a delivery frame.
pub fn parse_frame(line: &Vec<u8>) -> (r: Option<(Vec<u8>, Vec<u8>)>)
    ensures
        match r {
            Some(p) => parse_frame_spec(line@) == Some((p.0@, p.1@)),
            None => parse_frame_spec(line@) is None,
        },
{
    let first = find_space(line, 0);
    match first {
        None => {
            proof {
                lemma_split_no_space(line@);
            }
            None
        },
        Some(i) => {
            proof {
                lemma_split_at(line@, i as int);
            }
            let n: usize = line.len();
            let ghost rest = line@.skip(i + 1);
            let second = find_space(line, i + 1);
            match second {
                None => {
                    proof {
                        assert(forall|k: int| 0 <= k < rest.len() ==> rest[k] != SPACE);
                        lemma_split_no_space(rest);
                    }
                    None
                },
                Some(j) => {
                    proof {
                        assert(rest[j - i - 1] == SPACE);
                        assert(forall|k: int| 0 <= k < j - i - 1 ==> rest[k] != SPACE);
                        lemma_split_at(rest, j - i - 1);
                    }
                    let verb = sub_bytes(line, 0, i);
                    if is_verb(&verb, 77, 83, 71) {
                        let topic = sub_bytes(line, i + 1, j);
                        let body = sub_bytes(line, j + 1, n);
                        proof {
                            assert(topic@ =~= rest.take(j - i - 1));
                            assert(body@ =~= rest.skip(j - i));
                        }
                        Some((topic, body))
                    } else {
                        None
                    }
                },
            }
        },
    }
}

/// A node reads a broker's delivery frame back as exactly the topic
/// and message the broker framed: each subscriber of a published topic
/// sees that one line as that publication.
pub proof fn lemma_msg_round_trip(topic: Seq<u8>, message: Seq<u8>)
    requires
        token_ok(topic),
        body_ok(message),
    ensures
        parse_frame_spec(chomp_spec(msg_line(topic, message))) == Some((topic, message)),
{
    let tail = topic + seq![SPACE] + message;
    let payload = verb_msg() + seq![SPACE] + tail;
    assert(msg_line(topic, message) =~= payload + seq![NEWLINE]);
    assert forall|i: int| 0 <= i < payload.len() implies payload[i] != NEWLINE by {
        if 4 <= i < 4 + topic.len() {
            assert(payload[i] == topic[i - 4]);
        } else if i >= 5 + topic.len() {
            assert(payload[i] == message[i - 5 - topic.len()]);
        }
    }
    lemma_chomp_one(payload);
    assert(forall|i: int| 0 <= i < verb_msg().len() ==> verb_msg()[i] != SPACE);
    lemma_split_concat(verb_msg(), tail);
    lemma_split_concat(topic, message);
}

} // verus!
