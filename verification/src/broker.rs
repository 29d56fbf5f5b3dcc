//! The broker's per-connection command dispatch.
//!
//! A connection's read loop hands each received line to [`on_line`],
//! which mutates the registry and says what to do on the wire: send a
//! reply to the sender, or fan a framed message out to a topic's
//! subscribers. After a fan-out pass the caller reports which writes
//! failed to [`settle_publish`], which prunes those subscribers from
//! the topic and counts the successful deliveries. A read loop that
//! sees end of stream calls [`Registry::cleanup`].

use vstd::prelude::*;
use crate::bytes::list_has;
use crate::bytes::views_of;
use crate::msg::chomp;
use crate::msg::chomp_spec;
use crate::msg::err_bad_format_line;
use crate::msg::err_missing_message_line;
use crate::msg::err_unknown_command_line;
use crate::msg::frame_err_bad_format;
use crate::msg::frame_err_missing_message;
use crate::msg::frame_err_unknown_command;
use crate::msg::frame_msg;
use crate::msg::frame_subscribed;
use crate::msg::msg_line;
use crate::msg::parse_line;
use crate::msg::parse_spec;
use crate::msg::subscribed_line;
use crate::msg::Command;
use crate::msg::CommandModel;
use crate::registry::Registry;
use crate::registry::RegistryModel;
use crate::laws::lemma_subscribe_preserves_inv;
use crate::laws::lemma_prune_preserves_inv;

verus! {

/// What a dispatched command asks the connection layer to do.
pub enum ActionModel {
    /// Write one line back to the sender.
    Reply { line: Seq<u8> },
    /// Write `frame` to the connection of every id in `targets`.
    Deliver { topic: Seq<u8>, targets: Seq<Seq<u8>>, frame: Seq<u8> },
}

/// The owned form of [`ActionModel`] that [`on_line`] returns.
pub enum Action {
    Reply { line: Vec<u8> },
    Deliver { topic: Vec<u8>, targets: Vec<Vec<u8>>, frame: Vec<u8> },
}

impl View for Action {
    type V = ActionModel;

    open spec fn view(&self) -> ActionModel {
        match self {
            Action::Reply { line } => ActionModel::Reply { line: line@ },
            Action::Deliver { topic, targets, frame } => ActionModel::Deliver {
                topic: topic@,
                targets: views_of(targets@),
                frame: frame@,
            },
        }
    }
}

/// How one received line, from the connection with id `id`, takes the
/// registry from `pre` to `post` and what goes out on the wire:
/// - `SUB <topic>` subscribes `id` and acknowledges it;
/// - `PUB <topic> <message>` leaves the registry as it is and fans the
///   framed message out to each current subscriber of the topic exactly
///   once, with no reply to the publisher;
/// - a line with fewer than two fields, a `PUB` without a message, and
///   an unknown verb each earn their error reply and change nothing.
pub open spec fn step_spec(
    pre: RegistryModel,
    post: RegistryModel,
    id: Seq<u8>,
    line: Seq<u8>,
    action: ActionModel,
) -> bool {
    match parse_spec(chomp_spec(line)) {
        CommandModel::Sub { topic } => post == pre.subscribe(id, topic) && action
            == ActionModel::Reply { line: subscribed_line(topic) },
        CommandModel::Pub { topic, message } => post == pre && match action {
            ActionModel::Deliver { topic: t, targets, frame } => t == topic && frame == msg_line(
                topic,
                message,
            ) && targets.no_duplicates() && targets.to_set() == pre.subs_of(topic)
                && targets.len() == pre.subs_of(topic).len(),
            _ => false,
        },
        CommandModel::BadFormat => post == pre && action == ActionModel::Reply {
            line: err_bad_format_line(),
        },
        CommandModel::MissingMessage => post == pre && action == ActionModel::Reply {
            line: err_missing_message_line(),
        },
        CommandModel::UnknownVerb => post == pre && action == ActionModel::Reply {
            line: err_unknown_command_line(),
        },
    }
}

/// Dispatches one raw line read from the connection with id `id`.
pub fn on_line(reg: &mut Registry, id: &Vec<u8>, line: Vec<u8>) -> (action: Action)
    requires
        old(reg).wf(),
    ensures
        final(reg).wf(),
        step_spec(old(reg)@, final(reg)@, id@, line@, action@),
        old(reg)@.inv() && old(reg)@.global.contains(id@) ==> final(reg)@.inv(),
{
    let mut l = line;
    chomp(&mut l);
    let cmd = parse_line(&l);
    match cmd {
        Command::Sub { topic } => {
            reg.subscribe(id, &topic);
            proof {
                if old(reg)@.inv() && old(reg)@.global.contains(id@) {
                    lemma_subscribe_preserves_inv(old(reg)@, id@, topic@);
                }
            }
            Action::Reply { line: frame_subscribed(&topic) }
        },
        Command::Pub { topic, message } => {
            let targets = reg.fanout(&topic);
            let frame = frame_msg(&topic, &message);
            Action::Deliver { topic, targets, frame }
        },
        Command::BadFormat => Action::Reply { line: frame_err_bad_format() },
        Command::MissingMessage => Action::Reply { line: frame_err_missing_message() },
        Command::UnknownVerb => Action::Reply { line: frame_err_unknown_command() },
    }
}

/// How many of `targets` are delivered when the writes to `failed`
/// fail: one per target outside `failed`.
pub open spec fn successes(targets: Seq<Seq<u8>>, failed: Set<Seq<u8>>) -> nat
    decreases targets.len(),
{
    if targets.len() == 0 {
        0
    } else {
        successes(targets.drop_last(), failed) + if failed.contains(targets.last()) {
            0nat
        } else {
            1nat
        }
    }
}

/// Counts the targets whose writes succeeded.
pub fn delivered_count(targets: &Vec<Vec<u8>>, failed: &Vec<Vec<u8>>) -> (n: usize)
    ensures
        n == successes(views_of(targets@), views_of(failed@).to_set()),
{
    let mut n: usize = 0;
    let mut i: usize = 0;
    while i < targets.len()
        invariant
            i <= targets@.len(),
            n <= i,
            n == successes(views_of(targets@).take(i as int), views_of(failed@).to_set()),
        decreases targets@.len() - i,
    {
        proof {
            assert(views_of(targets@).take(i + 1).drop_last() =~= views_of(targets@).take(i as int));
            assert(views_of(targets@).take(i + 1).last() == targets@[i as int]@);
        }
        if !list_has(failed, &targets[i]) {
            n = n + 1;
        }
        i = i + 1;
    }
    proof {
        assert(views_of(targets@).take(targets@.len() as int) =~= views_of(targets@));
    }
    n
}

/// Ends one publish pass. The subscribers whose writes failed leave
/// this topic's set only — the global set and every other topic keep
/// them — and the returned count of successful deliveries excludes
/// them. Best effort: a failed write never aborts the fan-out.
pub fn settle_publish(
    reg: &mut Registry,
    topic: &Vec<u8>,
    targets: &Vec<Vec<u8>>,
    failed: &Vec<Vec<u8>>,
) -> (n: usize)
    requires
        old(reg).wf(),
    ensures
        final(reg).wf(),
        final(reg)@ == old(reg)@.prune(topic@, views_of(failed@).to_set()),
        n == successes(views_of(targets@), views_of(failed@).to_set()),
        old(reg)@.inv() ==> final(reg)@.inv(),
{
    let n = delivered_count(targets, failed);
    reg.prune(topic, failed);
    proof {
        if old(reg)@.inv() {
            lemma_prune_preserves_inv(old(reg)@, topic@, views_of(failed@).to_set());
        }
    }
    n
}

} // verus!
