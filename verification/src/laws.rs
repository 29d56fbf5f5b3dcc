//! The registry's laws: what holds of every registry state, stated
//! over the model that the executable contracts use.

use vstd::prelude::*;
use crate::broker::successes;
use crate::registry::RegistryModel;

verus! {

/// Registering keeps every topic's subscribers globally registered.
pub proof fn lemma_register_preserves_inv(m: RegistryModel, id: Seq<u8>)
    requires
        m.inv(),
    ensures
        m.register(id).inv(),
{
    assert forall|t: Seq<u8>, x: Seq<u8>| #[trigger]
        m.register(id).subs_of(t).contains(x) implies m.register(id).global.contains(x) by {
        assert(m.subs_of(t).contains(x));
    }
}

/// Subscribing a globally registered id keeps every topic's
/// subscribers globally registered.
pub proof fn lemma_subscribe_preserves_inv(m: RegistryModel, id: Seq<u8>, t: Seq<u8>)
    requires
        m.inv(),
        m.global.contains(id),
    ensures
        m.subscribe(id, t).inv(),
{
    assert forall|t2: Seq<u8>, x: Seq<u8>| #[trigger]
        m.subscribe(id, t).subs_of(t2).contains(x) implies m.subscribe(id, t).global.contains(
        x,
    ) by {
        if t2 == t {
            if x != id {
                assert(m.subs_of(t).contains(x));
            }
        } else {
            assert(m.subs_of(t2).contains(x));
        }
    }
}

/// Pruning only removes topic entries, so the containment of topic
/// subscribers in the global set is kept.
pub proof fn lemma_prune_preserves_inv(m: RegistryModel, t: Seq<u8>, failed: Set<Seq<u8>>)
    requires
        m.inv(),
    ensures
        m.prune(t, failed).inv(),
{
    assert forall|t2: Seq<u8>, x: Seq<u8>| #[trigger]
        m.prune(t, failed).subs_of(t2).contains(x) implies m.prune(t, failed).global.contains(
        x,
    ) by {
        assert(m.subs_of(t2).contains(x));
    }
}

/// Cleanup removes an id everywhere at once, so containment is kept.
pub proof fn lemma_cleanup_preserves_inv(m: RegistryModel, id: Seq<u8>)
    requires
        m.inv(),
    ensures
        m.cleanup(id).inv(),
{
    assert forall|t2: Seq<u8>, x: Seq<u8>| #[trigger]
        m.cleanup(id).subs_of(t2).contains(x) implies m.cleanup(id).global.contains(x) by {
        assert(m.subs_of(t2).contains(x));
    }
}

/// Subscribing is idempotent: a second identical subscription leaves
/// the registry exactly as the first left it, so a later publish still
/// reaches that subscriber exactly once.
pub proof fn lemma_subscribe_idempotent(m: RegistryModel, id: Seq<u8>, t: Seq<u8>)
    ensures
        m.subscribe(id, t).subscribe(id, t) == m.subscribe(id, t),
{
    let once = m.subscribe(id, t);
    let twice = once.subscribe(id, t);
    assert(once.subs_of(t) =~= m.subs_of(t).insert(id));
    assert(once.subs_of(t).insert(id) =~= m.subs_of(t).insert(id));
    assert(twice.topics =~~= once.topics);
    assert(twice =~~= once);
}

/// What subscribing changes: the named topic gains the id and nothing
/// else moves.
pub proof fn lemma_subscribe_effect(m: RegistryModel, id: Seq<u8>, t: Seq<u8>)
    ensures
        m.subscribe(id, t).global == m.global,
        m.subscribe(id, t).subs_of(t) == m.subs_of(t).insert(id),
        forall|t2: Seq<u8>| t2 != t ==> #[trigger] m.subscribe(id, t).subs_of(t2) == m.subs_of(t2),
{
    assert(m.subscribe(id, t).subs_of(t) =~= m.subs_of(t).insert(id));
}

/// After cleanup of `id`, that id is gone from the global set and from
/// every topic, and everyone else is exactly where they were: a later
/// publish reaches the remaining subscribers unaffected.
pub proof fn lemma_cleanup_removes_everywhere(m: RegistryModel, id: Seq<u8>)
    ensures
        !m.cleanup(id).global.contains(id),
        forall|t: Seq<u8>| !(#[trigger] m.cleanup(id).subs_of(t)).contains(id),
        forall|t: Seq<u8>| #[trigger] m.cleanup(id).subs_of(t) == m.subs_of(t).remove(id),
        forall|x: Seq<u8>|
            x != id ==> #[trigger] m.cleanup(id).global.contains(x) == m.global.contains(x),
{
    assert forall|t: Seq<u8>| #[trigger] m.cleanup(id).subs_of(t) == m.subs_of(t).remove(id) by {
        if m.topics.contains_key(t) {
            assert(m.cleanup(id).subs_of(t) =~= m.subs_of(t).remove(id));
        } else {
            assert(m.cleanup(id).subs_of(t) =~= m.subs_of(t).remove(id));
        }
    }
}

/// After cleanup of `id`, a topic `id` had joined has exactly one
/// subscriber fewer, so a later publish to it targets one recipient
/// fewer and the remaining live subscribers are unaffected.
pub proof fn lemma_cleanup_shrinks_topic_by_one(m: RegistryModel, id: Seq<u8>, t: Seq<u8>)
    requires
        m.subs_of(t).finite(),
        m.subs_of(t).contains(id),
    ensures
        m.cleanup(id).subs_of(t).len() == m.subs_of(t).len() - 1,
        forall|x: Seq<u8>|
            x != id ==> #[trigger] m.cleanup(id).subs_of(t).contains(x) == m.subs_of(t).contains(
                x,
            ),
{
    lemma_cleanup_removes_everywhere(m, id);
    vstd::set::axiom_set_remove_len(m.subs_of(t), id);
}

/// Partial failure during a publish to `t`: the failed ids leave `t`
/// only. A live subscriber of `t` outside `failed` stays subscribed, a
/// failed one keeps its other subscriptions and its global entry.
pub proof fn lemma_prune_partial_failure(m: RegistryModel, t: Seq<u8>, failed: Set<Seq<u8>>)
    ensures
        m.prune(t, failed).global == m.global,
        m.prune(t, failed).subs_of(t) == m.subs_of(t).difference(failed),
        forall|t2: Seq<u8>| t2 != t ==> #[trigger] m.prune(t, failed).subs_of(t2) == m.subs_of(t2),
{
    if m.topics.contains_key(t) {
        assert(m.prune(t, failed).subs_of(t) =~= m.subs_of(t).difference(failed));
    } else {
        assert(m.subs_of(t) =~= Set::<Seq<u8>>::empty());
        assert(m.prune(t, failed).subs_of(t) =~= m.subs_of(t).difference(failed));
    }
}

/// A publish to a topic with no subscribers targets nobody, delivers
/// to nobody, and leaves the registry exactly as it was.
pub proof fn lemma_publish_empty_topic(
    m: RegistryModel,
    t: Seq<u8>,
    targets: Seq<Seq<u8>>,
    failed: Set<Seq<u8>>,
)
    requires
        m.subs_of(t) == Set::<Seq<u8>>::empty(),
        targets.to_set() == m.subs_of(t),
        targets.no_duplicates(),
    ensures
        targets.len() == 0,
        successes(targets, failed) == 0,
        m.prune(t, failed) == m,
{
    if targets.len() > 0 {
        assert(targets.to_set().contains(targets[0]));
    }
    if m.topics.contains_key(t) {
        assert(m.topics[t].difference(failed) =~= m.topics[t]);
        assert(m.topics.insert(t, m.topics[t].difference(failed)) =~~= m.topics);
        assert(m.prune(t, failed) =~~= m);
    }
}

/// Each subscriber of the published topic stands in the fan-out list
/// exactly once.
pub proof fn lemma_fanout_hits_once(
    m: RegistryModel,
    t: Seq<u8>,
    targets: Seq<Seq<u8>>,
    s: Seq<u8>,
)
    requires
        targets.to_set() == m.subs_of(t),
        targets.no_duplicates(),
        m.subs_of(t).contains(s),
    ensures
        exists|i: int| 0 <= i < targets.len() && targets[i] == s,
        forall|i: int, j: int|
            0 <= i < targets.len() && 0 <= j < targets.len() && targets[i] == s && targets[j] == s
                ==> i == j,
{
    assert(targets.to_set().contains(s));
}

/// Writes that all succeed deliver to every target.
pub proof fn lemma_successes_all(targets: Seq<Seq<u8>>, failed: Set<Seq<u8>>)
    requires
        forall|i: int| 0 <= i < targets.len() ==> !failed.contains(#[trigger] targets[i]),
    ensures
        successes(targets, failed) == targets.len(),
    decreases targets.len(),
{
    if targets.len() > 0 {
        lemma_successes_all(targets.drop_last(), failed);
    }
}

/// A failed write is never counted as a delivery.
pub proof fn lemma_successes_excludes_failed(targets: Seq<Seq<u8>>, failed: Set<Seq<u8>>)
    requires
        exists|i: int| 0 <= i < targets.len() && failed.contains(#[trigger] targets[i]),
    ensures
        successes(targets, failed) < targets.len(),
    decreases targets.len(),
{
    let i = choose|i: int| 0 <= i < targets.len() && failed.contains(#[trigger] targets[i]);
    lemma_successes_at_most(targets.drop_last(), failed);
    if i < targets.len() - 1 {
        assert(targets.drop_last()[i] == targets[i]);
        lemma_successes_excludes_failed(targets.drop_last(), failed);
    }
}

/// Counting the targets outside `failed` is counting the target set
/// less `failed`.
pub proof fn lemma_successes_is_difference_len(targets: Seq<Seq<u8>>, failed: Set<Seq<u8>>)
    requires
        targets.no_duplicates(),
    ensures
        successes(targets, failed) == targets.to_set().difference(failed).len(),
    decreases targets.len(),
{
    broadcast use vstd::seq_lib::seq_to_set_is_finite;
    broadcast use vstd::set::axiom_set_difference_finite;
    broadcast use vstd::set::axiom_set_insert_len;

    if targets.len() == 0 {
        assert(targets.to_set().difference(failed) =~= Set::<Seq<u8>>::empty());
    } else {
        let s = targets.drop_last();
        let x = targets.last();
        lemma_successes_is_difference_len(s, failed);
        assert(!s.contains(x)) by {
            if s.contains(x) {
                let i = choose|i: int| 0 <= i < s.len() && s[i] == x;
                assert(targets[i] == x);
            }
        }
        assert(targets.to_set() =~= s.to_set().insert(x)) by {
            assert forall|y: Seq<u8>| #[trigger] targets.contains(y) implies (s.contains(y) || y
                == x) by {
                let i = choose|i: int| 0 <= i < targets.len() && targets[i] == y;
                if i < targets.len() - 1 {
                    assert(s[i] == y);
                }
            }
            assert forall|y: Seq<u8>| #[trigger] s.contains(y) implies targets.contains(y) by {
                let i = choose|i: int| 0 <= i < s.len() && s[i] == y;
                assert(targets[i] == y);
            }
            assert(targets[targets.len() - 1] == x);
            assert(targets.contains(x));
        }
        if failed.contains(x) {
            assert(targets.to_set().difference(failed) =~= s.to_set().difference(failed));
        } else {
            assert(targets.to_set().difference(failed) =~= s.to_set().difference(failed).insert(
                x,
            ));
            assert(!s.to_set().difference(failed).contains(x));
        }
    }
}

/// The delivered count of a publish equals the number of subscribers
/// the topic keeps once its failed writes are pruned.
pub proof fn lemma_count_matches_pruned_topic(
    m: RegistryModel,
    t: Seq<u8>,
    targets: Seq<Seq<u8>>,
    failed: Set<Seq<u8>>,
)
    requires
        targets.no_duplicates(),
        targets.to_set() == m.subs_of(t),
    ensures
        successes(targets, failed) == m.prune(t, failed).subs_of(t).len(),
{
    lemma_prune_partial_failure(m, t, failed);
    lemma_successes_is_difference_len(targets, failed);
}

/// Delivery never exceeds the number of targets.
pub proof fn lemma_successes_at_most(targets: Seq<Seq<u8>>, failed: Set<Seq<u8>>)
    ensures
        successes(targets, failed) <= targets.len(),
    decreases targets.len(),
{
    if targets.len() > 0 {
        lemma_successes_at_most(targets.drop_last(), failed);
    }
}

} // verus!
