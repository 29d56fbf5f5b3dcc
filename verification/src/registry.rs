//! The broker's subscriber registry: the set of all connected clients
//! and, per topic, the set of clients subscribed to it.
//!
//! A client is identified by a byte string, the remote-address key
//! fixed when its connection is accepted. The registry abstracts to a
//! [`RegistryModel`]: a set of ids and a map from topic to the set of
//! ids subscribed to it. An absent topic and one with an empty set are
//! both "no subscribers".

use vstd::prelude::*;
use crate::bytes::bytes_clone;
use crate::bytes::clone_list;
use crate::bytes::filter_out;
use crate::bytes::list_has;
use crate::bytes::bytes_eq;
use crate::bytes::views_of;
use crate::bytes::lemma_views_push;
use crate::bytes::lemma_seq_has_push;

verus! {

/// The mathematical state of the two registries.
#[verifier::ext_equal]
pub struct RegistryModel {
    /// The ids of all currently connected clients.
    pub global: Set<Seq<u8>>,
    /// For each known topic, the ids subscribed to it.
    pub topics: Map<Seq<u8>, Set<Seq<u8>>>,
}

impl RegistryModel {
    /// The subscribers of topic `t`; an absent topic has none.
    pub open spec fn subs_of(self, t: Seq<u8>) -> Set<Seq<u8>> {
        if self.topics.contains_key(t) {
            self.topics[t]
        } else {
            Set::empty()
        }
    }

    pub open spec fn empty() -> RegistryModel {
        RegistryModel { global: Set::empty(), topics: Map::empty() }
    }

    /// Every subscriber of any topic is also globally registered.
    pub open spec fn inv(self) -> bool {
        forall|t: Seq<u8>, id: Seq<u8>| #[trigger]
            self.subs_of(t).contains(id) ==> self.global.contains(id)
    }

    /// A newly accepted client joins the global set.
    pub open spec fn register(self, id: Seq<u8>) -> RegistryModel {
        RegistryModel { global: self.global.insert(id), topics: self.topics }
    }

    /// `id` joins topic `t`, which is created if absent.
    pub open spec fn subscribe(self, id: Seq<u8>, t: Seq<u8>) -> RegistryModel {
        RegistryModel { global: self.global, topics: self.topics.insert(t, self.subs_of(t).insert(id)) }
    }

    /// The ids in `failed` leave topic `t` only; the global set and
    /// every other topic keep them.
    pub open spec fn prune(self, t: Seq<u8>, failed: Set<Seq<u8>>) -> RegistryModel {
        if self.topics.contains_key(t) {
            RegistryModel { global: self.global, topics: self.topics.insert(t, self.topics[t].difference(failed)) }
        } else {
            self
        }
    }

    /// A disconnected client leaves the global set and every topic.
    pub open spec fn cleanup(self, id: Seq<u8>) -> RegistryModel {
        RegistryModel {
            global: self.global.remove(id),
            topics: Map::new(
                |t: Seq<u8>| self.topics.contains_key(t),
                |t: Seq<u8>| self.topics[t].remove(id),
            ),
        }
    }
}

struct TopicEntry {
    name: Vec<u8>,
    subs: Vec<Vec<u8>>,
}

/// The broker's registries: the global client list and the per-topic
/// subscriber lists.
pub struct Registry {
    global: Vec<Vec<u8>>,
    topics: Vec<TopicEntry>,
}

impl View for Registry {
    type V = RegistryModel;

    closed spec fn view(&self) -> RegistryModel {
        RegistryModel {
            global: views_of(self.global@).to_set(),
            topics: Map::new(
                |t: Seq<u8>| self.has_topic_name(t),
                |t: Seq<u8>| views_of(self.topics@[self.index_of(t)].subs@).to_set(),
            ),
        }
    }
}

impl Registry {
    spec fn has_topic_name(&self, t: Seq<u8>) -> bool {
        exists|i: int| 0 <= i < self.topics@.len() && self.topics@[i].name@ == t
    }

    spec fn index_of(&self, t: Seq<u8>) -> int {
        choose|i: int| 0 <= i < self.topics@.len() && self.topics@[i].name@ == t
    }

    /// Ids are stored without duplicates, topic names are unique.
    pub closed spec fn wf(&self) -> bool {
        &&& views_of(self.global@).no_duplicates()
        &&& (forall|i: int, j: int|
            0 <= i < j < self.topics@.len() ==> self.topics@[i].name@ != self.topics@[j].name@)
        &&& (forall|i: int|
            0 <= i < self.topics@.len() ==> views_of(#[trigger] self.topics@[i].subs@).no_duplicates())
    }

    /// With unique names, the entry that carries a name is the one the
    /// view reads for it.
    proof fn lemma_entry(&self, i: int)
        requires
            self.wf(),
            0 <= i < self.topics@.len(),
        ensures
            self.has_topic_name(self.topics@[i].name@),
            self.index_of(self.topics@[i].name@) == i,
            self@.topics.contains_key(self.topics@[i].name@),
            self@.topics[self.topics@[i].name@] == views_of(self.topics@[i].subs@).to_set(),
    {
        let t = self.topics@[i].name@;
        assert(0 <= i < self.topics@.len() && self.topics@[i].name@ == t);
        let j = self.index_of(t);
        assert(0 <= j < self.topics@.len() && self.topics@[j].name@ == t);
        if i != j {
            assert(false);
        }
    }

    /// An empty registry: no clients, no topics.
    pub fn new() -> (r: Registry)
        ensures
            r.wf(),
            r@ == RegistryModel::empty(),
    {
        let r = Registry { global: Vec::new(), topics: Vec::new() };
        proof {
            assert(r@.global =~= Set::<Seq<u8>>::empty());
            assert(r@.topics =~~= Map::<Seq<u8>, Set<Seq<u8>>>::empty());
            assert(r@ =~~= RegistryModel::empty());
        }
        r
    }

    /// Adds a newly accepted client to the global set. Adding an id
    /// that is already present leaves one entry.
    pub fn register(&mut self, id: &Vec<u8>)
        requires
            old(self).wf(),
        ensures
            final(self).wf(),
            final(self)@ == old(self)@.register(id@),
    {
        if !list_has(&self.global, id) {
            let c = bytes_clone(id);
            proof {
                lemma_views_push(self.global@, c);
                assert(!views_of(self.global@).contains(c@));
            }
            self.global.push(c);
            proof {
                assert forall|x: Seq<u8>| #[trigger] self@.global.contains(x)
                    == old(self)@.register(id@).global.contains(x) by {
                    lemma_seq_has_push(views_of(old(self).global@), id@, x);
                }
                assert(self@.global =~= old(self)@.register(id@).global);
                assert(self@.topics =~~= old(self)@.register(id@).topics);
                assert(self@ =~~= old(self)@.register(id@));
            }
        } else {
            proof {
                assert(self@.global =~= old(self)@.register(id@).global);
                assert(self@ =~~= old(self)@.register(id@));
            }
        }
    }

    fn find_topic(&self, topic: &Vec<u8>) -> (r: Option<usize>)
        ensures
            match r {
                Some(i) => 0 <= i < self.topics@.len() && self.topics@[i as int].name@ == topic@,
                None => !self.has_topic_name(topic@),
            },
    {
        let mut i: usize = 0;
        while i < self.topics.len()
            invariant
                i <= self.topics@.len(),
                forall|j: int| 0 <= j < i ==> self.topics@[j].name@ != topic@,
            decreases self.topics@.len() - i,
        {
            if bytes_eq(&self.topics[i].name, topic) {
                return Some(i);
            }
            i = i + 1;
        }
        None
    }

    /// Subscribes `id` to `topic`, creating the topic if absent.
    /// Subscribing twice leaves exactly one entry.
    pub fn subscribe(&mut self, id: &Vec<u8>, topic: &Vec<u8>)
        requires
            old(self).wf(),
        ensures
            final(self).wf(),
            final(self)@ == old(self)@.subscribe(id@, topic@),
    {
        let found = self.find_topic(topic);
        match found {
            Some(i) => {
                proof {
                    old(self).lemma_entry(i as int);
                }
                let mut entry = self.topics.remove(i);
                if !list_has(&entry.subs, id) {
                    let c = bytes_clone(id);
                    proof {
                        lemma_views_push(entry.subs@, c);
                        assert(!views_of(entry.subs@).contains(c@));
                    }
                    entry.subs.push(c);
                    proof {
                        assert forall|x: Seq<u8>| #[trigger] views_of(entry.subs@).to_set().contains(x)
                            == old(self)@.subs_of(topic@).insert(id@).contains(x) by {
                            lemma_seq_has_push(views_of(old(self).topics@[i as int].subs@), id@, x);
                        }
                        assert(views_of(entry.subs@).to_set() =~= old(self)@.subs_of(topic@).insert(id@));
                    }
                } else {
                    proof {
                        assert(views_of(entry.subs@).to_set() =~= old(self)@.subs_of(topic@).insert(id@));
                    }
                }
                self.topics.insert(i, entry);
                proof {
                    assert(self.topics@ =~= old(self).topics@.update(i as int, entry));
                    self.lemma_after_update(old(self), i as int, topic@, id@);
                }
            },
            None => {
                let mut subs: Vec<Vec<u8>> = Vec::new();
                subs.push(bytes_clone(id));
                let entry = TopicEntry { name: bytes_clone(topic), subs };
                proof {
                    assert(views_of(entry.subs@) =~= Seq::<Seq<u8>>::empty().push(id@));
                    assert(views_of(entry.subs@)[0] == id@);
                    assert(views_of(entry.subs@).contains(id@));
                    assert(!old(self)@.topics.contains_key(topic@));
                    assert(views_of(entry.subs@).to_set() =~= old(self)@.subs_of(topic@).insert(id@));
                }
                self.topics.push(entry);
                proof {
                    self.lemma_after_push(old(self), topic@, id@);
                }
            },
        }
    }

    /// After replacing entry `i` (same name, subscribers now the old
    /// ones plus `id`), the registry is the model's `subscribe`.
    proof fn lemma_after_update(&self, pre: &Registry, i: int, t: Seq<u8>, id: Seq<u8>)
        requires
            pre.wf(),
            0 <= i < pre.topics@.len(),
            pre.topics@[i].name@ == t,
            self.global@ == pre.global@,
            self.topics@.len() == pre.topics@.len(),
            self.topics@[i].name@ == t,
            views_of(self.topics@[i].subs@).no_duplicates(),
            views_of(self.topics@[i].subs@).to_set() == pre@.subs_of(t).insert(id),
            forall|k: int| 0 <= k < pre.topics@.len() && k != i ==> self.topics@[k] == pre.topics@[k],
        ensures
            self.wf(),
            self@ == pre@.subscribe(id, t),
    {
        assert(forall|k: int|
            0 <= k < self.topics@.len() ==> self.topics@[k].name@ == pre.topics@[k].name@);
        let post = pre@.subscribe(id, t);
        assert forall|t2: Seq<u8>| #[trigger] self@.topics.contains_key(t2)
            == post.topics.contains_key(t2) by {
            if pre.has_topic_name(t2) {
                let k = pre.index_of(t2);
                assert(self.topics@[k].name@ == t2);
            }
            if self.has_topic_name(t2) {
                let k = self.index_of(t2);
                assert(pre.topics@[k].name@ == t2);
            }
        }
        assert forall|t2: Seq<u8>| self@.topics.contains_key(t2) implies #[trigger] self@.topics[t2]
            == post.topics[t2] by {
            let k = self.index_of(t2);
            assert(0 <= k < self.topics@.len() && self.topics@[k].name@ == t2);
            self.lemma_entry(k);
            pre.lemma_entry(k);
            if k == i {
                assert(t2 == t);
                assert(self@.topics[t2] == pre@.subs_of(t).insert(id));
            } else {
                assert(t2 != t);
                assert(self@.topics[t2] == views_of(pre.topics@[k].subs@).to_set());
                assert(post.topics[t2] == pre@.topics[t2]);
            }
        }
        assert(self@.topics =~~= post.topics);
        assert(self@.global =~= post.global);
        assert(self@ =~~= post);
    }

    /// After appending a fresh topic entry holding `id` alone, the
    /// registry is the model's `subscribe`.
    proof fn lemma_after_push(&self, pre: &Registry, t: Seq<u8>, id: Seq<u8>)
        requires
            pre.wf(),
            !pre.has_topic_name(t),
            self.global@ == pre.global@,
            self.topics@.len() == pre.topics@.len() + 1,
            self.topics@.last().name@ == t,
            views_of(self.topics@.last().subs@).no_duplicates(),
            views_of(self.topics@.last().subs@).to_set() == pre@.subs_of(t).insert(id),
            forall|k: int| 0 <= k < pre.topics@.len() ==> self.topics@[k] == pre.topics@[k],
        ensures
            self.wf(),
            self@ == pre@.subscribe(id, t),
    {
        let n = pre.topics@.len() as int;
        assert(forall|k: int| 0 <= k < n ==> self.topics@[k].name@ == pre.topics@[k].name@);
        assert(forall|k: int| 0 <= k < n ==> self.topics@[k].name@ != t);
        let post = pre@.subscribe(id, t);
        assert forall|t2: Seq<u8>| #[trigger] self@.topics.contains_key(t2)
            == post.topics.contains_key(t2) by {
            if pre.has_topic_name(t2) {
                let k = pre.index_of(t2);
                assert(self.topics@[k].name@ == t2);
            }
            if self.has_topic_name(t2) && t2 != t {
                let k = self.index_of(t2);
                assert(k < n);
                assert(pre.topics@[k].name@ == t2);
            }
            assert(self.topics@[n].name@ == t);
        }
        assert forall|t2: Seq<u8>| self@.topics.contains_key(t2) implies #[trigger] self@.topics[t2]
            == post.topics[t2] by {
            let k = self.index_of(t2);
            assert(0 <= k < self.topics@.len() && self.topics@[k].name@ == t2);
            self.lemma_entry(k);
            if k == n {
                assert(t2 == t);
            } else {
                assert(t2 != t);
                pre.lemma_entry(k);
                assert(self@.topics[t2] == views_of(pre.topics@[k].subs@).to_set());
                assert(post.topics[t2] == pre@.topics[t2]);
            }
        }
        assert(self@.topics =~~= post.topics);
        assert(self@.global =~= post.global);
        assert(self@ =~~= post);
    }

    /// The current subscribers of `topic`, each id exactly once, in an
    /// unspecified order. The registry itself is untouched, so a topic
    /// nobody subscribes to gains no entry.
    pub fn fanout(&self, topic: &Vec<u8>) -> (targets: Vec<Vec<u8>>)
        requires
            self.wf(),
        ensures
            views_of(targets@).no_duplicates(),
            views_of(targets@).to_set() == self@.subs_of(topic@),
            targets@.len() == self@.subs_of(topic@).len(),
    {
        let found = self.find_topic(topic);
        match found {
            Some(i) => {
                proof {
                    self.lemma_entry(i as int);
                }
                let targets = clone_list(&self.topics[i].subs);
                proof {
                    views_of(targets@).unique_seq_to_set();
                }
                targets
            },
            None => {
                let targets: Vec<Vec<u8>> = Vec::new();
                proof {
                    assert(views_of(targets@).to_set() =~= Set::<Seq<u8>>::empty());
                    views_of(targets@).unique_seq_to_set();
                }
                targets
            },
        }
    }

    /// Removes the ids in `failed` from `topic`'s set only: the global
    /// set and every other topic keep them. A topic the registry does
    /// not hold is left as it is.
    pub fn prune(&mut self, topic: &Vec<u8>, failed: &Vec<Vec<u8>>)
        requires
            old(self).wf(),
        ensures
            final(self).wf(),
            final(self)@ == old(self)@.prune(topic@, views_of(failed@).to_set()),
    {
        let found = self.find_topic(topic);
        match found {
            Some(i) => {
                proof {
                    old(self).lemma_entry(i as int);
                }
                let mut entry = self.topics.remove(i);
                let kept = filter_out(&entry.subs, failed);
                entry.subs = kept;
                self.topics.insert(i, entry);
                proof {
                    assert(self.topics@ =~= old(self).topics@.update(i as int, entry));
                    self.lemma_after_prune(old(self), i as int, topic@, views_of(failed@).to_set());
                }
            },
            None => {
                proof {
                    assert(self@ =~~= old(self)@.prune(topic@, views_of(failed@).to_set()));
                }
            },
        }
    }

    /// After replacing entry `i` (same name, subscribers now the old
    /// ones less `failed`), the registry is the model's `prune`.
    proof fn lemma_after_prune(&self, pre: &Registry, i: int, t: Seq<u8>, failed: Set<Seq<u8>>)
        requires
            pre.wf(),
            0 <= i < pre.topics@.len(),
            pre.topics@[i].name@ == t,
            self.global@ == pre.global@,
            self.topics@.len() == pre.topics@.len(),
            self.topics@[i].name@ == t,
            views_of(self.topics@[i].subs@).no_duplicates(),
            views_of(self.topics@[i].subs@).to_set() == views_of(
                pre.topics@[i].subs@,
            ).to_set().difference(failed),
            forall|k: int| 0 <= k < pre.topics@.len() && k != i ==> self.topics@[k] == pre.topics@[k],
        ensures
            self.wf(),
            self@ == pre@.prune(t, failed),
    {
        pre.lemma_entry(i);
        assert(forall|k: int|
            0 <= k < self.topics@.len() ==> self.topics@[k].name@ == pre.topics@[k].name@);
        let post = pre@.prune(t, failed);
        assert forall|t2: Seq<u8>| #[trigger] self@.topics.contains_key(t2)
            == post.topics.contains_key(t2) by {
            if pre.has_topic_name(t2) {
                let k = pre.index_of(t2);
                assert(self.topics@[k].name@ == t2);
            }
            if self.has_topic_name(t2) {
                let k = self.index_of(t2);
                assert(pre.topics@[k].name@ == t2);
            }
        }
        assert forall|t2: Seq<u8>| self@.topics.contains_key(t2) implies #[trigger] self@.topics[t2]
            == post.topics[t2] by {
            let k = self.index_of(t2);
            assert(0 <= k < self.topics@.len() && self.topics@[k].name@ == t2);
            self.lemma_entry(k);
            pre.lemma_entry(k);
            if k == i {
                assert(t2 == t);
            } else {
                assert(t2 != t);
                assert(self@.topics[t2] == views_of(pre.topics@[k].subs@).to_set());
                assert(post.topics[t2] == pre@.topics[t2]);
            }
        }
        assert(self@.topics =~~= post.topics);
        assert(self@.global =~= post.global);
        assert(self@ =~~= post);
    }

    /// Removes a disconnected client from the global set and from
    /// every topic's set.
    pub fn cleanup(&mut self, id: &Vec<u8>)
        requires
            old(self).wf(),
        ensures
            final(self).wf(),
            final(self)@ == old(self)@.cleanup(id@),
    {
        let mut bad: Vec<Vec<u8>> = Vec::new();
        bad.push(bytes_clone(id));
        proof {
            assert(views_of(bad@) =~= Seq::<Seq<u8>>::empty().push(id@));
            assert(views_of(bad@)[0] == id@);
            assert(views_of(bad@).contains(id@));
            assert(views_of(bad@).to_set() =~= Set::<Seq<u8>>::empty().insert(id@));
        }
        let mut i: usize = 0;
        while i < self.topics.len()
            invariant
                old(self).wf(),
                i <= self.topics@.len(),
                views_of(bad@).to_set() == Set::<Seq<u8>>::empty().insert(id@),
                self.global@ == old(self).global@,
                self.topics@.len() == old(self).topics@.len(),
                forall|k: int|
                    0 <= k < i ==> (#[trigger] self.topics@[k]).name@ == old(self).topics@[k].name@
                        && views_of(self.topics@[k].subs@).no_duplicates() && views_of(
                        self.topics@[k].subs@,
                    ).to_set() == views_of(old(self).topics@[k].subs@).to_set().remove(id@),
                forall|k: int|
                    i <= k < self.topics@.len() ==> self.topics@[k] == old(self).topics@[k],
            decreases self.topics@.len() - i,
        {
            let ghost prev = self.topics@;
            let mut entry = self.topics.remove(i);
            let kept = filter_out(&entry.subs, &bad);
            proof {
                assert(views_of(kept@).to_set() =~= views_of(entry.subs@).to_set().remove(id@));
            }
            entry.subs = kept;
            self.topics.insert(i, entry);
            proof {
                assert(self.topics@ =~= prev.update(i as int, entry));
            }
            i = i + 1;
        }
        let new_global = filter_out(&self.global, &bad);
        self.global = new_global;
        proof {
            assert(views_of(self.global@).to_set() =~= views_of(
                old(self).global@,
            ).to_set().remove(id@));
            self.lemma_after_cleanup(old(self), id@);
        }
    }

    /// After filtering `id` out of the global list and out of every
    /// topic entry, the registry is the model's `cleanup`.
    proof fn lemma_after_cleanup(&self, pre: &Registry, id: Seq<u8>)
        requires
            pre.wf(),
            views_of(self.global@).no_duplicates(),
            views_of(self.global@).to_set() == views_of(pre.global@).to_set().remove(id),
            self.topics@.len() == pre.topics@.len(),
            forall|k: int|
                0 <= k < pre.topics@.len() ==> (#[trigger] self.topics@[k]).name@
                    == pre.topics@[k].name@ && views_of(self.topics@[k].subs@).no_duplicates()
                    && views_of(self.topics@[k].subs@).to_set() == views_of(
                    pre.topics@[k].subs@,
                ).to_set().remove(id),
        ensures
            self.wf(),
            self@ == pre@.cleanup(id),
    {
        let post = pre@.cleanup(id);
        assert forall|t2: Seq<u8>| #[trigger] self@.topics.contains_key(t2)
            == post.topics.contains_key(t2) by {
            if pre.has_topic_name(t2) {
                let k = pre.index_of(t2);
                assert(self.topics@[k].name@ == t2);
            }
            if self.has_topic_name(t2) {
                let k = self.index_of(t2);
                assert(pre.topics@[k].name@ == t2);
            }
        }
        assert forall|t2: Seq<u8>| self@.topics.contains_key(t2) implies #[trigger] self@.topics[t2]
            == post.topics[t2] by {
            let k = self.index_of(t2);
            assert(0 <= k < self.topics@.len() && self.topics@[k].name@ == t2);
            self.lemma_entry(k);
            pre.lemma_entry(k);
            assert(self@.topics[t2] == views_of(pre.topics@[k].subs@).to_set().remove(id));
            assert(post.topics[t2] == pre@.topics[t2].remove(id));
        }
        assert(self@.topics =~~= post.topics);
        assert(self@.global =~= post.global);
        assert(self@ =~~= post);
    }
}

} // verus!
