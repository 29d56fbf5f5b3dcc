//! The client node's verified core: the topic-to-handler table and the
//! dispatch of received lines.
//!
//! A handler itself runs arbitrary code, so the table holds an opaque
//! handle (a caller-chosen number) per topic; the caller keeps the
//! callables and invokes the one whose handle [`HandlerTable::dispatch`]
//! names. Outgoing commands are framed by [`crate::msg::encode_sub`]
//! and [`crate::msg::encode_pub`].

use vstd::prelude::*;
use crate::bytes::bytes_clone;
use crate::bytes::bytes_eq;
use crate::msg::parse_frame;
use crate::msg::parse_frame_spec;

verus! {

/// A node's registered topic handlers: one handle per topic,
/// last-write-wins.
pub struct HandlerTable {
    entries: Vec<(Vec<u8>, u64)>,
}

impl View for HandlerTable {
    type V = Map<Seq<u8>, u64>;

    closed spec fn view(&self) -> Map<Seq<u8>, u64> {
        Map::new(
            |t: Seq<u8>| self.has_topic(t),
            |t: Seq<u8>| self.entries@[self.index_of(t)].1,
        )
    }
}

impl HandlerTable {
    spec fn has_topic(&self, t: Seq<u8>) -> bool {
        exists|i: int| 0 <= i < self.entries@.len() && self.entries@[i].0@ == t
    }

    spec fn index_of(&self, t: Seq<u8>) -> int {
        choose|i: int| 0 <= i < self.entries@.len() && self.entries@[i].0@ == t
    }

    /// Each topic is listed at most once.
    pub closed spec fn wf(&self) -> bool {
        forall|i: int, j: int|
            0 <= i < j < self.entries@.len() ==> self.entries@[i].0@ != self.entries@[j].0@
    }

    proof fn lemma_entry(&self, i: int)
        requires
            self.wf(),
            0 <= i < self.entries@.len(),
        ensures
            self.has_topic(self.entries@[i].0@),
            self.index_of(self.entries@[i].0@) == i,
            self@.contains_key(self.entries@[i].0@),
            self@[self.entries@[i].0@] == self.entries@[i].1,
    {
        let t = self.entries@[i].0@;
        assert(0 <= i < self.entries@.len() && self.entries@[i].0@ == t);
        let j = self.index_of(t);
        assert(0 <= j < self.entries@.len() && self.entries@[j].0@ == t);
        if i != j {
            assert(false);
        }
    }

    /// A table with no handlers.
    pub fn new() -> (r: HandlerTable)
        ensures
            r.wf(),
            r@ == Map::<Seq<u8>, u64>::empty(),
    {
        let r = HandlerTable { entries: Vec::new() };
        proof {
            assert(r@ =~= Map::<Seq<u8>, u64>::empty());
        }
        r
    }

    fn find(&self, topic: &Vec<u8>) -> (r: Option<usize>)
        ensures
            match r {
                Some(i) => 0 <= i < self.entries@.len() && self.entries@[i as int].0@ == topic@,
                None => !self.has_topic(topic@),
            },
    {
        let mut i: usize = 0;
        while i < self.entries.len()
            invariant
                i <= self.entries@.len(),
                forall|j: int| 0 <= j < i ==> self.entries@[j].0@ != topic@,
            decreases self.entries@.len() - i,
        {
            if bytes_eq(&self.entries[i].0, topic) {
                return Some(i);
            }
            i = i + 1;
        }
        None
    }

    /// Installs `handle` for `topic`; registering a topic twice
    /// replaces the earlier handle.
    pub fn register_handler(&mut self, topic: &Vec<u8>, handle: u64)
        requires
            old(self).wf(),
        ensures
            final(self).wf(),
            final(self)@ == old(self)@.insert(topic@, handle),
    {
        let found = self.find(topic);
        match found {
            Some(i) => {
                proof {
                    old(self).lemma_entry(i as int);
                }
                let e = self.entries.remove(i);
                self.entries.insert(i, (e.0, handle));
                proof {
                    assert(self.entries@ =~= old(self).entries@.update(i as int, (e.0, handle)));
                    self.lemma_table_eq(old(self), topic@, handle, i as int);
                }
            },
            None => {
                self.entries.push((bytes_clone(topic), handle));
                proof {
                    self.lemma_table_eq(old(self), topic@, handle, old(self).entries@.len() as int);
                }
            },
        }
    }

    /// After placing `(topic, handle)` at index `i` (in place of the
    /// old entry for `topic`, or appended when there was none), the
    /// table is the old map with that pair inserted.
    proof fn lemma_table_eq(&self, pre: &HandlerTable, t: Seq<u8>, handle: u64, i: int)
        requires
            pre.wf(),
            0 <= i < self.entries@.len(),
            self.entries@[i].0@ == t,
            self.entries@[i].1 == handle,
            forall|k: int|
                0 <= k < self.entries@.len() && k != i ==> 0 <= k < pre.entries@.len()
                    && self.entries@[k] == pre.entries@[k],
            forall|k: int| 0 <= k < pre.entries@.len() && k != i ==> pre.entries@[k].0@ != t,
            i < pre.entries@.len() ==> pre.entries@[i].0@ == t,
            self.entries@.len() == pre.entries@.len() || (self.entries@.len() == pre.entries@.len()
                + 1 && i == pre.entries@.len()),
        ensures
            self.wf(),
            self@ == pre@.insert(t, handle),
    {
        assert forall|t2: Seq<u8>| #[trigger] self@.contains_key(t2) == pre@.insert(
            t,
            handle,
        ).contains_key(t2) by {
            if t2 != t {
                if pre.has_topic(t2) {
                    let k = pre.index_of(t2);
                    assert(k != i);
                    assert(self.entries@[k].0@ == t2);
                }
                if self.has_topic(t2) {
                    let k = self.index_of(t2);
                    assert(k != i);
                    assert(pre.entries@[k].0@ == t2);
                }
            }
        }
        assert forall|t2: Seq<u8>| self@.contains_key(t2) implies #[trigger] self@[t2] == pre@.insert(
            t,
            handle,
        )[t2] by {
            let k = self.index_of(t2);
            assert(0 <= k < self.entries@.len() && self.entries@[k].0@ == t2);
            self.lemma_entry(k);
            if k == i {
                assert(t2 == t);
            } else {
                assert(t2 != t);
                pre.lemma_entry(k);
            }
        }
        assert(self@ =~= pre@.insert(t, handle));
    }

    /// The handle registered for `topic`, if any.
    pub fn lookup(&self, topic: &Vec<u8>) -> (r: Option<u64>)
        requires
            self.wf(),
        ensures
            match r {
                Some(h) => self@.contains_key(topic@) && self@[topic@] == h,
                None => !self@.contains_key(topic@),
            },
    {
        let found = self.find(topic);
        match found {
            Some(i) => {
                proof {
                    self.lemma_entry(i as int);
                }
                Some(self.entries[i].1)
            },
            None => None,
        }
    }

    /// Reads one received line: a delivery frame whose topic has a
    /// registered handler names that handle and the message body; a
    /// malformed line, a non-delivery line, and a topic without a
    /// handler are all dropped.
    pub fn dispatch(&self, line: &Vec<u8>) -> (r: Option<(u64, Vec<u8>)>)
        requires
            self.wf(),
        ensures
            match parse_frame_spec(line@) {
                None => r is None,
                Some(p) => {
                    if self@.contains_key(p.0) {
                        match r {
                            Some(q) => q.0 == self@[p.0] && q.1@ == p.1,
                            None => false,
                        }
                    } else {
                        r is None
                    }
                },
            },
    {
        let frame = parse_frame(line);
        match frame {
            Some((topic, body)) => {
                match self.lookup(&topic) {
                    Some(h) => Some((h, body)),
                    None => None,
                }
            },
            None => None,
        }
    }
}

} // verus!
