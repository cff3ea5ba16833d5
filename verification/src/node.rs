//! The node: its state, and the operations that stamp, send and record
//! messages.

use crate::message::{msgs_view, Body, Msg, MsgView, Payload, PayloadView};
use crate::model::{
    items_for, lemma_propagated_all_empty, lemma_propagated_all_inv, lemma_propagated_all_push,
    lemma_resent_inv, lemma_resent_step, lemma_targets_step, targets_of, Item, NodeView,
};
use std::collections::{HashMap, HashSet};
use vstd::prelude::*;
use vstd::std_specs::hash::*;
use vstd::std_specs::iter::IteratorSpec;

verus! {

broadcast use group_hash_axioms;

/// One participant of the cluster. Its identity and peer list are fixed
/// when it is made; the counter, the seen values and the pending table
/// change as it handles events.
pub struct Node {
    id: String,
    nodes: Vec<String>,
    msg_ids: u64,
    messages: HashSet<usize>,
    pending: HashMap<u64, (String, Body)>,
}

/// References to distinct values refer to distinct values.
proof fn lemma_unref_no_duplicates<T>(refs: Seq<&T>)
    requires
        refs.no_duplicates(),
    ensures
        refs.unref().no_duplicates(),
{
    assert forall|i: int, j: int|
        0 <= i < refs.len() && 0 <= j < refs.len() && i != j implies refs.unref()[i]
        != refs.unref()[j] by {
        assert(refs[i] != refs[j]);
    }
}

/// The value of a pending entry.
pub open spec fn item_view(entry: (String, Body)) -> Item {
    (entry.0@, entry.1@)
}

impl View for Node {
    type V = NodeView;

    closed spec fn view(&self) -> NodeView {
        NodeView {
            id: self.id@,
            nodes: self.nodes.deep_view(),
            msg_ids: self.msg_ids,
            messages: self.messages@,
            pending: self.pending@.map_values(|entry: (String, Body)| item_view(entry)),
        }
    }
}

impl Node {
    /// A node named `id` with peer list `nodes`, which has sent nothing,
    /// seen nothing and awaits nothing.
    pub fn new(id: String, nodes: Vec<String>) -> (node: Node)
        ensures
            node@ == NodeView::initial(id@, nodes.deep_view()),
            node@.inv(),
    {
        let node = Node {
            id,
            nodes,
            msg_ids: 0,
            messages: HashSet::new(),
            pending: HashMap::new(),
        };
        assert(node@.pending =~= Map::empty());
        node
    }

    /// This node's id.
    pub fn id(&self) -> (id: &String)
        ensures
            id@ == self@.id,
    {
        &self.id
    }

    /// The peer list, this node included.
    pub fn nodes(&self) -> (nodes: &Vec<String>)
        ensures
            nodes.deep_view() == self@.nodes,
    {
        &self.nodes
    }

    /// The id that the last outbound message was stamped with; zero if
    /// none was sent.
    pub fn msg_ids(&self) -> (n: u64)
        ensures
            n == self@.msg_ids,
    {
        self.msg_ids
    }

    /// Whether `value` was broadcast to this node before.
    pub fn has_seen(&self, value: usize) -> (seen: bool)
        ensures
            seen == self@.messages.contains(value),
    {
        self.messages.contains(&value)
    }

    /// How many propagations await an acknowledgement.
    pub fn pending_len(&self) -> (n: usize)
        ensures
            n == self@.pending.len(),
    {
        assert(self@.pending.dom() =~= self.pending@.dom());
        self.pending.len()
    }

    /// The propagation that is pending under `msg_id`, if there is one:
    /// its destination and the body as it was last sent.
    pub fn pending_entry(&self, msg_id: u64) -> (entry: Option<(String, Body)>)
        ensures
            match entry {
                Some(e) => self@.pending.contains_key(msg_id) && item_view(e)
                    == self@.pending[msg_id],
                None => !self@.pending.contains_key(msg_id),
            },
    {
        match self.pending.get(&msg_id) {
            Some(e) => Some((e.0.clone(), e.1.clone())),
            None => None,
        }
    }

    /// Whether the counter can hand out `n` more ids.
    pub fn has_room(&self, n: usize) -> (ok: bool)
        ensures
            ok == self@.has_room(n as nat),
    {
        n as u128 <= (u64::MAX - self.msg_ids) as u128
    }

    /// Stamps `body` with the next message id and wraps it in an envelope
    /// from this node to `dest`. The envelope is returned for the caller
    /// to put on the wire.
    pub fn send(&mut self, dest: &str, body: Body) -> (msg: Msg)
        requires
            old(self)@.has_room(1),
        ensures
            final(self)@ == old(self)@.sent(),
            msg@ == old(self)@.envelope(dest@, body@),
            old(self)@.inv() ==> final(self)@.inv(),
    {
        self.msg_ids = self.msg_ids + 1;
        let mut body = body;
        body.msg_id = Some(self.msg_ids);
        Msg { src: self.id.clone(), dest: dest.to_owned(), body }
    }

    /// Propagates `body` to `dest`: sends it under a fresh message id and
    /// records it as pending under that id, so that it can be sent again
    /// until `dest` acknowledges it.
    pub fn rpc(&mut self, dest: &str, body: Body) -> (msg: Msg)
        requires
            old(self)@.has_room(1),
        ensures
            final(self)@ == old(self)@.propagated(dest@, body@),
            msg@ == old(self)@.envelope(dest@, body@),
            old(self)@.inv() ==> final(self)@.inv(),
    {
        let msg = self.send(dest, body);
        self.pending.insert(self.msg_ids, (msg.dest.clone(), msg.body.clone()));
        assert(self@.pending =~= old(self)@.propagated(dest@, body@).pending);
        msg
    }

    /// The seen values, once each, in the order the set hands them out.
    pub fn seen_values(&self) -> (values: Vec<usize>)
        ensures
            values@.no_duplicates(),
            values@.to_set() == self@.messages,
    {
        let mut values: Vec<usize> = Vec::new();
        let ghost all = self.messages.iter().remaining().unref();
        proof {
            lemma_unref_no_duplicates(self.messages.iter().remaining());
        }
        for value in it: self.messages.iter()
            invariant
                it.seq().unref() == all,
                values@ == all.take(it.index()),
        {
            values.push(*value);
        }
        assert(values@ =~= all);
        values
    }

    /// Handles one inbound message and returns what goes on the wire, in
    /// order. A value not seen before is recorded and propagated to every
    /// peer but this node and the sender; an acknowledgement clears the
    /// pending entry that its `in_reply_to` names, if there is one; every
    /// request is answered with its reply, which comes last.
    pub fn handle(&mut self, msg: &Msg) -> (out: Vec<Msg>)
        requires
            old(self)@.inv(),
            old(self)@.has_room(old(self)@.stamps_needed(msg@)),
        ensures
            final(self)@ == old(self)@.handled(msg@),
            old(self)@.delivers(msg@, msgs_view(out@)),
            out@.len() == old(self)@.stamps_needed(msg@),
            final(self)@.inv(),
    {
        let mut out: Vec<Msg> = Vec::new();
        let ghost start = self@;
        proof {
            lemma_propagated_all_empty(start);
        }
        match &msg.body.extra {
            Payload::Broadcast { message } => {
                if !self.messages.contains(message) {
                    self.messages.insert(*message);
                    let ghost recorded = self@;
                    self.forward(msg, &mut out);
                    proof {
                        let items = start.forward_items(msg@);
                        assert(recorded.propagated_all(items).pending
                            =~= start.propagated_all(items).pending);
                    }
                }
            },
            Payload::BroadcastOk => {
                if let Some(acked) = msg.body.in_reply_to {
                    self.pending.remove(&acked);
                    assert(self@.pending =~= start.pending.remove(acked));
                }
            },
            _ => {},
        }
        assert(msgs_view(out@) == start.forwards(msg@));
        if let Some(answer) = msg.body.reply(self) {
            let reply = self.send(msg.src.as_str(), answer);
            proof {
                let before = msgs_view(out@);
                assert(msgs_view(out@.push(reply)) =~= before.push(reply@));
                assert(before.push(reply@).take(before.len() as int) =~= before);
            }
            out.push(reply);
        }
        out
    }

    /// Propagates the body of `msg` to every peer but this node and the
    /// sender, and appends the envelopes to `out`.
    fn forward(&mut self, msg: &Msg, out: &mut Vec<Msg>)
        requires
            old(self)@.inv(),
            old(self)@.has_room(
                items_for(old(self)@.targets(msg@.src), msg@.body).len(),
            ),
        ensures
            final(self)@ == old(self)@.propagated_all(
                items_for(old(self)@.targets(msg@.src), msg@.body),
            ),
            msgs_view(final(out)@) == msgs_view(old(out)@) + old(self)@.propagations(
                items_for(old(self)@.targets(msg@.src), msg@.body),
            ),
            final(self)@.inv(),
    {
        let ghost start = self@;
        let ghost sent = msgs_view(out@);
        let ghost peers = start.nodes;
        proof {
            lemma_propagated_all_empty(start);
            reveal(Seq::filter);
            assert(items_for(targets_of(peers.take(0), start.id, msg@.src), msg@.body)
                =~= Seq::<Item>::empty());
        }
        let mut idx: usize = 0;
        while idx < self.nodes.len()
            invariant
                idx <= self.nodes.len(),
                self.nodes.deep_view() == peers,
                peers == start.nodes,
                start.inv(),
                start.has_room(items_for(start.targets(msg@.src), msg@.body).len()),
                targets_of(peers.take(idx as int), start.id, msg@.src).len() <= start.targets(
                    msg@.src,
                ).len(),
                idx == peers.len() ==> targets_of(peers.take(idx as int), start.id, msg@.src)
                    == start.targets(msg@.src),
                self@ == start.propagated_all(
                    items_for(targets_of(peers.take(idx as int), start.id, msg@.src), msg@.body),
                ),
                msgs_view(out@) == sent + start.propagations(
                    items_for(targets_of(peers.take(idx as int), start.id, msg@.src), msg@.body),
                ),
            decreases self.nodes.len() - idx,
        {
            let ghost done = items_for(
                targets_of(peers.take(idx as int), start.id, msg@.src),
                msg@.body,
            );
            proof {
                lemma_targets_step(peers, start.id, msg@.src, idx as int);
            }
            let is_self = self.nodes[idx] == self.id;
            let is_sender = self.nodes[idx] == msg.src;
            if !is_self && !is_sender {
                let dest = self.nodes[idx].clone();
                proof {
                    let item = (dest@, msg@.body);
                    assert(items_for(
                        targets_of(peers.take(idx as int + 1), start.id, msg@.src),
                        msg@.body,
                    ) =~= done.push(item));
                    lemma_propagated_all_push(start, done, item);
                }
                let envelope = self.rpc(dest.as_str(), msg.body.clone());
                proof {
                    assert((sent + start.propagations(done)).push(envelope@) =~= sent
                        + start.propagations(done).push(envelope@));
                }
                out.push(envelope);
            }
            idx = idx + 1;
        }
        proof {
            lemma_propagated_all_inv(
                start,
                items_for(start.targets(msg@.src), msg@.body),
            );
        }
    }

    /// The ids under which propagations are pending, each once, in the
    /// order the table hands them out.
    pub fn pending_ids(&self) -> (walk: Vec<u64>)
        ensures
            self@.is_walk(walk@),
    {
        let mut walk: Vec<u64> = Vec::new();
        let ghost all = self.pending.keys().remaining().unref();
        proof {
            lemma_unref_no_duplicates(self.pending.keys().remaining());
        }
        assert(self@.pending.dom() =~= self.pending@.dom());
        for key in it: self.pending.keys()
            invariant
                it.seq().unref() == all,
                walk@ == all.take(it.index()),
        {
            walk.push(*key);
        }
        assert(walk@ =~= all);
        walk
    }

    /// Sends the pending entries that `walk` names again, in that order.
    /// Each is propagated afresh: it goes out under a new message id and
    /// is pending under that id from then on, no longer under the old.
    pub fn resend(&mut self, walk: &Vec<u64>) -> (out: Vec<Msg>)
        requires
            old(self)@.inv(),
            old(self)@.is_partial_walk(walk@),
            old(self)@.has_room(walk@.len()),
        ensures
            final(self)@ == old(self)@.resent(walk@),
            msgs_view(out@) == old(self)@.resends(walk@),
            out@.len() == walk@.len(),
            final(self)@.inv(),
    {
        let mut out: Vec<Msg> = Vec::new();
        let ghost start = self@;
        proof {
            lemma_resent_inv(start, walk@);
            assert(walk@.take(0) =~= Seq::<u64>::empty());
        }
        let mut idx: usize = 0;
        while idx < walk.len()
            invariant
                idx <= walk.len(),
                start.inv(),
                start.is_partial_walk(walk@),
                start.has_room(walk@.len()),
                self@ == start.resent(walk@.take(idx as int)),
                msgs_view(out@) == start.resends(walk@.take(idx as int)),
            decreases walk.len() - idx,
        {
            proof {
                lemma_resent_step(start, walk@, idx as int);
            }
            let ghost cur = self@;
            let key = walk[idx];
            let taken = self.pending.remove(&key);
            assert(self@.pending =~= cur.pending.remove(key));
            if let Some(entry) = taken {
                let envelope = self.rpc(entry.0.as_str(), entry.1);
                out.push(envelope);
            }
            idx = idx + 1;
        }
        assert(walk@.take(walk@.len() as int) =~= walk@);
        proof {
            lemma_resent_inv(start, walk@);
        }
        out
    }

    /// One tick of the retry timer: every pending entry is sent again.
    /// The table decides the order, so the result is stated for the walk
    /// it took: some order that names every pending entry exactly once.
    pub fn gossip(&mut self) -> (out: Vec<Msg>)
        requires
            old(self)@.inv(),
            old(self)@.has_room(old(self)@.pending.len()),
        ensures
            exists|walk: Seq<u64>|
                #![trigger old(self)@.is_walk(walk)]
                {
                    &&& old(self)@.is_walk(walk)
                    &&& final(self)@ == old(self)@.resent(walk)
                    &&& msgs_view(out@) == old(self)@.resends(walk)
                },
            out@.len() == old(self)@.pending.len(),
            final(self)@.inv(),
    {
        let walk = self.pending_ids();
        proof {
            walk@.unique_seq_to_set();
            assert(self@.is_partial_walk(walk@)) by {
                assert forall|i: int| 0 <= i < walk@.len() implies self@.pending.contains_key(
                    #[trigger] walk@[i],
                ) by {
                    assert(walk@.to_set().contains(walk@[i]));
                }
            }
        }
        self.resend(&walk)
    }

    /// Whether the counter has the ids that handling `msg` takes.
    pub fn can_handle(&self, msg: &Msg) -> (ok: bool)
        ensures
            ok == self@.has_room(self@.stamps_needed(msg@)),
    {
        let mut needed: u128 = 0;
        match &msg.body.extra {
            Payload::Broadcast { message } => {
                if !self.messages.contains(message) {
                    let ghost peers = self@.nodes;
                    let mut idx: usize = 0;
                    proof {
                        reveal(Seq::filter);
                    }
                    while idx < self.nodes.len()
                        invariant
                            idx <= self.nodes.len(),
                            self.nodes.deep_view() == peers,
                            peers == self@.nodes,
                            needed <= idx,
                            needed == targets_of(peers.take(idx as int), self@.id, msg@.src).len(),
                            idx == peers.len() ==> targets_of(
                                peers.take(idx as int),
                                self@.id,
                                msg@.src,
                            ) == self@.targets(msg@.src),
                        decreases self.nodes.len() - idx,
                    {
                        proof {
                            lemma_targets_step(peers, self@.id, msg@.src, idx as int);
                        }
                        let is_self = self.nodes[idx] == self.id;
                        let is_sender = self.nodes[idx] == msg.src;
                        if !is_self && !is_sender {
                            needed = needed + 1;
                        }
                        idx = idx + 1;
                    }
                }
                needed = needed + 1;
            },
            Payload::Echo { .. }
            | Payload::Init { .. }
            | Payload::Generate
            | Payload::Read
            | Payload::Topology { .. } => {
                needed = 1;
            },
            _ => {},
        }
        needed <= (u64::MAX - self.msg_ids) as u128
    }

    /// Starts a node from the first message it is given. That message
    /// must be `init`: it names the node and its peers, and is answered
    /// with `init_ok`. Any other first message starts nothing.
    pub fn start(first: &Msg) -> (started: Option<(Node, Msg)>)
        ensures
            started is Some == first@.body.payload is Init,
            started matches Some((node, reply)) ==> {
                &&& first@.body.payload matches PayloadView::Init {
                    node_id,
                    node_ids,
                }
                &&& node@ == NodeView::initial(node_id, node_ids).sent()
                &&& NodeView::initial(node_id, node_ids).is_reply(first@, reply@)
                &&& node@.inv()
            },
    {
        match &first.body.extra {
            Payload::Init { node_id, node_ids } => {
                let peers = node_ids.clone();
                let mut node = Node::new(node_id.clone(), peers);
                let answer = first.body.reply(&node);
                match answer {
                    Some(body) => {
                        let reply = node.send(first.src.as_str(), body);
                        Some((node, reply))
                    },
                    None => None,
                }
            },
            _ => None,
        }
    }
}

} // verus!
