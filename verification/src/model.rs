//! The node as a mathematical state machine: its state, and what each
//! event does to the state and puts on the wire.

use crate::ident::generated_id;
use crate::message::{BodyView, MsgView, PayloadView};
use vstd::prelude::*;

verus! {

/// A propagation to make: the peer it goes to and the body to carry.
pub type Item = (Seq<char>, BodyView);

/// The entries of `nodes` other than `id` and `src`, in order.
pub open spec fn targets_of(nodes: Seq<Seq<char>>, id: Seq<char>, src: Seq<char>) -> Seq<
    Seq<char>,
> {
    nodes.filter(|p: Seq<char>| p != id && p != src)
}

/// One propagation of `body` to each of `targets`.
pub open spec fn items_for(targets: Seq<Seq<char>>, body: BodyView) -> Seq<Item> {
    targets.map_values(|p: Seq<char>| (p, body))
}

/// The value of a node: identity, peers, the message counter, the values
/// seen so far and the propagations that await an acknowledgement, keyed
/// by the message id they were last sent under.
pub ghost struct NodeView {
    pub id: Seq<char>,
    pub nodes: Seq<Seq<char>>,
    pub msg_ids: u64,
    pub messages: Set<usize>,
    pub pending: Map<u64, Item>,
}

impl NodeView {
    /// The state of a node that has just learnt its identity.
    pub open spec fn initial(id: Seq<char>, nodes: Seq<Seq<char>>) -> NodeView {
        NodeView { id, nodes, msg_ids: 0, messages: Set::empty(), pending: Map::empty() }
    }

    /// What holds of every reachable state: both stores are finite, and
    /// each pending entry is keyed by an id that was already handed out
    /// and that its stored body carries.
    pub open spec fn inv(self) -> bool {
        &&& self.messages.finite()
        &&& self.pending.dom().finite()
        &&& forall|k: u64| #[trigger]
            self.pending.contains_key(k) ==> k <= self.msg_ids && self.pending[k].1.msg_id
                == Some(k)
    }

    /// Whether the counter can hand out `n` more ids.
    pub open spec fn has_room(self, n: nat) -> bool {
        self.msg_ids + n <= u64::MAX
    }

    /// The `i`-th id that will be handed out, counting from zero.
    pub open spec fn id_at(self, i: int) -> u64 {
        (self.msg_ids + 1 + i) as u64
    }

    /// Whether `k` is one of the next `n` ids to be handed out.
    pub open spec fn is_next(self, k: u64, n: nat) -> bool {
        self.msg_ids < k <= self.msg_ids + n
    }

    /// The envelope that sending `body` to `dest` puts on the wire.
    pub open spec fn envelope(self, dest: Seq<char>, body: BodyView) -> MsgView {
        MsgView { src: self.id, dest, body: body.stamped(self.id_at(0)) }
    }

    /// The state after one send.
    pub open spec fn sent(self) -> NodeView {
        NodeView { msg_ids: self.id_at(0), ..self }
    }

    /// The state after propagating `body` to `dest`: the counter moves on
    /// and the propagation is pending under the id it was sent with.
    pub open spec fn propagated(self, dest: Seq<char>, body: BodyView) -> NodeView {
        NodeView {
            msg_ids: self.id_at(0),
            pending: self.pending.insert(self.id_at(0), (dest, body.stamped(self.id_at(0)))),
            ..self
        }
    }

    /// The state after propagating each of `items`, in order.
    pub open spec fn propagated_all(self, items: Seq<Item>) -> NodeView {
        NodeView {
            msg_ids: (self.msg_ids + items.len()) as u64,
            pending: Map::new(
                |k: u64| self.pending.contains_key(k) || self.is_next(k, items.len()),
                |k: u64|
                    if self.is_next(k, items.len()) {
                        let item = items[k - self.msg_ids - 1];
                        (item.0, item.1.stamped(k))
                    } else {
                        self.pending[k]
                    },
            ),
            ..self
        }
    }

    /// The envelopes that propagating each of `items` puts on the wire.
    pub open spec fn propagations(self, items: Seq<Item>) -> Seq<MsgView> {
        Seq::new(
            items.len(),
            |i: int| MsgView { src: self.id, dest: items[i].0, body: items[i].1.stamped(self.id_at(i)) },
        )
    }

    /// The peers that a value received from `src` is forwarded to: every
    /// entry of the peer list but this node and the sender.
    pub open spec fn targets(self, src: Seq<char>) -> Seq<Seq<char>> {
        targets_of(self.nodes, self.id, src)
    }

    /// Whether `msg` brings a value that this node has not seen.
    pub open spec fn is_new(self, msg: MsgView) -> bool {
        msg.body.payload matches PayloadView::Broadcast { message } && !self.messages.contains(
            message,
        )
    }

    /// The propagations that `msg` sets off.
    pub open spec fn forward_items(self, msg: MsgView) -> Seq<Item> {
        if self.is_new(msg) {
            items_for(self.targets(msg.src), msg.body)
        } else {
            Seq::empty()
        }
    }

    /// The envelopes of the propagations that `msg` sets off.
    pub open spec fn forwards(self, msg: MsgView) -> Seq<MsgView> {
        self.propagations(self.forward_items(msg))
    }

    /// The state after the side effects of `msg`, before any reply: a new
    /// value is recorded and propagated, an acknowledgement clears the
    /// entry it names, anything else changes nothing.
    pub open spec fn absorbed(self, msg: MsgView) -> NodeView {
        match msg.body.payload {
            PayloadView::Broadcast { message } => if self.is_new(msg) {
                NodeView {
                    messages: self.messages.insert(message),
                    ..self.propagated_all(self.forward_items(msg))
                }
            } else {
                self
            },
            PayloadView::BroadcastOk => match msg.body.in_reply_to {
                Some(k) => NodeView { pending: self.pending.remove(k), ..self },
                None => self,
            },
            _ => self,
        }
    }

    /// The state after `msg` was handled, reply included.
    pub open spec fn handled(self, msg: MsgView) -> NodeView {
        if msg.body.payload.is_request() {
            self.absorbed(msg).sent()
        } else {
            self.absorbed(msg)
        }
    }

    /// How many ids handling `msg` takes.
    pub open spec fn stamps_needed(self, msg: MsgView) -> nat {
        self.forward_items(msg).len() + if msg.body.payload.is_request() {
            1nat
        } else {
            0nat
        }
    }

    /// Whether `reply` is the payload this node answers `request` with.
    /// Every request has exactly one answer, but `read`: its answer lists
    /// the seen values once each, in any order.
    pub open spec fn answers(self, request: PayloadView, reply: PayloadView) -> bool {
        match request {
            PayloadView::Init { .. } => reply == PayloadView::InitOk,
            PayloadView::Echo { echo } => reply == (PayloadView::EchoOk { echo }),
            PayloadView::Generate => reply == (PayloadView::GenerateOk {
                id: generated_id(self.id, self.msg_ids),
            }),
            PayloadView::Broadcast { .. } => reply == PayloadView::BroadcastOk,
            PayloadView::Read => reply matches PayloadView::ReadOk { messages }
                && messages.no_duplicates() && messages.to_set() == self.messages,
            PayloadView::Topology { .. } => reply == PayloadView::TopologyOk,
            _ => false,
        }
    }

    /// Whether `reply` is the envelope that answers `msg` from this state.
    pub open spec fn is_reply(self, msg: MsgView, reply: MsgView) -> bool {
        &&& reply.src == self.id
        &&& reply.dest == msg.src
        &&& reply.body.msg_id == Some(self.id_at(0))
        &&& reply.body.in_reply_to == msg.body.msg_id
        &&& self.answers(msg.body.payload, reply.body.payload)
    }

    /// Whether `out` is what handling `msg` puts on the wire: first the
    /// propagations, then, for a request, the reply.
    pub open spec fn delivers(self, msg: MsgView, out: Seq<MsgView>) -> bool {
        let forwards = self.forwards(msg);
        if msg.body.payload.is_request() {
            &&& out.len() == forwards.len() + 1
            &&& out.take(forwards.len() as int) == forwards
            &&& self.absorbed(msg).is_reply(msg, out.last())
        } else {
            out == forwards
        }
    }

    /// Whether `walk` names pending entries, none twice.
    pub open spec fn is_partial_walk(self, walk: Seq<u64>) -> bool {
        &&& walk.no_duplicates()
        &&& forall|i: int| 0 <= i < walk.len() ==> self.pending.contains_key(#[trigger] walk[i])
    }

    /// Whether `walk` names every pending entry exactly once.
    pub open spec fn is_walk(self, walk: Seq<u64>) -> bool {
        &&& walk.no_duplicates()
        &&& walk.to_set() == self.pending.dom()
    }

    /// The propagations to repeat for the entries that `walk` names.
    pub open spec fn retry_items(self, walk: Seq<u64>) -> Seq<Item> {
        walk.map_values(|k: u64| self.pending[k])
    }

    /// The state with the entries that `walk` names taken out.
    pub open spec fn drained(self, walk: Seq<u64>) -> NodeView {
        NodeView { pending: self.pending.remove_keys(walk.to_set()), ..self }
    }

    /// The state after the entries that `walk` names were sent again, in
    /// that order: each leaves its old key and is pending under a new id.
    pub open spec fn resent(self, walk: Seq<u64>) -> NodeView {
        self.drained(walk).propagated_all(self.retry_items(walk))
    }

    /// The envelopes that sending those entries again puts on the wire.
    pub open spec fn resends(self, walk: Seq<u64>) -> Seq<MsgView> {
        self.propagations(self.retry_items(walk))
    }
}

/// Propagating one more item after `items` is one more single propagation.
pub proof fn lemma_propagated_all_push(s: NodeView, items: Seq<Item>, item: Item)
    requires
        s.has_room(items.len() + 1),
    ensures
        s.propagated_all(items.push(item)) == s.propagated_all(items).propagated(item.0, item.1),
        s.propagations(items.push(item)) == s.propagations(items).push(
            s.propagated_all(items).envelope(item.0, item.1),
        ),
{
    let a = s.propagated_all(items.push(item));
    let b = s.propagated_all(items).propagated(item.0, item.1);
    assert(a.pending =~= b.pending);
    assert(s.propagations(items.push(item)) =~= s.propagations(items).push(
        s.propagated_all(items).envelope(item.0, item.1),
    ));
}

/// Propagating nothing changes nothing and sends nothing.
pub proof fn lemma_propagated_all_empty(s: NodeView)
    ensures
        s.propagated_all(Seq::empty()) == s,
        s.propagations(Seq::empty()) == Seq::<MsgView>::empty(),
{
    assert(s.propagated_all(Seq::empty()).pending =~= s.pending);
    assert(s.propagations(Seq::empty()) =~= Seq::<MsgView>::empty());
}

/// Propagations keep the invariant.
pub proof fn lemma_propagated_all_inv(s: NodeView, items: Seq<Item>)
    requires
        s.inv(),
        s.has_room(items.len()),
    ensures
        s.propagated_all(items).inv(),
    decreases items.len(),
{
    if items.len() == 0 {
        assert(items =~= Seq::empty());
        lemma_propagated_all_empty(s);
    } else {
        let head = items.drop_last();
        lemma_propagated_all_inv(s, head);
        assert(items =~= head.push(items.last()));
        lemma_propagated_all_push(s, head, items.last());
    }
}

/// Taking one more entry of the peer list adds it to the targets if it
/// is neither this node nor the sender; the targets of a prefix are never
/// more than the targets of the whole list.
pub proof fn lemma_targets_step(nodes: Seq<Seq<char>>, id: Seq<char>, src: Seq<char>, n: int)
    requires
        0 <= n < nodes.len(),
    ensures
        targets_of(nodes.take(n + 1), id, src) == if nodes[n] != id && nodes[n] != src {
            targets_of(nodes.take(n), id, src).push(nodes[n])
        } else {
            targets_of(nodes.take(n), id, src)
        },
        targets_of(nodes.take(n + 1), id, src).len() <= targets_of(nodes, id, src).len(),
        targets_of(nodes.take(0), id, src) == Seq::<Seq<char>>::empty(),
        targets_of(nodes.take(nodes.len() as int), id, src) == targets_of(nodes, id, src),
{
    let pred = |p: Seq<char>| p != id && p != src;
    reveal(Seq::filter);
    assert(nodes.take(n + 1).drop_last() =~= nodes.take(n));
    assert(nodes.take(n + 1).last() == nodes[n]);
    assert(nodes =~= nodes.take(n + 1) + nodes.skip(n + 1));
    Seq::filter_distributes_over_add(nodes.take(n + 1), nodes.skip(n + 1), pred);
    assert(nodes.take(0) =~= Seq::<Seq<char>>::empty());
    assert(nodes.take(nodes.len() as int) =~= nodes);
}

/// Sending the entries of a walk again, one entry further: the next
/// entry is still pending under its old key; it leaves that key and is
/// propagated afresh.
pub proof fn lemma_resent_step(s: NodeView, walk: Seq<u64>, i: int)
    requires
        s.inv(),
        s.is_partial_walk(walk),
        s.has_room(walk.len()),
        0 <= i < walk.len(),
    ensures
        ({
            let cur = s.resent(walk.take(i));
            let key = walk[i];
            let taken = NodeView { pending: cur.pending.remove(key), ..cur };
            &&& cur.pending.contains_key(key)
            &&& cur.pending[key] == s.pending[key]
            &&& taken.has_room(1)
            &&& s.resent(walk.take(i + 1)) == taken.propagated(s.pending[key].0, s.pending[key].1)
            &&& s.resends(walk.take(i + 1)) == s.resends(walk.take(i)).push(
                taken.envelope(s.pending[key].0, s.pending[key].1),
            )
        }),
{
    let cur = s.resent(walk.take(i));
    let key = walk[i];
    let taken = NodeView { pending: cur.pending.remove(key), ..cur };
    let item = s.pending[key];
    assert(s.pending.contains_key(key));
    assert(!walk.take(i).contains(key)) by {
        if walk.take(i).contains(key) {
            let j = choose|j: int| 0 <= j < walk.take(i).len() && walk.take(i)[j] == key;
            assert(walk[j] == walk[i]);
        }
    }
    assert(s.retry_items(walk.take(i + 1)) =~= s.retry_items(walk.take(i)).push(item));
    assert(walk.take(i + 1).to_set() =~= walk.take(i).to_set().insert(key)) by {
        assert(walk.take(i + 1) =~= walk.take(i).push(key));
        walk.take(i).lemma_push_to_set_commute(key);
    }
    let next = s.resent(walk.take(i + 1));
    let step = taken.propagated(item.0, item.1);
    assert(next.pending =~= step.pending);
    assert(s.resends(walk.take(i + 1)) =~= s.resends(walk.take(i)).push(
        taken.envelope(item.0, item.1),
    ));
}

/// Sending nothing again changes nothing; sending pending entries again
/// keeps the invariant.
pub proof fn lemma_resent_inv(s: NodeView, walk: Seq<u64>)
    requires
        s.inv(),
        s.has_room(walk.len()),
    ensures
        s.resent(walk).inv(),
        s.resent(Seq::empty()) == s,
        s.resends(Seq::empty()) == Seq::<MsgView>::empty(),
{
    let drained = s.drained(walk);
    assert(drained.pending.dom().subset_of(s.pending.dom()));
    vstd::set_lib::lemma_len_subset(drained.pending.dom(), s.pending.dom());
    assert(s.retry_items(walk).len() == walk.len());
    lemma_propagated_all_inv(drained, s.retry_items(walk));
    assert(s.retry_items(Seq::empty()) =~= Seq::<Item>::empty());
    assert(s.drained(Seq::empty()).pending =~= s.pending);
    lemma_propagated_all_empty(s);
}

} // verus!
