//! What holds of a node over whole histories of events, proved from the
//! state machine of [`crate::model`].

use crate::ident::{generated_id, lemma_generated_id_injective};
use crate::message::{MsgView, PayloadView};
use crate::model::{
    lemma_propagated_all_empty, lemma_propagated_all_inv, lemma_propagated_all_push,
    lemma_resent_inv, targets_of, Item, NodeView,
};
use vstd::prelude::*;

verus! {

/// One thing that happens to a node: a message is delivered to it, or
/// the retry timer ticks and the pending table is walked in some order.
pub ghost enum Event {
    Deliver(MsgView),
    Tick(Seq<u64>),
}

/// The state after one event.
pub open spec fn step(s: NodeView, e: Event) -> NodeView {
    match e {
        Event::Deliver(msg) => s.handled(msg),
        Event::Tick(walk) => s.resent(walk),
    }
}

/// The state after a history of events, oldest first.
pub open spec fn run(s: NodeView, events: Seq<Event>) -> NodeView
    decreases events.len(),
{
    if events.len() == 0 {
        s
    } else {
        step(run(s, events.drop_last()), events.last())
    }
}

/// Whether the counter of `s` has the ids that `e` takes.
pub open spec fn has_room_for(s: NodeView, e: Event) -> bool {
    match e {
        Event::Deliver(msg) => s.has_room(s.stamps_needed(msg)),
        Event::Tick(walk) => s.has_room(walk.len()),
    }
}

/// Whether the counter lasts through the whole history.
pub open spec fn feasible(s: NodeView, events: Seq<Event>) -> bool
    decreases events.len(),
{
    events.len() > 0 ==> feasible(s, events.drop_last()) && has_room_for(
        run(s, events.drop_last()),
        events.last(),
    )
}

/// Whether every tick of the history walks entries that are pending at
/// that moment, none of them twice.
pub open spec fn walks_pending(s: NodeView, events: Seq<Event>) -> bool
    decreases events.len(),
{
    events.len() > 0 ==> {
        &&& walks_pending(s, events.drop_last())
        &&& events.last() matches Event::Tick(walk) ==> run(
            s,
            events.drop_last(),
        ).is_partial_walk(walk)
    }
}

/// Whether the history holds nothing but ticks, each of which walks the
/// whole pending table of its moment.
pub open spec fn only_ticks(s: NodeView, events: Seq<Event>) -> bool
    decreases events.len(),
{
    events.len() > 0 ==> {
        &&& only_ticks(s, events.drop_last())
        &&& events.last() matches Event::Tick(walk)
        &&& run(s, events.drop_last()).is_walk(walk)
    }
}

/// Whether two entries are the same propagation: the same destination,
/// payload and `in_reply_to`, whatever message id each was sent under.
pub open spec fn same_propagation(a: Item, b: Item) -> bool {
    a.0 == b.0 && a.1.payload == b.1.payload && a.1.in_reply_to == b.1.in_reply_to
}

/// Whether `e` delivers a broadcast of `value`.
pub open spec fn brings(e: Event, value: usize) -> bool {
    e matches Event::Deliver(msg) && msg.body.payload == (PayloadView::Broadcast {
        message: value,
    })
}

/// Whether `e` delivers a `generate` request.
pub open spec fn asks_for_id(e: Event) -> bool {
    e matches Event::Deliver(msg) && msg.body.payload is Generate
}

/// The values that the history broadcast to the node.
pub open spec fn broadcast_values(events: Seq<Event>) -> Set<usize> {
    Set::new(|value: usize| exists|i: int| 0 <= i < events.len() && brings(#[trigger] events[i], value))
}

/// How often `p` occurs in `list`.
pub open spec fn occurrences(list: Seq<Seq<char>>, p: Seq<char>) -> nat
    decreases list.len(),
{
    if list.len() == 0 {
        0
    } else {
        occurrences(list.drop_last(), p) + if list.last() == p {
            1nat
        } else {
            0nat
        }
    }
}

/// The destinations of a sequence of envelopes, in order.
pub open spec fn destinations(out: Seq<MsgView>) -> Seq<Seq<char>> {
    out.map_values(|m: MsgView| m.dest)
}

/// Broadcasts are applied idempotently: after any history, whatever the
/// order, the repeats or the other events in between, the seen values
/// are those the node started with and those that were broadcast to it.
pub proof fn law_seen_values(s: NodeView, events: Seq<Event>)
    ensures
        run(s, events).messages == s.messages.union(broadcast_values(events)),
        s.messages.subset_of(run(s, events).messages),
        run(s, events).id == s.id,
        run(s, events).nodes == s.nodes,
    decreases events.len(),
{
    if events.len() == 0 {
        assert(run(s, events).messages =~= s.messages.union(broadcast_values(events)));
    } else {
        let head = events.drop_last();
        let e = events.last();
        let before = run(s, head);
        law_seen_values(s, head);
        assert forall|value: usize| #[trigger]
            broadcast_values(events).contains(value) <==> (broadcast_values(head).contains(value)
                || brings(e, value)) by {
            if broadcast_values(head).contains(value) {
                let i = choose|i: int| 0 <= i < head.len() && brings(#[trigger] head[i], value);
                assert(brings(events[i], value));
            }
            if brings(e, value) {
                assert(brings(events[events.len() - 1], value));
            }
            if broadcast_values(events).contains(value) {
                let i = choose|i: int| 0 <= i < events.len() && brings(#[trigger] events[i], value);
                if i < head.len() {
                    assert(brings(head[i], value));
                }
            }
        }
        let after = run(s, events);
        assert(after == step(before, e));
        assert forall|value: usize|
            after.messages.contains(value) <==> (before.messages.contains(value) || brings(
                e,
                value,
            )) by {
            match e {
                Event::Deliver(msg) => {
                    match msg.body.payload {
                        PayloadView::Broadcast { message } => {
                            assert(before.absorbed(msg).messages =~= before.messages.insert(
                                message,
                            ));
                        },
                        _ => {},
                    }
                },
                Event::Tick(walk) => {},
            }
        }
        assert(run(s, events).messages =~= s.messages.union(broadcast_values(events)));
    }
}

/// A `read` after any history is answered with exactly the values the
/// node started with and those broadcast to it since, each listed once.
pub proof fn law_read_lists_seen_values(s: NodeView, events: Seq<Event>, reply: PayloadView)
    requires
        run(s, events).answers(PayloadView::Read, reply),
    ensures
        reply matches PayloadView::ReadOk { messages } && messages.no_duplicates()
            && messages.to_set() == s.messages.union(broadcast_values(events)),
{
    law_seen_values(s, events);
}

/// A value is never forwarded back: no propagation that a message sets
/// off goes to this node itself or to the sender of that message. Each
/// comes from this node and carries the payload that was received.
pub proof fn law_never_forwards_back(s: NodeView, msg: MsgView)
    ensures
        forall|i: int|
            0 <= i < s.forwards(msg).len() ==> {
                let forward = #[trigger] s.forwards(msg)[i];
                &&& forward.dest != s.id
                &&& forward.dest != msg.src
                &&& forward.src == s.id
                &&& forward.body.payload == msg.body.payload
            },
{
    lemma_targets_are_eligible(s.nodes, s.id, msg.src);
    assert forall|i: int| 0 <= i < s.forwards(msg).len() implies {
        let forward = #[trigger] s.forwards(msg)[i];
        &&& forward.dest != s.id
        &&& forward.dest != msg.src
        &&& forward.src == s.id
        &&& forward.body.payload == msg.body.payload
    } by {
        assert(s.forwards(msg)[i].dest == s.targets(msg.src)[i]);
    }
}

/// No target of a peer list is the node itself or the sender, and each
/// is an entry of the list.
pub proof fn lemma_targets_are_eligible(nodes: Seq<Seq<char>>, id: Seq<char>, src: Seq<char>)
    ensures
        forall|i: int|
            0 <= i < targets_of(nodes, id, src).len() ==> {
                let p = #[trigger] targets_of(nodes, id, src)[i];
                p != id && p != src && nodes.contains(p)
            },
    decreases nodes.len(),
{
    reveal(Seq::filter);
    if nodes.len() > 0 {
        let rest = nodes.drop_last();
        lemma_targets_are_eligible(rest, id, src);
        assert forall|i: int| 0 <= i < targets_of(nodes, id, src).len() implies {
            let p = #[trigger] targets_of(nodes, id, src)[i];
            p != id && p != src && nodes.contains(p)
        } by {
            let p = targets_of(nodes, id, src)[i];
            if i < targets_of(rest, id, src).len() {
                assert(p == targets_of(rest, id, src)[i]);
                let k = choose|k: int| 0 <= k < rest.len() && rest[k] == p;
                assert(nodes[k] == p);
            } else {
                assert(p == nodes[nodes.len() - 1]);
            }
        }
    }
}

/// The targets of a peer list hold each eligible peer as often as the
/// list does, and no other.
pub proof fn lemma_target_occurrences(
    nodes: Seq<Seq<char>>,
    id: Seq<char>,
    src: Seq<char>,
    p: Seq<char>,
)
    ensures
        occurrences(targets_of(nodes, id, src), p) == if p != id && p != src {
            occurrences(nodes, p)
        } else {
            0
        },
    decreases nodes.len(),
{
    reveal(Seq::filter);
    if nodes.len() > 0 {
        lemma_target_occurrences(nodes.drop_last(), id, src, p);
        let rest = targets_of(nodes.drop_last(), id, src);
        if nodes.last() != id && nodes.last() != src {
            assert(targets_of(nodes, id, src) == rest.push(nodes.last()));
            assert(rest.push(nodes.last()).drop_last() =~= rest);
        }
    }
}

/// An entry of a list without repeats occurs in it once.
pub proof fn lemma_occurs_once(list: Seq<Seq<char>>, p: Seq<char>)
    requires
        list.no_duplicates(),
    ensures
        occurrences(list, p) == if list.contains(p) {
            1nat
        } else {
            0nat
        },
    decreases list.len(),
{
    if list.len() > 0 {
        let rest = list.drop_last();
        lemma_occurs_once(rest, p);
        if rest.contains(p) {
            let i = choose|i: int| 0 <= i < rest.len() && rest[i] == p;
            assert(list[i] == p);
            assert(list.contains(p));
            assert(list.last() != p);
        } else if list.last() == p {
            assert(list[list.len() - 1] == p);
        } else if list.contains(p) {
            let i = choose|i: int| 0 <= i < list.len() && list[i] == p;
            assert(rest[i] == p);
        }
    }
}

/// The first time a value is observed it is propagated to every peer of
/// the list but this node and the sender: the propagations go, in list
/// order, to exactly those entries, so each such peer gets as many as
/// the list names it, which is one where the list has no repeats.
pub proof fn law_first_sight_propagates(s: NodeView, msg: MsgView, p: Seq<char>)
    requires
        s.is_new(msg),
    ensures
        destinations(s.forwards(msg)) == s.targets(msg.src),
        occurrences(destinations(s.forwards(msg)), p) == if p != s.id && p != msg.src {
            occurrences(s.nodes, p)
        } else {
            0
        },
        s.nodes.no_duplicates() && s.nodes.contains(p) && p != s.id && p != msg.src
            ==> occurrences(destinations(s.forwards(msg)), p) == 1,
{
    assert(destinations(s.forwards(msg)) =~= s.targets(msg.src));
    lemma_target_occurrences(s.nodes, s.id, msg.src, p);
    if s.nodes.no_duplicates() {
        lemma_occurs_once(s.nodes, p);
    }
}

/// A value is propagated on first sight only: once a broadcast of it was
/// handled it counts as seen, and a broadcast of a seen value sets off
/// no propagation and leaves the stores as they are.
pub proof fn law_seen_value_is_not_propagated(s: NodeView, first: MsgView, again: MsgView)
    requires
        first.body.payload is Broadcast,
        again.body.payload == first.body.payload,
    ensures
        !s.handled(first).is_new(again),
        s.handled(first).forwards(again) == Seq::<MsgView>::empty(),
        s.handled(first).absorbed(again) == s.handled(first),
{
    lemma_propagated_all_empty(s.handled(first));
}

/// Every propagation is pending under the id it went out with: after a
/// new value was handled, the table maps the message id of each
/// propagation on the wire to its destination and body. What was
/// pending before is pending still: only an acknowledgement takes an
/// entry out.
pub proof fn law_forward_is_pending(s: NodeView, msg: MsgView)
    requires
        s.inv(),
        s.has_room(s.stamps_needed(msg)),
    ensures
        s.handled(msg).inv(),
        !(msg.body.payload is BroadcastOk) ==> s.handled(msg).pending.len() == s.pending.len()
            + s.forwards(msg).len(),
        !(msg.body.payload is BroadcastOk) ==> forall|key: u64| #[trigger]
            s.pending.contains_key(key) ==> s.handled(msg).pending.contains_key(key)
                && s.handled(msg).pending[key] == s.pending[key],
        forall|i: int|
            0 <= i < s.forwards(msg).len() ==> {
                let forward = #[trigger] s.forwards(msg)[i];
                &&& forward.body.msg_id == Some(s.id_at(i))
                &&& s.handled(msg).pending.contains_key(s.id_at(i))
                &&& s.handled(msg).pending[s.id_at(i)] == (forward.dest, forward.body)
            },
{
    lemma_handled_inv(s, msg);
    lemma_propagated_all_empty(s);
    if s.is_new(msg) {
        lemma_propagated_all_len(s, s.forward_items(msg));
    }
}

/// Handling a message keeps the invariant.
pub proof fn lemma_handled_inv(s: NodeView, msg: MsgView)
    requires
        s.inv(),
        s.has_room(s.stamps_needed(msg)),
    ensures
        s.handled(msg).inv(),
{
    if s.is_new(msg) {
        lemma_propagated_all_inv(s, s.forward_items(msg));
    }
}

/// Propagating items adds one pending entry for each.
pub proof fn lemma_propagated_all_len(s: NodeView, items: Seq<Item>)
    requires
        s.inv(),
        s.has_room(items.len()),
    ensures
        s.propagated_all(items).pending.len() == s.pending.len() + items.len(),
    decreases items.len(),
{
    if items.len() == 0 {
        assert(items =~= Seq::empty());
        lemma_propagated_all_empty(s);
    } else {
        let head = items.drop_last();
        lemma_propagated_all_len(s, head);
        lemma_propagated_all_inv(s, head);
        assert(items =~= head.push(items.last()));
        lemma_propagated_all_push(s, head, items.last());
        let before = s.propagated_all(head);
        assert(!before.pending.contains_key(before.id_at(0)));
    }
}

/// An acknowledgement clears the entry it names and nothing else: the
/// entry pending under `in_reply_to` is removed, no id is used, nothing
/// goes on the wire, and no later walk of the table meets that key, so
/// the entry is not sent again. An acknowledgement that names no entry
/// changes nothing.
pub proof fn law_ack_clears_entry(s: NodeView, msg: MsgView, acked: u64)
    requires
        s.inv(),
        msg.body.payload is BroadcastOk,
        msg.body.in_reply_to == Some(acked),
    ensures
        s.handled(msg).pending == s.pending.remove(acked),
        s.handled(msg).msg_ids == s.msg_ids,
        s.handled(msg).messages == s.messages,
        s.handled(msg).inv(),
        !s.pending.contains_key(acked) ==> s.handled(msg) == s,
        s.pending.contains_key(acked) ==> s.handled(msg).pending.len() == s.pending.len() - 1,
        forall|out: Seq<MsgView>| s.delivers(msg, out) ==> out.len() == 0,
        forall|walk: Seq<u64>| #[trigger] s.handled(msg).is_walk(walk) ==> !walk.contains(acked),
{
    lemma_propagated_all_empty(s);
    if !s.pending.contains_key(acked) {
        assert(s.pending.remove(acked) =~= s.pending);
    }
    assert forall|walk: Seq<u64>| #[trigger] s.handled(msg).is_walk(walk) implies !walk.contains(
        acked,
    ) by {
        if walk.contains(acked) {
            assert(walk.to_set().contains(acked));
        }
    }
}

/// Without an acknowledgement an entry stays and is sent again on every
/// tick: a tick that walks the whole table sends each pending entry
/// exactly once, to its destination and with its payload, under a fresh
/// message id; afterwards the entry is pending under that id and no
/// longer under the old one, and the table is as large as before.
pub proof fn law_tick_resends_every_entry(s: NodeView, walk: Seq<u64>)
    requires
        s.inv(),
        s.is_walk(walk),
        s.has_room(walk.len()),
    ensures
        s.resent(walk).inv(),
        s.resends(walk).len() == s.pending.len(),
        s.resent(walk).pending.len() == s.pending.len(),
        s.resent(walk).messages == s.messages,
        forall|key: u64| #[trigger]
            s.pending.contains_key(key) ==> walk.contains(key) && !s.resent(
                walk,
            ).pending.contains_key(key),
        forall|i: int|
            0 <= i < walk.len() ==> {
                let again = #[trigger] s.resends(walk)[i];
                let entry = s.pending[walk[i]];
                &&& s.pending.contains_key(walk[i])
                &&& again.src == s.id
                &&& again.dest == entry.0
                &&& again.body.payload == entry.1.payload
                &&& again.body.in_reply_to == entry.1.in_reply_to
                &&& again.body.msg_id == Some(s.id_at(i))
                &&& s.resent(walk).pending.contains_key(s.id_at(i))
                &&& s.resent(walk).pending[s.id_at(i)] == (again.dest, again.body)
            },
{
    walk.unique_seq_to_set();
    let drained = s.drained(walk);
    assert(drained.pending =~= Map::empty());
    assert(drained.inv());
    lemma_propagated_all_inv(drained, s.retry_items(walk));
    lemma_propagated_all_len(drained, s.retry_items(walk));
    assert forall|key: u64| #[trigger] s.pending.contains_key(key) implies walk.contains(key)
        && !s.resent(walk).pending.contains_key(key) by {
        assert(walk.to_set().contains(key));
    }
    assert forall|i: int| 0 <= i < walk.len() implies s.pending.contains_key(walk[i]) by {
        assert(walk.to_set().contains(walk[i]));
    }
}

/// Events of a feasible history never turn the counter back, and an
/// answered request moves it on.
pub proof fn lemma_counter_moves_on(s: NodeView, e: Event)
    requires
        has_room_for(s, e),
    ensures
        s.msg_ids <= step(s, e).msg_ids,
        e matches Event::Deliver(msg) && msg.body.payload.is_request() ==> s.msg_ids < step(
            s,
            e,
        ).msg_ids,
{
}

/// A prefix of a feasible history is feasible, and along a feasible
/// history the counter only grows.
pub proof fn lemma_counter_grows(s: NodeView, events: Seq<Event>, i: int)
    requires
        feasible(s, events),
        0 <= i <= events.len(),
    ensures
        feasible(s, events.take(i)),
        run(s, events.take(i)).msg_ids <= run(s, events).msg_ids,
        i < events.len() ==> has_room_for(run(s, events.take(i)), events[i]),
        i < events.len() ==> step(run(s, events.take(i)), events[i]).msg_ids <= run(
            s,
            events,
        ).msg_ids,
    decreases events.len(),
{
    if i == events.len() {
        assert(events.take(i) =~= events);
    } else {
        let head = events.drop_last();
        assert(head.take(i) =~= events.take(i));
        lemma_counter_grows(s, head, i);
        lemma_counter_moves_on(run(s, head), events.last());
        if i == head.len() {
            assert(head.take(i) =~= head);
        }
    }
}

/// Generated ids are unique on one node: two `generate` requests at
/// different places of a feasible history are answered with different
/// ids.
pub proof fn law_generated_ids_never_repeat(
    s: NodeView,
    events: Seq<Event>,
    i: int,
    j: int,
    first: PayloadView,
    second: PayloadView,
)
    requires
        feasible(s, events),
        0 <= i < j < events.len(),
        asks_for_id(events[i]),
        asks_for_id(events[j]),
        run(s, events.take(i)).answers(PayloadView::Generate, first),
        run(s, events.take(j)).answers(PayloadView::Generate, second),
    ensures
        first != second,
{
    let at_i = run(s, events.take(i));
    let at_j = run(s, events.take(j));
    let upto_j = events.take(j);
    lemma_counter_grows(s, events, j);
    assert(upto_j.take(i) =~= events.take(i));
    assert(upto_j[i] == events[i]);
    lemma_counter_grows(s, upto_j, i);
    lemma_counter_moves_on(at_i, events[i]);
    assert(at_i.msg_ids < at_j.msg_ids);
    law_seen_values(s, events.take(i));
    law_seen_values(s, events.take(j));
    if first == second {
        lemma_generated_id_injective(at_i.id, at_i.msg_ids, at_j.id, at_j.msg_ids);
    }
}

/// Generated ids are unique across nodes: two nodes with different ids
/// never answer `generate` with the same id, whatever their counters.
pub proof fn law_generated_ids_differ_across_nodes(
    a: NodeView,
    b: NodeView,
    from_a: PayloadView,
    from_b: PayloadView,
)
    requires
        a.id != b.id,
        a.answers(PayloadView::Generate, from_a),
        b.answers(PayloadView::Generate, from_b),
    ensures
        from_a != from_b,
{
    if from_a == from_b {
        lemma_generated_id_injective(a.id, a.msg_ids, b.id, b.msg_ids);
    }
}

/// The invariant holds of every state that a node reaches: it holds
/// at the start, and every event keeps it, as long as the counter lasts
/// and the ticks walk what is pending.
pub proof fn law_invariant_holds(s: NodeView, events: Seq<Event>)
    requires
        s.inv(),
        feasible(s, events),
        walks_pending(s, events),
    ensures
        run(s, events).inv(),
    decreases events.len(),
{
    if events.len() > 0 {
        let before = run(s, events.drop_last());
        law_invariant_holds(s, events.drop_last());
        match events.last() {
            Event::Deliver(msg) => {
                lemma_handled_inv(before, msg);
            },
            Event::Tick(walk) => {
                lemma_resent_inv(before, walk);
            },
        }
    }
}

/// An entry that is not acknowledged stays, however many ticks pass:
/// after any number of ticks the table is as large as it was, and for
/// each entry of the start there is one now that is the same
/// propagation; the last tick has sent it once more.
pub proof fn law_unacknowledged_entry_remains(s: NodeView, events: Seq<Event>, key: u64)
    requires
        s.inv(),
        feasible(s, events),
        only_ticks(s, events),
        s.pending.contains_key(key),
    ensures
        run(s, events).inv(),
        run(s, events).pending.len() == s.pending.len(),
        run(s, events).messages == s.messages,
        exists|now: u64| #[trigger]
            run(s, events).pending.contains_key(now) && same_propagation(
                run(s, events).pending[now],
                s.pending[key],
            ),
        events.len() > 0 ==> {
            &&& events.last() matches Event::Tick(walk)
            &&& exists|i: int|
                0 <= i < walk.len() && {
                    let again = #[trigger] run(s, events.drop_last()).resends(walk)[i];
                    again.dest == s.pending[key].0 && again.body.payload
                        == s.pending[key].1.payload
                }
        },
    decreases events.len(),
{
    if events.len() == 0 {
        assert(run(s, events).pending.contains_key(key));
    } else {
        let head = events.drop_last();
        let before = run(s, head);
        law_unacknowledged_entry_remains(s, head, key);
        let earlier = choose|k: u64| #[trigger]
            before.pending.contains_key(k) && same_propagation(before.pending[k], s.pending[key]);
        match events.last() {
            Event::Tick(walk) => {
                law_tick_resends_every_entry(before, walk);
                assert(walk.contains(earlier));
                let i = choose|i: int| 0 <= i < walk.len() && walk[i] == earlier;
                let again = before.resends(walk)[i];
                let now = before.id_at(i);
                assert(run(s, events).pending.contains_key(now));
                assert(same_propagation(run(s, events).pending[now], s.pending[key]));
            },
            Event::Deliver(_) => {},
        }
    }
}

} // verus!
