//! Messages: the envelope, its body and the closed set of payloads, each
//! with the mathematical value that contracts speak of.

use std::collections::HashMap;
use vstd::prelude::*;
use vstd::std_specs::hash::*;

verus! {

/// What a message carries, one variant per kind of request and reply.
#[derive(Debug, PartialEq, Eq)]
pub enum Payload {
    Echo { echo: String },
    EchoOk { echo: String },
    Init { node_id: String, node_ids: Vec<String> },
    InitOk,
    Generate,
    GenerateOk { id: String },
    Broadcast { message: usize },
    BroadcastOk,
    Read,
    ReadOk { messages: Vec<usize> },
    Topology { topology: HashMap<String, Vec<String>> },
    TopologyOk,
}

/// The body of a message: optional correlation ids and the payload.
#[derive(Debug, PartialEq, Eq)]
pub struct Body {
    pub msg_id: Option<u64>,
    pub in_reply_to: Option<u64>,
    pub extra: Payload,
}

/// An envelope: who sent it, whom it is for, and the body.
#[derive(Debug, PartialEq, Eq)]
pub struct Msg {
    pub src: String,
    pub dest: String,
    pub body: Body,
}

/// The value of a [`Payload`].
pub ghost enum PayloadView {
    Echo { echo: Seq<char> },
    EchoOk { echo: Seq<char> },
    Init { node_id: Seq<char>, node_ids: Seq<Seq<char>> },
    InitOk,
    Generate,
    GenerateOk { id: Seq<char> },
    Broadcast { message: usize },
    BroadcastOk,
    Read,
    ReadOk { messages: Seq<usize> },
    Topology { topology: Map<Seq<char>, Seq<Seq<char>>> },
    TopologyOk,
}

/// The value of a [`Body`].
pub ghost struct BodyView {
    pub msg_id: Option<u64>,
    pub in_reply_to: Option<u64>,
    pub payload: PayloadView,
}

/// The value of a [`Msg`].
pub ghost struct MsgView {
    pub src: Seq<char>,
    pub dest: Seq<char>,
    pub body: BodyView,
}

impl PayloadView {
    /// Whether this payload is a request, that is, one that is answered.
    pub open spec fn is_request(self) -> bool {
        self is Echo || self is Init || self is Generate || self is Broadcast || self is Read
            || self is Topology
    }
}

impl BodyView {
    /// This body with its message id replaced by `id`.
    pub open spec fn stamped(self, id: u64) -> BodyView {
        BodyView { msg_id: Some(id), in_reply_to: self.in_reply_to, payload: self.payload }
    }
}

impl View for Payload {
    type V = PayloadView;

    open spec fn view(&self) -> PayloadView {
        match self {
            Payload::Echo { echo } => PayloadView::Echo { echo: echo@ },
            Payload::EchoOk { echo } => PayloadView::EchoOk { echo: echo@ },
            Payload::Init { node_id, node_ids } => PayloadView::Init {
                node_id: node_id@,
                node_ids: node_ids.deep_view(),
            },
            Payload::InitOk => PayloadView::InitOk,
            Payload::Generate => PayloadView::Generate,
            Payload::GenerateOk { id } => PayloadView::GenerateOk { id: id@ },
            Payload::Broadcast { message } => PayloadView::Broadcast { message: *message },
            Payload::BroadcastOk => PayloadView::BroadcastOk,
            Payload::Read => PayloadView::Read,
            Payload::ReadOk { messages } => PayloadView::ReadOk { messages: messages@ },
            Payload::Topology { topology } => PayloadView::Topology {
                topology: topology.deep_view(),
            },
            Payload::TopologyOk => PayloadView::TopologyOk,
        }
    }
}

impl View for Body {
    type V = BodyView;

    open spec fn view(&self) -> BodyView {
        BodyView { msg_id: self.msg_id, in_reply_to: self.in_reply_to, payload: self.extra@ }
    }
}

impl View for Msg {
    type V = MsgView;

    open spec fn view(&self) -> MsgView {
        MsgView { src: self.src@, dest: self.dest@, body: self.body@ }
    }
}

/// The values of a sequence of messages, in order.
pub open spec fn msgs_view(msgs: Seq<Msg>) -> Seq<MsgView> {
    msgs.map_values(|m: Msg| m@)
}

/// Maps with the same entries have the same value.
proof fn lemma_topology_view(a: HashMap<String, Vec<String>>, b: HashMap<String, Vec<String>>)
    requires
        a@ == b@,
    ensures
        a.deep_view() == b.deep_view(),
{
    reveal(hash_map_deep_view_impl);
}

impl Clone for Payload {
    fn clone(&self) -> (res: Self)
        ensures
            res@ == self@,
    {
        match self {
            Payload::Echo { echo } => Payload::Echo { echo: echo.clone() },
            Payload::EchoOk { echo } => Payload::EchoOk { echo: echo.clone() },
            Payload::Init { node_id, node_ids } => Payload::Init {
                node_id: node_id.clone(),
                node_ids: node_ids.clone(),
            },
            Payload::InitOk => Payload::InitOk,
            Payload::Generate => Payload::Generate,
            Payload::GenerateOk { id } => Payload::GenerateOk { id: id.clone() },
            Payload::Broadcast { message } => Payload::Broadcast { message: *message },
            Payload::BroadcastOk => Payload::BroadcastOk,
            Payload::Read => Payload::Read,
            Payload::ReadOk { messages } => Payload::ReadOk { messages: messages.clone() },
            Payload::Topology { topology } => {
                let copy = topology.clone();
                proof {
                    lemma_topology_view(*topology, copy);
                }
                Payload::Topology { topology: copy }
            },
            Payload::TopologyOk => Payload::TopologyOk,
        }
    }
}

impl Clone for Body {
    fn clone(&self) -> (res: Self)
        ensures
            res@ == self@,
    {
        Body { msg_id: self.msg_id, in_reply_to: self.in_reply_to, extra: self.extra.clone() }
    }
}

impl Clone for Msg {
    fn clone(&self) -> (res: Self)
        ensures
            res@ == self@,
    {
        Msg { src: self.src.clone(), dest: self.dest.clone(), body: self.body.clone() }
    }
}

} // verus!
