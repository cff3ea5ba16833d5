//! The reply that each kind of request is answered with.

use crate::ident::generate_id;
use crate::message::{Body, Payload};
use crate::node::Node;
use vstd::prelude::*;

verus! {

impl Body {
    /// The body that `node` answers this body with, if it is a request:
    /// the matching `_ok` payload, in reply to this body's message id and
    /// not yet stamped with an id of its own. Replies are not answered.
    pub fn reply(&self, node: &Node) -> (answer: Option<Body>)
        ensures
            answer is Some == self@.payload.is_request(),
            answer matches Some(body) ==> {
                &&& body@.msg_id is None
                &&& body@.in_reply_to == self@.msg_id
                &&& node@.answers(self@.payload, body@.payload)
            },
    {
        match &self.extra {
            Payload::Init { .. } => Some(
                Body { msg_id: None, in_reply_to: self.msg_id, extra: Payload::InitOk },
            ),
            Payload::Echo { echo } => Some(
                Body {
                    msg_id: None,
                    in_reply_to: self.msg_id,
                    extra: Payload::EchoOk { echo: echo.clone() },
                },
            ),
            Payload::Generate => {
                let id = generate_id(node.id(), node.msg_ids());
                Some(
                    Body {
                        msg_id: None,
                        in_reply_to: self.msg_id,
                        extra: Payload::GenerateOk { id },
                    },
                )
            },
            Payload::Broadcast { .. } => Some(
                Body { msg_id: None, in_reply_to: self.msg_id, extra: Payload::BroadcastOk },
            ),
            Payload::Read => Some(
                Body {
                    msg_id: None,
                    in_reply_to: self.msg_id,
                    extra: Payload::ReadOk { messages: node.seen_values() },
                },
            ),
            Payload::Topology { .. } => Some(
                Body { msg_id: None, in_reply_to: self.msg_id, extra: Payload::TopologyOk },
            ),
            Payload::BroadcastOk => None,
            Payload::EchoOk { .. } => None,
            Payload::InitOk => None,
            Payload::GenerateOk { .. } => None,
            Payload::ReadOk { .. } => None,
            Payload::TopologyOk => None,
        }
    }
}

} // verus!
