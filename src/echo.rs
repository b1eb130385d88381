use crate::message::Envelope;
use vstd::prelude::*;

verus! {

/// The messages of the echo workload.
#[derive(Debug, Clone)]
pub enum Payload {
    Init { node_id: String, node_ids: Vec<String> },
    InitOk,
    Echo { echo: String },
    EchoOk { echo: String },
    /// A message of a kind that this node does not handle.
    Unknown,
}

/// The reaction of an echo node, whose next request id is `id`, to `env`: the
/// next request id `next` and the envelopes `out` to send.
pub open spec fn handled(id: usize, env: Envelope<Payload>, next: usize, out: Seq<Envelope<Payload>>) -> bool {
    match env.body.message {
        Payload::Echo { echo } => {
            &&& next == id + 1
            &&& out.len() == 1
            &&& Envelope::<Payload>::is_reply_to(out[0], env, Some(id))
            &&& out[0].body.message is EchoOk
            &&& out[0].body.message->EchoOk_echo@ == echo@
        },
        Payload::Init { .. } => {
            &&& next == id + 1
            &&& out.len() == 1
            &&& Envelope::<Payload>::is_reply_to(out[0], env, Some(id))
            &&& out[0].body.message is InitOk
        },
        _ => {
            &&& next == id
            &&& out.len() == 0
        },
    }
}

/// Answers an echo request with the same text, and the init handshake with its
/// acknowledgement; anything else is ignored. `next_msg_id` is the request id
/// that the node issues next.
pub fn handle_envelope(next_msg_id: &mut usize, envelope: &Envelope<Payload>) -> (out: Vec<Envelope<Payload>>)
    requires
        *old(next_msg_id) < usize::MAX,
    ensures
        handled(*old(next_msg_id), *envelope, *final(next_msg_id), out@),
{
    let mut out: Vec<Envelope<Payload>> = Vec::new();
    match &envelope.body.message {
        Payload::Echo { echo } => {
            let id = *next_msg_id;
            *next_msg_id = id + 1;
            out.push(envelope.reply_with(Some(id), Payload::EchoOk { echo: echo.clone() }));
        },
        Payload::Init { .. } => {
            let id = *next_msg_id;
            *next_msg_id = id + 1;
            out.push(envelope.reply_with(Some(id), Payload::InitOk));
        },
        _ => {},
    }
    out
}

} // verus!
