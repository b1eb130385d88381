use crate::message::Envelope;
use vstd::prelude::*;

verus! {

/// The messages of the unique-id workload.
#[derive(Debug, Clone)]
pub enum Payload {
    Init { node_id: String, node_ids: Vec<String> },
    InitOk,
    Generate,
    GenerateOk { id: String },
    /// A message of a kind that this node does not handle.
    Unknown,
}

/// The character of the decimal digit `d`.
pub open spec fn digit_char(d: nat) -> char {
    seq!['0', '1', '2', '3', '4', '5', '6', '7', '8', '9'][d as int]
}

/// The decimal digits of `n`, most significant first, without leading zeros.
pub open spec fn decimal(n: nat) -> Seq<char>
    decreases n,
{
    if n < 10 {
        seq![digit_char(n)]
    } else {
        decimal(n / 10).push(digit_char(n % 10))
    }
}

/// The separator between the parts of a generated id.
pub const ID_SEPARATOR: char = '_';

/// `prefix`, the id separator, then the decimal digits of `n`.
pub open spec fn joined(prefix: Seq<char>, n: nat) -> Seq<char> {
    prefix + seq![ID_SEPARATOR] + decimal(n)
}

/// Relies on `format!` with the `Display` impls of `str`, `char` and `usize`:
/// the prefix, the separator, then the number in decimal digits.
#[verifier::external_body]
fn join_with_number(prefix: &str, sep: char, n: usize) -> (r: String)
    ensures
        r@ == prefix@ + seq![sep] + decimal(n as nat),
{
    format!("{}{}{}", prefix, sep, n)
}

/// Relies on `rand::random`, which draws from the thread-local generator;
/// nothing is promised of the value.
pub assume_specification<T>[ rand::random::<T> ]() -> (r: T)
    where
        rand::distributions::Standard: rand::distributions::Distribution<T>,
;

/// The state of a unique-id node.
#[derive(Debug)]
pub struct State {
    /// The prefix of every id this node hands out: its node id and a random
    /// offset, set by the init handshake.
    pub id: String,
    /// The request id that this node issues next.
    pub next_msg_id: usize,
}

impl State {
    pub fn new() -> (r: State)
        ensures
            r.id@ == Seq::<char>::empty(),
            r.next_msg_id == 1,
    {
        State { id: String::new(), next_msg_id: 1 }
    }
}

/// The reaction of a node in state `s` to `env`, where `offset` is the random
/// number drawn for the init handshake: the next state `t` and the envelopes
/// `out` to send.
pub open spec fn handled(s: State, env: Envelope<Payload>, offset: usize, t: State, out: Seq<Envelope<Payload>>) -> bool {
    match env.body.message {
        Payload::Generate => {
            &&& t.id == s.id
            &&& t.next_msg_id == s.next_msg_id + 1
            &&& out.len() == 1
            &&& Envelope::<Payload>::is_reply_to(out[0], env, Some(s.next_msg_id))
            &&& out[0].body.message is GenerateOk
            &&& out[0].body.message->GenerateOk_id@ == joined(s.id@, s.next_msg_id as nat)
        },
        Payload::Init { node_id, .. } => {
            &&& t.id@ == joined(node_id@, offset as nat)
            &&& t.next_msg_id == s.next_msg_id + 1
            &&& out.len() == 1
            &&& Envelope::<Payload>::is_reply_to(out[0], env, Some(s.next_msg_id))
            &&& out[0].body.message is InitOk
        },
        _ => {
            &&& t == s
            &&& out.len() == 0
        },
    }
}

/// Reacts to `envelope`, with `offset` as the random part of the id prefix
/// that the init handshake sets. A generated id is the prefix, an underscore
/// and the request id of the reply, which no other reply of this node shares.
pub fn handle_envelope_with_offset(state: &mut State, envelope: &Envelope<Payload>, offset: usize) -> (out: Vec<
    Envelope<Payload>,
>)
    requires
        old(state).next_msg_id < usize::MAX,
    ensures
        handled(*old(state), *envelope, offset, *final(state), out@),
{
    let mut out: Vec<Envelope<Payload>> = Vec::new();
    match &envelope.body.message {
        Payload::Generate => {
            let msg_id = state.next_msg_id;
            state.next_msg_id = msg_id + 1;
            let id = join_with_number(state.id.as_str(), ID_SEPARATOR, msg_id);
            out.push(envelope.reply_with(Some(msg_id), Payload::GenerateOk { id }));
        },
        Payload::Init { node_id, .. } => {
            state.id = join_with_number(node_id.as_str(), ID_SEPARATOR, offset);
            let msg_id = state.next_msg_id;
            state.next_msg_id = msg_id + 1;
            out.push(envelope.reply_with(Some(msg_id), Payload::InitOk));
        },
        _ => {},
    }
    out
}

/// Reacts to `envelope`; the init handshake draws a fresh random offset.
pub fn handle_envelope(state: &mut State, envelope: &Envelope<Payload>) -> (out: Vec<Envelope<Payload>>)
    requires
        old(state).next_msg_id < usize::MAX,
    ensures
        exists|offset: usize| handled(*old(state), *envelope, offset, *final(state), out@),
{
    let offset: usize = match &envelope.body.message {
        Payload::Init { .. } => rand::random::<usize>(),
        _ => 0,
    };
    handle_envelope_with_offset(state, envelope, offset)
}

} // verus!
