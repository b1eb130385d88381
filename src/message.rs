use vstd::prelude::*;

verus! {

/// The body of a message: an optional request id, an optional correlation id,
/// and the payload itself.
#[derive(Debug, Clone)]
pub struct Body<M> {
    /// The id that the sender gives to a request it makes.
    pub msg_id: Option<usize>,
    /// The request id of the message that this one answers.
    pub in_reply_to: Option<usize>,
    /// The actual payload.
    pub message: M,
}

/// A message between two nodes.
#[derive(Debug)]
pub struct Envelope<M> {
    pub source: String,
    pub destination: String,
    pub body: Body<M>,
}

impl<M> Envelope<M> {
    /// Whether `reply` answers `request` with `message` under the id `msg_id`:
    /// source and destination swapped, and correlated by the request's id.
    pub open spec fn is_reply_to(reply: Envelope<M>, request: Envelope<M>, msg_id: Option<usize>) -> bool {
        &&& reply.source@ == request.destination@
        &&& reply.destination@ == request.source@
        &&& reply.body.msg_id == msg_id
        &&& reply.body.in_reply_to == request.body.msg_id
    }

    pub fn new(src: &str, dest: &str, body: Body<M>) -> (r: Self)
        ensures
            r.source@ == src@,
            r.destination@ == dest@,
            r.body == body,
    {
        Envelope { source: src.to_owned(), destination: dest.to_owned(), body }
    }

    /// Builds the reply to this envelope, carrying `message`.
    pub fn reply_with(&self, msg_id: Option<usize>, message: M) -> (r: Self)
        ensures
            Self::is_reply_to(r, *self, msg_id),
            r.body.message == message,
    {
        Envelope {
            source: self.destination.clone(),
            destination: self.source.clone(),
            body: Body { msg_id, in_reply_to: self.body.msg_id, message },
        }
    }

    pub fn msg_id(&self) -> (r: Option<usize>)
        ensures
            r == self.body.msg_id,
    {
        self.body.msg_id
    }
}

} // verus!
