use crate::message::{Body, Envelope};
use vstd::prelude::*;

verus! {

/// Startup settings of a counter node.
#[derive(Debug, Clone, Copy)]
pub struct Opts {
    /// Milliseconds between two commit attempts.
    pub tick_rate_ms: u64,
}

/// The messages of the grow-only counter workload, including those exchanged
/// with the sequentially consistent key-value service.
#[derive(Debug, Clone)]
pub enum Payload {
    Init { node_id: String, node_ids: Vec<String> },
    InitOk,
    Topology { topology: Vec<(String, Vec<String>)> },
    TopologyOk,
    Read { key: Option<String> },
    ReadOk { value: usize },
    Write { key: String, value: usize },
    WriteOk,
    Cas { key: String, from: usize, to: usize, create_if_not_exists: Option<bool> },
    CasOk,
    Add { delta: usize },
    UpdateCounter { value: usize },
    AddOk,
    Error { code: usize, text: String },
    /// A message of a kind that this node does not handle.
    Unknown,
}

/// The id of the key-value service.
pub open spec fn kv_service() -> Seq<char> {
    seq!['s', 'e', 'q', '-', 'k', 'v']
}

/// The key under which the counter is stored.
pub open spec fn counter_key() -> Seq<char> {
    seq!['c', 'o', 'u', 'n', 't', 'e', 'r']
}

pub open spec fn sat_add(a: usize, b: usize) -> usize {
    if a + b <= usize::MAX {
        (a + b) as usize
    } else {
        usize::MAX
    }
}

/// The neighbor list that `topology` gives for `id`: that of its first entry
/// for `id`, or none.
pub open spec fn topology_entry(topology: Seq<(String, Vec<String>)>, id: Seq<char>) -> Seq<String>
    decreases topology.len(),
{
    if topology.len() == 0 {
        seq![]
    } else if topology[0].0@ == id {
        topology[0].1@
    } else {
        topology_entry(topology.drop_first(), id)
    }
}

/// The delta recorded for the commit request `id`, if any: the first record.
pub open spec fn delta_for(deltas: Seq<(usize, usize)>, id: usize) -> Option<usize>
    decreases deltas.len(),
{
    if deltas.len() == 0 {
        None
    } else if deltas[0].0 == id {
        Some(deltas[0].1)
    } else {
        delta_for(deltas.drop_first(), id)
    }
}

/// The members of `all` other than `me`, in order.
pub open spec fn peers(all: Seq<String>, me: Seq<char>) -> Seq<Seq<char>>
    decreases all.len(),
{
    if all.len() == 0 {
        seq![]
    } else {
        let prev = peers(all.drop_last(), me);
        if all.last()@ == me {
            prev
        } else {
            prev.push(all.last()@)
        }
    }
}

/// The state of a counter node.
#[derive(Debug)]
pub struct State {
    pub my_id: String,
    pub all_node_ids: Vec<String>,
    pub neighbors: Vec<String>,
    /// Increments accepted but not yet known to be committed.
    pub uncommitted_total: usize,
    /// The largest committed total this node has learned of.
    pub last_known_committed_total: usize,
    /// For each commit request sent, its request id and the delta it carried.
    pub cas_deltas: Vec<(usize, usize)>,
    pub tick_rate_ms: u64,
    /// The request id that this node issues next.
    pub next_msg_id: usize,
}

/// `e` is a request from `from` to the key-value service, under request id `id`.
pub open spec fn is_kv_request(e: Envelope<Payload>, from: Seq<char>, id: int) -> bool {
    &&& e.source@ == from
    &&& e.destination@ == kv_service()
    &&& e.body.msg_id == Some(id as usize)
    &&& e.body.in_reply_to is None
}

/// `e` asks the key-value service for the counter's committed total.
pub open spec fn is_counter_read(e: Envelope<Payload>) -> bool {
    &&& e.body.message is Read
    &&& e.body.message->Read_key is Some
    &&& e.body.message->Read_key->0@ == counter_key()
}

/// `t` is `s` with nothing changed but the committed total and the counter.
pub open spec fn same_but_total(s: State, t: State) -> bool {
    &&& t.my_id == s.my_id
    &&& t.all_node_ids == s.all_node_ids
    &&& t.neighbors == s.neighbors
    &&& t.uncommitted_total == s.uncommitted_total
    &&& t.cas_deltas == s.cas_deltas
    &&& t.tick_rate_ms == s.tick_rate_ms
}

/// `out` is one reply to `env` under the next request id of `s`.
pub open spec fn replied_once(s: State, env: Envelope<Payload>, t: State, out: Seq<Envelope<Payload>>) -> bool {
    &&& t.next_msg_id == s.next_msg_id + 1
    &&& out.len() == 1
    &&& Envelope::<Payload>::is_reply_to(out[0], env, Some(s.next_msg_id))
}

/// The reaction of a counter node in state `s` to `env`: the next state `t`
/// and the envelopes `out` to send.
pub open spec fn handled(s: State, env: Envelope<Payload>, t: State, out: Seq<Envelope<Payload>>) -> bool {
    match env.body.message {
        Payload::Init { node_id, node_ids } => {
            &&& replied_once(s, env, t, out)
            &&& out[0].body.message is InitOk
            &&& t.my_id@ == node_id@
            &&& t.all_node_ids@ == node_ids@
            &&& t.neighbors == s.neighbors
            &&& t.uncommitted_total == s.uncommitted_total
            &&& t.last_known_committed_total == s.last_known_committed_total
            &&& t.cas_deltas == s.cas_deltas
            &&& t.tick_rate_ms == s.tick_rate_ms
        },
        Payload::Topology { topology } => {
            &&& replied_once(s, env, t, out)
            &&& out[0].body.message is TopologyOk
            &&& t.neighbors@ == topology_entry(topology@, s.my_id@)
            &&& t.my_id == s.my_id
            &&& t.all_node_ids == s.all_node_ids
            &&& t.uncommitted_total == s.uncommitted_total
            &&& t.last_known_committed_total == s.last_known_committed_total
            &&& t.cas_deltas == s.cas_deltas
            &&& t.tick_rate_ms == s.tick_rate_ms
        },
        Payload::Add { delta } => {
            &&& replied_once(s, env, t, out)
            &&& out[0].body.message is AddOk
            &&& t.uncommitted_total == sat_add(s.uncommitted_total, delta)
            &&& t.my_id == s.my_id
            &&& t.all_node_ids == s.all_node_ids
            &&& t.neighbors == s.neighbors
            &&& t.last_known_committed_total == s.last_known_committed_total
            &&& t.cas_deltas == s.cas_deltas
            &&& t.tick_rate_ms == s.tick_rate_ms
        },
        Payload::Read { key: None } => {
            &&& replied_once(s, env, t, out)
            &&& out[0].body.message is ReadOk
            &&& out[0].body.message->ReadOk_value == s.last_known_committed_total
            &&& same_but_total(s, t)
            &&& t.last_known_committed_total == s.last_known_committed_total
        },
        Payload::CasOk => {
            match (if env.body.in_reply_to is Some { delta_for(s.cas_deltas@, env.body.in_reply_to->0) } else { None }) {
                Some(d) => {
                    let total = sat_add(s.last_known_committed_total, d);
                    let to = peers(s.all_node_ids@, s.my_id@);
                    &&& t.uncommitted_total == if d <= s.uncommitted_total {
                        (s.uncommitted_total - d) as usize
                    } else {
                        0
                    }
                    &&& t.last_known_committed_total == total
                    &&& t.my_id == s.my_id
                    &&& t.all_node_ids == s.all_node_ids
                    &&& t.neighbors == s.neighbors
                    &&& t.cas_deltas == s.cas_deltas
                    &&& t.tick_rate_ms == s.tick_rate_ms
                    &&& out.len() == to.len()
                    &&& t.next_msg_id == s.next_msg_id + out.len()
                    &&& forall|k: int|
                        0 <= k < out.len() ==> {
                            &&& (#[trigger] out[k]).source@ == s.my_id@
                            &&& out[k].destination@ == to[k]
                            &&& out[k].body.msg_id == Some((s.next_msg_id + k) as usize)
                            &&& out[k].body.in_reply_to is None
                            &&& out[k].body.message is UpdateCounter
                            &&& out[k].body.message->UpdateCounter_value == total
                        }
                },
                None => {
                    &&& t == s
                    &&& out.len() == 0
                },
            }
        },
        Payload::Error { .. } => {
            &&& out.len() == 1
            &&& is_kv_request(out[0], s.my_id@, s.next_msg_id as int)
            &&& is_counter_read(out[0])
            &&& t.next_msg_id == s.next_msg_id + 1
            &&& same_but_total(s, t)
            &&& t.last_known_committed_total == s.last_known_committed_total
        },
        Payload::ReadOk { value } | Payload::UpdateCounter { value } => {
            &&& out.len() == 0
            &&& t.last_known_committed_total == if value >= s.last_known_committed_total {
                value
            } else {
                s.last_known_committed_total
            }
            &&& same_but_total(s, t)
            &&& t.next_msg_id == s.next_msg_id
        },
        _ => {
            &&& t == s
            &&& out.len() == 0
        },
    }
}

fn sat_add_exec(a: usize, b: usize) -> (r: usize)
    ensures
        r == sat_add(a, b),
{
    if a <= usize::MAX - b {
        a + b
    } else {
        usize::MAX
    }
}

fn copy_ids(v: &Vec<String>) -> (r: Vec<String>)
    ensures
        r@ == v@,
{
    let mut r: Vec<String> = Vec::new();
    let mut i: usize = 0;
    while i < v.len()
        invariant
            i <= v@.len(),
            r@ == v@.take(i as int),
        decreases v@.len() - i,
    {
        r.push(v[i].clone());
        assert(r@ =~= v@.take(i + 1));
        i = i + 1;
    }
    assert(r@ =~= v@);
    r
}

fn find_topology_entry(topology: &Vec<(String, Vec<String>)>, id: &String) -> (r: Vec<String>)
    ensures
        r@ == topology_entry(topology@, id@),
{
    let mut i: usize = 0;
    assert(topology@.skip(0) =~= topology@);
    while i < topology.len()
        invariant
            i <= topology@.len(),
            topology_entry(topology@, id@) == topology_entry(topology@.skip(i as int), id@),
        decreases topology@.len() - i,
    {
        assert(topology@.skip(i as int).drop_first() =~= topology@.skip(i + 1));
        if topology[i].0 == *id {
            return copy_ids(&topology[i].1);
        }
        i = i + 1;
    }
    Vec::new()
}

fn find_delta(deltas: &Vec<(usize, usize)>, id: usize) -> (r: Option<usize>)
    ensures
        r == delta_for(deltas@, id),
{
    let mut i: usize = 0;
    assert(deltas@.skip(0) =~= deltas@);
    while i < deltas.len()
        invariant
            i <= deltas@.len(),
            delta_for(deltas@, id) == delta_for(deltas@.skip(i as int), id),
        decreases deltas@.len() - i,
    {
        assert(deltas@.skip(i as int).drop_first() =~= deltas@.skip(i + 1));
        if deltas[i].0 == id {
            return Some(deltas[i].1);
        }
        i = i + 1;
    }
    None
}

fn kv_service_id() -> (r: String)
    ensures
        r@ == kv_service(),
{
    let r = "seq-kv".to_owned();
    proof {
        reveal_strlit("seq-kv");
    }
    assert(r@ =~= kv_service());
    r
}

fn counter_read(from: &String, id: usize) -> (e: Envelope<Payload>)
    ensures
        is_kv_request(e, from@, id as int),
        is_counter_read(e),
{
    let key = "counter".to_owned();
    proof {
        reveal_strlit("counter");
    }
    assert(key@ =~= counter_key());
    let to = kv_service_id();
    Envelope::new(
        from.as_str(),
        to.as_str(),
        Body { msg_id: Some(id), in_reply_to: None, message: Payload::Read { key: Some(key) } },
    )
}

impl State {
    /// Request ids start at one, and the commit requests are recorded in the
    /// order sent, each under a distinct id that was issued already.
    pub open spec fn wf(&self) -> bool {
        &&& self.next_msg_id >= 1
        &&& forall|k: int| 0 <= k < self.cas_deltas@.len() ==> (#[trigger] self.cas_deltas@[k]).0 < self.next_msg_id
        &&& forall|j: int, k: int|
            0 <= j < k < self.cas_deltas@.len() ==> (#[trigger] self.cas_deltas@[j]).0 < (#[trigger] self.cas_deltas@[k]).0
    }

    /// A node that has not yet been initialised.
    pub fn new() -> (r: State)
        ensures
            r.wf(),
            r.my_id@ == Seq::<char>::empty(),
            r.all_node_ids@.len() == 0,
            r.neighbors@.len() == 0,
            r.uncommitted_total == 0,
            r.last_known_committed_total == 0,
            r.cas_deltas@.len() == 0,
            r.tick_rate_ms == 0,
            r.next_msg_id == 1,
    {
        State {
            my_id: String::new(),
            all_node_ids: Vec::new(),
            neighbors: Vec::new(),
            uncommitted_total: 0,
            last_known_committed_total: 0,
            cas_deltas: Vec::new(),
            tick_rate_ms: 0,
            next_msg_id: 1,
        }
    }
}

fn reply(state: &mut State, envelope: &Envelope<Payload>, message: Payload) -> (out: Vec<Envelope<Payload>>)
    requires
        old(state).next_msg_id < usize::MAX,
    ensures
        replied_once(*old(state), *envelope, *final(state), out@),
        out@[0].body.message == message,
        same_but_total(*old(state), *final(state)),
        final(state).last_known_committed_total == old(state).last_known_committed_total,
{
    let id = state.next_msg_id;
    state.next_msg_id = id + 1;
    let mut out: Vec<Envelope<Payload>> = Vec::new();
    out.push(envelope.reply_with(Some(id), message));
    out
}

/// Reacts to one inbound envelope: updates the state and returns the
/// envelopes to send. A read that names a key is meant for the key-value
/// service and is ignored, as are unknown kinds and a commit acknowledgement
/// that answers no recorded commit request.
pub fn handle_envelope(state: &mut State, envelope: &Envelope<Payload>) -> (out: Vec<Envelope<Payload>>)
    requires
        old(state).wf(),
        old(state).next_msg_id + old(state).all_node_ids@.len() < usize::MAX,
    ensures
        final(state).wf(),
        handled(*old(state), *envelope, *final(state), out@),
{
    match &envelope.body.message {
        Payload::Init { node_id, node_ids } => {
            state.my_id = node_id.clone();
            state.all_node_ids = copy_ids(node_ids);
            reply(state, envelope, Payload::InitOk)
        },
        Payload::Topology { topology } => {
            state.neighbors = find_topology_entry(topology, &state.my_id);
            reply(state, envelope, Payload::TopologyOk)
        },
        Payload::Add { delta } => {
            state.uncommitted_total = sat_add_exec(state.uncommitted_total, *delta);
            reply(state, envelope, Payload::AddOk)
        },
        Payload::Read { key: None } => {
            let value = state.last_known_committed_total;
            reply(state, envelope, Payload::ReadOk { value })
        },
        Payload::CasOk => {
            let committed = match envelope.body.in_reply_to {
                Some(id) => find_delta(&state.cas_deltas, id),
                None => None,
            };
            match committed {
                Some(d) => {
                    if d <= state.uncommitted_total {
                        state.uncommitted_total = state.uncommitted_total - d;
                    } else {
                        state.uncommitted_total = 0;
                    }
                    state.last_known_committed_total = sat_add_exec(state.last_known_committed_total, d);
                    announce_total(state)
                },
                None => Vec::new(),
            }
        },
        Payload::Error { .. } => {
            let id = state.next_msg_id;
            state.next_msg_id = id + 1;
            let mut out: Vec<Envelope<Payload>> = Vec::new();
            out.push(counter_read(&state.my_id, id));
            out
        },
        Payload::ReadOk { value } | Payload::UpdateCounter { value } => {
            if *value >= state.last_known_committed_total {
                state.last_known_committed_total = *value;
            }
            Vec::new()
        },
        _ => Vec::new(),
    }
}

/// Tells every other member the committed total, under consecutive request ids.
fn announce_total(state: &mut State) -> (out: Vec<Envelope<Payload>>)
    requires
        old(state).next_msg_id + old(state).all_node_ids@.len() < usize::MAX,
    ensures
        same_but_total(*old(state), *final(state)),
        final(state).last_known_committed_total == old(state).last_known_committed_total,
        out@.len() == peers(old(state).all_node_ids@, old(state).my_id@).len(),
        final(state).next_msg_id == old(state).next_msg_id + out@.len(),
        forall|k: int|
            0 <= k < out@.len() ==> {
                &&& (#[trigger] out@[k]).source@ == old(state).my_id@
                &&& out@[k].destination@ == peers(old(state).all_node_ids@, old(state).my_id@)[k]
                &&& out@[k].body.msg_id == Some((old(state).next_msg_id + k) as usize)
                &&& out@[k].body.in_reply_to is None
                &&& out@[k].body.message is UpdateCounter
                &&& out@[k].body.message->UpdateCounter_value == old(state).last_known_committed_total
            },
{
    let ghost s0 = *state;
    let ghost all = state.all_node_ids@;
    let mut out: Vec<Envelope<Payload>> = Vec::new();
    let mut i: usize = 0;
    while i < state.all_node_ids.len()
        invariant
            same_but_total(s0, *state),
            state.last_known_committed_total == s0.last_known_committed_total,
            all == state.all_node_ids@,
            i <= all.len(),
            s0.next_msg_id + all.len() < usize::MAX,
            out@.len() == peers(all.take(i as int), s0.my_id@).len(),
            out@.len() <= i,
            state.next_msg_id == s0.next_msg_id + out@.len(),
            forall|k: int|
                0 <= k < out@.len() ==> {
                    &&& (#[trigger] out@[k]).source@ == s0.my_id@
                    &&& out@[k].destination@ == peers(all.take(i as int), s0.my_id@)[k]
                    &&& out@[k].body.msg_id == Some((s0.next_msg_id + k) as usize)
                    &&& out@[k].body.in_reply_to is None
                    &&& out@[k].body.message is UpdateCounter
                    &&& out@[k].body.message->UpdateCounter_value == s0.last_known_committed_total
                },
        decreases all.len() - i,
    {
        proof {
            assert(all.take(i + 1).drop_last() =~= all.take(i as int));
        }
        if state.all_node_ids[i] != state.my_id {
            let id = state.next_msg_id;
            state.next_msg_id = id + 1;
            let e = Envelope::new(
                state.my_id.as_str(),
                state.all_node_ids[i].as_str(),
                Body {
                    msg_id: Some(id),
                    in_reply_to: None,
                    message: Payload::UpdateCounter { value: state.last_known_committed_total },
                },
            );
            out.push(e);
        }
        i = i + 1;
    }
    proof {
        assert(all.take(all.len() as int) =~= all);
    }
    out
}

/// One commit round from state `s`: where increments are uncommitted, a
/// compare-and-set of the counter from the last known total to that total
/// plus them, recorded with its delta; then, always, a read of the counter.
pub open spec fn committed(s: State, t: State, out: Seq<Envelope<Payload>>) -> bool {
    &&& t.my_id == s.my_id
    &&& t.all_node_ids == s.all_node_ids
    &&& t.neighbors == s.neighbors
    &&& t.uncommitted_total == s.uncommitted_total
    &&& t.last_known_committed_total == s.last_known_committed_total
    &&& t.tick_rate_ms == s.tick_rate_ms
    &&& if s.uncommitted_total > 0 {
        &&& out.len() == 2
        &&& is_kv_request(out[0], s.my_id@, s.next_msg_id as int)
        &&& out[0].body.message is Cas
        &&& out[0].body.message->Cas_key@ == counter_key()
        &&& out[0].body.message->from == s.last_known_committed_total
        &&& out[0].body.message->to == sat_add(s.last_known_committed_total, s.uncommitted_total)
        &&& out[0].body.message->create_if_not_exists == Some(true)
        &&& t.cas_deltas@ == s.cas_deltas@.push((s.next_msg_id, s.uncommitted_total))
        &&& is_kv_request(out[1], s.my_id@, s.next_msg_id + 1)
        &&& is_counter_read(out[1])
        &&& t.next_msg_id == s.next_msg_id + 2
    } else {
        &&& out.len() == 1
        &&& is_kv_request(out[0], s.my_id@, s.next_msg_id as int)
        &&& is_counter_read(out[0])
        &&& t.cas_deltas == s.cas_deltas
        &&& t.next_msg_id == s.next_msg_id + 1
    }
}

/// One tick of the commit scheduler.
pub fn commit_buffered_delta(state: &mut State) -> (out: Vec<Envelope<Payload>>)
    requires
        old(state).wf(),
        old(state).next_msg_id + 2 <= usize::MAX,
    ensures
        final(state).wf(),
        committed(*old(state), *final(state), out@),
{
    let mut out: Vec<Envelope<Payload>> = Vec::new();
    if state.uncommitted_total > 0 {
        let id = state.next_msg_id;
        state.next_msg_id = id + 1;
        let key = "counter".to_owned();
        proof {
            reveal_strlit("counter");
        }
        assert(key@ =~= counter_key());
        let to = kv_service_id();
        let cas = Envelope::new(
            state.my_id.as_str(),
            to.as_str(),
            Body {
                msg_id: Some(id),
                in_reply_to: None,
                message: Payload::Cas {
                    key,
                    from: state.last_known_committed_total,
                    to: sat_add_exec(state.last_known_committed_total, state.uncommitted_total),
                    create_if_not_exists: Some(true),
                },
            },
        );
        state.cas_deltas.push((id, state.uncommitted_total));
        out.push(cas);
    }
    let id = state.next_msg_id;
    state.next_msg_id = id + 1;
    out.push(counter_read(&state.my_id, id));
    out
}

} // verus!
