use crate::message::{Body, Envelope};
use crate::topology::{
    effective_stride, ids_view, is_first_position, lemma_first_position_exists, is_neighbor_index, lemma_neighbor_listed, lemma_neighbor_members,
    neighbor_list, neighbors_of, neighbors_of_id, position_of,
};
use vstd::prelude::*;

verus! {

/// Startup settings of a broadcast node.
#[derive(Debug, Clone, Copy)]
pub struct Opts {
    /// The partition factor: a node talks directly to one residue class of
    /// member indices modulo this number.
    pub stride: usize,
    /// Milliseconds between two anti-entropy rounds.
    pub tick_rate_ms: u64,
}

/// The messages that a broadcast node sends and receives.
#[derive(Debug, Clone)]
pub enum Payload {
    Init { node_id: String, node_ids: Vec<String> },
    InitOk,
    Broadcast { message: usize },
    BroadcastOk,
    Read,
    ReadOk { messages: Vec<usize> },
    Topology { topology: Vec<(String, Vec<String>)> },
    TopologyOk,
    Sync { messages: Vec<usize> },
    SyncOk { messages: Vec<usize> },
    /// A message of a kind that this node does not handle.
    Unknown,
}

/// A neighbor, with the values sent to it that it has not yet acknowledged.
#[derive(Debug)]
pub struct RemoteNode {
    pub node_id: String,
    pub unacknowledged_messages: Vec<usize>,
}

/// `pending` without every value that occurs in `acked`, order kept.
pub open spec fn without(pending: Seq<usize>, acked: Seq<usize>) -> Seq<usize>
    decreases pending.len(),
{
    if pending.len() == 0 {
        pending
    } else {
        let rest = without(pending.drop_last(), acked);
        if acked.contains(pending.last()) {
            rest
        } else {
            rest.push(pending.last())
        }
    }
}

fn contains_value(v: &[usize], x: usize) -> (r: bool)
    ensures
        r == v@.contains(x),
{
    let mut i: usize = 0;
    while i < v.len()
        invariant
            i <= v@.len(),
            forall|j: int| 0 <= j < i ==> v@[j] != x,
        decreases v@.len() - i,
    {
        if v[i] == x {
            return true;
        }
        i = i + 1;
    }
    false
}

fn copy_values(v: &Vec<usize>) -> (r: Vec<usize>)
    ensures
        r@ == v@,
{
    let mut r: Vec<usize> = Vec::new();
    let mut i: usize = 0;
    while i < v.len()
        invariant
            i <= v@.len(),
            r@ == v@.take(i as int),
        decreases v@.len() - i,
    {
        r.push(v[i]);
        assert(r@ =~= v@.take(i + 1));
        i = i + 1;
    }
    assert(r@ =~= v@);
    r
}

impl RemoteNode {
    /// Records that `message` has been sent and awaits acknowledgement.
    pub fn send_message(&mut self, message: usize)
        ensures
            final(self).node_id == old(self).node_id,
            final(self).unacknowledged_messages@ == old(self).unacknowledged_messages@.push(message),
    {
        self.unacknowledged_messages.push(message);
    }

    /// Drops every pending value that occurs in `messages`.
    pub fn acknowledge_synced(&mut self, messages: &[usize])
        ensures
            final(self).node_id == old(self).node_id,
            final(self).unacknowledged_messages@ == without(
                old(self).unacknowledged_messages@,
                messages@,
            ),
    {
        let ghost pending = self.unacknowledged_messages@;
        let mut kept: Vec<usize> = Vec::new();
        let mut i: usize = 0;
        while i < self.unacknowledged_messages.len()
            invariant
                self.unacknowledged_messages@ == pending,
                i <= pending.len(),
                kept@ == without(pending.take(i as int), messages@),
            decreases pending.len() - i,
        {
            let m = self.unacknowledged_messages[i];
            assert(pending.take(i + 1).drop_last() =~= pending.take(i as int));
            if !contains_value(messages, m) {
                kept.push(m);
            }
            i = i + 1;
        }
        assert(pending.take(pending.len() as int) =~= pending);
        self.unacknowledged_messages = kept;
    }

    pub fn has_unacknowledged_messages(&self) -> (r: bool)
        ensures
            r == (self.unacknowledged_messages@.len() > 0),
    {
        !self.unacknowledged_messages.is_empty()
    }
}

/// What a node knows after taking in `incoming`, in order, on top of `known`:
/// each value that is not yet known is appended, at its first sighting.
pub open spec fn absorb(known: Seq<usize>, incoming: Seq<usize>) -> Seq<usize>
    decreases incoming.len(),
{
    if incoming.len() == 0 {
        known
    } else {
        let w = absorb(known, incoming.drop_last());
        if w.contains(incoming.last()) {
            w
        } else {
            w.push(incoming.last())
        }
    }
}

/// The values of `incoming` that were new to `known`, in the order learned.
pub open spec fn newly_learned(known: Seq<usize>, incoming: Seq<usize>) -> Seq<usize> {
    absorb(known, incoming).skip(known.len() as int)
}

/// What is known before taking in `incoming` stays known, in place.
pub proof fn lemma_absorb_extends(known: Seq<usize>, incoming: Seq<usize>)
    ensures
        absorb(known, incoming).len() >= known.len(),
        absorb(known, incoming).take(known.len() as int) == known,
    decreases incoming.len(),
{
    if incoming.len() > 0 {
        lemma_absorb_extends(known, incoming.drop_last());
        let w = absorb(known, incoming.drop_last());
        assert(w.push(incoming.last()).take(known.len() as int) =~= w.take(known.len() as int));
    }
}

/// The ids of a list of neighbors.
pub open spec fn node_ids_view(nodes: Seq<RemoteNode>) -> Seq<Seq<char>> {
    nodes.map_values(|n: RemoteNode| n.node_id@)
}

/// The pending values of the first node in `nodes` named `id`; none if there is
/// no such node.
pub open spec fn pending_for(nodes: Seq<RemoteNode>, id: Seq<char>) -> Seq<usize>
    decreases nodes.len(),
{
    if nodes.len() == 0 {
        seq![]
    } else if nodes[0].node_id@ == id {
        nodes[0].unacknowledged_messages@
    } else {
        pending_for(nodes.drop_first(), id)
    }
}

/// `after` holds the nodes of `before`, each with `fresh` appended to its
/// pending values.
pub open spec fn nodes_extended(before: Seq<RemoteNode>, after: Seq<RemoteNode>, fresh: Seq<usize>) -> bool {
    &&& after.len() == before.len()
    &&& forall|i: int|
        #![trigger after[i]]
        0 <= i < before.len() ==> {
            &&& after[i].node_id == before[i].node_id
            &&& after[i].unacknowledged_messages@ == before[i].unacknowledged_messages@ + fresh
        }
}

/// `after` holds the nodes of `before`, where each node named `source` has
/// dropped the values of `acked` from its pending values.
pub open spec fn nodes_acknowledged(
    before: Seq<RemoteNode>,
    after: Seq<RemoteNode>,
    source: Seq<char>,
    acked: Seq<usize>,
) -> bool {
    &&& after.len() == before.len()
    &&& forall|i: int|
        #![trigger after[i]]
        0 <= i < before.len() ==> {
            &&& after[i].node_id == before[i].node_id
            &&& after[i].unacknowledged_messages@ == if before[i].node_id@ == source {
                without(before[i].unacknowledged_messages@, acked)
            } else {
                before[i].unacknowledged_messages@
            }
        }
}

/// The ids of `ids` other than `me`, each once, at its first occurrence.
pub open spec fn distinct_except(ids: Seq<Seq<char>>, me: Seq<char>) -> Seq<Seq<char>>
    decreases ids.len(),
{
    if ids.len() == 0 {
        seq![]
    } else {
        let d = distinct_except(ids.drop_last(), me);
        if ids.last() == me || d.contains(ids.last()) {
            d
        } else {
            d.push(ids.last())
        }
    }
}

/// The ids kept are those of `ids` other than `me`, and none twice.
pub proof fn lemma_distinct_except(ids: Seq<Seq<char>>, me: Seq<char>)
    ensures
        distinct_except(ids, me).no_duplicates(),
        forall|x: Seq<char>| #[trigger] distinct_except(ids, me).contains(x) <==> (ids.contains(x) && x != me),
    decreases ids.len(),
{
    if ids.len() > 0 {
        let prev = ids.drop_last();
        lemma_distinct_except(prev, me);
        let d = distinct_except(prev, me);
        assert forall|x: Seq<char>| #[trigger] distinct_except(ids, me).contains(x) <==> (ids.contains(x) && x != me) by {
            if ids.contains(x) && x != me {
                let k = choose|k: int| 0 <= k < ids.len() && ids[k] == x;
                if k < ids.len() - 1 {
                    assert(prev[k] == x);
                    assert(prev.contains(x));
                    assert(d.contains(x));
                    let w = choose|w: int| 0 <= w < d.len() && d[w] == x;
                    assert(d.push(ids.last())[w] == x);
                } else if !d.contains(x) {
                    assert(d.push(ids.last())[d.len() as int] == x);
                }
            }
            if distinct_except(ids, me).contains(x) {
                if d.contains(x) {
                    let k = choose|k: int| 0 <= k < prev.len() && prev[k] == x;
                    assert(ids[k] == x);
                } else {
                    let r = d.push(ids.last());
                    let w = choose|w: int| 0 <= w < r.len() && r[w] == x;
                    assert(ids[ids.len() - 1] == x);
                }
            }
        }
        if !(ids.last() == me || d.contains(ids.last())) {
            let r = d.push(ids.last());
            assert forall|a: int, b: int| 0 <= a < r.len() && 0 <= b < r.len() && a != b implies r[a] != r[b] by {
                if a < d.len() && b < d.len() {
                } else if a < d.len() {
                    assert(d.contains(r[a]));
                } else {
                    assert(d.contains(r[b]));
                }
            }
        }
    }
}

/// Whether one of `nodes` is named `id`.
fn has_node(nodes: &Vec<RemoteNode>, id: &String) -> (r: bool)
    ensures
        r == node_ids_view(nodes@).contains(id@),
{
    let mut i: usize = 0;
    while i < nodes.len()
        invariant
            i <= nodes@.len(),
            forall|j: int| 0 <= j < i ==> nodes@[j].node_id@ != id@,
        decreases nodes@.len() - i,
    {
        if nodes[i].node_id == *id {
            assert(node_ids_view(nodes@)[i as int] == id@);
            return true;
        }
        i = i + 1;
    }
    proof {
        if node_ids_view(nodes@).contains(id@) {
            let j = choose|j: int| 0 <= j < node_ids_view(nodes@).len() && node_ids_view(nodes@)[j] == id@;
            assert(nodes@[j].node_id@ == id@);
        }
    }
    false
}

/// The state of one broadcast node.
#[derive(Debug)]
pub struct State {
    /// This node's id; empty until the init handshake.
    pub my_id: String,
    /// Every node of the network, in the order the init handshake gave.
    pub all_node_ids: Vec<String>,
    /// The neighbors, in membership order, each with its pending values.
    pub nodes: Vec<RemoteNode>,
    /// Every value seen so far, each once, in the order first seen.
    pub messages: Vec<usize>,
    pub stride: usize,
    pub tick_rate_ms: u64,
    /// The request id that this node issues next.
    pub next_msg_id: usize,
}

impl State {
    /// The set of values this node has seen.
    pub open spec fn values(&self) -> Set<usize> {
        self.messages@.to_set()
    }

    /// Values are held once each, neighbors are named once each, every
    /// pending value is a known one, and request ids start at one.
    pub open spec fn wf(&self) -> bool {
        &&& self.messages@.no_duplicates()
        &&& node_ids_view(self.nodes@).no_duplicates()
        &&& forall|i: int, x: usize|
            0 <= i < self.nodes@.len() && (#[trigger] self.nodes@[i].unacknowledged_messages@.contains(x))
                ==> self.messages@.contains(x)
        &&& self.next_msg_id >= 1
    }

    /// A node that has not yet been initialised.
    pub fn new(opts: Opts) -> (r: State)
        ensures
            r.wf(),
            r.my_id@ == Seq::<char>::empty(),
            r.all_node_ids@.len() == 0,
            r.nodes@.len() == 0,
            r.messages@.len() == 0,
            r.stride == opts.stride,
            r.tick_rate_ms == opts.tick_rate_ms,
            r.next_msg_id == 1,
    {
        State {
            my_id: String::new(),
            all_node_ids: Vec::new(),
            nodes: Vec::new(),
            messages: Vec::new(),
            stride: opts.stride,
            tick_rate_ms: opts.tick_rate_ms,
            next_msg_id: 1,
        }
    }

    /// Every value seen so far, each once, in the order first seen.
    pub fn seen_messages(&self) -> (r: Vec<usize>)
        ensures
            r@ == self.messages@,
    {
        copy_values(&self.messages)
    }

    /// The values sent to neighbor `id` and not yet acknowledged by it.
    pub fn unacknowledged_for(&self, id: &String) -> (r: Vec<usize>)
        ensures
            r@ == pending_for(self.nodes@, id@),
    {
        let mut i: usize = 0;
        assert(self.nodes@.skip(0) =~= self.nodes@);
        while i < self.nodes.len()
            invariant
                i <= self.nodes@.len(),
                pending_for(self.nodes@, id@) == pending_for(self.nodes@.skip(i as int), id@),
            decreases self.nodes@.len() - i,
        {
            assert(self.nodes@.skip(i as int).drop_first() =~= self.nodes@.skip(i + 1));
            if self.nodes[i].node_id == *id {
                return copy_values(&self.nodes[i].unacknowledged_messages);
            }
            i = i + 1;
        }
        Vec::new()
    }

    /// Takes in each value of `incoming`, in order: a value seen for the first
    /// time is stored and queued for every neighbor.
    fn absorb_values(&mut self, incoming: &Vec<usize>)
        requires
            old(self).wf(),
        ensures
            final(self).wf(),
            final(self).messages@ == absorb(old(self).messages@, incoming@),
            nodes_extended(old(self).nodes@, final(self).nodes@, newly_learned(old(self).messages@, incoming@)),
            final(self).my_id == old(self).my_id,
            final(self).all_node_ids == old(self).all_node_ids,
            final(self).stride == old(self).stride,
            final(self).tick_rate_ms == old(self).tick_rate_ms,
            final(self).next_msg_id == old(self).next_msg_id,
    {
        let ghost m0 = self.messages@;
        let ghost n0 = self.nodes@;
        let mut k: usize = 0;
        proof {
            assert(incoming@.take(0) =~= seq![]);
            assert(m0.skip(m0.len() as int) =~= seq![]);
            assert forall|i: int| 0 <= i < n0.len() implies #[trigger] n0[i].unacknowledged_messages@ + seq![] == n0[i].unacknowledged_messages@ by {
                assert(n0[i].unacknowledged_messages@ + seq![] =~= n0[i].unacknowledged_messages@);
            }
        }
        while k < incoming.len()
            invariant
                self.wf(),
                k <= incoming@.len(),
                self.messages@ == absorb(m0, incoming@.take(k as int)),
                nodes_extended(n0, self.nodes@, newly_learned(m0, incoming@.take(k as int))),
                self.my_id == old(self).my_id,
                self.all_node_ids == old(self).all_node_ids,
                self.stride == old(self).stride,
                self.tick_rate_ms == old(self).tick_rate_ms,
                self.next_msg_id == old(self).next_msg_id,
            decreases incoming@.len() - k,
        {
            let x = incoming[k];
            let ghost before = incoming@.take(k as int);
            let ghost after = incoming@.take(k + 1);
            proof {
                assert(after.drop_last() =~= before);
                lemma_absorb_extends(m0, before);
            }
            if !contains_value(self.messages.as_slice(), x) {
                let ghost nodes_mid = self.nodes@;
                let ghost m_prev = self.messages@;
                assert(forall|j: int, y: usize|
                    0 <= j < nodes_mid.len() && (#[trigger] nodes_mid[j].unacknowledged_messages@.contains(y))
                        ==> m_prev.contains(y));
                self.messages.push(x);
                let mut i: usize = 0;
                while i < self.nodes.len()
                    invariant
                        i <= self.nodes@.len(),
                        self.nodes@.len() == nodes_mid.len(),
                        self.messages@ == absorb(m0, before).push(x),
                        self.my_id == old(self).my_id,
                        self.all_node_ids == old(self).all_node_ids,
                        self.stride == old(self).stride,
                        self.tick_rate_ms == old(self).tick_rate_ms,
                        self.next_msg_id == old(self).next_msg_id,
                        forall|j: int|
                            #![trigger self.nodes@[j]]
                            0 <= j < i ==> {
                            &&& self.nodes@[j].node_id == nodes_mid[j].node_id
                            &&& self.nodes@[j].unacknowledged_messages@ == nodes_mid[j].unacknowledged_messages@.push(x)
                        },
                        forall|j: int| i <= j < self.nodes@.len() ==> #[trigger] self.nodes@[j] == nodes_mid[j],
                    decreases self.nodes@.len() - i,
                {
                    self.nodes[i].send_message(x);
                    i = i + 1;
                }
                proof {
                    assert(node_ids_view(self.nodes@) =~= node_ids_view(nodes_mid));
                    let fresh = newly_learned(m0, before);
                    assert(newly_learned(m0, after) =~= fresh.push(x));
                    assert forall|j: int| 0 <= j < n0.len() implies #[trigger] self.nodes@[j].unacknowledged_messages@ == n0[j].unacknowledged_messages@ + fresh.push(x) by {
                        assert(n0[j].unacknowledged_messages@ + fresh.push(x) =~= (n0[j].unacknowledged_messages@ + fresh).push(x));
                    }
                    assert forall|j: int, y: usize| 0 <= j < self.nodes@.len() && (#[trigger] self.nodes@[j].unacknowledged_messages@.contains(y)) implies self.messages@.contains(y) by {
                        if y != x {
                            let p = nodes_mid[j].unacknowledged_messages@;
                            assert(self.nodes@[j].unacknowledged_messages@ == p.push(x));
                            let idx = choose|idx: int| 0 <= idx < p.push(x).len() && p.push(x)[idx] == y;
                            assert(p.contains(y)) by { assert(p[idx] == y); }
                            let w = choose|w: int| 0 <= w < m_prev.len() && m_prev[w] == y;
                            assert(self.messages@[w] == y);
                        } else {
                            assert(self.messages@[self.messages@.len() - 1] == x);
                        }
                    }
                }
            }
            k = k + 1;
        }
        proof {
            assert(incoming@.take(incoming@.len() as int) =~= incoming@);
        }
    }
}

/// Every value pending for some node of `nodes` is one of `known`.
pub open spec fn pending_known(nodes: Seq<RemoteNode>, known: Seq<usize>) -> bool {
    forall|i: int, x: usize|
        0 <= i < nodes.len() && (#[trigger] nodes[i].unacknowledged_messages@.contains(x)) ==> known.contains(x)
}

proof fn lemma_pending_for_known(nodes: Seq<RemoteNode>, id: Seq<char>, known: Seq<usize>)
    requires
        pending_known(nodes, known),
    ensures
        forall|x: usize| #[trigger] pending_for(nodes, id).contains(x) ==> known.contains(x),
    decreases nodes.len(),
{
    if nodes.len() > 0 && nodes[0].node_id@ != id {
        let rest = nodes.drop_first();
        assert forall|i: int, x: usize|
            0 <= i < rest.len() && (#[trigger] rest[i].unacknowledged_messages@.contains(x)) implies known.contains(x) by {
            assert(rest[i] == nodes[i + 1]);
        }
        lemma_pending_for_known(rest, id, known);
        assert(pending_for(nodes, id) == pending_for(rest, id));
    } else if nodes.len() > 0 {
        assert forall|x: usize| #[trigger] pending_for(nodes, id).contains(x) implies known.contains(x) by {
            assert(nodes[0].unacknowledged_messages@.contains(x));
        }
    } else {
        assert(pending_for(nodes, id) =~= seq![]);
    }
}

/// Dropping acknowledged values keeps only values that were pending.
pub proof fn lemma_without_subset(pending: Seq<usize>, acked: Seq<usize>)
    ensures
        forall|x: usize| #[trigger] without(pending, acked).contains(x) ==> pending.contains(x) && !acked.contains(x),
    decreases pending.len(),
{
    if pending.len() > 0 {
        lemma_without_subset(pending.drop_last(), acked);
        assert forall|x: usize| #[trigger] without(pending, acked).contains(x) implies pending.contains(x) && !acked.contains(x) by {
            let rest = without(pending.drop_last(), acked);
            if rest.contains(x) {
                let k = choose|k: int| 0 <= k < pending.drop_last().len() && pending.drop_last()[k] == x;
                assert(pending[k] == x);
            } else {
                assert(x == pending.last());
                assert(pending[pending.len() - 1] == x);
            }
        }
    }
}

fn copy_ids(v: &Vec<String>) -> (r: Vec<String>)
    ensures
        r@ == v@,
{
    let mut r: Vec<String> = Vec::new();
    let mut i: usize = 0;
    while i < v.len()
        invariant
            i <= v@.len(),
            r@ == v@.take(i as int),
        decreases v@.len() - i,
    {
        r.push(v[i].clone());
        assert(r@ =~= v@.take(i + 1));
        i = i + 1;
    }
    assert(r@ =~= v@);
    r
}

impl State {
    fn issue_msg_id(&mut self) -> (r: usize)
        requires
            old(self).next_msg_id < usize::MAX,
        ensures
            r == old(self).next_msg_id,
            final(self).next_msg_id == old(self).next_msg_id + 1,
            final(self).my_id == old(self).my_id,
            final(self).all_node_ids == old(self).all_node_ids,
            final(self).nodes == old(self).nodes,
            final(self).messages == old(self).messages,
            final(self).stride == old(self).stride,
            final(self).tick_rate_ms == old(self).tick_rate_ms,
    {
        let r = self.next_msg_id;
        self.next_msg_id = self.next_msg_id + 1;
        r
    }

    /// Derives the neighbors from the membership, this node's place in it and
    /// the stride; a neighbor that was already known keeps its pending values,
    /// a new one starts with none.
    fn derive_topology(&mut self)
        requires
            old(self).wf(),
        ensures
            final(self).wf(),
            node_ids_view(final(self).nodes@) == distinct_except(
                neighbors_of_id(ids_view(old(self).all_node_ids@), old(self).my_id@, old(self).stride as int),
                old(self).my_id@,
            ),
            forall|i: int|
                0 <= i < final(self).nodes@.len() ==> (#[trigger] final(self).nodes@[i]).unacknowledged_messages@
                    == pending_for(old(self).nodes@, final(self).nodes@[i].node_id@),
            final(self).my_id == old(self).my_id,
            final(self).all_node_ids == old(self).all_node_ids,
            final(self).messages == old(self).messages,
            final(self).stride == old(self).stride,
            final(self).tick_rate_ms == old(self).tick_rate_ms,
            final(self).next_msg_id == old(self).next_msg_id,
    {
        let ghost ids = ids_view(self.all_node_ids@);
        let pos = position_of(&self.all_node_ids, &self.my_id);
        let neighbors: Vec<String> = match pos {
            Some(p) => neighbors_of(&self.all_node_ids, p, self.stride),
            None => Vec::new(),
        };
        proof {
            match pos {
                Some(p) => {
                    assert(is_first_position(ids, self.my_id@, p as int));
                    let q = choose|q: int| is_first_position(ids, self.my_id@, q);
                    assert(q == p as int);
                },
                None => {
                    assert forall|q: int| !is_first_position(ids, self.my_id@, q) by {
                        if 0 <= q < ids.len() {
                            assert(ids[q] == self.all_node_ids@[q]@);
                        }
                    }
                    assert(ids_view(neighbors@) =~= seq![]);
                },
            }
        }
        let ghost nv = ids_view(neighbors@);
        let mut nodes: Vec<RemoteNode> = Vec::new();
        let mut i: usize = 0;
        while i < neighbors.len()
            invariant
                i <= neighbors@.len(),
                nv == ids_view(neighbors@),
                node_ids_view(nodes@) == distinct_except(nv.take(i as int), self.my_id@),
                forall|j: int|
                    0 <= j < nodes@.len() ==> (#[trigger] nodes@[j]).unacknowledged_messages@
                        == pending_for(self.nodes@, nodes@[j].node_id@),
            decreases neighbors@.len() - i,
        {
            proof {
                assert(nv.take(i + 1).drop_last() =~= nv.take(i as int));
                assert(nv[i as int] == neighbors@[i as int]@);
            }
            if neighbors[i] != self.my_id && !has_node(&nodes, &neighbors[i]) {
                let pending = self.unacknowledged_for(&neighbors[i]);
                let ghost before = nodes@;
                nodes.push(RemoteNode { node_id: neighbors[i].clone(), unacknowledged_messages: pending });
                assert(node_ids_view(nodes@) =~= node_ids_view(before).push(neighbors@[i as int]@));
            }
            i = i + 1;
        }
        proof {
            assert(nv.take(nv.len() as int) =~= nv);
            lemma_distinct_except(nv, self.my_id@);
            assert(pending_known(self.nodes@, self.messages@));
            assert forall|j: int, x: usize|
                0 <= j < nodes@.len() && (#[trigger] nodes@[j].unacknowledged_messages@.contains(x)) implies self.messages@.contains(x) by {
                lemma_pending_for_known(self.nodes@, nodes@[j].node_id@, self.messages@);
            }
        }
        self.nodes = nodes;
    }

    /// Drops the values of `acked` from the pending values of each neighbor
    /// named `source`.
    fn acknowledge(&mut self, source: &String, acked: &Vec<usize>)
        requires
            old(self).wf(),
        ensures
            final(self).wf(),
            nodes_acknowledged(old(self).nodes@, final(self).nodes@, source@, acked@),
            final(self).my_id == old(self).my_id,
            final(self).all_node_ids == old(self).all_node_ids,
            final(self).messages == old(self).messages,
            final(self).stride == old(self).stride,
            final(self).tick_rate_ms == old(self).tick_rate_ms,
            final(self).next_msg_id == old(self).next_msg_id,
    {
        let ghost n0 = self.nodes@;
        let mut i: usize = 0;
        while i < self.nodes.len()
            invariant
                i <= self.nodes@.len(),
                self.nodes@.len() == n0.len(),
                pending_known(n0, self.messages@),
                forall|j: int|
                    #![trigger self.nodes@[j]]
                    0 <= j < i ==> {
                        &&& self.nodes@[j].node_id == n0[j].node_id
                        &&& self.nodes@[j].unacknowledged_messages@ == if n0[j].node_id@ == source@ {
                            without(n0[j].unacknowledged_messages@, acked@)
                        } else {
                            n0[j].unacknowledged_messages@
                        }
                    },
                forall|j: int| i <= j < self.nodes@.len() ==> #[trigger] self.nodes@[j] == n0[j],
                self.messages@.no_duplicates(),
                self.next_msg_id >= 1,
                self.my_id == old(self).my_id,
                self.all_node_ids == old(self).all_node_ids,
                self.messages == old(self).messages,
                self.stride == old(self).stride,
                self.tick_rate_ms == old(self).tick_rate_ms,
                self.next_msg_id == old(self).next_msg_id,
            decreases self.nodes@.len() - i,
        {
            if self.nodes[i].node_id == *source {
                self.nodes[i].acknowledge_synced(acked.as_slice());
            }
            i = i + 1;
        }
        assert(node_ids_view(self.nodes@) =~= node_ids_view(n0));
        assert forall|j: int, x: usize|
            0 <= j < self.nodes@.len() && (#[trigger] self.nodes@[j].unacknowledged_messages@.contains(x)) implies self.messages@.contains(x) by {
            lemma_without_subset(n0[j].unacknowledged_messages@, acked@);
            assert(n0[j].unacknowledged_messages@.contains(x));
        }
    }
}

/// `t` is `s` with nothing changed but the request-id counter.
pub open spec fn unchanged_except_counter(s: State, t: State) -> bool {
    &&& t.my_id == s.my_id
    &&& t.all_node_ids == s.all_node_ids
    &&& t.nodes == s.nodes
    &&& t.messages == s.messages
    &&& t.stride == s.stride
    &&& t.tick_rate_ms == s.tick_rate_ms
}

/// `out` is one reply to `env`, under the next request id of `s`, which `t`
/// has used up.
pub open spec fn replied_once(s: State, env: Envelope<Payload>, t: State, out: Seq<Envelope<Payload>>) -> bool {
    &&& t.next_msg_id == s.next_msg_id + 1
    &&& out.len() == 1
    &&& Envelope::<Payload>::is_reply_to(out[0], env, Some(s.next_msg_id))
}

/// `t` is `s` after taking in `incoming`: new values stored once each and
/// queued for every neighbor.
pub open spec fn learned(s: State, t: State, incoming: Seq<usize>) -> bool {
    &&& t.messages@ == absorb(s.messages@, incoming)
    &&& nodes_extended(s.nodes@, t.nodes@, newly_learned(s.messages@, incoming))
    &&& t.my_id == s.my_id
    &&& t.all_node_ids == s.all_node_ids
    &&& t.stride == s.stride
    &&& t.tick_rate_ms == s.tick_rate_ms
}

/// `t` holds the neighbors that the membership, the node's id and the stride
/// of `s` give, each once and never the node itself; a neighbor that `s` knew
/// keeps its pending values.
pub open spec fn topology_derived(s: State, t: State) -> bool {
    &&& node_ids_view(t.nodes@) == distinct_except(
        neighbors_of_id(ids_view(s.all_node_ids@), s.my_id@, s.stride as int),
        s.my_id@,
    )
    &&& forall|i: int|
        0 <= i < t.nodes@.len() ==> (#[trigger] t.nodes@[i]).unacknowledged_messages@ == pending_for(
            s.nodes@,
            t.nodes@[i].node_id@,
        )
    &&& t.my_id == s.my_id
    &&& t.all_node_ids == s.all_node_ids
    &&& t.messages == s.messages
    &&& t.stride == s.stride
    &&& t.tick_rate_ms == s.tick_rate_ms
}

/// The reaction of a node in state `s` to `env`: the next state `t` and the
/// envelopes `out` to send.
pub open spec fn handled(s: State, env: Envelope<Payload>, t: State, out: Seq<Envelope<Payload>>) -> bool {
    match env.body.message {
        Payload::Init { node_id, node_ids } => {
            &&& replied_once(s, env, t, out)
            &&& out[0].body.message is InitOk
            &&& t.my_id@ == node_id@
            &&& t.all_node_ids@ == node_ids@
            &&& t.nodes == s.nodes
            &&& t.messages == s.messages
            &&& t.stride == s.stride
            &&& t.tick_rate_ms == s.tick_rate_ms
        },
        Payload::Topology { .. } => {
            &&& replied_once(s, env, t, out)
            &&& out[0].body.message is TopologyOk
            &&& topology_derived(s, t)
        },
        Payload::Broadcast { message } => {
            &&& replied_once(s, env, t, out)
            &&& out[0].body.message is BroadcastOk
            &&& learned(s, t, seq![message])
        },
        Payload::Read => {
            &&& replied_once(s, env, t, out)
            &&& out[0].body.message is ReadOk
            &&& out[0].body.message->ReadOk_messages@ == s.messages@
            &&& unchanged_except_counter(s, t)
        },
        Payload::Sync { messages } => {
            &&& replied_once(s, env, t, out)
            &&& out[0].body.message is SyncOk
            &&& out[0].body.message->SyncOk_messages@ == messages@
            &&& learned(s, t, messages@)
        },
        Payload::SyncOk { messages } => {
            &&& out.len() == 0
            &&& nodes_acknowledged(s.nodes@, t.nodes@, env.source@, messages@)
            &&& t.my_id == s.my_id
            &&& t.all_node_ids == s.all_node_ids
            &&& t.messages == s.messages
            &&& t.stride == s.stride
            &&& t.tick_rate_ms == s.tick_rate_ms
            &&& t.next_msg_id == s.next_msg_id
        },
        _ => {
            &&& out.len() == 0
            &&& t == s
        },
    }
}

fn reply(state: &mut State, envelope: &Envelope<Payload>, message: Payload) -> (out: Vec<Envelope<Payload>>)
    requires
        old(state).next_msg_id < usize::MAX,
    ensures
        replied_once(*old(state), *envelope, *final(state), out@),
        out@[0].body.message == message,
        unchanged_except_counter(*old(state), *final(state)),
{
    let id = state.issue_msg_id();
    let mut out: Vec<Envelope<Payload>> = Vec::new();
    out.push(envelope.reply_with(Some(id), message));
    out
}

/// Reacts to one inbound envelope: updates the state and returns the
/// envelopes to send. Replies of other nodes and unknown kinds are ignored.
pub fn handle_envelope(state: &mut State, envelope: &Envelope<Payload>) -> (out: Vec<Envelope<Payload>>)
    requires
        old(state).wf(),
        old(state).next_msg_id < usize::MAX,
    ensures
        final(state).wf(),
        handled(*old(state), *envelope, *final(state), out@),
{
    match &envelope.body.message {
        Payload::Init { node_id, node_ids } => {
            state.my_id = node_id.clone();
            state.all_node_ids = copy_ids(node_ids);
            reply(state, envelope, Payload::InitOk)
        },
        Payload::Topology { .. } => {
            state.derive_topology();
            reply(state, envelope, Payload::TopologyOk)
        },
        Payload::Broadcast { message } => {
            let mut one: Vec<usize> = Vec::new();
            one.push(*message);
            state.absorb_values(&one);
            reply(state, envelope, Payload::BroadcastOk)
        },
        Payload::Read => {
            let messages = state.seen_messages();
            reply(state, envelope, Payload::ReadOk { messages })
        },
        Payload::Sync { messages } => {
            state.absorb_values(messages);
            let echoed = copy_values(messages);
            reply(state, envelope, Payload::SyncOk { messages: echoed })
        },
        Payload::SyncOk { messages } => {
            state.acknowledge(&envelope.source, messages);
            Vec::new()
        },
        _ => Vec::new(),
    }
}

/// The neighbors with values still pending, in order.
pub open spec fn due_nodes(nodes: Seq<RemoteNode>) -> Seq<RemoteNode>
    decreases nodes.len(),
{
    if nodes.len() == 0 {
        seq![]
    } else {
        let prev = due_nodes(nodes.drop_last());
        if nodes.last().unacknowledged_messages@.len() > 0 {
            prev.push(nodes.last())
        } else {
            prev
        }
    }
}

/// `e` is a sync request from `from` to `to` under request id `id`, carrying
/// every value pending for `to`.
pub open spec fn is_sync_request(e: Envelope<Payload>, from: Seq<char>, to: RemoteNode, id: int) -> bool {
    &&& e.source@ == from
    &&& e.destination@ == to.node_id@
    &&& e.body.msg_id == Some(id as usize)
    &&& e.body.in_reply_to is None
    &&& e.body.message is Sync
    &&& e.body.message->Sync_messages@ == to.unacknowledged_messages@
}

/// One anti-entropy round from state `s`: a sync request to each neighbor with
/// values pending, under consecutive request ids; nothing pending is cleared.
pub open spec fn gossiped(s: State, t: State, out: Seq<Envelope<Payload>>) -> bool {
    let due = due_nodes(s.nodes@);
    &&& out.len() == due.len()
    &&& forall|k: int|
        0 <= k < out.len() ==> is_sync_request(#[trigger] out[k], s.my_id@, due[k], s.next_msg_id + k)
    &&& t.next_msg_id == s.next_msg_id + out.len()
    &&& unchanged_except_counter(s, t)
}

/// One tick of the anti-entropy scheduler: sends every neighbor with values
/// pending all of them again, until it acknowledges them.
pub fn gossip(state: &mut State) -> (out: Vec<Envelope<Payload>>)
    requires
        old(state).wf(),
        old(state).next_msg_id + old(state).nodes@.len() <= usize::MAX,
    ensures
        final(state).wf(),
        gossiped(*old(state), *final(state), out@),
{
    let ghost s0 = *state;
    let ghost nodes = state.nodes@;
    let mut out: Vec<Envelope<Payload>> = Vec::new();
    let mut i: usize = 0;
    while i < state.nodes.len()
        invariant
            state.wf(),
            nodes == state.nodes@,
            unchanged_except_counter(s0, *state),
            i <= nodes.len(),
            s0.next_msg_id + nodes.len() <= usize::MAX,
            out@.len() == due_nodes(nodes.take(i as int)).len(),
            out@.len() <= i,
            state.next_msg_id == s0.next_msg_id + out@.len(),
            forall|k: int|
                0 <= k < out@.len() ==> is_sync_request(
                    #[trigger] out@[k],
                    s0.my_id@,
                    due_nodes(nodes.take(i as int))[k],
                    s0.next_msg_id + k,
                ),
        decreases nodes.len() - i,
    {
        proof {
            assert(nodes.take(i + 1).drop_last() =~= nodes.take(i as int));
        }
        if state.nodes[i].has_unacknowledged_messages() {
            let id = state.issue_msg_id();
            let pending = copy_values(&state.nodes[i].unacknowledged_messages);
            let e = Envelope::new(
                state.my_id.as_str(),
                state.nodes[i].node_id.as_str(),
                Body { msg_id: Some(id), in_reply_to: None, message: Payload::Sync { messages: pending } },
            );
            out.push(e);
        }
        i = i + 1;
    }
    proof {
        assert(nodes.take(nodes.len() as int) =~= nodes);
    }
    out
}

/// Every value of `incoming` is known after taking it in.
pub proof fn lemma_absorb_contains(known: Seq<usize>, incoming: Seq<usize>)
    ensures
        forall|x: usize| incoming.contains(x) ==> #[trigger] absorb(known, incoming).contains(x),
        forall|x: usize| known.contains(x) ==> #[trigger] absorb(known, incoming).contains(x),
    decreases incoming.len(),
{
    if incoming.len() > 0 {
        let prev = incoming.drop_last();
        lemma_absorb_contains(known, prev);
        let w = absorb(known, prev);
        assert forall|x: usize| incoming.contains(x) || known.contains(x) implies #[trigger] absorb(known, incoming).contains(x) by {
            if x == incoming.last() {
                if !w.contains(x) {
                    assert(w.push(x)[w.len() as int] == x);
                }
            } else {
                if incoming.contains(x) {
                    let k = choose|k: int| 0 <= k < incoming.len() && incoming[k] == x;
                    assert(prev[k] == x);
                }
                assert(w.contains(x));
                let k = choose|k: int| 0 <= k < w.len() && w[k] == x;
                assert(w.push(incoming.last())[k] == x);
            }
        }
    }
}

/// Taking in only values that are already known changes nothing.
pub proof fn lemma_absorb_known(known: Seq<usize>, incoming: Seq<usize>)
    requires
        forall|x: usize| incoming.contains(x) ==> known.contains(x),
    ensures
        absorb(known, incoming) == known,
    decreases incoming.len(),
{
    if incoming.len() > 0 {
        let prev = incoming.drop_last();
        assert forall|x: usize| prev.contains(x) implies known.contains(x) by {
            let k = choose|k: int| 0 <= k < prev.len() && prev[k] == x;
            assert(incoming[k] == x);
        }
        lemma_absorb_known(known, prev);
        assert(incoming[incoming.len() - 1] == incoming.last());
    }
}

/// A node never forgets a value: whatever envelope it handles, every value it
/// knew before it still knows after.
pub proof fn lemma_values_monotone(s: State, env: Envelope<Payload>, t: State, out: Seq<Envelope<Payload>>)
    requires
        handled(s, env, t, out),
    ensures
        s.values().subset_of(t.values()),
{
    match env.body.message {
        Payload::Broadcast { message } => {
            lemma_absorb_contains(s.messages@, seq![message]);
        },
        Payload::Sync { messages } => {
            lemma_absorb_contains(s.messages@, messages@);
        },
        _ => {},
    }
}

/// A gossip round changes no value and no pending queue.
pub proof fn lemma_gossip_keeps_state(s: State, t: State, out: Seq<Envelope<Payload>>)
    requires
        gossiped(s, t, out),
    ensures
        t.values() == s.values(),
        t.nodes == s.nodes,
{
}

/// Delivering the same sync request twice leaves the values and the pending
/// queues as the first delivery left them: the second learns nothing new.
pub proof fn lemma_sync_idempotent(
    s: State,
    first: Envelope<Payload>,
    t: State,
    out1: Seq<Envelope<Payload>>,
    second: Envelope<Payload>,
    u: State,
    out2: Seq<Envelope<Payload>>,
)
    requires
        first.body.message is Sync,
        second.body.message is Sync,
        second.body.message->Sync_messages@ == first.body.message->Sync_messages@,
        handled(s, first, t, out1),
        handled(t, second, u, out2),
    ensures
        u.messages@ == t.messages@,
        u.nodes@.len() == t.nodes@.len(),
        forall|i: int|
            0 <= i < t.nodes@.len() ==> (#[trigger] u.nodes@[i]).unacknowledged_messages@
                == t.nodes@[i].unacknowledged_messages@,
{
    let m = first.body.message->Sync_messages@;
    lemma_absorb_contains(s.messages@, m);
    lemma_absorb_known(t.messages@, m);
    assert(newly_learned(t.messages@, m) =~= seq![]);
    assert forall|i: int| 0 <= i < t.nodes@.len() implies (#[trigger] u.nodes@[i]).unacknowledged_messages@
        == t.nodes@[i].unacknowledged_messages@ by {
        assert(t.nodes@[i].unacknowledged_messages@ + seq![] =~= t.nodes@[i].unacknowledged_messages@);
    }
}

/// Once a neighbor acknowledges every value pending for it, nothing is pending
/// for it any more.
pub proof fn lemma_full_acknowledgement_clears(
    s: State,
    env: Envelope<Payload>,
    t: State,
    out: Seq<Envelope<Payload>>,
    i: int,
)
    requires
        env.body.message is SyncOk,
        handled(s, env, t, out),
        0 <= i < s.nodes@.len(),
        s.nodes@[i].node_id@ == env.source@,
        forall|x: usize|
            s.nodes@[i].unacknowledged_messages@.contains(x) ==> env.body.message->SyncOk_messages@.contains(x),
    ensures
        t.nodes@[i].unacknowledged_messages@.len() == 0,
{
    lemma_superset_acknowledgement_empties(s.nodes@[i].unacknowledged_messages@, env.body.message->SyncOk_messages@);
}

/// Every envelope of `out` carries a request id in `lo..hi`.
pub open spec fn ids_issued_within(out: Seq<Envelope<Payload>>, lo: int, hi: int) -> bool {
    forall|k: int|
        0 <= k < out.len() ==> {
            &&& (#[trigger] out[k]).body.msg_id is Some
            &&& lo <= out[k].body.msg_id->0 < hi
        }
}

/// Every reply names the request it answers, and carries a request id that
/// the node had not issued before; the counter never goes back.
pub proof fn lemma_reply_correlation(s: State, env: Envelope<Payload>, t: State, out: Seq<Envelope<Payload>>)
    requires
        handled(s, env, t, out),
    ensures
        forall|k: int| 0 <= k < out.len() ==> (#[trigger] out[k]).body.in_reply_to == env.body.msg_id,
        ids_issued_within(out, s.next_msg_id as int, t.next_msg_id as int),
        s.next_msg_id <= t.next_msg_id,
{
}

/// A gossip round issues fresh request ids only, and moves the counter past them.
pub proof fn lemma_gossip_ids(s: State, t: State, out: Seq<Envelope<Payload>>)
    requires
        gossiped(s, t, out),
    ensures
        ids_issued_within(out, s.next_msg_id as int, t.next_msg_id as int),
        s.next_msg_id <= t.next_msg_id,
{
}

/// Two successive steps of a node never send the same request id.
pub proof fn lemma_msg_ids_not_reused(
    s: State,
    e1: Envelope<Payload>,
    t: State,
    out1: Seq<Envelope<Payload>>,
    e2: Envelope<Payload>,
    u: State,
    out2: Seq<Envelope<Payload>>,
)
    requires
        handled(s, e1, t, out1),
        handled(t, e2, u, out2),
    ensures
        forall|i: int, j: int|
            0 <= i < out1.len() && 0 <= j < out2.len() ==> (#[trigger] out1[i]).body.msg_id != (#[trigger] out2[j]).body.msg_id,
{
    lemma_reply_correlation(s, e1, t, out1);
    lemma_reply_correlation(t, e2, u, out2);
}

/// A value that a step teaches a node is, by the end of that step, pending for
/// every one of its neighbors: first sightings are always scheduled for
/// propagation.
pub proof fn lemma_new_values_queued(
    s: State,
    env: Envelope<Payload>,
    t: State,
    out: Seq<Envelope<Payload>>,
    x: usize,
)
    requires
        handled(s, env, t, out),
        t.values().contains(x),
        !s.values().contains(x),
    ensures
        forall|i: int| 0 <= i < t.nodes@.len() ==> (#[trigger] t.nodes@[i]).unacknowledged_messages@.contains(x),
{
    let incoming = match env.body.message {
        Payload::Broadcast { message } => seq![message],
        Payload::Sync { messages } => messages@,
        _ => seq![],
    };
    if env.body.message is Broadcast || env.body.message is Sync {
        let m = s.messages@;
        let w = absorb(m, incoming);
        lemma_absorb_extends(m, incoming);
        let k = choose|k: int| 0 <= k < w.len() && w[k] == x;
        if k < m.len() {
            assert(w.take(m.len() as int)[k] == x);
            assert(m.contains(x));
        }
        let fresh = newly_learned(m, incoming);
        assert(fresh[k - m.len()] == x);
        assert forall|i: int| 0 <= i < t.nodes@.len() implies (#[trigger] t.nodes@[i]).unacknowledged_messages@.contains(x) by {
            let p = s.nodes@[i].unacknowledged_messages@;
            assert((p + fresh)[p.len() + k - m.len()] == x);
        }
    }
}

/// One hop of dissemination: a sync request of a gossip round, once its
/// neighbor handles it, leaves that neighbor knowing every value it carried.
pub proof fn lemma_sync_delivers(
    s: State,
    t: State,
    out: Seq<Envelope<Payload>>,
    k: int,
    r: State,
    r_next: State,
    r_out: Seq<Envelope<Payload>>,
)
    requires
        gossiped(s, t, out),
        0 <= k < out.len(),
        handled(r, out[k], r_next, r_out),
    ensures
        forall|x: usize|
            due_nodes(s.nodes@)[k].unacknowledged_messages@.contains(x) ==> #[trigger] r_next.values().contains(x),
{
    lemma_absorb_contains(r.messages@, out[k].body.message->Sync_messages@);
}

/// A neighbor that acknowledges every value pending for it is left with none.
pub proof fn lemma_superset_acknowledgement_empties(pending: Seq<usize>, acked: Seq<usize>)
    requires
        forall|x: usize| pending.contains(x) ==> acked.contains(x),
    ensures
        without(pending, acked).len() == 0,
{
    lemma_without_subset(pending, acked);
    let r = without(pending, acked);
    if r.len() > 0 {
        assert(r.contains(r[0]));
    }
}

/// With a stride of one, the topology step makes every other member a
/// neighbor, and nothing else: the full mesh.
pub proof fn lemma_full_mesh_topology(s: State, env: Envelope<Payload>, t: State, out: Seq<Envelope<Payload>>)
    requires
        env.body.message is Topology,
        handled(s, env, t, out),
        s.stride == 1,
        ids_view(s.all_node_ids@).contains(s.my_id@),
    ensures
        forall|x: Seq<char>|
            #[trigger] node_ids_view(t.nodes@).contains(x) <==> (ids_view(s.all_node_ids@).contains(x) && x
                != s.my_id@),
{
    let ids = ids_view(s.all_node_ids@);
    let me = s.my_id@;
    let n = ids.len() as int;
    lemma_first_position_exists(ids, me);
    let p = choose|q: int| is_first_position(ids, me, q);
    assert(effective_stride(1, n) == 1);
    let list = neighbor_list(ids, p, 1);
    lemma_neighbor_members(ids, p, 1, n);
    lemma_distinct_except(list, me);
    assert forall|x: Seq<char>| ids.contains(x) && x != me implies #[trigger] list.contains(x) by {
        let j = choose|j: int| 0 <= j < ids.len() && ids[j] == x;
        assert(j % 1 == 0 && (p + 1) % 1 == 0) by (nonlinear_arith);
        assert(is_neighbor_index(j, p, 1));
        lemma_neighbor_listed(ids, p, 1, n, j);
    }
}

} // verus!
