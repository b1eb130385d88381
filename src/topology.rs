use vstd::arithmetic::div_mod::{lemma_add_mod_noop_right, lemma_mod_self_0, lemma_mod_twice, lemma_small_mod};
use vstd::prelude::*;

verus! {

/// The ids of a list of nodes, as character sequences.
pub open spec fn ids_view(ids: Seq<String>) -> Seq<Seq<char>> {
    ids.map_values(|s: String| s@)
}

/// The stride that is used for a membership of `n` nodes. A stride of zero, or
/// one larger than the membership, leaves some residue class empty and the
/// overlay disconnected: such a stride falls back to the full mesh.
pub open spec fn effective_stride(stride: int, n: int) -> int {
    if 1 <= stride <= n {
        stride
    } else {
        1
    }
}

/// Index `i` is a neighbor of the node at index `p` under stride `s`: it lies in
/// the residue class after `p`'s own, and is not `p` itself.
pub open spec fn is_neighbor_index(i: int, p: int, s: int) -> bool {
    &&& i % s == (p + 1) % s
    &&& i != p
}

/// The neighbors of the node at index `p` among the first `k` members, in
/// membership order.
pub open spec fn neighbor_prefix(ids: Seq<Seq<char>>, p: int, s: int, k: int) -> Seq<Seq<char>>
    decreases k,
{
    if k <= 0 {
        seq![]
    } else {
        let prev = neighbor_prefix(ids, p, s, k - 1);
        if is_neighbor_index(k - 1, p, s) {
            prev.push(ids[k - 1])
        } else {
            prev
        }
    }
}

/// The neighbor list of the node at index `p` of the membership `ids`.
pub open spec fn neighbor_list(ids: Seq<Seq<char>>, p: int, stride: int) -> Seq<Seq<char>> {
    neighbor_prefix(ids, p, effective_stride(stride, ids.len() as int), ids.len() as int)
}

/// `p` is the first index at which `id` occurs in `ids`.
pub open spec fn is_first_position(ids: Seq<Seq<char>>, id: Seq<char>, p: int) -> bool {
    &&& 0 <= p < ids.len()
    &&& ids[p] == id
    &&& forall|j: int| 0 <= j < p ==> ids[j] != id
}

/// The neighbor list of node `id` in the membership `ids`: empty where `id` is
/// not a member.
pub open spec fn neighbors_of_id(ids: Seq<Seq<char>>, id: Seq<char>, stride: int) -> Seq<Seq<char>> {
    if exists|p: int| is_first_position(ids, id, p) {
        neighbor_list(ids, choose|p: int| is_first_position(ids, id, p), stride)
    } else {
        seq![]
    }
}

/// The index of the first occurrence of `id` in `node_ids`, if any.
pub fn position_of(node_ids: &Vec<String>, id: &String) -> (r: Option<usize>)
    ensures
        match r {
            Some(p) => is_first_position(ids_view(node_ids@), id@, p as int),
            None => forall|j: int| 0 <= j < node_ids@.len() ==> node_ids@[j]@ != id@,
        },
{
    let mut i: usize = 0;
    while i < node_ids.len()
        invariant
            i <= node_ids@.len(),
            forall|j: int| 0 <= j < i ==> node_ids@[j]@ != id@,
        decreases node_ids@.len() - i,
    {
        if node_ids[i] == *id {
            return Some(i);
        }
        i = i + 1;
    }
    None
}

/// The neighbors of the node at index `position`: every other member whose
/// index lies in the residue class, modulo the stride, after `position`'s own.
pub fn neighbors_of(node_ids: &Vec<String>, position: usize, stride: usize) -> (r: Vec<String>)
    ensures
        ids_view(r@) == neighbor_list(ids_view(node_ids@), position as int, stride as int),
{
    let n = node_ids.len();
    let s: usize = if 1 <= stride && stride <= n { stride } else { 1 };
    let class: usize = (position % s + 1) % s;
    proof {
        lemma_add_mod_noop_right(1, position as int, s as int);
    }
    let ghost ids = ids_view(node_ids@);
    let mut r: Vec<String> = Vec::new();
    let mut i: usize = 0;
    while i < n
        invariant
            n == node_ids@.len(),
            ids == ids_view(node_ids@),
            s as int == effective_stride(stride as int, n as int),
            s >= 1,
            class as int == (position as int + 1) % (s as int),
            i <= n,
            ids_view(r@) == neighbor_prefix(ids, position as int, s as int, i as int),
        decreases n - i,
    {
        if i % s == class && i != position {
            r.push(node_ids[i].clone());
        }
        proof {
            assert(ids[i as int] == node_ids@[i as int]@);
        }
        assert(ids_view(r@) =~= neighbor_prefix(ids, position as int, s as int, i + 1));
        i = i + 1;
    }
    r
}

/// Every member at a neighbor index of `p` is in `p`'s neighbor list.
pub proof fn lemma_neighbor_listed(ids: Seq<Seq<char>>, p: int, s: int, k: int, j: int)
    requires
        0 <= j < k <= ids.len(),
        is_neighbor_index(j, p, s),
    ensures
        neighbor_prefix(ids, p, s, k).contains(ids[j]),
    decreases k,
{
    let prev = neighbor_prefix(ids, p, s, k - 1);
    if j == k - 1 {
        assert(prev.push(ids[j])[prev.len() as int] == ids[j]);
    } else {
        lemma_neighbor_listed(ids, p, s, k - 1, j);
        if is_neighbor_index(k - 1, p, s) {
            let w = choose|w: int| 0 <= w < prev.len() && prev[w] == ids[j];
            assert(prev.push(ids[k - 1])[w] == ids[j]);
        }
    }
}

/// A member has a first position in the membership.
pub proof fn lemma_first_position_exists(ids: Seq<Seq<char>>, id: Seq<char>)
    requires
        ids.contains(id),
    ensures
        exists|p: int| is_first_position(ids, id, p),
    decreases ids.len(),
{
    let prev = ids.drop_last();
    if prev.contains(id) {
        lemma_first_position_exists(prev, id);
        let q = choose|q: int| is_first_position(prev, id, q);
        assert(ids[q] == prev[q]);
        assert forall|j: int| 0 <= j < q implies ids[j] != id by {
            assert(prev[j] == ids[j]);
        }
        assert(is_first_position(ids, id, q));
    } else {
        let q = ids.len() - 1;
        let k = choose|k: int| 0 <= k < ids.len() && ids[k] == id;
        if k < q {
            assert(prev[k] == id);
            assert(prev.contains(id));
        }
        assert forall|j: int| 0 <= j < q implies ids[j] != id by {
            assert(prev[j] == ids[j]);
        }
        assert(is_first_position(ids, id, q));
    }
}

/// Every id in a neighbor list is that of a member.
pub proof fn lemma_neighbor_members(ids: Seq<Seq<char>>, p: int, s: int, k: int)
    requires
        0 <= k <= ids.len(),
    ensures
        forall|x: Seq<char>| #[trigger] neighbor_prefix(ids, p, s, k).contains(x) ==> ids.contains(x),
    decreases k,
{
    if k > 0 {
        lemma_neighbor_members(ids, p, s, k - 1);
        let prev = neighbor_prefix(ids, p, s, k - 1);
        assert forall|x: Seq<char>| #[trigger] neighbor_prefix(ids, p, s, k).contains(x) implies ids.contains(x) by {
            if prev.contains(x) {
            } else {
                let r = prev.push(ids[k - 1]);
                let w = choose|w: int| 0 <= w < r.len() && r[w] == x;
                assert(ids[k - 1] == x);
            }
        }
    }
}

/// `path` is a walk along overlay edges among `n` members under stride `s`.
pub open spec fn is_route(path: Seq<int>, s: int, n: int) -> bool {
    &&& path.len() >= 1
    &&& forall|k: int| 0 <= k < path.len() ==> 0 <= #[trigger] path[k] < n
    &&& forall|k: int| 0 < k < path.len() ==> is_neighbor_index(#[trigger] path[k], path[k - 1], s)
}

proof fn lemma_next_class_differs(x: int, s: int)
    requires
        0 <= x < s,
        s >= 2,
    ensures
        (x + 1) % s != x,
{
    if x + 1 < s {
        lemma_small_mod((x + 1) as nat, s as nat);
    } else {
        lemma_mod_self_0(s);
    }
}

/// From residue class `p % s`, one representative per class until the class
/// before `q`'s own.
pub open spec fn class_walk(p: int, q: int, s: int) -> Seq<int> {
    Seq::new(((q - p - 1) % s) as nat, |k: int| (p + k + 1) % s)
}

/// The overlay that the topology derivation gives is strongly connected, for
/// every membership and every stride: from each member a walk along neighbor
/// edges reaches each other member. A stride that would leave some residue
/// class empty is replaced by the full mesh, which is what makes this hold.
pub proof fn lemma_overlay_connected(n: int, stride: int, p: int, q: int)
    requires
        0 <= p < n,
        0 <= q < n,
    ensures
        exists|path: Seq<int>|
            is_route(path, effective_stride(stride, n), n) && path[0] == p && path.last() == q,
{
    let s = effective_stride(stride, n);
    if p == q {
        let path = seq![p];
        assert(is_route(path, s, n) && path[0] == p && path.last() == q);
    } else if s == 1 {
        let path = seq![p, q];
        assert(q % 1 == 0 && (p + 1) % 1 == 0) by (nonlinear_arith);
        assert(is_route(path, s, n) && path[0] == p && path.last() == q);
    } else {
        let walk = class_walk(p, q, s);
        let path = seq![p] + walk + seq![q];
        let kk = (q - p - 1) % s;
        assert(0 <= kk < s);
        assert forall|k: int| 0 <= k < path.len() implies 0 <= #[trigger] path[k] < n by {
            if 0 < k < path.len() - 1 {
                assert(path[k] == (p + k) % s);
            }
        }
        assert forall|k: int| 0 < k < path.len() implies is_neighbor_index(#[trigger] path[k], path[k - 1], s) by {
            let prev = if k == 1 { p } else { (p + k - 1) % s };
            assert(path[k - 1] == prev);
            if k == 1 {
                assert(prev == p);
            } else {
                assert(0 <= prev < s);
                lemma_add_mod_noop_right(1, p + k - 1, s);
            }
            if k < path.len() - 1 {
                assert(path[k] == (p + k) % s);
                lemma_mod_twice(p + k, s);
                if k == 1 {
                    if p < s {
                        lemma_small_mod(p as nat, s as nat);
                        lemma_next_class_differs(p, s);
                        lemma_add_mod_noop_right(1, p, s);
                    }
                } else {
                    lemma_next_class_differs(prev, s);
                    lemma_small_mod(prev as nat, s as nat);
                }
            } else {
                assert(path[k] == q);
                lemma_add_mod_noop_right(p + 1, q - p - 1, s);
                assert((p + 1 + kk) % s == q % s);
                if k == 1 {
                    assert(kk == 0);
                    assert((p + 1) % s == q % s);
                    let x = p % s;
                    lemma_add_mod_noop_right(1, p, s);
                    if q == p {
                        lemma_next_class_differs(x, s);
                        lemma_mod_twice(p, s);
                    }
                } else {
                    assert(k - 1 == kk);
                    lemma_add_mod_noop_right(1, p + kk, s);
                    assert((prev + 1) % s == q % s);
                    if q == prev {
                        lemma_small_mod(prev as nat, s as nat);
                        lemma_next_class_differs(prev, s);
                    }
                }
            }
        }
        assert(is_route(path, s, n) && path[0] == p && path.last() == q);
    }
}

} // verus!
