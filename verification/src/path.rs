//! Weighted path finding from the client to a destination server.
//!
//! Dijkstra's algorithm over the learned topology, restricted by the
//! kind-transition rule: a client may step only into a drone, a drone into a
//! drone or a server, and nothing steps out of a server. A search succeeds
//! exactly when the destination is recorded as a server and a chain of
//! admissible edges reaches it; the returned hop list starts at the client
//! and is ready to be installed as a routing header.
//!
//! Node identifiers are bytes, so every per-node table is a 256-slot vector
//! indexed by the identifier.

use crate::topology::{edges_of, Topology};
use crate::types::{NodeId, NodeKind};
use vstd::prelude::*;

verus! {

/// The kind recorded for `n`, if any. The table has one slot per identifier.
pub open spec fn kind_at(kinds: Seq<Option<NodeKind>>, n: NodeId) -> Option<NodeKind> {
    if 0 <= n < kinds.len() {
        kinds[n as int]
    } else {
        None
    }
}

/// The kind-transition rule: which ordered pairs of node kinds a route may
/// step across.
pub open spec fn valid_step(kinds: Seq<Option<NodeKind>>, u: NodeId, v: NodeId) -> bool {
    ||| (kind_at(kinds, u) == Some(NodeKind::Client) && kind_at(kinds, v) == Some(NodeKind::Drone))
    ||| (kind_at(kinds, u) == Some(NodeKind::Drone) && (kind_at(kinds, v) == Some(NodeKind::Drone)
        || kind_at(kinds, v) == Some(NodeKind::Server)))
}

/// An admissible edge: present in the topology and allowed by the
/// kind-transition rule.
pub open spec fn valid_edge(
    kinds: Seq<Option<NodeKind>>,
    edges: Map<(NodeId, NodeId), u64>,
    u: NodeId,
    v: NodeId,
) -> bool {
    valid_step(kinds, u, v) && edges.dom().contains((u, v))
}

/// Every consecutive pair of the hop list is an admissible edge.
pub open spec fn valid_chain(
    kinds: Seq<Option<NodeKind>>,
    edges: Map<(NodeId, NodeId), u64>,
    p: Seq<NodeId>,
) -> bool {
    forall|i: int| 0 <= i < p.len() - 1 ==> #[trigger] valid_edge(kinds, edges, p[i], p[i + 1])
}

/// Some chain of admissible edges leads from `src` to `dst` (trivially, when
/// they are the same node).
pub open spec fn reaches(
    kinds: Seq<Option<NodeKind>>,
    edges: Map<(NodeId, NodeId), u64>,
    src: NodeId,
    dst: NodeId,
) -> bool {
    exists|p: Seq<NodeId>|
        p.len() >= 1 && p[0] == src && p[p.len() - 1] == dst && #[trigger] valid_chain(
            kinds,
            edges,
            p,
        )
}

/// Edge weights small enough that no distance sum along a route can
/// overflow the arithmetic: 258 such weights still fit comfortably below
/// `u64::MAX`.
pub const WEIGHT_LIMIT: u64 = 0x40000000000000;

/// Every present edge weighs at most `WEIGHT_LIMIT`. Weights installed by
/// the reliability estimator are a few thousandths wide, far below it.
pub open spec fn bounded_weights(edges: Map<(NodeId, NodeId), u64>) -> bool {
    forall|k: (NodeId, NodeId)| edges.dom().contains(k) ==> #[trigger] edges[k] <= WEIGHT_LIMIT
}

/// Total weight of a hop list: the sum of its edges' weights.
pub open spec fn chain_weight(edges: Map<(NodeId, NodeId), u64>, p: Seq<NodeId>) -> int
    decreases p.len(),
{
    if p.len() <= 1 {
        0
    } else {
        chain_weight(edges, p.drop_last()) + edges[(p[p.len() - 2], p[p.len() - 1])]
    }
}

/// Total weight of a hop list written back to front: the edges are the
/// pairs read toward the front.
pub open spec fn back_weight(edges: Map<(NodeId, NodeId), u64>, b: Seq<NodeId>) -> int
    decreases b.len(),
{
    if b.len() <= 1 {
        0
    } else {
        edges[(b[1], b[0])] + back_weight(edges, b.drop_first())
    }
}

proof fn lemma_chain_weight_nonneg(edges: Map<(NodeId, NodeId), u64>, p: Seq<NodeId>)
    ensures
        chain_weight(edges, p) >= 0,
    decreases p.len(),
{
    if p.len() > 1 {
        lemma_chain_weight_nonneg(edges, p.drop_last());
    }
}

/// Cutting hops off the end cannot raise the weight.
proof fn lemma_chain_weight_prefix_le(edges: Map<(NodeId, NodeId), u64>, p: Seq<NodeId>, m: int)
    requires
        0 <= m <= p.len(),
    ensures
        chain_weight(edges, p.take(m)) <= chain_weight(edges, p),
    decreases p.len() - m,
{
    if m == p.len() {
        assert(p.take(m) =~= p);
    } else {
        assert(p.drop_last().take(m) =~= p.take(m));
        lemma_chain_weight_prefix_le(edges, p.drop_last(), m);
    }
}

/// Walking a chain whose first hops are all settled: the tentative
/// distance of each node reached is at most the weight walked so far,
/// given the settled set's relaxation closure.
proof fn lemma_prefix_dist_lb(
    kinds: Seq<Option<NodeKind>>,
    edges: Map<(NodeId, NodeId), u64>,
    dist: Seq<u64>,
    vis: Seq<bool>,
    c: Seq<NodeId>,
    i: int,
)
    requires
        dist.len() == 256,
        vis.len() == 256,
        c.len() >= 1,
        valid_chain(kinds, edges, c),
        dist[c[0] as int] == 0,
        forall|a: NodeId, b: NodeId|
            vis[a as int] && #[trigger] valid_step(kinds, a, b) && edges.dom().contains((a, b))
                ==> dist[b as int] <= dist[a as int] + edges[(a, b)],
        forall|k: int| 0 <= k < i ==> vis[(#[trigger] c[k]) as int],
        0 <= i < c.len(),
    ensures
        dist[c[i] as int] <= chain_weight(edges, c.take(i + 1)),
    decreases i,
{
    if i == 0 {
        lemma_chain_weight_nonneg(edges, c.take(1));
    } else {
        lemma_prefix_dist_lb(kinds, edges, dist, vis, c, i - 1);
        let j = i - 1;
        assert(valid_edge(kinds, edges, c[j], c[j + 1]));
        assert(c.take(i + 1).drop_last() =~= c.take(i));
        assert(c.take(i + 1)[i - 1] == c[i - 1] && c.take(i + 1)[i] == c[i]);
    }
}

/// The first hop of a chain that has left the settled set, walking from a
/// settled start toward an unsettled end.
proof fn lemma_first_unsettled(vis: Seq<bool>, c: Seq<NodeId>, start: int) -> (j: int)
    requires
        vis.len() == 256,
        c.len() >= 1,
        1 <= start < c.len(),
        forall|k: int| 0 <= k < start ==> vis[(#[trigger] c[k]) as int],
        !vis[c[c.len() - 1] as int],
    ensures
        1 <= j < c.len(),
        !vis[c[j] as int],
        forall|k: int| 0 <= k < j ==> vis[(#[trigger] c[k]) as int],
    decreases c.len() - start,
{
    if !vis[c[start] as int] {
        start
    } else {
        lemma_first_unsettled(vis, c, start + 1)
    }
}

/// Appending a hop at the end adds its edge's weight.
proof fn lemma_back_weight_push(edges: Map<(NodeId, NodeId), u64>, b: Seq<NodeId>, p: NodeId)
    requires
        b.len() >= 1,
    ensures
        back_weight(edges, b.push(p)) == back_weight(edges, b) + edges[(p, b[b.len() - 1])],
    decreases b.len(),
{
    let bp = b.push(p);
    assert(bp[0] == b[0]);
    if b.len() == 1 {
        assert(bp[1] == p);
        assert(bp.drop_first() =~= seq![p]);
        assert(back_weight(edges, seq![p]) == 0);
    } else {
        assert(bp[1] == b[1]);
        assert(bp.drop_first() =~= b.drop_first().push(p));
        lemma_back_weight_push(edges, b.drop_first(), p);
        assert(b.drop_first()[b.drop_first().len() - 1] == b[b.len() - 1]);
    }
}

/// A hop list and its reversal weigh the same.
proof fn lemma_reverse_weight(edges: Map<(NodeId, NodeId), u64>, b: Seq<NodeId>, r: Seq<NodeId>)
    requires
        r.len() == b.len(),
        forall|i: int| 0 <= i < r.len() ==> #[trigger] r[i] == b[b.len() - 1 - i],
    ensures
        chain_weight(edges, r) == back_weight(edges, b),
    decreases b.len(),
{
    if b.len() > 1 {
        let b2 = b.drop_first();
        let r2 = r.drop_last();
        assert forall|i: int| 0 <= i < r2.len() implies #[trigger] r2[i] == b2[b2.len() - 1
            - i] by {
            assert(r2[i] == r[i]);
        }
        lemma_reverse_weight(edges, b2, r2);
        let n = r.len();
        assert(r[n - 2] == b[1] && r[n - 1] == b[0]);
    }
}

/// How many slots of a table are set.
pub open spec fn count_true(s: Seq<bool>) -> nat
    decreases s.len(),
{
    if s.len() == 0 {
        0
    } else {
        count_true(s.drop_last()) + if s.last() {
            1nat
        } else {
            0nat
        }
    }
}

proof fn lemma_count_true_le(s: Seq<bool>)
    ensures
        count_true(s) <= s.len(),
    decreases s.len(),
{
    if s.len() > 0 {
        lemma_count_true_le(s.drop_last());
    }
}

proof fn lemma_count_true_update(s: Seq<bool>, i: int)
    requires
        0 <= i < s.len(),
        !s[i],
    ensures
        count_true(s.update(i, true)) == count_true(s) + 1,
    decreases s.len(),
{
    if i == s.len() - 1 {
        assert(s.update(i, true).drop_last() =~= s.drop_last());
    } else {
        assert(s.update(i, true).drop_last() =~= s.drop_last().update(i, true));
        lemma_count_true_update(s.drop_last(), i);
    }
}

/// A set of nodes closed under admissible edges swallows every chain that
/// starts inside it.
proof fn lemma_chain_stays_inside(
    kinds: Seq<Option<NodeKind>>,
    edges: Map<(NodeId, NodeId), u64>,
    closed: Seq<bool>,
    p: Seq<NodeId>,
    i: int,
)
    requires
        closed.len() == 256,
        valid_chain(kinds, edges, p),
        p.len() >= 1,
        closed[p[0] as int],
        forall|u: NodeId, v: NodeId|
            closed[u as int] && #[trigger] valid_edge(kinds, edges, u, v) ==> closed[v as int],
        0 <= i < p.len(),
    ensures
        closed[p[i] as int],
    decreases i,
{
    if i > 0 {
        lemma_chain_stays_inside(kinds, edges, closed, p, i - 1);
        let j = i - 1;
        assert(valid_edge(kinds, edges, p[j], p[j + 1]));
    }
}

/// The shape of every returned route: it leaves a client, crosses drones
/// only, and ends at the server. The one hypothesis is that the searching
/// node is itself recorded as a client, which discovery guarantees.
pub proof fn lemma_route_kinds(
    kinds: Seq<Option<NodeKind>>,
    edges: Map<(NodeId, NodeId), u64>,
    p: Seq<NodeId>,
)
    requires
        valid_chain(kinds, edges, p),
        p.len() >= 2,
        kind_at(kinds, p[0]) == Some(NodeKind::Client),
        kind_at(kinds, p[p.len() - 1]) == Some(NodeKind::Server),
    ensures
        forall|i: int| 0 < i < p.len() - 1 ==> kind_at(kinds, #[trigger] p[i]) == Some(
            NodeKind::Drone,
        ),
{
    assert forall|i: int| 0 < i < p.len() - 1 implies kind_at(kinds, #[trigger] p[i]) == Some(
        NodeKind::Drone,
    ) by {
        let j = i - 1;
        assert(valid_edge(kinds, edges, p[j], p[j + 1]));
        assert(valid_edge(kinds, edges, p[i], p[i + 1]));
    }
}

/// Whether the kind-transition rule admits the step from `u` to `v`.
pub(crate) fn step_allowed(kinds: &Vec<Option<NodeKind>>, u: NodeId, v: NodeId) -> (r: bool)
    requires
        kinds@.len() == 256,
    ensures
        r == valid_step(kinds@, u, v),
{
    match (kinds[u as usize], kinds[v as usize]) {
        (Some(NodeKind::Client), Some(NodeKind::Drone)) => true,
        (Some(NodeKind::Drone), Some(NodeKind::Drone)) => true,
        (Some(NodeKind::Drone), Some(NodeKind::Server)) => true,
        _ => false,
    }
}

/// The unvisited slot with the smallest finite distance, or 256 when every
/// slot is visited or unreached.
fn pick_min(dist: &Vec<u64>, visited: &Vec<bool>) -> (r: usize)
    requires
        dist@.len() == 256,
        visited@.len() == 256,
    ensures
        r <= 256,
        r < 256 ==> !visited@[r as int] && dist@[r as int] < u64::MAX,
        r < 256 ==> forall|k: int|
            0 <= k < 256 && !visited@[k] ==> dist@[r as int] <= #[trigger] dist@[k],
        r == 256 ==> forall|k: int| 0 <= k < 256 ==> visited@[k] || dist@[k] == u64::MAX,
{
    let mut best: usize = 256;
    let mut best_d: u64 = u64::MAX;
    let mut k: usize = 0;
    while k < 256
        invariant
            dist@.len() == 256,
            visited@.len() == 256,
            k <= 256,
            best <= 256,
            best < 256 ==> !visited@[best as int] && dist@[best as int] < u64::MAX && best_d
                == dist@[best as int],
            forall|j: int| 0 <= j < k && !visited@[j] ==> best_d <= #[trigger] dist@[j],
            best == 256 ==> best_d == u64::MAX && forall|j: int|
                0 <= j < k ==> visited@[j] || dist@[j] == u64::MAX,
        decreases 256 - k,
    {
        if !visited[k] && dist[k] < best_d {
            best = k;
            best_d = dist[k];
        }
        k = k + 1;
    }
    best
}

/// Dijkstra's search from `self_id` to `dst` over the admissible edges.
///
/// A route comes back exactly when `dst` is recorded as a server and a chain
/// of admissible edges reaches it; the route then starts at `self_id`, ends
/// at `dst` and crosses admissible edges only. The weights steer which of
/// the admissible routes is preferred; they do not decide success.
#[verifier::rlimit(100)]
pub fn find_weighted_path(
    self_id: NodeId,
    kinds: &Vec<Option<NodeKind>>,
    topology: &Topology,
    dst: NodeId,
) -> (r: Option<Vec<NodeId>>)
    requires
        kinds@.len() == 256,
    ensures
        (r matches Some(p) ==> {
            &&& p@.len() >= 1
            &&& p@[0] == self_id
            &&& p@[p@.len() - 1] == dst
            &&& kind_at(kinds@, dst) == Some(NodeKind::Server)
            &&& valid_chain(kinds@, edges_of(*topology), p@)
            &&& forall|i: int, j: int|
                #![trigger p@[i], p@[j]]
                0 <= i < j < p@.len() ==> p@[i] != p@[j]
        }),
        r is Some <==> (reaches(kinds@, edges_of(*topology), self_id, dst) && kind_at(kinds@, dst)
            == Some(NodeKind::Server)),
        (r matches Some(p) ==> (bounded_weights(edges_of(*topology)) ==> forall|c: Seq<NodeId>|
            (c.len() >= 1 && c[0] == self_id && c[c.len() - 1] == dst && valid_chain(
                kinds@,
                edges_of(*topology),
                c,
            )) ==> chain_weight(edges_of(*topology), p@) <= #[trigger] chain_weight(
                edges_of(*topology),
                c,
            ))),
{
    let ghost edges = edges_of(*topology);
    let ghost bounded = bounded_weights(edges);
    let mut dist: Vec<u64> = Vec::new();
    let mut visited: Vec<bool> = Vec::new();
    let mut prevs: Vec<NodeId> = Vec::new();
    let mut depth: Vec<u64> = Vec::new();
    let mut fill: usize = 0;
    while fill < 256
        invariant
            fill <= 256,
            dist@.len() == fill,
            visited@.len() == fill,
            prevs@.len() == fill,
            depth@.len() == fill,
            forall|k: int| 0 <= k < fill ==> dist@[k] == u64::MAX,
            forall|k: int| 0 <= k < fill ==> !visited@[k],
            forall|k: int| 0 <= k < fill ==> depth@[k] == 0u64,
        decreases 256 - fill,
    {
        dist.push(u64::MAX);
        visited.push(false);
        prevs.push(0);
        depth.push(0);
        fill = fill + 1;
    }
    dist[self_id as usize] = 0;
    proof {
        lemma_count_true_le(visited@);
        assert(count_true(visited@) == 0) by {
            lemma_count_all_false(visited@);
        }
    }
    let mut n_visited: u64 = 0;
    let mut u: usize = pick_min(&dist, &visited);
    while u < 256
        invariant
            kinds@.len() == 256,
            dist@.len() == 256,
            visited@.len() == 256,
            prevs@.len() == 256,
            depth@.len() == 256,
            edges == edges_of(*topology),
            n_visited == count_true(visited@),
            n_visited <= 256,
            dist@[self_id as int] < u64::MAX,
            !visited@[dst as int],
            u <= 256,
            u < 256 ==> !visited@[u as int] && dist@[u as int] < u64::MAX,
            u == 256 ==> forall|k: int| 0 <= k < 256 ==> visited@[k] || dist@[k] == u64::MAX,
            forall|v: int| 0 <= v < 256 && visited@[v] ==> #[trigger] dist@[v] < u64::MAX,
            forall|v: int|
                0 <= v < 256 && #[trigger] dist@[v] < u64::MAX && v != self_id as int ==> {
                    &&& visited@[prevs@[v] as int]
                    &&& valid_step(kinds@, prevs@[v], v as NodeId)
                    &&& edges.dom().contains((prevs@[v], v as NodeId))
                    &&& depth@[prevs@[v] as int] < depth@[v]
                },
            forall|v: int| 0 <= v < 256 && dist@[v] < u64::MAX ==> #[trigger] depth@[v]
                <= n_visited + 1,
            forall|a: NodeId, b: NodeId|
                visited@[a as int] && #[trigger] valid_step(kinds@, a, b)
                    && edges.dom().contains((a, b)) ==> dist@[b as int] < u64::MAX,
            bounded == bounded_weights(edges),
            n_visited == 0 ==> forall|v: int|
                0 <= v < 256 && v != self_id as int ==> #[trigger] dist@[v] == u64::MAX,
            n_visited > 0 ==> visited@[self_id as int],
            u < 256 ==> forall|k: int|
                0 <= k < 256 && !visited@[k] ==> dist@[u as int] <= #[trigger] dist@[k],
            bounded ==> dist@[self_id as int] == 0,
            bounded ==> forall|v: int|
                0 <= v < 256 && #[trigger] dist@[v] < u64::MAX && v != self_id as int ==> dist@[v]
                    == dist@[prevs@[v] as int] + edges[(prevs@[v], v as NodeId)] && dist@[v]
                    <= depth@[v] * WEIGHT_LIMIT,
            bounded ==> forall|a: NodeId, b: NodeId|
                visited@[a as int] && #[trigger] valid_step(kinds@, a, b)
                    && edges.dom().contains((a, b)) ==> dist@[b as int] <= dist@[a as int]
                    + edges[(a, b)],
            bounded ==> forall|x: int, y: int|
                #![trigger visited@[x], dist@[y]]
                0 <= x < 256 && 0 <= y < 256 && visited@[x] && !visited@[y] && dist@[y] < u64::MAX
                    ==> dist@[x] <= dist@[y],
        decreases 256 - n_visited,
    {
        let un: NodeId = u as NodeId;
        if un == dst {
            match kinds[dst as usize] {
                Some(NodeKind::Server) => {
                    proof {
                        if bounded {
                            assert forall|c: Seq<NodeId>|
                                (c.len() >= 1 && c[0] == self_id && c[c.len() - 1] == dst
                                    && valid_chain(kinds@, edges, c)) implies dist@[dst as int]
                                <= #[trigger] chain_weight(edges, c) by {
                                if n_visited == 0 {
                                    assert(un == self_id);
                                    lemma_chain_weight_nonneg(edges, c);
                                } else if c.len() == 1 {
                                    assert(visited@[dst as int]);
                                } else {
                                    let j = lemma_first_unsettled(visited@, c, 1);
                                    lemma_prefix_dist_lb(kinds@, edges, dist@, visited@, c, j);
                                    lemma_chain_weight_prefix_le(edges, c, j + 1);
                                    assert(dist@[u as int] <= dist@[c[j] as int]);
                                }
                            }
                        }
                    }
                    // Walk the predecessor chain back to the start, then
                    // reverse it into hop order.
                    let mut back: Vec<NodeId> = Vec::new();
                    let mut cur: NodeId = dst;
                    back.push(cur);
                    while cur != self_id
                        invariant
                            kinds@.len() == 256,
                            dist@.len() == 256,
                            visited@.len() == 256,
                            prevs@.len() == 256,
                            depth@.len() == 256,
                            edges == edges_of(*topology),
                            back@.len() >= 1,
                            back@[0] == dst,
                            back@[back@.len() - 1] == cur,
                            dist@[cur as int] < u64::MAX,
                            forall|i: int, j: int|
                                #![trigger back@[i], back@[j]]
                                0 <= i < j < back@.len() ==> depth@[back@[j] as int] < depth@[
                                    back@[i] as int],
                            forall|i: int|
                                0 <= i < back@.len() - 1 ==> #[trigger] valid_edge(
                                    kinds@,
                                    edges,
                                    back@[i + 1],
                                    back@[i],
                                ),
                            forall|v: int|
                                0 <= v < 256 && visited@[v] ==> #[trigger] dist@[v] < u64::MAX,
                            forall|v: int|
                                0 <= v < 256 && #[trigger] dist@[v] < u64::MAX && v != self_id as int
                                    ==> {
                                    &&& visited@[prevs@[v] as int]
                                    &&& valid_step(kinds@, prevs@[v], v as NodeId)
                                    &&& edges.dom().contains((prevs@[v], v as NodeId))
                                    &&& depth@[prevs@[v] as int] < depth@[v]
                                },
                            bounded == bounded_weights(edges),
                            bounded ==> dist@[self_id as int] == 0,
                            bounded ==> forall|v: int|
                                0 <= v < 256 && #[trigger] dist@[v] < u64::MAX && v != self_id as int
                                    ==> dist@[v] == dist@[prevs@[v] as int] + edges[(
                                    prevs@[v],
                                    v as NodeId,
                                )],
                            bounded ==> dist@[cur as int] + back_weight(edges, back@) == dist@[
                                dst as int],
                        decreases depth@[cur as int],
                    {
                        let p: NodeId = prevs[cur as usize];
                        proof {
                            assert(dist@[cur as int] < u64::MAX && cur as int != self_id as int);
                        }
                        let ghost back_pre = back@;
                        back.push(p);
                        proof {
                            if bounded {
                                lemma_back_weight_push(edges, back_pre, p);
                            }
                        }
                        cur = p;
                    }
                    let mut route: Vec<NodeId> = Vec::new();
                    let mut t: usize = back.len();
                    while t > 0
                        invariant
                            t <= back@.len(),
                            route@.len() == back@.len() - t,
                            forall|i: int|
                                0 <= i < route@.len() ==> #[trigger] route@[i] == back@[back@.len()
                                    - 1 - i],
                        decreases t,
                    {
                        t = t - 1;
                        route.push(back[t]);
                    }
                    proof {
                        assert(route@.len() == back@.len());
                        assert(route@[0] == back@[back@.len() - 1]);
                        assert(route@[route@.len() - 1] == back@[0]);
                        assert forall|i: int| 0 <= i < route@.len() - 1 implies #[trigger]
                            valid_edge(kinds@, edges, route@[i], route@[i + 1]) by {
                            let n = back@.len();
                            assert(route@[i] == back@[n - 1 - i]);
                            assert(route@[i + 1] == back@[n - 1 - (i + 1)]);
                            assert(valid_edge(kinds@, edges, back@[(n - 2 - i) + 1], back@[n - 2
                                - i]));
                        }
                        assert(valid_chain(kinds@, edges, route@));
                        if bounded {
                            lemma_reverse_weight(edges, back@, route@);
                            assert(chain_weight(edges, route@) == dist@[dst as int]);
                            assert forall|c: Seq<NodeId>|
                                (c.len() >= 1 && c[0] == self_id && c[c.len() - 1] == dst
                                    && valid_chain(kinds@, edges, c)) implies chain_weight(
                                edges,
                                route@,
                            ) <= #[trigger] chain_weight(edges, c) by {
                                assert(dist@[dst as int] <= chain_weight(edges, c));
                            }
                        }
                        assert forall|i: int, j: int|
                            #![trigger route@[i], route@[j]]
                            0 <= i < j < route@.len() implies route@[i] != route@[j] by {
                            let n = back@.len();
                            assert(route@[i] == back@[n - 1 - i]);
                            assert(route@[j] == back@[n - 1 - j]);
                            assert(depth@[back@[n - 1 - i] as int] < depth@[back@[n - 1 - j]
                                as int]);
                        }
                        assert(reaches(kinds@, edges, self_id, dst)) by {
                            assert(route@.len() >= 1 && route@[0] == self_id && route@[route@.len()
                                - 1] == dst && valid_chain(kinds@, edges, route@));
                        }
                    }
                    return Some(route);
                },
                _ => {
                    return None;
                },
            }
        }
        let du: u64 = dist[u];
        proof {
            if bounded {
                assert forall|x: int| 0 <= x < 256 && visited@[x] implies dist@[x] <= du by {}
                assert(depth@[u as int] * WEIGHT_LIMIT <= 257 * WEIGHT_LIMIT) by (nonlinear_arith)
                    requires
                        0 <= depth@[u as int] <= 257,
                ;
                assert(du <= 257 * WEIGHT_LIMIT);
            }
        }
        let ghost pre_visited = visited@;
        visited[u] = true;
        proof {
            lemma_count_true_update(pre_visited, u as int);
            assert(visited@ =~= pre_visited.update(u as int, true));
            if bounded {
                assert forall|x: int| 0 <= x < 256 && visited@[x] implies dist@[x] <= du by {
                    if x != u as int {
                        assert(pre_visited[x]);
                    }
                }
            }
        }
        n_visited = n_visited + 1;
        proof {
            lemma_count_true_le(visited@);
        }
        let neigh: Vec<NodeId> = topology.neighbors(un);
        let ghost neigh_seq = neigh@;
        let mut j: usize = 0;
        while j < neigh.len()
            invariant
                kinds@.len() == 256,
                dist@.len() == 256,
                visited@.len() == 256,
                prevs@.len() == 256,
                depth@.len() == 256,
                edges == edges_of(*topology),
                neigh@ == neigh_seq,
                forall|x: NodeId| neigh_seq.contains(x) <==> edges.dom().contains((un, x)),
                j <= neigh@.len(),
                n_visited == count_true(visited@),
                n_visited <= 256,
                dist@[self_id as int] < u64::MAX,
                !visited@[dst as int],
                visited@[u as int],
                u < 256,
                un == u as NodeId,
                dist@[u as int] < u64::MAX,
                du == dist@[u as int],
                depth@[u as int] <= n_visited,
                forall|v: int| 0 <= v < 256 && visited@[v] ==> #[trigger] dist@[v] < u64::MAX,
                forall|v: int|
                    0 <= v < 256 && #[trigger] dist@[v] < u64::MAX && v != self_id as int ==> {
                        &&& visited@[prevs@[v] as int]
                        &&& valid_step(kinds@, prevs@[v], v as NodeId)
                        &&& edges.dom().contains((prevs@[v], v as NodeId))
                        &&& depth@[prevs@[v] as int] < depth@[v]
                    },
                forall|v: int| 0 <= v < 256 && dist@[v] < u64::MAX ==> #[trigger] depth@[v]
                    <= n_visited + 1,
                forall|a: NodeId, b: NodeId|
                    visited@[a as int] && a != un && #[trigger] valid_step(kinds@, a, b)
                        && edges.dom().contains((a, b)) ==> dist@[b as int] < u64::MAX,
                forall|k: int|
                    0 <= k < j && valid_step(kinds@, un, #[trigger] neigh_seq[k]) ==> dist@[
                        neigh_seq[k] as int] < u64::MAX,
                bounded == bounded_weights(edges),
                bounded ==> dist@[self_id as int] == 0,
                bounded ==> du <= 257 * WEIGHT_LIMIT,
                bounded ==> forall|x: int| 0 <= x < 256 && visited@[x] ==> #[trigger] dist@[x]
                    <= du,
                bounded ==> forall|v: int|
                    0 <= v < 256 && #[trigger] dist@[v] < u64::MAX && v != self_id as int ==> dist@[
                        v] == dist@[prevs@[v] as int] + edges[(prevs@[v], v as NodeId)] && dist@[v]
                        <= depth@[v] * WEIGHT_LIMIT,
                bounded ==> forall|a: NodeId, b: NodeId|
                    visited@[a as int] && a != un && #[trigger] valid_step(kinds@, a, b)
                        && edges.dom().contains((a, b)) ==> dist@[b as int] <= dist@[a as int]
                        + edges[(a, b)],
                bounded ==> forall|k: int|
                    0 <= k < j && valid_step(kinds@, un, #[trigger] neigh_seq[k]) ==> dist@[
                        neigh_seq[k] as int] <= du + edges[(un, neigh_seq[k])],
                bounded ==> forall|x: int, y: int|
                    #![trigger visited@[x], dist@[y]]
                    0 <= x < 256 && 0 <= y < 256 && visited@[x] && !visited@[y] && dist@[y]
                        < u64::MAX ==> dist@[x] <= dist@[y],
            decreases neigh@.len() - j,
        {
            let vn: NodeId = neigh[j];
            if vn != un && step_allowed(kinds, un, vn) && !visited[vn as usize] {
                proof {
                    assert(neigh_seq.contains(neigh_seq[j as int]));
                }
                let w: u64 = match topology.edge_weight(un, vn) {
                    Some(w) => w,
                    None => u64::MAX,
                };
                proof {
                    if bounded {
                        assert(edges.dom().contains((un, vn)));
                        assert(edges[(un, vn)] <= WEIGHT_LIMIT);
                        assert(w == edges[(un, vn)]);
                    }
                }
                let sum: u64 = du.saturating_add(w);
                let nd: u64 = if sum == u64::MAX {
                    u64::MAX - 1
                } else {
                    sum
                };
                proof {
                    if bounded {
                        assert(sum == du + w);
                        assert(nd == du + w);
                    }
                }
                if nd < dist[vn as usize] {
                    dist[vn as usize] = nd;
                    prevs[vn as usize] = un;
                    let dnew: u64 = depth[u] + 1;
                    depth[vn as usize] = dnew;
                    proof {
                        if bounded {
                            if u as int == self_id as int {
                                assert(du == 0);
                            }
                            assert(depth@[u as int] * WEIGHT_LIMIT + WEIGHT_LIMIT == (depth@[
                                u as int] + 1) * WEIGHT_LIMIT) by (nonlinear_arith);
                            assert(nd <= dnew * WEIGHT_LIMIT);
                        }
                    }
                }
            } else {
                proof {
                    assert(neigh_seq.contains(neigh_seq[j as int]));
                    if vn == un {
                        assert(dist@[un as int] < u64::MAX);
                    }
                }
            }
            j = j + 1;
        }
        proof {
            assert forall|a: NodeId, b: NodeId|
                visited@[a as int] && #[trigger] valid_step(kinds@, a, b) && edges.dom().contains(
                    (a, b),
                ) implies dist@[b as int] < u64::MAX by {
                if a == un {
                    assert(neigh_seq.contains(b));
                    let k = choose|k: int| 0 <= k < neigh_seq.len() && neigh_seq[k] == b;
                    assert(valid_step(kinds@, un, neigh_seq[k]));
                }
            }
            if bounded {
                assert forall|a: NodeId, b: NodeId|
                    visited@[a as int] && #[trigger] valid_step(kinds@, a, b)
                        && edges.dom().contains((a, b)) implies dist@[b as int] <= dist@[a as int]
                    + edges[(a, b)] by {
                    if a == un {
                        assert(neigh_seq.contains(b));
                        let k = choose|k: int| 0 <= k < neigh_seq.len() && neigh_seq[k] == b;
                        assert(valid_step(kinds@, un, neigh_seq[k]));
                        assert(dist@[b as int] <= du + edges[(un, b)]);
                    }
                }
            }
        }
        u = pick_min(&dist, &visited);
    }
    proof {
        if kind_at(kinds@, dst) == Some(NodeKind::Server) && reaches(kinds@, edges, self_id, dst) {
            let p = choose|p: Seq<NodeId>|
                p.len() >= 1 && p[0] == self_id && p[p.len() - 1] == dst && #[trigger] valid_chain(
                    kinds@,
                    edges,
                    p,
                );
            assert forall|a: NodeId, b: NodeId|
                visited@[a as int] && #[trigger] valid_edge(kinds@, edges, a, b) implies visited@[
                b as int] by {
                assert(valid_step(kinds@, a, b) && edges.dom().contains((a, b)));
                assert(dist@[b as int] < u64::MAX);
            }
            assert(visited@[self_id as int]);
            lemma_chain_stays_inside(kinds@, edges, visited@, p, p.len() - 1);
            assert(false);
        }
    }
    None
}

proof fn lemma_count_all_false(s: Seq<bool>)
    requires
        forall|k: int| 0 <= k < s.len() ==> !s[k],
    ensures
        count_true(s) == 0,
    decreases s.len(),
{
    if s.len() > 0 {
        lemma_count_all_false(s.drop_last());
    }
}

} // verus!
