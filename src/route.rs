//! Alternate routes between two road edges, searched over the edge-dual of the
//! graph: the vertices of the search are edges, and two edges are adjacent when
//! one can be left and the other entered at a shared node.

use vstd::prelude::*;
use crate::graph::{
    back_allowed, seconds_of, Edge, Graph, SIGNAL_LIGHT, SIGNAL_NONE, SIGNAL_STOP, SIGNAL_YIELD,
};
use crate::clock::Deadline;
use crate::search::{lemma_push_contains, shortest_route_until};

verus! {

/// The cost of entering edge `e`: its traversal time, or the largest cost for an
/// edge that does not exist.
pub open spec fn edge_cost_of(g: &Graph, e: u32) -> u32 {
    if e < g.edges@.len() {
        seconds_of(g.edges@[e as int]) as u32
    } else {
        u32::MAX
    }
}

/// The cost of a traffic-control regime met when leaving a node.
pub open spec fn signal_cost(s: u8) -> u32 {
    if s == SIGNAL_NONE {
        2
    } else if s == SIGNAL_YIELD {
        4
    } else if s == SIGNAL_STOP {
        8
    } else if s == SIGNAL_LIGHT {
        32
    } else {
        0
    }
}

/// The last position of `e` in `list`, or -1.
pub open spec fn last_slot(list: Seq<u32>, e: u32) -> int
    decreases list.len(),
{
    if list.len() == 0 {
        -1
    } else if list.last() == e {
        list.len() - 1
    } else {
        last_slot(list.drop_last(), e)
    }
}

/// The cost of passing node `n` from edge `a` into edge `b`, where `n` lists `b`:
/// the cost of the outgoing regime in `a`'s slot at `n`, or, where `n` does not
/// list `a` (a one-way edge arriving at its second node), of the incoming regime
/// in `b`'s slot; 2 where `n`, the slot of `b`, or the regime is missing.
pub open spec fn interaction_cost_of(g: &Graph, n: u32, a: u32, b: u32) -> u32 {
    if n < g.nodes@.len() {
        let list = g.nodes@[n as int].edges@;
        let slots = g.nodes@[n as int].interactions@;
        let ia = last_slot(list, a);
        let ib = last_slot(list, b);
        if ia >= 0 && ib >= 0 && ia < slots.len() {
            signal_cost(slots[ia].outgoing)
        } else if ia < 0 && ib >= 0 && ib < slots.len() {
            signal_cost(slots[ib].incoming)
        } else {
            2
        }
    } else {
        2
    }
}

/// Addition that stops at `u32::MAX`.
pub open spec fn sat_add(a: u32, b: u32) -> u32 {
    if a + b > u32::MAX {
        u32::MAX
    } else {
        (a + b) as u32
    }
}

/// The cost of moving from edge `a` through node `n` into edge `b`.
pub open spec fn step_cost(g: &Graph, a: u32, n: u32, b: u32) -> u32 {
    sat_add(edge_cost_of(g, b), interaction_cost_of(g, n, a, b))
}

/// Edge `e` may be left at node `n`: at its second node, or at its first when
/// travel back is allowed.
pub open spec fn leaves_at(e: Edge, n: u32) -> bool {
    n == e.point_2_node_idx || (n == e.point_1_node_idx && back_allowed(e))
}

/// Edge `e` may be entered at node `n`: at its first node, or at its second when
/// travel back is allowed.
pub open spec fn enters_at(e: Edge, n: u32) -> bool {
    n == e.point_1_node_idx || (n == e.point_2_node_idx && back_allowed(e))
}

/// One move of the search: leave edge `a` at node `n` and enter edge `b`, which
/// `n` lists.
pub open spec fn is_step(g: &Graph, a: u32, n: u32, b: u32) -> bool {
    &&& a < g.edges@.len()
    &&& b < g.edges@.len()
    &&& a != b
    &&& n < g.nodes@.len()
    &&& leaves_at(g.edges@[a as int], n)
    &&& enters_at(g.edges@[b as int], n)
    &&& g.nodes@[n as int].edges@.contains(b)
}

/// Edge `e` may be entered by a search towards `end` that avoids the marked edges.
pub open spec fn may_enter(avoid: Seq<bool>, end: u32, e: u32) -> bool {
    e == end || !(e < avoid.len() && avoid[e as int])
}

/// `edges` is a route from `start` to `end` that enters no avoided edge but
/// `end`, and `nodes[i]` joins `edges[i]` to `edges[i + 1]`.
pub open spec fn is_route(
    g: &Graph,
    edges: Seq<u32>,
    nodes: Seq<u32>,
    start: u32,
    end: u32,
    avoid: Seq<bool>,
) -> bool {
    &&& edges.len() == nodes.len() + 1
    &&& edges[0] == start
    &&& edges.last() == end
    &&& forall|i: int| 0 <= i < nodes.len() ==> is_step(g, edges[i], #[trigger] nodes[i], edges[i + 1])
    &&& forall|i: int| 1 <= i < edges.len() ==> may_enter(avoid, end, #[trigger] edges[i])
}

/// `edges` is a walk from `start` that enters no avoided edge but `end`, and
/// `nodes[i]` joins `edges[i]` to `edges[i + 1]`.
pub open spec fn is_walk(
    g: &Graph,
    edges: Seq<u32>,
    nodes: Seq<u32>,
    start: u32,
    end: u32,
    avoid: Seq<bool>,
) -> bool {
    &&& edges.len() == nodes.len() + 1
    &&& edges[0] == start
    &&& forall|i: int| 0 <= i < nodes.len() ==> is_step(g, edges[i], #[trigger] nodes[i], edges[i + 1])
    &&& forall|i: int| 1 <= i < edges.len() ==> may_enter(avoid, end, #[trigger] edges[i])
}

/// The cost of a route: the costs of its moves, added up to `u32::MAX`.
pub open spec fn route_cost(g: &Graph, edges: Seq<u32>, nodes: Seq<u32>) -> u32
    decreases nodes.len(),
{
    if nodes.len() == 0 || edges.len() != nodes.len() + 1 {
        0
    } else {
        let k = nodes.len() - 1;
        sat_add(
            route_cost(g, edges.take(k + 1), nodes.take(k)),
            step_cost(g, edges[k], nodes[k], edges[k + 1]),
        )
    }
}

/// The entries of `list` other than `e`, in order.
pub open spec fn others(list: Seq<u32>, e: u32) -> Seq<u32>
    decreases list.len(),
{
    if list.len() == 0 {
        list
    } else if list.last() == e {
        others(list.drop_last(), e)
    } else {
        others(list.drop_last(), e).push(list.last())
    }
}

/// The cost of entering edge `e` of `g`.
pub fn edge_cost(g: &Graph, e: u32) -> (r: u32)
    ensures
        r == edge_cost_of(g, e),
{
    if (e as usize) < g.edges.len() {
        g.edges[e as usize].seconds() as u32
    } else {
        u32::MAX
    }
}

/// The cost of passing node `n` of `g` from edge `a` into edge `b`.
pub fn interaction_cost(g: &Graph, n: u32, a: u32, b: u32) -> (r: u32)
    ensures
        r == interaction_cost_of(g, n, a, b),
{
    if (n as usize) >= g.nodes.len() {
        return 2;
    }
    let node = &g.nodes[n as usize];
    let ghost list = node.edges@;
    let mut ia: Option<usize> = None;
    let mut ib: Option<usize> = None;
    let mut i: usize = 0;
    while i < node.edges.len()
        invariant
            i <= list.len(),
            list == node.edges@,
            ia matches Some(p) ==> p == last_slot(list.take(i as int), a),
            ia is None ==> last_slot(list.take(i as int), a) == -1,
            ib matches Some(p) ==> p == last_slot(list.take(i as int), b),
            ib is None ==> last_slot(list.take(i as int), b) == -1,
        decreases list.len() - i,
    {
        let x = node.edges[i];
        assert(list.take(i + 1).drop_last() == list.take(i as int));
        if x == a {
            ia = Some(i);
        }
        if x == b {
            ib = Some(i);
        }
        i = i + 1;
    }
    assert(list.take(i as int) == list);
    let regime: Option<u8> = match (ia, ib) {
        (Some(p), Some(_)) => if p < node.interactions.len() {
            Some(node.interactions[p].outgoing)
        } else {
            None
        },
        (None, Some(q)) => if q < node.interactions.len() {
            Some(node.interactions[q].incoming)
        } else {
            None
        },
        _ => None,
    };
    match regime {
        Some(s) => if s == SIGNAL_NONE {
            2
        } else if s == SIGNAL_YIELD {
            4
        } else if s == SIGNAL_STOP {
            8
        } else if s == SIGNAL_LIGHT {
            32
        } else {
            0
        },
        None => 2,
    }
}

/// The edges listed at node `n` of `g` other than `e`, in list order.
pub fn adjacent_edges(g: &Graph, e: u32, n: u32) -> (r: Vec<u32>)
    ensures
        n < g.nodes@.len() ==> r@ == others(g.nodes@[n as int].edges@, e),
        n >= g.nodes@.len() ==> r@.len() == 0,
{
    let mut r: Vec<u32> = Vec::new();
    if (n as usize) >= g.nodes.len() {
        return r;
    }
    let node = &g.nodes[n as usize];
    let ghost list = node.edges@;
    let mut i: usize = 0;
    while i < node.edges.len()
        invariant
            i <= list.len(),
            list == node.edges@,
            r@ == others(list.take(i as int), e),
        decreases list.len() - i,
    {
        let x = node.edges[i];
        assert(list.take(i + 1).drop_last() == list.take(i as int));
        if x != e {
            r.push(x);
        }
        i = i + 1;
    }
    assert(list.take(i as int) == list);
    r
}

/// A route: its edges, and the nodes that join consecutive edges.
#[derive(Clone, Debug)]
pub struct RoutePath {
    pub edges: Vec<u32>,
    pub nodes: Vec<u32>,
}

/// Why a route request was refused.
#[derive(Clone, Copy, Debug, PartialEq, Eq, Structural)]
pub enum RouteError {
    /// No graph is loaded.
    NotLoaded,
    /// An edge index of the request is not an edge of the graph.
    InvalidEdge,
    /// The request's deadline passed during the search.
    DeadlineExceeded,
}

/// A request for up to `num_paths` routes (3 when absent).
#[derive(Clone, Copy, Debug, PartialEq, Eq, Structural)]
pub struct RouteRequest {
    pub start_edge_idx: u32,
    pub end_edge_idx: u32,
    pub num_paths: Option<u32>,
}

/// The routes found, best first.
#[derive(Clone, Debug)]
pub struct RouteResponse {
    pub paths: Vec<RoutePath>,
}

/// The number of routes given when a request names none.
pub const DEFAULT_NUM_PATHS: u32 = 3;

/// The edges of the routes.
pub open spec fn edge_lists(paths: Seq<RoutePath>) -> Seq<Seq<u32>> {
    paths.map_values(|p: RoutePath| p.edges@)
}

/// The marks of the edges used by the first `k` routes, over `n` edges.
pub open spec fn used_by(n: nat, paths: Seq<Seq<u32>>, k: int) -> Seq<bool> {
    Seq::new(
        n,
        |e: int| e <= u32::MAX && exists|j: int| 0 <= j < k && #[trigger] paths[j].contains(e as u32),
    )
}

proof fn lemma_used_by_prefix(n: nat, a: Seq<Seq<u32>>, b: Seq<Seq<u32>>, k: int)
    requires
        0 <= k <= a.len(),
        k <= b.len(),
        forall|i: int| 0 <= i < k ==> a[i] == b[i],
    ensures
        used_by(n, a, k) == used_by(n, b, k),
{
    assert forall|e: int| 0 <= e < n implies used_by(n, a, k)[e] == used_by(n, b, k)[e] by {
        if exists|j: int| 0 <= j < k && #[trigger] a[j].contains(e as u32) {
            let j = choose|j: int| 0 <= j < k && #[trigger] a[j].contains(e as u32);
            assert(b[j].contains(e as u32));
        }
        if exists|j: int| 0 <= j < k && #[trigger] b[j].contains(e as u32) {
            let j = choose|j: int| 0 <= j < k && #[trigger] b[j].contains(e as u32);
            assert(a[j].contains(e as u32));
        }
    }
    assert(used_by(n, a, k) =~= used_by(n, b, k));
}

/// Route `i` of `paths` is a route from `start` to `end` that enters no edge of
/// the routes before it but `end`.
pub open spec fn is_kth_route(g: &Graph, paths: Seq<RoutePath>, i: int, start: u32, end: u32) -> bool {
    is_route(
        g,
        paths[i].edges@,
        paths[i].nodes@,
        start,
        end,
        used_by(g.edges@.len(), edge_lists(paths), i),
    )
}

/// Route `i` of `paths` costs no more than any route that enters no edge of the
/// routes before it but `end`.
pub open spec fn kth_least(g: &Graph, paths: Seq<RoutePath>, i: int, start: u32, end: u32) -> bool {
    forall|es: Seq<u32>, ns: Seq<u32>|
        is_route(g, es, ns, start, end, used_by(g.edges@.len(), edge_lists(paths), i)) ==> route_cost(
            g,
            paths[i].edges@,
            paths[i].nodes@,
        ) <= #[trigger] route_cost(g, es, ns)
}

/// There is a route from `start` to `end` that enters no marked edge but `end`.
pub open spec fn route_exists(g: &Graph, start: u32, end: u32, avoid: Seq<bool>) -> bool {
    exists|es: Seq<u32>, ns: Seq<u32>| is_route(g, es, ns, start, end, avoid)
}

/// `paths` is what a search for up to `k` routes from `start` to `end` gives:
/// route `i` enters no edge of the routes before it but `end`; no route repeats
/// the one before it; there is none exactly when the graph has no route; fewer
/// than `k` come only when no further route exists or the last one found would
/// be found again.
pub open spec fn routes_found(g: &Graph, paths: Seq<RoutePath>, start: u32, end: u32, k: int) -> bool {
    let n = g.edges@.len();
    &&& paths.len() <= k
    &&& forall|i: int| 0 <= i < paths.len() ==> is_kth_route(g, paths, i, start, end)
    &&& forall|i: int|
        1 <= i < paths.len() ==> !(#[trigger] paths[i].edges@ == paths[i - 1].edges@
            && paths[i].nodes@ == paths[i - 1].nodes@)
    &&& (k > 0 && paths.len() == 0) <==> (k > 0 && !route_exists(
        g,
        start,
        end,
        Seq::new(n, |e: int| false),
    ))
    &&& forall|i: int| 0 <= i < paths.len() ==> #[trigger] kth_least(g, paths, i, start, end)
    &&& forall|i: int| 0 <= i < paths.len() ==> (#[trigger] paths[i]).edges@.no_duplicates()
    &&& paths.len() > 0 ==> forall|es: Seq<u32>, ns: Seq<u32>|
        is_route(g, es, ns, start, end, Seq::new(n, |e: int| false)) ==> route_cost(
            g,
            paths[0].edges@,
            paths[0].nodes@,
        ) <= #[trigger] route_cost(g, es, ns)
    &&& (0 < paths.len() < k) ==> (!route_exists(
        g,
        start,
        end,
        used_by(n, edge_lists(paths), paths.len() as int),
    ) || is_route(
        g,
        paths.last().edges@,
        paths.last().nodes@,
        start,
        end,
        used_by(n, edge_lists(paths), paths.len() as int),
    ))
}

/// `r` is what a search for up to `max_paths` routes from `start` to `end` over
/// `graph` answers: `NotLoaded` without a graph, `InvalidEdge` for an edge index
/// out of range, and otherwise the routes found; for a route from an edge to
/// itself, that one edge alone.
pub open spec fn paths_answer(
    graph: Option<Graph>,
    start: u32,
    end: u32,
    max_paths: int,
    r: Result<Vec<RoutePath>, RouteError>,
) -> bool {
    &&& graph is None ==> r == Err::<Vec<RoutePath>, RouteError>(RouteError::NotLoaded)
    &&& graph matches Some(g) ==> {
        let n = g.edges@.len();
        &&& (start >= n || end >= n) ==> r == Err::<Vec<RoutePath>, RouteError>(RouteError::InvalidEdge)
        &&& (start < n && end < n) ==> (r matches Ok(paths) && routes_found(&g, paths@, start, end, max_paths))
        &&& (start < n && start == end && max_paths > 0) ==> (r matches Ok(paths) && paths@.len() == 1
            && paths@[0].edges@ == seq![start] && paths@[0].nodes@.len() == 0)
    }
}

/// `r` answers `request` over `graph`: as `paths_answer`, with the number of
/// routes the request names (3 when it names none).
pub open spec fn route_answer(graph: Option<Graph>, request: RouteRequest, r: Result<RouteResponse, RouteError>) -> bool {
    let k = match request.num_paths {
        Some(k) => k,
        None => DEFAULT_NUM_PATHS,
    };
    &&& graph is None ==> r == Err::<RouteResponse, RouteError>(RouteError::NotLoaded)
    &&& graph matches Some(g) ==> {
        let n = g.edges@.len();
        &&& (request.start_edge_idx >= n || request.end_edge_idx >= n) ==> r == Err::<
            RouteResponse,
            RouteError,
        >(RouteError::InvalidEdge)
        &&& (request.start_edge_idx < n && request.end_edge_idx < n) ==> (r matches Ok(resp) && routes_found(
            &g,
            resp.paths@,
            request.start_edge_idx,
            request.end_edge_idx,
            k as int,
        ))
    }
}

/// Whether two lists hold the same entries.
fn same_list(a: &Vec<u32>, b: &Vec<u32>) -> (r: bool)
    ensures
        r == (a@ == b@),
{
    if a.len() != b.len() {
        return false;
    }
    let mut i: usize = 0;
    while i < a.len()
        invariant
            a@.len() == b@.len(),
            i <= a@.len(),
            forall|k: int| 0 <= k < i ==> a@[k] == b@[k],
        decreases a@.len() - i,
    {
        if a[i] != b[i] {
            return false;
        }
        i = i + 1;
    }
    assert(a@ == b@);
    true
}

/// The routing service: alternate routes over a loaded graph.
pub struct MyRouteService {
    pub graph: Option<Graph>,
}

impl Default for MyRouteService {
    /// A service with no graph loaded.
    fn default() -> (r: Self)
        ensures
            r.graph is None,
    {
        MyRouteService { graph: None }
    }
}

impl MyRouteService {
    /// A service over `graph`.
    pub fn new(graph: Graph) -> (r: Self)
        ensures
            r.graph == Some(graph),
    {
        MyRouteService { graph: Some(graph) }
    }

    /// Up to `max_paths` routes from `start` to `end`. The first is a least-cost
    /// route of the graph; each later one is a least-cost route that enters no
    /// edge of the routes before it (but `end`). The search stops at the first
    /// failure, or when it finds the route it found last.
    pub fn find_paths(&self, start: u32, end: u32, max_paths: usize) -> (r: Result<
        Vec<RoutePath>,
        RouteError,
    >)
        ensures
            paths_answer(self.graph, start, end, max_paths as int, r),
    {
        self.find_paths_until(start, end, max_paths, None)
    }

    /// Searches as `find_paths` does, and fails with `DeadlineExceeded` once the
    /// deadline has passed during a search.
    pub fn find_paths_until(
        &self,
        start: u32,
        end: u32,
        max_paths: usize,
        deadline: Option<&Deadline>,
    ) -> (r: Result<Vec<RoutePath>, RouteError>)
        ensures
            r != Err::<Vec<RoutePath>, RouteError>(RouteError::DeadlineExceeded) ==> paths_answer(
                self.graph,
                start,
                end,
                max_paths as int,
                r,
            ),
            deadline is None ==> r != Err::<Vec<RoutePath>, RouteError>(RouteError::DeadlineExceeded),
    {
        let g = match &self.graph {
            Some(g) => g,
            None => return Err(RouteError::NotLoaded),
        };
        let n = g.edges.len();
        if start as usize >= n || end as usize >= n {
            return Err(RouteError::InvalidEdge);
        }
        let mut paths: Vec<RoutePath> = Vec::new();
        let mut used: Vec<bool> = vec![false; n];
        let ghost none: Seq<bool> = Seq::new(n as nat, |e: int| false);
        assert(used@ == used_by(n as nat, edge_lists(paths@), 0));
        while paths.len() < max_paths
            invariant
                self.graph == Some(*g),
                n == g.edges@.len(),
                start < n,
                end < n,
                none == Seq::new(n as nat, |e: int| false),
                paths@.len() <= max_paths,
                used@ == used_by(n as nat, edge_lists(paths@), paths@.len() as int),
                forall|i: int| 0 <= i < paths@.len() ==> is_kth_route(g, paths@, i, start, end),
                forall|i: int| 0 <= i < paths@.len() ==> #[trigger] kth_least(g, paths@, i, start, end),
                forall|i: int| 0 <= i < paths@.len() ==> (#[trigger] paths@[i]).edges@.no_duplicates(),
                forall|i: int|
                    1 <= i < paths@.len() ==> !(#[trigger] paths@[i].edges@ == paths@[i - 1].edges@
                        && paths@[i].nodes@ == paths@[i - 1].nodes@),
                paths@.len() > 0 ==> route_exists(g, start, end, none),
                paths@.len() > 0 ==> forall|es: Seq<u32>, ns: Seq<u32>|
                    is_route(g, es, ns, start, end, none) ==> route_cost(
                        g,
                        paths@[0].edges@,
                        paths@[0].nodes@,
                    ) <= #[trigger] route_cost(g, es, ns),
                start == end ==> paths@.len() <= 1,
                start == end && paths@.len() == 1 ==> paths@[0].edges@ == seq![start]
                    && paths@[0].nodes@.len() == 0,
            decreases max_paths - paths@.len(),
        {
            let found = match shortest_route_until(g, start, end, &used, deadline) {
                Ok(x) => x,
                Err(_) => return Err(RouteError::DeadlineExceeded),
            };
            match found {
                None => {
                    if paths.len() == 0 {
                        assert(used@ =~= none);
                    }
                    return Ok(paths);
                },
                Some((edges, nodes)) => {
                    let k = paths.len();
                    if start == end && k == 1 {
                        assert(paths@[0].nodes@ =~= nodes@);
                        assert(paths@[0].edges@ =~= edges@);
                    }
                    if k > 0 && same_list(&paths[k - 1].edges, &edges) && same_list(
                        &paths[k - 1].nodes,
                        &nodes,
                    ) {
                        return Ok(paths);
                    }
                    assert(start == end ==> k == 0);
                    let ghost old_paths = paths@;
                    let ghost old_used = used@;
                    if k == 0 {
                        assert(used@ =~= none);
                        assert(is_route(g, edges@, nodes@, start, end, none));
                    }
                    let mut i: usize = 0;
                    while i < edges.len()
                        invariant
                            n == used@.len(),
                            old_used.len() == n,
                            i <= edges@.len(),
                            forall|e: int|
                                0 <= e < n ==> #[trigger] used@[e] == (old_used[e] || (e
                                    <= u32::MAX && edges@.take(i as int).contains(e as u32))),
                        decreases edges@.len() - i,
                    {
                        let e = edges[i];
                        proof {
                            assert(edges@.take(i + 1) == edges@.take(i as int).push(e));
                            assert forall|x: int| 0 <= x < n implies #[trigger] edges@.take(
                                i + 1,
                            ).contains(x as u32) == (edges@.take(i as int).contains(x as u32) || x as u32
                                == e) by {
                                lemma_push_contains(edges@.take(i as int), e, x as u32);
                            }
                        }
                        if (e as usize) < n {
                            used[e as usize] = true;
                        }
                        i = i + 1;
                    }
                    assert(edges@.take(i as int) == edges@);
                    let ghost p_edges = edges@;
                    paths.push(RoutePath { edges, nodes });
                    proof {
                        assert(edge_lists(paths@) == edge_lists(old_paths).push(p_edges));
                        assert forall|e: int| 0 <= e < n implies #[trigger] used@[e] == used_by(
                            n as nat,
                            edge_lists(paths@),
                            paths@.len() as int,
                        )[e] by {
                            let ls = edge_lists(paths@);
                            if e <= u32::MAX && p_edges.contains(e as u32) {
                                assert(ls[k as int].contains(e as u32));
                            }
                            if old_used[e] {
                                let j = choose|j: int|
                                    0 <= j < k && #[trigger] edge_lists(old_paths)[j].contains(
                                        e as u32,
                                    );
                                assert(ls[j].contains(e as u32));
                            }
                            if exists|j: int| 0 <= j < k + 1 && #[trigger] ls[j].contains(e as u32) {
                                let j = choose|j: int| 0 <= j < k + 1 && #[trigger] ls[j].contains(
                                    e as u32,
                                );
                                if j < k {
                                    assert(edge_lists(old_paths)[j].contains(e as u32));
                                }
                            }
                        }
                        assert(used@ == used_by(n as nat, edge_lists(paths@), paths@.len() as int));
                        assert forall|j: int| 0 <= j < paths@.len() implies (#[trigger] paths@[j]).edges@.no_duplicates() by {
                            if j < k {
                                assert(paths@[j] == old_paths[j]);
                            }
                        }
                        assert forall|j: int| 0 <= j < paths@.len() implies #[trigger] kth_least(
                            g,
                            paths@,
                            j,
                            start,
                            end,
                        ) by {
                            lemma_used_by_prefix(
                                n as nat,
                                edge_lists(paths@),
                                edge_lists(old_paths),
                                j,
                            );
                            if j < k {
                                assert(paths@[j] == old_paths[j]);
                                assert(kth_least(g, old_paths, j, start, end));
                            }
                        }
                        assert forall|j: int| 0 <= j < paths@.len() implies is_kth_route(
                            g,
                            paths@,
                            j,
                            start,
                            end,
                        ) by {
                            if j < k {
                                assert(paths@[j] == old_paths[j]);
                                lemma_used_by_prefix(
                                    n as nat,
                                    edge_lists(paths@),
                                    edge_lists(old_paths),
                                    j,
                                );
                                assert(is_kth_route(g, old_paths, j, start, end));
                            } else {
                                lemma_used_by_prefix(
                                    n as nat,
                                    edge_lists(paths@),
                                    edge_lists(old_paths),
                                    j,
                                );
                            }
                        }
                        assert(paths@[0].edges@ == if k == 0 { p_edges } else { old_paths[0].edges@ });
                        assert forall|j: int| 1 <= j < paths@.len() implies !(
                        #[trigger] paths@[j].edges@ == paths@[j - 1].edges@ && paths@[j].nodes@
                            == paths@[j - 1].nodes@) by {
                            if j < k {
                                assert(paths@[j] == old_paths[j]);
                                assert(paths@[j - 1] == old_paths[j - 1]);
                            }
                        }
                    }
                },
            }
        }
        Ok(paths)
    }

    /// Answers a route request.
    pub fn route(&self, request: RouteRequest) -> (r: Result<RouteResponse, RouteError>)
        ensures
            route_answer(self.graph, request, r),
    {
        self.route_until(request, None)
    }

    /// Answers a route request, or fails with `DeadlineExceeded` once the
    /// deadline has passed during a search.
    pub fn route_until(&self, request: RouteRequest, deadline: Option<&Deadline>) -> (r: Result<
        RouteResponse,
        RouteError,
    >)
        ensures
            r != Err::<RouteResponse, RouteError>(RouteError::DeadlineExceeded) ==> route_answer(
                self.graph,
                request,
                r,
            ),
            deadline is None ==> r != Err::<RouteResponse, RouteError>(RouteError::DeadlineExceeded),
    {
        let k = match request.num_paths {
            Some(k) => k,
            None => DEFAULT_NUM_PATHS,
        };
        match self.find_paths_until(request.start_edge_idx, request.end_edge_idx, k as usize, deadline) {
            Ok(paths) => Ok(RouteResponse { paths }),
            Err(e) => Err(e),
        }
    }
}

/// Consecutive edges of a route share the node recorded between them: it is an
/// endpoint of both.
pub proof fn lemma_route_joins(
    g: &Graph,
    edges: Seq<u32>,
    nodes: Seq<u32>,
    start: u32,
    end: u32,
    avoid: Seq<bool>,
)
    requires
        is_route(g, edges, nodes, start, end, avoid),
    ensures
        forall|i: int|
            0 <= i < nodes.len() ==> {
                let a = g.edges@[edges[i] as int];
                let b = g.edges@[edges[i + 1] as int];
                &&& (#[trigger] nodes[i] == a.point_1_node_idx || nodes[i] == a.point_2_node_idx)
                &&& (nodes[i] == b.point_1_node_idx || nodes[i] == b.point_2_node_idx)
                &&& edges[i] < g.edges@.len()
                &&& edges[i + 1] < g.edges@.len()
            },
{
    assert forall|i: int| 0 <= i < nodes.len() implies {
        let a = g.edges@[edges[i] as int];
        let b = g.edges@[edges[i + 1] as int];
        &&& (#[trigger] nodes[i] == a.point_1_node_idx || nodes[i] == a.point_2_node_idx)
        &&& (nodes[i] == b.point_1_node_idx || nodes[i] == b.point_2_node_idx)
        &&& edges[i] < g.edges@.len()
        &&& edges[i + 1] < g.edges@.len()
    } by {
        assert(is_step(g, edges[i], nodes[i], edges[i + 1]));
    }
}

/// A route traverses an edge that does not allow travel back only from its first
/// node to its second: it enters such an edge at its first node and leaves it at
/// its second.
pub proof fn lemma_route_one_way(
    g: &Graph,
    edges: Seq<u32>,
    nodes: Seq<u32>,
    start: u32,
    end: u32,
    avoid: Seq<bool>,
)
    requires
        is_route(g, edges, nodes, start, end, avoid),
    ensures
        forall|i: int|
            1 <= i < edges.len() && !back_allowed(g.edges@[edges[i] as int]) ==> #[trigger] nodes[i
                - 1] == g.edges@[edges[i] as int].point_1_node_idx,
        forall|i: int|
            0 <= i < nodes.len() && !back_allowed(g.edges@[edges[i] as int]) ==> #[trigger] nodes[i]
                == g.edges@[edges[i] as int].point_2_node_idx,
{
    assert forall|i: int|
        1 <= i < edges.len() && !back_allowed(g.edges@[edges[i] as int]) implies #[trigger] nodes[i
        - 1] == g.edges@[edges[i] as int].point_1_node_idx by {
        assert(is_step(g, edges[i - 1], nodes[i - 1], edges[i]));
    }
    assert forall|i: int|
        0 <= i < nodes.len() && !back_allowed(g.edges@[edges[i] as int]) implies #[trigger] nodes[i]
        == g.edges@[edges[i] as int].point_2_node_idx by {
        assert(is_step(g, edges[i], nodes[i], edges[i + 1]));
    }
}

/// A later route enters no edge of an earlier one, but the target: the routes
/// share no intermediate edge.
pub proof fn lemma_routes_disjoint(
    g: &Graph,
    paths: Seq<RoutePath>,
    start: u32,
    end: u32,
    k: int,
    i: int,
    j: int,
    p: int,
)
    requires
        routes_found(g, paths, start, end, k),
        0 <= i < j < paths.len(),
        1 <= p < paths[j].edges@.len(),
        paths[j].edges@[p] != end,
    ensures
        !paths[i].edges@.contains(paths[j].edges@[p]),
{
    let e = paths[j].edges@[p];
    assert(is_kth_route(g, paths, j, start, end));
    let used = used_by(g.edges@.len(), edge_lists(paths), j);
    assert(may_enter(used, end, e));
    assert(is_step(g, paths[j].edges@[p - 1], paths[j].nodes@[p - 1], e));
    if paths[i].edges@.contains(e) {
        assert(edge_lists(paths)[i].contains(e as u32));
        assert(used[e as int]);
    }
}

/// The first route found costs no more than any other route found: every later
/// route is also a route of the graph, and the first is a least-cost one.
pub proof fn lemma_first_route_cheapest(
    g: &Graph,
    paths: Seq<RoutePath>,
    start: u32,
    end: u32,
    k: int,
    i: int,
)
    requires
        routes_found(g, paths, start, end, k),
        0 <= i < paths.len(),
    ensures
        route_cost(g, paths[0].edges@, paths[0].nodes@) <= route_cost(
            g,
            paths[i].edges@,
            paths[i].nodes@,
        ),
{
    let none = Seq::new(g.edges@.len(), |e: int| false);
    assert(is_kth_route(g, paths, i, start, end));
    let es = paths[i].edges@;
    assert forall|x: int| 1 <= x < es.len() implies may_enter(none, end, #[trigger] es[x]) by {}
    assert(is_route(g, es, paths[i].nodes@, start, end, none));
}

} // verus!
