//! One shortest-route search over the edge-dual of the graph.

use vstd::prelude::*;
use crate::clock::Deadline;
use crate::graph::Graph;
use crate::route::{
    adjacent_edges, edge_cost, enters_at, interaction_cost, is_route, is_step, leaves_at,
    may_enter, others, sat_add, step_cost, is_walk, route_cost,
};

verus! {

/// How many entries of `s` are set.
pub open spec fn count_set(s: Seq<bool>) -> nat
    decreases s.len(),
{
    if s.len() == 0 {
        0
    } else {
        count_set(s.drop_last()) + if s.last() {
            1nat
        } else {
            0nat
        }
    }
}

proof fn lemma_count_set_bound(s: Seq<bool>)
    ensures
        count_set(s) <= s.len(),
    decreases s.len(),
{
    if s.len() > 0 {
        lemma_count_set_bound(s.drop_last());
    }
}

proof fn lemma_count_set_update(s: Seq<bool>, i: int)
    requires
        0 <= i < s.len(),
        !s[i],
    ensures
        count_set(s.update(i, true)) == count_set(s) + 1,
    decreases s.len(),
{
    let t = s.update(i, true);
    if i == s.len() - 1 {
        assert(t.drop_last() == s.drop_last());
    } else {
        assert(t.drop_last() == s.drop_last().update(i, true));
        lemma_count_set_update(s.drop_last(), i);
    }
}

pub proof fn lemma_push_contains(s: Seq<u32>, a: u32, x: u32)
    ensures
        s.push(a).contains(x) <==> (s.contains(x) || x == a),
{
    if s.contains(x) {
        let k = choose|k: int| 0 <= k < s.len() && s[k] == x;
        assert(s.push(a)[k] == x);
    }
    if x == a {
        assert(s.push(a)[s.len() as int] == x);
    }
    if s.push(a).contains(x) && x != a {
        let k = choose|k: int| 0 <= k < s.len() + 1 && s.push(a)[k] == x;
        assert(k < s.len());
        assert(s[k] == x);
    }
}

pub proof fn lemma_push_contains_usize(s: Seq<usize>, a: usize, x: usize)
    ensures
        s.push(a).contains(x) <==> (s.contains(x) || x == a),
{
    if s.contains(x) {
        let k = choose|k: int| 0 <= k < s.len() && s[k] == x;
        assert(s.push(a)[k] == x);
    }
    if x == a {
        assert(s.push(a)[s.len() as int] == x);
    }
    if s.push(a).contains(x) && x != a {
        let k = choose|k: int| 0 <= k < s.len() + 1 && s.push(a)[k] == x;
        assert(k < s.len());
        assert(s[k] == x);
    }
}

proof fn lemma_others_contains(list: Seq<u32>, e: u32, x: u32)
    ensures
        others(list, e).contains(x) <==> (list.contains(x) && x != e),
    decreases list.len(),
{
    if list.len() > 0 {
        let d = list.drop_last();
        let l = list.last();
        lemma_others_contains(d, e, x);
        assert(list == d.push(l));
        lemma_push_contains(d, l, x);
        if l != e {
            lemma_push_contains(others(d, e), l, x);
        }
    }
}

/// The working state of one search: which edges have a tentative cost, that cost
/// and the move that gave it, which edges are settled, and the entries still to
/// be taken, as (cost, edge).
pub struct Search {
    pub reached: Vec<bool>,
    pub dist: Vec<u32>,
    pub prev: Vec<(u32, u32)>,
    pub settled: Vec<bool>,
    pub frontier: Vec<(u32, u32)>,
}

impl Search {
    /// The search invariant. `stamp` numbers the settled edges in the order they
    /// were settled; every settled edge but `pending` has had all its moves tried.
    pub open spec fn inv(
        &self,
        g: &Graph,
        start: u32,
        end: u32,
        avoid: Seq<bool>,
        stamp: Seq<int>,
        pending: int,
    ) -> bool {
        let n = g.edges@.len();
        &&& self.reached@.len() == n
        &&& self.dist@.len() == n
        &&& self.prev@.len() == n
        &&& self.settled@.len() == n
        &&& stamp.len() == n
        &&& start < n
        &&& end < n
        &&& self.reached@[start as int]
        &&& !self.settled@[end as int]
        &&& forall|v: int| 0 <= v < n && #[trigger] self.settled@[v] ==> self.reached@[v]
        &&& forall|v: int|
            0 <= v < n && #[trigger] self.reached@[v] && v != start ==> {
                let u = self.prev@[v].0;
                let m = self.prev@[v].1;
                &&& is_step(g, u, m, v as u32)
                &&& may_enter(avoid, end, v as u32)
                &&& self.settled@[u as int]
                &&& (self.settled@[v] ==> stamp[u as int] < stamp[v])
            }
        &&& forall|k: int|
            0 <= k < self.frontier@.len() ==> #[trigger] self.frontier@[k].1 < n
                && self.reached@[self.frontier@[k].1 as int]
        &&& forall|v: int| 0 <= v < n && #[trigger] self.settled@[v] ==> stamp[v] >= 0
        &&& forall|u: u32, m: u32, v: u32|
            #[trigger] is_step(g, u, m, v) && u != pending && self.settled@[u as int] && may_enter(
                avoid,
                end,
                v,
            ) ==> self.reached@[v as int]
    }

    /// The costs: the start costs 0; each reached edge costs what its recorded
    /// move adds to the edge it came from; no entry is below its edge's cost; and
    /// every move from a settled edge but `pending` to an edge not settled has been
    /// tried.
    #[verifier::opaque]
    pub open spec fn costs_ok(&self, g: &Graph, start: u32, end: u32, avoid: Seq<bool>, pending: int) -> bool {
        let n = g.edges@.len();
        &&& self.dist@[start as int] == 0
        &&& forall|v: int|
            0 <= v < n && #[trigger] self.reached@[v] && v != start ==> self.dist@[v] == sat_add(
                self.dist@[self.prev@[v].0 as int],
                step_cost(g, self.prev@[v].0, self.prev@[v].1, v as u32),
            )
        &&& forall|k: int|
            0 <= k < self.frontier@.len() ==> (#[trigger] self.frontier@[k]).0 >= self.dist@[self.frontier@[k].1 as int]
        &&& forall|u: u32, m: u32, v: u32|
            #[trigger] is_step(g, u, m, v) && u != pending && self.settled@[u as int] && may_enter(
                avoid,
                end,
                v,
            ) && !self.settled@[v as int] ==> self.dist@[v as int] <= sat_add(
                self.dist@[u as int],
                step_cost(g, u, m, v),
            )
    }

    /// Every settled edge costs no more than any walk to it.
    #[verifier::opaque]
    pub open spec fn settled_optimal(&self, g: &Graph, start: u32, end: u32, avoid: Seq<bool>) -> bool {
        forall|es: Seq<u32>, ns: Seq<u32>|
            #[trigger] is_walk(g, es, ns, start, end, avoid) && self.settled@[es.last() as int]
                ==> self.dist@[es.last() as int] <= route_cost(g, es, ns)
    }

    /// Every reached edge that is not settled has an entry of its tentative cost
    /// in the frontier.
    pub open spec fn covered(&self, n: int) -> bool {
        forall|v: int|
            0 <= v < n && #[trigger] self.reached@[v] && !self.settled@[v] ==> exists|k: int|
                0 <= k < self.frontier@.len() && #[trigger] self.frontier@[k].1 == v
                    && self.frontier@[k].0 == self.dist@[v]
    }
}

/// The position of the least (cost, edge) entry of a non-empty frontier.
pub fn min_entry(frontier: &Vec<(u32, u32)>) -> (r: usize)
    requires
        frontier@.len() > 0,
    ensures
        r < frontier@.len(),
        forall|k: int|
            0 <= k < frontier@.len() ==> frontier@[r as int].0 < frontier@[k].0 || (
            frontier@[r as int].0 == frontier@[k].0 && frontier@[r as int].1 <= frontier@[k].1),
{
    let mut best: usize = 0;
    let mut i: usize = 1;
    while i < frontier.len()
        invariant
            0 < i <= frontier@.len(),
            best < i,
            forall|k: int|
                0 <= k < i ==> frontier@[best as int].0 < frontier@[k].0 || (frontier@[best as int].0
                    == frontier@[k].0 && frontier@[best as int].1 <= frontier@[k].1),
        decreases frontier@.len() - i,
    {
        let (c, e) = frontier[i];
        let (bc, be) = frontier[best];
        if c < bc || (c == bc && e < be) {
            best = i;
        }
        i = i + 1;
    }
    best
}

/// Records the move from the settled edge `v` through node `m` into `b` as the
/// best one known, at cost `nc`.
fn improve(
    st: &mut Search,
    g: &Graph,
    v: u32,
    m: u32,
    b: u32,
    nc: u32,
    end: u32,
    Ghost(avoid): Ghost<Seq<bool>>,
    Ghost(start): Ghost<u32>,
    Ghost(stamp): Ghost<Seq<int>>,
)
    requires
        old(st).inv(g, start, end, avoid, stamp, v as int),
        old(st).covered(g.edges@.len() as int),
        old(st).costs_ok(g, start, end, avoid, v as int),
        old(st).settled@[v as int],
        is_step(g, v, m, b),
        may_enter(avoid, end, b),
        !old(st).settled@[b as int],
        nc == sat_add(old(st).dist@[v as int], step_cost(g, v, m, b)),
        !old(st).reached@[b as int] || nc < old(st).dist@[b as int],
    ensures
        final(st).inv(g, start, end, avoid, stamp, v as int),
        final(st).covered(g.edges@.len() as int),
        final(st).costs_ok(g, start, end, avoid, v as int),
        final(st).settled@ == old(st).settled@,
        final(st).reached@ == old(st).reached@.update(b as int, true),
        final(st).dist@ == old(st).dist@.update(b as int, nc),
{    proof {
        reveal(Search::costs_ok);
    }
    let ghost old_st = *st;
    let ghost n = g.edges@.len();
    st.reached[b as usize] = true;
    st.dist[b as usize] = nc;
    st.prev[b as usize] = (v, m);
    st.frontier.push((nc, b));
    assert(b != start) by {
        if b == start {
            assert(old_st.dist@[start as int] == 0);
        }
    }
    assert forall|x: int|
        0 <= x < n && #[trigger] st.reached@[x] && !st.settled@[x] implies exists|k: int|
        0 <= k < st.frontier@.len() && #[trigger] st.frontier@[k].1 == x && st.frontier@[k].0
            == st.dist@[x] by {
        if x == b {
            assert(st.frontier@[st.frontier@.len() - 1].1 == x);
        } else {
            assert(old_st.reached@[x]);
            let k = choose|k: int|
                0 <= k < old_st.frontier@.len() && #[trigger] old_st.frontier@[k].1 == x
                    && old_st.frontier@[k].0 == old_st.dist@[x];
            assert(st.frontier@[k] == old_st.frontier@[k]);
        }
    }
    assert forall|x: int| 0 <= x < n && #[trigger] st.reached@[x] && x != start implies {
        let u = st.prev@[x].0;
        let mm = st.prev@[x].1;
        &&& is_step(g, u, mm, x as u32)
        &&& may_enter(avoid, end, x as u32)
        &&& st.settled@[u as int]
        &&& (st.settled@[x] ==> stamp[u as int] < stamp[x])
    } by {
        if x != b {
            assert(old_st.reached@[x]);
        }
    }
    assert forall|x: int| 0 <= x < st.frontier@.len() implies #[trigger] st.frontier@[x].1 < n
        && st.reached@[st.frontier@[x].1 as int] by {
        if x < old_st.frontier@.len() {
            assert(st.frontier@[x] == old_st.frontier@[x]);
        }
    }
    assert forall|x: int| 0 <= x < n && #[trigger] st.reached@[x] && x != start implies st.dist@[x]
        == sat_add(st.dist@[st.prev@[x].0 as int], step_cost(g, st.prev@[x].0, st.prev@[x].1, x as u32)) by {
        if x != b {
            assert(old_st.reached@[x]);
            let u = old_st.prev@[x].0;
            assert(old_st.settled@[u as int]);
            assert(u != b);
        }
    }
    assert forall|k: int| 0 <= k < st.frontier@.len() implies (#[trigger] st.frontier@[k]).0
        >= st.dist@[st.frontier@[k].1 as int] by {
        if k < old_st.frontier@.len() {
            assert(st.frontier@[k] == old_st.frontier@[k]);
            assert(old_st.reached@[old_st.frontier@[k].1 as int]);
        }
    }
    assert forall|u: u32, mm: u32, x: u32|
        #[trigger] is_step(g, u, mm, x) && u != v && st.settled@[u as int] && may_enter(avoid, end, x)
            && !st.settled@[x as int] implies st.dist@[x as int] <= sat_add(
        st.dist@[u as int],
        step_cost(g, u, mm, x),
    ) by {
        assert(u != b);
        assert(old_st.dist@[x as int] <= sat_add(old_st.dist@[u as int], step_cost(g, u, mm, x)));
        if x == b {
            assert(old_st.reached@[x as int]);
        }
    }
}

/// Tries every move that leaves the settled edge `v`, of cost `c`, at node `m`.
fn relax_at(
    g: &Graph,
    st: &mut Search,
    v: u32,
    m: u32,
    c: u32,
    end: u32,
    avoid: &Vec<bool>,
    Ghost(start): Ghost<u32>,
    Ghost(stamp): Ghost<Seq<int>>,
)
    requires
        old(st).inv(g, start, end, avoid@, stamp, v as int),
        old(st).covered(g.edges@.len() as int),
        old(st).costs_ok(g, start, end, avoid@, v as int),
        v < g.edges@.len(),
        old(st).settled@[v as int],
        c == old(st).dist@[v as int],
        avoid@.len() == g.edges@.len(),
    ensures
        final(st).inv(g, start, end, avoid@, stamp, v as int),
        final(st).covered(g.edges@.len() as int),
        final(st).costs_ok(g, start, end, avoid@, v as int),
        final(st).settled@ == old(st).settled@,
        forall|x: int| 0 <= x < g.edges@.len() && old(st).reached@[x] ==> final(st).reached@[x],
        forall|x: int|
            0 <= x < g.edges@.len() && old(st).reached@[x] ==> final(st).dist@[x] <= old(st).dist@[x],
        forall|x: int| 0 <= x < g.edges@.len() && old(st).settled@[x] ==> final(st).dist@[x] == old(st).dist@[x],
        forall|b: u32| #[trigger]
            is_step(g, v, m, b) && may_enter(avoid@, end, b) ==> final(st).reached@[b as int] && (
            !final(st).settled@[b as int] ==> final(st).dist@[b as int] <= sat_add(
                c,
                step_cost(g, v, m, b),
            )),
{    proof {
        reveal(Search::costs_ok);
    }
    if (m as usize) >= g.nodes.len() {
        return;
    }
    let ev = g.edges[v as usize];
    let leave_ok = m == ev.point_2_node_idx || (m == ev.point_1_node_idx
        && ev.backwards_allowed());
    if !leave_ok {
        return;
    }
    let adj = adjacent_edges(g, v, m);
    let ghost settled0 = st.settled@;
    let ghost reached0 = st.reached@;
    let ghost dist0 = st.dist@;
    let mut j: usize = 0;
    while j < adj.len()
        invariant
            st.inv(g, start, end, avoid@, stamp, v as int),
            st.covered(g.edges@.len() as int),
            st.costs_ok(g, start, end, avoid@, v as int),
            reached0.len() == g.edges@.len(),
            dist0.len() == g.edges@.len(),
            forall|x: int| 0 <= x < g.edges@.len() && reached0[x] ==> st.reached@[x],
            forall|x: int| 0 <= x < g.edges@.len() && reached0[x] ==> st.dist@[x] <= dist0[x],
            forall|x: int| 0 <= x < g.edges@.len() && settled0[x] ==> st.dist@[x] == dist0[x],
            st.settled@ == settled0,
            settled0[v as int],
            c == dist0[v as int],
            m < g.nodes@.len(),
            leaves_at(g.edges@[v as int], m),
            adj@ == others(g.nodes@[m as int].edges@, v),
            v < g.edges@.len(),
            avoid@.len() == g.edges@.len(),
            j <= adj@.len(),
            forall|k: int|
                0 <= k < j ==> (is_step(g, v, m, #[trigger] adj@[k]) && may_enter(
                    avoid@,
                    end,
                    adj@[k],
                ) ==> st.reached@[adj@[k] as int] && (!st.settled@[adj@[k] as int]
                    ==> st.dist@[adj@[k] as int] <= sat_add(c, step_cost(g, v, m, adj@[k])))),
        decreases adj@.len() - j,
    {
        let b = adj[j];
        if (b as usize) < g.edges.len() {
            let eb = g.edges[b as usize];
            let enter_ok = m == eb.point_1_node_idx || (m == eb.point_2_node_idx
                && eb.backwards_allowed());
            let allowed = b == end || !avoid[b as usize];
            if enter_ok && allowed && !st.settled[b as usize] {
                let w = edge_cost(g, b).saturating_add(interaction_cost(g, m, v, b));
                let nc = c.saturating_add(w);
                if !st.reached[b as usize] || nc < st.dist[b as usize] {
                    assert(g.nodes@[m as int].edges@.contains(b)) by {
                        lemma_others_contains(g.nodes@[m as int].edges@, v, b);
                        assert(adj@[j as int] == b);
                    }
                    improve(st, g, v, m, b, nc, end, Ghost(avoid@), Ghost(start), Ghost(stamp));
                }
            }
        }
        assert forall|k: int|
            0 <= k < j + 1 implies (is_step(g, v, m, #[trigger] adj@[k]) && may_enter(
            avoid@,
            end,
            adj@[k],
        ) ==> st.reached@[adj@[k] as int] && (!st.settled@[adj@[k] as int] ==> st.dist@[adj@[k] as int]
            <= sat_add(c, step_cost(g, v, m, adj@[k])))) by {
            if k == j && is_step(g, v, m, b) && may_enter(avoid@, end, b) && !st.settled@[b as int] {
                assert(g.nodes@[m as int].edges@.contains(b)) by {
                    lemma_others_contains(g.nodes@[m as int].edges@, v, b);
                    assert(adj@[j as int] == b);
                }
            }
        }
        j = j + 1;
    }
    assert forall|b: u32| #[trigger]
        is_step(g, v, m, b) && may_enter(avoid@, end, b) implies st.reached@[b as int] && (
        !st.settled@[b as int] ==> st.dist@[b as int] <= sat_add(c, step_cost(g, v, m, b))) by {
        lemma_others_contains(g.nodes@[m as int].edges@, v, b);
        assert(adj@.contains(b));
        let k = choose|k: int| 0 <= k < adj@.len() && adj@[k] == b;
        assert(is_step(g, v, m, adj@[k]));
    }
}

/// The entries of `v` in reverse order.
fn reversed(v: &Vec<u32>) -> (r: Vec<u32>)
    ensures
        r@.len() == v@.len(),
        forall|i: int| 0 <= i < v@.len() ==> #[trigger] r@[i] == v@[v@.len() - 1 - i],
{
    let mut r: Vec<u32> = Vec::new();
    let mut i: usize = v.len();
    while i > 0
        invariant
            i <= v@.len(),
            r@.len() == v@.len() - i,
            forall|k: int| 0 <= k < r@.len() ==> #[trigger] r@[k] == v@[v@.len() - 1 - k],
        decreases i,
    {
        i = i - 1;
        r.push(v[i]);
    }
    r
}

/// Each edge of `es` after the first was reached by the recorded move from the
/// edge before it, through the node between them.
pub open spec fn chain_ok(st: &Search, g: &Graph, es: Seq<u32>, ns: Seq<u32>, start: u32) -> bool {
    forall|i: int| 1 <= i < es.len() ==> st.prev@[es[i] as int] == (es[i - 1], ns[i - 1])
        && es[i] != start && st.reached@[es[i] as int] && es[i] < g.edges@.len()
}

/// Along a chain of recorded moves from the start, the cost of each prefix is
/// the tentative cost of its last edge.
proof fn lemma_chain_cost(
    g: &Graph,
    st: &Search,
    start: u32,
    end: u32,
    avoid: Seq<bool>,
    es: Seq<u32>,
    ns: Seq<u32>,
    k: int,
)
    requires
        st.costs_ok(g, start, end, avoid, -1),
        st.dist@.len() == g.edges@.len(),
        es.len() == ns.len() + 1,
        es[0] == start,
        0 <= k <= ns.len(),
        chain_ok(st, g, es, ns, start),
    ensures
        route_cost(g, es.take(k + 1), ns.take(k)) == st.dist@[es[k] as int],
    decreases k,
{    reveal(Search::costs_ok);
    if k > 0 {
        lemma_chain_cost(g, st, start, end, avoid, es, ns, k - 1);
        let e2 = es.take(k + 1);
        let n2 = ns.take(k);
        assert(e2.take(k) == es.take(k));
        assert(n2.take(k - 1) == ns.take(k - 1));
        assert(st.prev@[es[k] as int] == (es[k - 1], ns[k - 1]) && es[k] != start && st.reached@[es[k] as int]);
    }
}

/// Walks the recorded moves back from `end` to `start` and returns the route they
/// make, as its edges and the nodes that join them.
#[verifier::rlimit(80)]
pub fn reconstruct_path(
    st: &Search,
    g: &Graph,
    start: u32,
    end: u32,
    Ghost(avoid): Ghost<Seq<bool>>,
    Ghost(stamp): Ghost<Seq<int>>,
) -> (r: (Vec<u32>, Vec<u32>))
    requires
        st.inv(g, start, end, avoid, stamp, -1),
        st.costs_ok(g, start, end, avoid, -1),
        st.reached@[end as int],
    ensures
        is_route(g, r.0@, r.1@, start, end, avoid),
        route_cost(g, r.0@, r.1@) == st.dist@[end as int],
        chain_ok(st, g, r.0@, r.1@, start),
        r.0@.no_duplicates(),
        start == end ==> r.0@ == seq![end] && r.1@.len() == 0,
{
    let mut rev_e: Vec<u32> = Vec::new();
    let mut rev_n: Vec<u32> = Vec::new();
    rev_e.push(end);
    let mut cur = end;
    if cur != start {
        let (u, m) = st.prev[cur as usize];
        rev_n.push(m);
        rev_e.push(u);
        cur = u;
        assert(rev_e@[0] != rev_e@[1]);
    }
    while cur != start
        invariant
            st.inv(g, start, end, avoid, stamp, -1),
            cur < g.edges@.len(),
            st.reached@[cur as int],
            cur != start ==> st.settled@[cur as int],
            rev_e@.len() == rev_n@.len() + 1,
            rev_e@[0] == end,
            rev_e@.last() == cur,
            forall|i: int|
                0 <= i < rev_n@.len() ==> is_step(g, rev_e@[i + 1], #[trigger] rev_n@[i], rev_e@[i]),
            forall|i: int| 0 <= i < rev_n@.len() ==> may_enter(avoid, end, #[trigger] rev_e@[i]),
            forall|a: int| 1 <= a < rev_e@.len() ==> st.settled@[#[trigger] rev_e@[a] as int] && stamp[rev_e@[a] as int]
                >= stamp[cur as int],
            forall|a: int, b: int| 0 <= a < b < rev_e@.len() ==> #[trigger] rev_e@[a] != #[trigger] rev_e@[b],
            forall|i: int|
                0 <= i < rev_n@.len() ==> #[trigger] st.prev@[rev_e@[i] as int] == (rev_e@[i + 1], rev_n@[i])
                    && rev_e@[i] != start && st.reached@[rev_e@[i] as int] && rev_e@[i] < g.edges@.len(),
        decreases stamp[cur as int],
    {
        let (u, m) = st.prev[cur as usize];
        let ghost old_e = rev_e@;
        let ghost old_cur = cur;
        rev_n.push(m);
        rev_e.push(u);
        cur = u;
        proof {
            assert(stamp[u as int] < stamp[old_cur as int]);
            assert forall|a: int, b: int| 0 <= a < b < rev_e@.len() implies #[trigger] rev_e@[a]
                != #[trigger] rev_e@[b] by {
                if b == rev_e@.len() - 1 {
                    if a == 0 {
                        assert(!st.settled@[end as int]);
                    } else {
                        assert(stamp[old_e[a] as int] >= stamp[old_cur as int]);
                    }
                } else {
                    assert(old_e[a] != old_e[b]);
                }
            }
            assert forall|a: int| 1 <= a < rev_e@.len() implies st.settled@[#[trigger] rev_e@[a] as int]
                && stamp[rev_e@[a] as int] >= stamp[cur as int] by {
                if a < rev_e@.len() - 1 {
                    assert(rev_e@[a] == old_e[a]);
                }
            }
        }
    }
    let edges = reversed(&rev_e);
    assert forall|a: int, b: int| 0 <= a < edges@.len() && 0 <= b < edges@.len() && a != b implies edges@[a]
        != edges@[b] by {
        let x = rev_e@.len() - 1 - a;
        let y = rev_e@.len() - 1 - b;
        if x < y {
            assert(rev_e@[x] != rev_e@[y]);
        } else {
            assert(rev_e@[y] != rev_e@[x]);
        }
    }
    let nodes = reversed(&rev_n);
    assert forall|i: int| 1 <= i < edges@.len() implies st.prev@[edges@[i] as int] == (
    edges@[i - 1], nodes@[i - 1]) && edges@[i] != start && st.reached@[edges@[i] as int]
        && edges@[i] < g.edges@.len() by {
        let j = rev_e@.len() - 1 - i;
        assert(0 <= j < rev_n@.len());
        assert(edges@[i] == rev_e@[j]);
        assert(edges@[i - 1] == rev_e@[j + 1]);
        assert(nodes@[i - 1] == rev_n@[j]);
        assert(st.prev@[rev_e@[j] as int] == (rev_e@[j + 1], rev_n@[j]));
    }
    assert(chain_ok(st, g, edges@, nodes@, start));
    proof {
        lemma_chain_cost(g, st, start, end, avoid, edges@, nodes@, nodes@.len() as int);
        assert(edges@.take(nodes@.len() as int + 1) == edges@);
        assert(nodes@.take(nodes@.len() as int) == nodes@);
    }
    assert forall|i: int| 0 <= i < nodes@.len() implies is_step(
        g,
        edges@[i],
        #[trigger] nodes@[i],
        edges@[i + 1],
    ) by {
        let j = rev_n@.len() - 1 - i;
        assert(is_step(g, rev_e@[j + 1], rev_n@[j], rev_e@[j]));
    }
    assert forall|i: int| 1 <= i < edges@.len() implies may_enter(avoid, end, #[trigger] edges@[i]) by {
        let j = rev_e@.len() - 1 - i;
        assert(may_enter(avoid, end, rev_e@[j]));
    }
    (edges, nodes)
}

proof fn lemma_route_reached(
    g: &Graph,
    st: &Search,
    start: u32,
    end: u32,
    avoid: Seq<bool>,
    stamp: Seq<int>,
    es: Seq<u32>,
    ns: Seq<u32>,
    i: int,
)
    requires
        st.inv(g, start, end, avoid, stamp, -1),
        st.covered(g.edges@.len() as int),
        st.frontier@.len() == 0,
        is_route(g, es, ns, start, end, avoid),
        0 <= i < es.len(),
    ensures
        st.reached@[es[i] as int],
        es[i] < g.edges@.len(),
    decreases i,
{
    if i > 0 {
        lemma_route_reached(g, st, start, end, avoid, stamp, es, ns, i - 1);
        let u = es[i - 1];
        assert(is_step(g, es[i - 1], ns[i - 1], es[i]));
        assert(may_enter(avoid, end, es[i]));
        assert(st.settled@[u as int]) by {
            if !st.settled@[u as int] {
                assert(st.reached@[u as int]);
            }
        }
    }
    if es[i] == end {
        assert(st.settled@[end as int]) by {
            assert(st.reached@[end as int]);
        }
    }
}

/// Takes the least (cost, edge) entry out of the frontier.
proof fn lemma_swap_remove(f0: Seq<(u32, u32)>, k: int, f: Seq<(u32, u32)>)
    requires
        0 <= k < f0.len(),
        f == f0.update(k, f0.last()).drop_last(),
    ensures
        forall|j: int| 0 <= j < f.len() ==> f0.contains(#[trigger] f[j]),
        forall|i: int| 0 <= i < f0.len() && i != k ==> f.contains(#[trigger] f0[i]),
{
    assert forall|j: int| 0 <= j < f.len() implies f0.contains(#[trigger] f[j]) by {
        if j == k {
            assert(f[j] == f0[f0.len() - 1]);
        } else {
            assert(f[j] == f0[j]);
        }
    }
    assert forall|i: int| 0 <= i < f0.len() && i != k implies f.contains(#[trigger] f0[i]) by {
        if i == f0.len() - 1 {
            assert(f[k] == f0[i]);
        } else {
            assert(f[i] == f0[i]);
        }
    }
}

/// Dropping frontier entries keeps the invariant.
proof fn lemma_fewer_entries(
    g: &Graph,
    st0: &Search,
    st1: &Search,
    start: u32,
    end: u32,
    avoid: Seq<bool>,
    stamp: Seq<int>,
)
    requires
        st0.inv(g, start, end, avoid, stamp, -1),
        st0.costs_ok(g, start, end, avoid, -1),
        st1.reached@ == st0.reached@,
        st1.dist@ == st0.dist@,
        st1.prev@ == st0.prev@,
        st1.settled@ == st0.settled@,
        forall|j: int| 0 <= j < st1.frontier@.len() ==> st0.frontier@.contains(#[trigger] st1.frontier@[j]),
    ensures
        st1.inv(g, start, end, avoid, stamp, -1),
        st1.costs_ok(g, start, end, avoid, -1),
{    reveal(Search::costs_ok);
    assert forall|j: int| 0 <= j < st1.frontier@.len() implies #[trigger] st1.frontier@[j].1
        < g.edges@.len() && st1.reached@[st1.frontier@[j].1 as int] && st1.frontier@[j].0
        >= st1.dist@[st1.frontier@[j].1 as int] by {
        assert(st0.frontier@.contains(st1.frontier@[j]));
        let i = choose|i: int| 0 <= i < st0.frontier@.len() && st0.frontier@[i] == st1.frontier@[j];
        assert(st0.frontier@[i].1 < g.edges@.len());
    }
    assert forall|j: int| 0 <= j < st1.frontier@.len() implies (#[trigger] st1.frontier@[j]).0
        >= st1.dist@[st1.frontier@[j].1 as int] by {
        assert(st1.frontier@[j].0 >= st1.dist@[st1.frontier@[j].1 as int]);
    }
}

/// Takes the least (cost, edge) entry out of the frontier.
fn take_min(
    st: &mut Search,
    g: &Graph,
    Ghost(start): Ghost<u32>,
    end: u32,
    Ghost(avoid): Ghost<Seq<bool>>,
    Ghost(stamp): Ghost<Seq<int>>,
) -> (r: (u32, u32))
    requires
        old(st).inv(g, start, end, avoid, stamp, -1),
        old(st).covered(g.edges@.len() as int),
        old(st).costs_ok(g, start, end, avoid, -1),
        old(st).frontier@.len() > 0,
    ensures
        final(st).inv(g, start, end, avoid, stamp, -1),
        final(st).costs_ok(g, start, end, avoid, -1),
        old(st).frontier@.contains(r),
        forall|k: int| 0 <= k < old(st).frontier@.len() ==> r.0 <= (#[trigger] old(st).frontier@[k]).0,
        !final(st).settled@[r.1 as int] ==> r.0 == final(st).dist@[r.1 as int],
        forall|k: int| 0 <= k < final(st).frontier@.len() ==> r.0 <= (#[trigger] final(st).frontier@[k]).0,
        final(st).frontier@.len() == old(st).frontier@.len() - 1,
        final(st).reached@ == old(st).reached@,
        final(st).dist@ == old(st).dist@,
        final(st).prev@ == old(st).prev@,
        final(st).settled@ == old(st).settled@,
        r.1 < g.edges@.len(),
        final(st).reached@[r.1 as int],
        forall|x: int|
            0 <= x < g.edges@.len() && #[trigger] final(st).reached@[x] && !final(st).settled@[x]
                && x != r.1 ==> exists|j: int|
                0 <= j < final(st).frontier@.len() && #[trigger] final(st).frontier@[j].1 == x
                    && final(st).frontier@[j].0 == final(st).dist@[x],
{    proof {
        reveal(Search::costs_ok);
    }
    let ghost st0 = *st;
    let k = min_entry(&st.frontier);
    let ghost f0 = st.frontier@;
    let (c, v) = st.frontier.swap_remove(k);
    proof {
        lemma_swap_remove(f0, k as int, st.frontier@);
        lemma_fewer_entries(g, &st0, st, start, end, avoid, stamp);
        assert(f0[k as int] == (c, v));
        assert(f0.contains((c, v)));
        assert forall|i: int| 0 <= i < st.frontier@.len() implies c <= (#[trigger] st.frontier@[i]).0 by {
            assert(f0.contains(st.frontier@[i]));
            let j = choose|j: int| 0 <= j < f0.len() && f0[j] == st.frontier@[i];
        }
        if !st.settled@[v as int] {
            let j = choose|j: int|
                0 <= j < f0.len() && #[trigger] f0[j].1 == v && f0[j].0 == st.dist@[v as int];
            assert(c <= f0[j].0);
        }
        assert forall|x: int|
            0 <= x < g.edges@.len() && #[trigger] st.reached@[x] && !st.settled@[x] && x != v implies exists|
            j: int,
        | 0 <= j < st.frontier@.len() && #[trigger] st.frontier@[j].1 == x && st.frontier@[j].0
            == st.dist@[x] by {
            let i = choose|i: int| 0 <= i < f0.len() && #[trigger] f0[i].1 == x && f0[i].0 == st.dist@[x];
            assert(i != k);
            assert(st.frontier@.contains(f0[i]));
            let j = choose|j: int| 0 <= j < st.frontier@.len() && st.frontier@[j] == f0[i];
            assert(st.frontier@[j].1 == x);
        }
    }
    (c, v)
}

/// Marks `v` settled, as the `count`-th settled edge.
#[verifier::rlimit(40)]
fn settle(
    st: &mut Search,
    g: &Graph,
    start: u32,
    v: u32,
    end: u32,
    Ghost(avoid): Ghost<Seq<bool>>,
    Ghost(stamp): Ghost<Seq<int>>,
    Ghost(count): Ghost<int>,
)
    requires
        old(st).inv(g, start, end, avoid, stamp, -1),
        v < g.edges@.len(),
        v != end,
        old(st).reached@[v as int],
        !old(st).settled@[v as int],
        count >= 0,
        forall|x: int| 0 <= x < g.edges@.len() && #[trigger] old(st).settled@[x] ==> stamp[x] < count,
        old(st).costs_ok(g, start, end, avoid, -1),
        forall|x: int|
            0 <= x < g.edges@.len() && #[trigger] old(st).reached@[x] && !old(st).settled@[x] && x
                != v ==> exists|j: int|
                0 <= j < old(st).frontier@.len() && #[trigger] old(st).frontier@[j].1 == x
                    && old(st).frontier@[j].0 == old(st).dist@[x],
    ensures
        final(st).inv(g, start, end, avoid, stamp.update(v as int, count), v as int),
        final(st).covered(g.edges@.len() as int),
        final(st).costs_ok(g, start, end, avoid, v as int),
        final(st).dist@ == old(st).dist@,
        final(st).settled@ == old(st).settled@.update(v as int, true),
        final(st).reached@ == old(st).reached@,
        final(st).frontier@ == old(st).frontier@,
        count_set(final(st).settled@) == count_set(old(st).settled@) + 1,
        count_set(final(st).settled@) <= g.edges@.len(),
        forall|x: int|
            0 <= x < g.edges@.len() && #[trigger] final(st).settled@[x] ==> stamp.update(
                v as int,
                count,
            )[x] < count + 1,
{    proof {
        reveal(Search::costs_ok);
    }
    let ghost n = g.edges@.len();
    proof {
        lemma_count_set_update(st.settled@, v as int);
        lemma_count_set_bound(st.settled@.update(v as int, true));
    }
        let ghost st0 = st;
        st.settled[v as usize] = true;
        proof {
            let stamp = stamp.update(v as int, count);
            assert forall|x: int| 0 <= x < n && #[trigger] st.reached@[x] && x != start implies {
                let u = st.prev@[x].0;
                let m = st.prev@[x].1;
                &&& is_step(g, u, m, x as u32)
                &&& may_enter(avoid, end, x as u32)
                &&& st.settled@[u as int]
                &&& (st.settled@[x] ==> stamp[u as int] < stamp[x])
            } by {
                let u = st0.prev@[x].0;
                assert(st0.settled@[u as int]);
                assert(u != v);
            }
            assert forall|u: u32, m: u32, b: u32|
                #[trigger] is_step(g, u, m, b) && u != v && st.settled@[u as int] && may_enter(
                    avoid,
                    end,
                    b,
                ) implies st.reached@[b as int] by {
                assert(st0.settled@[u as int]);
            }
            assert(st.inv(g, start, end, avoid, stamp, v as int));
            assert forall|x: int|
                0 <= x < n && #[trigger] st.reached@[x] && !st.settled@[x] implies exists|j: int|
                0 <= j < st.frontier@.len() && #[trigger] st.frontier@[j].1 == x && st.frontier@[j].0
                    == st.dist@[x] by {
                assert(x != v);
                assert(st0.reached@[x] && !st0.settled@[x]);
                let j = choose|j: int|
                    0 <= j < st0.frontier@.len() && #[trigger] st0.frontier@[j].1 == x
                        && st0.frontier@[j].0 == st0.dist@[x];
                assert(st.frontier@[j] == st0.frontier@[j]);
            }
            assert forall|u: u32, m: u32, b: u32|
                #[trigger] is_step(g, u, m, b) && u != v && st.settled@[u as int] && may_enter(
                    avoid,
                    end,
                    b,
                ) && !st.settled@[b as int] implies st.dist@[b as int] <= sat_add(
                st.dist@[u as int],
                step_cost(g, u, m, b),
            ) by {
                assert(st0.settled@[u as int]);
            }
        }
}

proof fn lemma_sat_add_mono(a: u32, b: u32, c: u32)
    requires
        a <= b,
    ensures
        sat_add(a, c) <= sat_add(b, c),
        a <= sat_add(a, c),
{
}

proof fn lemma_walk_prefix(g: &Graph, es: Seq<u32>, ns: Seq<u32>, start: u32, end: u32, avoid: Seq<bool>)
    requires
        is_walk(g, es, ns, start, end, avoid),
        ns.len() > 0,
    ensures
        is_walk(g, es.take(ns.len() as int), ns.take(ns.len() - 1), start, end, avoid),
        route_cost(g, es, ns) == sat_add(
            route_cost(g, es.take(ns.len() as int), ns.take(ns.len() - 1)),
            step_cost(g, es[ns.len() - 1], ns[ns.len() - 1], es[ns.len() as int]),
        ),
        is_step(g, es[ns.len() - 1], ns[ns.len() - 1], es[ns.len() as int]),
        may_enter(avoid, end, es[ns.len() as int]),
{
    let m = ns.len() as int;
    let es2 = es.take(m);
    let ns2 = ns.take(m - 1);
    assert forall|i: int| 0 <= i < ns2.len() implies is_step(g, es2[i], #[trigger] ns2[i], es2[i + 1]) by {
        assert(is_step(g, es[i], ns[i], es[i + 1]));
    }
    assert forall|i: int| 1 <= i < es2.len() implies may_enter(avoid, end, #[trigger] es2[i]) by {
        assert(may_enter(avoid, end, es[i]));
    }
    assert(is_step(g, es[m - 1], ns[m - 1], es[m]));
    assert(may_enter(avoid, end, es[m]));
}

/// Every walk to an edge not settled costs at least the cost `c` just taken: it
/// leaves the settled edges somewhere, into an edge whose entry is no cheaper.
proof fn lemma_walk_bound(
    g: &Graph,
    st: &Search,
    start: u32,
    end: u32,
    avoid: Seq<bool>,
    stamp: Seq<int>,
    c: u32,
    v: u32,
    es: Seq<u32>,
    ns: Seq<u32>,
)
    requires
        st.inv(g, start, end, avoid, stamp, -1),
        st.costs_ok(g, start, end, avoid, -1),
        st.settled_optimal(g, start, end, avoid),
        v < g.edges@.len(),
        !st.settled@[v as int],
        c == st.dist@[v as int],
        forall|k: int| 0 <= k < st.frontier@.len() ==> c <= (#[trigger] st.frontier@[k]).0,
        forall|x: int|
            0 <= x < g.edges@.len() && #[trigger] st.reached@[x] && !st.settled@[x] && x != v ==> exists|j: int|
                0 <= j < st.frontier@.len() && #[trigger] st.frontier@[j].1 == x
                    && st.frontier@[j].0 == st.dist@[x],
        is_walk(g, es, ns, start, end, avoid),
        !st.settled@[es.last() as int],
    ensures
        c <= route_cost(g, es, ns),
    decreases ns.len(),
{    reveal(Search::costs_ok); reveal(Search::settled_optimal);
    let n = g.edges@.len();
    if ns.len() == 0 {
        assert(es.last() == start);
        if start != v {
            let j = choose|j: int|
                0 <= j < st.frontier@.len() && #[trigger] st.frontier@[j].1 == start as int
                    && st.frontier@[j].0 == st.dist@[start as int];
        }
    } else {
        let m = ns.len() as int;
        lemma_walk_prefix(g, es, ns, start, end, avoid);
        let es2 = es.take(m);
        let ns2 = ns.take(m - 1);
        let u = es[m - 1];
        let x = es[m];
        let step = step_cost(g, u, ns[m - 1], x);
        assert(es2.last() == u);
        lemma_sat_add_mono(route_cost(g, es2, ns2), route_cost(g, es2, ns2), step);
        if !st.settled@[u as int] {
            lemma_walk_bound(g, st, start, end, avoid, stamp, c, v, es2, ns2);
        } else {
            assert(st.dist@[u as int] <= route_cost(g, es2, ns2));
            assert(is_step(g, u, ns[m - 1], x));
            assert(st.reached@[x as int]);
            assert(st.dist@[x as int] <= sat_add(st.dist@[u as int], step));
            lemma_sat_add_mono(st.dist@[u as int], route_cost(g, es2, ns2), step);
            if x != v {
                let j = choose|j: int|
                    0 <= j < st.frontier@.len() && #[trigger] st.frontier@[j].1 == x as int
                        && st.frontier@[j].0 == st.dist@[x as int];
            }
        }
    }
}

proof fn lemma_walk_end(g: &Graph, es: Seq<u32>, ns: Seq<u32>, start: u32, end: u32, avoid: Seq<bool>)
    requires
        is_walk(g, es, ns, start, end, avoid),
        start < g.edges@.len(),
    ensures
        es.last() < g.edges@.len(),
{
    if ns.len() > 0 {
        assert(is_step(g, es[ns.len() - 1], ns[ns.len() - 1], es[ns.len() as int]));
    }
}

/// When the target is taken at cost `c`, no route to it costs less.
proof fn lemma_end_optimal(
    g: &Graph,
    st: &Search,
    start: u32,
    end: u32,
    avoid: Seq<bool>,
    stamp: Seq<int>,
    c: u32,
)
    requires
        st.inv(g, start, end, avoid, stamp, -1),
        st.costs_ok(g, start, end, avoid, -1),
        st.settled_optimal(g, start, end, avoid),
        c == st.dist@[end as int],
        forall|k: int| 0 <= k < st.frontier@.len() ==> c <= (#[trigger] st.frontier@[k]).0,
        forall|x: int|
            0 <= x < g.edges@.len() && #[trigger] st.reached@[x] && !st.settled@[x] && x != end ==> exists|j: int|
                0 <= j < st.frontier@.len() && #[trigger] st.frontier@[j].1 == x
                    && st.frontier@[j].0 == st.dist@[x],
    ensures
        forall|es: Seq<u32>, ns: Seq<u32>|
            is_route(g, es, ns, start, end, avoid) ==> c <= route_cost(g, es, ns),
{
    assert forall|es: Seq<u32>, ns: Seq<u32>| is_route(g, es, ns, start, end, avoid) implies c <= route_cost(g, es, ns) by {
        assert(is_walk(g, es, ns, start, end, avoid));
        lemma_walk_bound(g, st, start, end, avoid, stamp, c, end, es, ns);
    }
}

/// Settling `v` at its least cost keeps every settled edge at its least cost.
proof fn lemma_settle_optimal(
    g: &Graph,
    pre: &Search,
    post: &Search,
    start: u32,
    end: u32,
    avoid: Seq<bool>,
    stamp: Seq<int>,
    c: u32,
    v: u32,
)
    requires
        pre.inv(g, start, end, avoid, stamp, -1),
        pre.costs_ok(g, start, end, avoid, -1),
        pre.settled_optimal(g, start, end, avoid),
        v < g.edges@.len(),
        !pre.settled@[v as int],
        c == pre.dist@[v as int],
        forall|k: int| 0 <= k < pre.frontier@.len() ==> c <= (#[trigger] pre.frontier@[k]).0,
        forall|x: int|
            0 <= x < g.edges@.len() && #[trigger] pre.reached@[x] && !pre.settled@[x] && x != v ==> exists|j: int|
                0 <= j < pre.frontier@.len() && #[trigger] pre.frontier@[j].1 == x
                    && pre.frontier@[j].0 == pre.dist@[x],
        post.settled@ == pre.settled@.update(v as int, true),
        post.dist@ == pre.dist@,
    ensures
        post.settled_optimal(g, start, end, avoid),
{    reveal(Search::settled_optimal);
    assert forall|es: Seq<u32>, ns: Seq<u32>|
        #[trigger] is_walk(g, es, ns, start, end, avoid) && post.settled@[es.last() as int] implies post.dist@[es.last() as int]
            <= route_cost(g, es, ns) by {
        lemma_walk_end(g, es, ns, start, end, avoid);
        if es.last() == v {
            lemma_walk_bound(g, pre, start, end, avoid, stamp, c, v, es, ns);
        } else {
            assert(pre.settled@[es.last() as int]);
        }
    }
}

/// Trying moves keeps the settled edges and their costs, so their optimality.
proof fn lemma_same_settled_optimal(g: &Graph, pre: &Search, post: &Search, start: u32, end: u32, avoid: Seq<bool>)
    requires
        pre.settled_optimal(g, start, end, avoid),
        post.settled@ == pre.settled@,
        pre.settled@.len() == g.edges@.len(),
        start < g.edges@.len(),
        forall|x: int| 0 <= x < g.edges@.len() && pre.settled@[x] ==> post.dist@[x] == pre.dist@[x],
    ensures
        post.settled_optimal(g, start, end, avoid),
{    reveal(Search::settled_optimal);
    assert forall|es: Seq<u32>, ns: Seq<u32>|
        #[trigger] is_walk(g, es, ns, start, end, avoid) && post.settled@[es.last() as int] implies post.dist@[es.last() as int]
            <= route_cost(g, es, ns) by {
        lemma_walk_end(g, es, ns, start, end, avoid);
        assert(pre.settled@[es.last() as int]);
    }
}

/// Tries every move that leaves the just settled edge `v`, of cost `c`.
fn expand(
    g: &Graph,
    st: &mut Search,
    v: u32,
    c: u32,
    end: u32,
    avoid: &Vec<bool>,
    Ghost(start): Ghost<u32>,
    Ghost(stamp): Ghost<Seq<int>>,
)
    requires
        old(st).inv(g, start, end, avoid@, stamp, v as int),
        old(st).covered(g.edges@.len() as int),
        old(st).costs_ok(g, start, end, avoid@, v as int),
        v < g.edges@.len(),
        old(st).settled@[v as int],
        c == old(st).dist@[v as int],
        avoid@.len() == g.edges@.len(),
    ensures
        final(st).inv(g, start, end, avoid@, stamp, -1),
        final(st).covered(g.edges@.len() as int),
        final(st).costs_ok(g, start, end, avoid@, -1),
        final(st).settled@ == old(st).settled@,
        forall|x: int| 0 <= x < g.edges@.len() && old(st).settled@[x] ==> final(st).dist@[x] == old(st).dist@[x],
{    proof {
        reveal(Search::costs_ok);
    }
    let ev = g.edges[v as usize];
    relax_at(g, st, v, ev.point_1_node_idx, c, end, avoid, Ghost(start), Ghost(stamp));
    relax_at(g, st, v, ev.point_2_node_idx, c, end, avoid, Ghost(start), Ghost(stamp));
    assert forall|u: u32, m: u32, b: u32|
        #[trigger] is_step(g, u, m, b) && u != -1int && st.settled@[u as int] && may_enter(
            avoid@,
            end,
            b,
        ) implies st.reached@[b as int] by {
        if u == v {
            assert(m == ev.point_1_node_idx || m == ev.point_2_node_idx);
        }
    }
    assert forall|u: u32, m: u32, b: u32|
        #[trigger] is_step(g, u, m, b) && u != -1int && st.settled@[u as int] && may_enter(
            avoid@,
            end,
            b,
        ) && !st.settled@[b as int] implies st.dist@[b as int] <= sat_add(
        st.dist@[u as int],
        step_cost(g, u, m, b),
    ) by {
        if u == v {
            assert(m == ev.point_1_node_idx || m == ev.point_2_node_idx);
        }
    }
}

/// Searches the least-cost route from `start` to `end` that enters no avoided
/// edge but `end`. Entries are taken in (cost, edge) order; costs add up to
/// `u32::MAX`. `None` exactly when there is no such route.
pub open spec fn search_ok(
    g: &Graph,
    start: u32,
    end: u32,
    avoid: Seq<bool>,
    r: Option<(Vec<u32>, Vec<u32>)>,
) -> bool {
    &&& r matches Some(p) ==> is_route(g, p.0@, p.1@, start, end, avoid)
    &&& r is None ==> forall|es: Seq<u32>, ns: Seq<u32>| !is_route(g, es, ns, start, end, avoid)
    &&& start == end ==> (r matches Some(p) && p.0@ == seq![start] && p.1@.len() == 0)
    &&& r matches Some(p) ==> forall|es: Seq<u32>, ns: Seq<u32>|
        is_route(g, es, ns, start, end, avoid) ==> route_cost(g, p.0@, p.1@) <= route_cost(g, es, ns)
    &&& r matches Some(p) ==> p.0@.no_duplicates()
}

/// The search ran past its deadline.
#[derive(Clone, Copy, Debug, PartialEq, Eq, Structural)]
pub struct Expired;

/// How many entries are taken between two looks at the deadline.
pub const DEADLINE_CHECK_EVERY: u32 = 1024;

/// Searches the least-cost route from `start` to `end` that enters no avoided
/// edge but `end`; `None` exactly when there is no such route.
pub fn shortest_route(g: &Graph, start: u32, end: u32, avoid: &Vec<bool>) -> (r: Option<
    (Vec<u32>, Vec<u32>),
>)
    requires
        start < g.edges@.len(),
        end < g.edges@.len(),
        avoid@.len() == g.edges@.len(),
    ensures
        search_ok(g, start, end, avoid@, r),
{
    match shortest_route_until(g, start, end, avoid, None) {
        Ok(r) => r,
        Err(_) => None,
    }
}

/// Searches as `shortest_route` does, and gives up with `Expired` once the
/// deadline has passed; the deadline is looked at every `DEADLINE_CHECK_EVERY`
/// entries taken.
pub fn shortest_route_until(
    g: &Graph,
    start: u32,
    end: u32,
    avoid: &Vec<bool>,
    deadline: Option<&Deadline>,
) -> (r: Result<Option<(Vec<u32>, Vec<u32>)>, Expired>)
    requires
        start < g.edges@.len(),
        end < g.edges@.len(),
        avoid@.len() == g.edges@.len(),
    ensures
        r matches Ok(x) ==> search_ok(g, start, end, avoid@, x),
        deadline is None ==> r is Ok,
{
    if start == end {
        let mut edges: Vec<u32> = Vec::new();
        edges.push(start);
        assert(edges@.no_duplicates());
        return Ok(Some((edges, Vec::new())));
    }
    let n = g.edges.len();
    let mut st = Search {
        reached: vec![false; n],
        dist: vec![0u32; n],
        prev: vec![(0u32, 0u32); n],
        settled: vec![false; n],
        frontier: Vec::new(),
    };
    st.reached[start as usize] = true;
    st.frontier.push((0u32, start));
    assert(st.dist@[start as int] == 0);
    proof {
        reveal(Search::costs_ok);
        reveal(Search::settled_optimal);
    }
    let ghost mut stamp: Seq<int> = Seq::new(n as nat, |i: int| 0int);
    let ghost mut count: int = 0;
    let mut pops: u32 = 0;
    assert(st.frontier@[0].1 == start);
    while st.frontier.len() > 0
        invariant
            st.inv(g, start, end, avoid@, stamp, -1),
            st.covered(n as int),
            st.costs_ok(g, start, end, avoid@, -1),
            st.settled_optimal(g, start, end, avoid@),
            start != end,
            pops < DEADLINE_CHECK_EVERY,
            n == g.edges@.len(),
            avoid@.len() == n,
            count >= 0,
            forall|v: int| 0 <= v < n && #[trigger] st.settled@[v] ==> stamp[v] < count,
        decreases n - count_set(st.settled@), st.frontier@.len(),
    {
        if pops + 1 == DEADLINE_CHECK_EVERY {
            pops = 0;
            if let Some(d) = deadline {
                if d.passed() {
                    return Err(Expired);
                }
            }
        } else {
            pops = pops + 1;
        }
        let ghost before = st;
        let (c, v) = take_min(&mut st, g, Ghost(start), end, Ghost(avoid@), Ghost(stamp));
        assert(st.reached@[v as int]);
        proof {
            lemma_same_settled_optimal(g, &before, &st, start, end, avoid@);
        }

        if v == end {
            let p = reconstruct_path(&st, g, start, end, Ghost(avoid@), Ghost(stamp));
            proof {
                lemma_end_optimal(g, &st, start, end, avoid@, stamp, c);
            }
            return Ok(Some(p));
        }
        if st.settled[v as usize] {
            continue;
        }
        let ghost pre = st;
        settle(&mut st, g, start, v, end, Ghost(avoid@), Ghost(stamp), Ghost(count));
        proof {
            lemma_settle_optimal(g, &pre, &st, start, end, avoid@, stamp, c, v);
        }
        let ghost pre_expand = st;
        proof {
            stamp = stamp.update(v as int, count);
            count = count + 1;
        }
        expand(g, &mut st, v, c, end, avoid, Ghost(start), Ghost(stamp));
        proof {
            lemma_same_settled_optimal(g, &pre_expand, &st, start, end, avoid@);
        }
    }
    proof {
        assert forall|es: Seq<u32>, ns: Seq<u32>| !is_route(g, es, ns, start, end, avoid@) by {
            if is_route(g, es, ns, start, end, avoid@) {
                lemma_route_reached(g, &st, start, end, avoid@, stamp, es, ns, es.len() - 1);
            }
        }
    }
    Ok(None)
}

} // verus!
