//! The order in which the locations of a capability graph may expire.
use vstd::prelude::*;
use crate::graph::{CapabilityGraph, EdgeKind, GraphModel, Node};
use crate::mir::Place;

verus! {

pub open spec fn max(a: int, b: int) -> int {
    if a >= b { a } else { b }
}

/// Crossing an expansion keeps the depth; any other edge adds one.
pub open spec fn weight(k: EdgeKind) -> int {
    match k {
        EdgeKind::Expansion => 0,
        _ => 1,
    }
}

impl GraphModel {
    /// `n` occurs in some edge.
    pub open spec fn has_node(self, n: Node) -> bool {
        exists|e: int| 0 <= e < self.edges.len() && (self.edges[e].blocked.contains(n) || self.edges[e].blocked_by.contains(n))
    }

    /// The greatest depth at which `v` is blocked, over paths of at most `r` edges:
    /// a node that blocks nothing is at depth 0, and a node that blocks `m` through
    /// edge `e` lies `weight(e)` below `m`.
    pub open spec fn depth(self, v: Node, r: nat) -> int
        decreases r, 0nat, 0nat,
    {
        if r == 0 {
            0
        } else {
            max(self.depth(v, (r - 1) as nat), self.over_edges(v, (r - 1) as nat, self.edges.len()))
        }
    }

    /// The greatest depth `v` reaches through the first `i` edges, from depths over `r` edges.
    pub open spec fn over_edges(self, v: Node, r: nat, i: nat) -> int
        decreases r, 2nat, i,
    {
        if i == 0 {
            0
        } else {
            let e = i - 1;
            max(
                self.over_edges(v, r, (i - 1) as nat),
                if e < self.edges.len() && self.edges[e].blocked_by.contains(v) {
                    self.over_blocked(e, r, self.edges[e].blocked.len())
                } else {
                    0
                },
            )
        }
    }

    /// The greatest depth reached through edge `e` from its first `k` blocked nodes.
    pub open spec fn over_blocked(self, e: int, r: nat, k: nat) -> int
        decreases r, 1nat, k,
    {
        if k == 0 || e < 0 || e >= self.edges.len() {
            0
        } else {
            max(
                self.over_blocked(e, r, (k - 1) as nat),
                self.depth(self.edges[e].blocked[k - 1], r) + weight(self.edges[e].kind),
            )
        }
    }

    /// The depth of `v` over paths of any length up to the number of edges.
    pub open spec fn expiry_depth(self, v: Node) -> int {
        self.depth(v, self.edges.len())
    }
}

proof fn lemma_depth_bounds(g: GraphModel, v: Node, r: nat)
    ensures
        0 <= g.depth(v, r) <= r,
    decreases r, 0nat, 0nat,
{
    if r > 0 {
        lemma_depth_bounds(g, v, (r - 1) as nat);
        lemma_over_edges_bounds(g, v, (r - 1) as nat, g.edges.len());
    }
}

proof fn lemma_over_edges_bounds(g: GraphModel, v: Node, r: nat, i: nat)
    ensures
        0 <= g.over_edges(v, r, i) <= r + 1,
    decreases r, 2nat, i,
{
    if i > 0 {
        lemma_over_edges_bounds(g, v, r, (i - 1) as nat);
        let e = i - 1;
        if e < g.edges.len() && g.edges[e].blocked_by.contains(v) {
            lemma_over_blocked_bounds(g, e, r, g.edges[e].blocked.len());
        }
    }
}

proof fn lemma_over_blocked_bounds(g: GraphModel, e: int, r: nat, k: nat)
    ensures
        0 <= g.over_blocked(e, r, k) <= r + 1,
    decreases r, 1nat, k,
{
    if k > 0 && 0 <= e < g.edges.len() {
        lemma_over_blocked_bounds(g, e, r, (k - 1) as nat);
        lemma_depth_bounds(g, g.edges[e].blocked[k - 1], r);
    }
}

/// Whether `v` holds `n`, and where.
fn index_of(v: &Vec<Node>, n: Node) -> (r: Option<usize>)
    ensures
        r matches Some(k) ==> k < v@.len() && v@[k as int] == n,
        r is None ==> !v@.contains(n),
{
    let mut i: usize = 0;
    while i < v.len()
        invariant
            i <= v.len(),
            forall|k: int| 0 <= k < i ==> v@[k] != n,
        decreases v.len() - i,
    {
        if v[i] == n {
            return Some(i);
        }
        i = i + 1;
    }
    None
}

/// Adds to `r` each node of `list` that it does not hold yet.
fn add_new_nodes(r: &mut Vec<Node>, list: &Vec<Node>)
    requires
        old(r)@.no_duplicates(),
    ensures
        final(r)@.no_duplicates(),
        forall|n: Node| #[trigger] final(r)@.contains(n) <==> (old(r)@.contains(n) || list@.contains(n)),
{
    let mut j: usize = 0;
    while j < list.len()
        invariant
            j <= list.len(),
            r@.no_duplicates(),
            forall|n: Node| r@.contains(n) <==> (old(r)@.contains(n) || list@.take(j as int).contains(n)),
        decreases list.len() - j,
    {
        let n = list[j];
        let ghost r2 = r@;
        match index_of(r, n) {
            Some(_) => {},
            None => {
                r.push(n);
                proof {
                    assert forall|x: int, y: int| 0 <= x < r@.len() && 0 <= y < r@.len() && x != y implies r@[x] != r@[y] by {
                        if x < r2.len() && y < r2.len() {
                            assert(r@[x] == r2[x] && r@[y] == r2[y]);
                        } else if x < r2.len() {
                            assert(r2.contains(r@[x]));
                        } else {
                            assert(r2.contains(r@[y]));
                        }
                    }
                }
            },
        }
        let ghost j0 = j as int;
        j = j + 1;
        proof {
            assert(list@.take(j as int) =~= list@.take(j0).push(n));
            assert forall|m: Node| #[trigger] r@.contains(m) <==> (old(r)@.contains(m) || list@.take(j as int).contains(m)) by {
                crate::graph::lemma_push_contains(list@.take(j0), n, m);
                assert(r2.contains(m) <==> (old(r)@.contains(m) || list@.take(j0).contains(m)));
                if r@ != r2 {
                    crate::graph::lemma_push_contains(r2, n, m);
                }
            }
        }
    }
    assert(list@.take(list.len() as int) =~= list@);
}

pub open spec fn in_edge(g: GraphModel, a: int, n: Node) -> bool {
    g.edges[a].blocked.contains(n) || g.edges[a].blocked_by.contains(n)
}

/// Every node that occurs in the graph, each once.
pub fn graph_nodes(graph: &CapabilityGraph) -> (r: Vec<Node>)
    ensures
        forall|n: Node| r@.contains(n) <==> graph@.has_node(n),
        r@.no_duplicates(),
{
    let mut r: Vec<Node> = Vec::new();
    let mut e: usize = 0;
    while e < graph.edges.len()
        invariant
            e <= graph.edges.len(),
            r@.no_duplicates(),
            forall|a: int, n: Node| 0 <= a < e && #[trigger] in_edge(graph@, a, n) ==> r@.contains(n),
            forall|n: Node| #[trigger] r@.contains(n) ==> exists|a: int| 0 <= a < e && #[trigger] in_edge(graph@, a, n),
        decreases graph.edges.len() - e,
    {
        let edge = &graph.edges[e];
        assert(graph@.edges[e as int] == edge@);
        let ghost r0 = r@;
        add_new_nodes(&mut r, &edge.blocked);
        let ghost r1 = r@;
        add_new_nodes(&mut r, &edge.blocked_by);
        let ghost e0 = e as int;
        e = e + 1;
        proof {
            assert forall|a: int, n: Node| 0 <= a < e && #[trigger] in_edge(graph@, a, n) implies r@.contains(n) by {
                if a < e0 {
                    assert(in_edge(graph@, a, n));
                    assert(r0.contains(n));
                    assert(r1.contains(n));
                } else {
                    assert(graph@.edges[a] == edge@);
                    assert(r1.contains(n) || edge@.blocked_by.contains(n));
                }
            }
            assert forall|n: Node| #[trigger] r@.contains(n) implies exists|a: int| 0 <= a < e && #[trigger] in_edge(graph@, a, n) by {
                if r0.contains(n) {
                    let a = choose|a: int| 0 <= a < e0 && #[trigger] in_edge(graph@, a, n);
                    assert(0 <= a < e && in_edge(graph@, a, n));
                } else {
                    assert(edge@.blocked.contains(n) || edge@.blocked_by.contains(n));
                    assert(0 <= e0 < e && in_edge(graph@, e0, n));
                }
            }
        }
    }
    assert forall|n: Node| r@.contains(n) <==> graph@.has_node(n) by {
        if graph@.has_node(n) {
            let a = choose|a: int| 0 <= a < graph@.edges.len() && (graph@.edges[a].blocked.contains(n) || graph@.edges[a].blocked_by.contains(n));
            assert(in_edge(graph@, a, n));
        }
    }
    r
}

fn weight_of(k: EdgeKind) -> (r: usize)
    ensures
        r == weight(k),
{
    match k {
        EdgeKind::Expansion => 0,
        _ => 1,
    }
}

/// One relaxation round: from the depths over `round` edges, the depths over `round + 1`.
fn relax(graph: &CapabilityGraph, nodes: &Vec<Node>, depths: &Vec<usize>, round: Ghost<nat>) -> (r: Vec<usize>)
    requires
        forall|n: Node| nodes@.contains(n) <==> graph@.has_node(n),
        depths@.len() == nodes@.len(),
        forall|k: int| 0 <= k < nodes@.len() ==> depths@[k] == graph@.depth(#[trigger] nodes@[k], round@),
        round@ + 1 < usize::MAX,
    ensures
        r@.len() == nodes@.len(),
        forall|k: int| 0 <= k < nodes@.len() ==> r@[k] == graph@.depth(#[trigger] nodes@[k], round@ + 1),
{
    let ghost g = graph@;
    let ghost rd = round@;
    let mut r: Vec<usize> = Vec::new();
    let mut k: usize = 0;
    while k < nodes.len()
        invariant
            k <= nodes.len(),
            g == graph@,
            rd == round@,
            r@.len() == k,
            forall|j: int| 0 <= j < k ==> r@[j] == g.depth(#[trigger] nodes@[j], rd + 1),
            forall|n: Node| nodes@.contains(n) <==> graph@.has_node(n),
            depths@.len() == nodes@.len(),
            forall|j: int| 0 <= j < nodes@.len() ==> depths@[j] == graph@.depth(#[trigger] nodes@[j], rd),
            rd + 1 < usize::MAX,
        decreases nodes.len() - k,
    {
        let v = nodes[k];
        let mut acc: usize = 0;
        let mut e: usize = 0;
        while e < graph.edges.len()
            invariant
                e <= graph.edges.len(),
                g == graph@,
                k < nodes.len(),
                v == nodes@[k as int],
                acc == g.over_edges(v, rd, e as nat),
                forall|n: Node| nodes@.contains(n) <==> graph@.has_node(n),
                depths@.len() == nodes@.len(),
                forall|j: int| 0 <= j < nodes@.len() ==> depths@[j] == graph@.depth(#[trigger] nodes@[j], rd),
                rd + 1 < usize::MAX,
            decreases graph.edges.len() - e,
        {
            let edge = &graph.edges[e];
            assert(g.edges[e as int] == edge@);
            if crate::graph::contains_node(&edge.blocked_by, v) {
                let w = weight_of(edge.kind);
                let mut accb: usize = 0;
                let mut m: usize = 0;
                while m < edge.blocked.len()
                    invariant
                        m <= edge.blocked.len(),
                        g == graph@,
                        e < graph.edges.len(),
                        g.edges[e as int] == edge@,
                        w == weight(edge.kind),
                        accb == g.over_blocked(e as int, rd, m as nat),
                        forall|n: Node| nodes@.contains(n) <==> graph@.has_node(n),
                        depths@.len() == nodes@.len(),
                        forall|j: int| 0 <= j < nodes@.len() ==> depths@[j] == graph@.depth(#[trigger] nodes@[j], rd),
                        rd + 1 < usize::MAX,
                    decreases edge.blocked.len() - m,
                {
                    let target = edge.blocked[m];
                    proof {
                        lemma_over_blocked_bounds(g, e as int, rd, (m + 1) as nat);
                        assert(g.edges[e as int].blocked.contains(target));
                        assert(in_edge(g, e as int, target));
                    }
                    assert(g.over_blocked(e as int, rd, (m + 1) as nat) == max(
                        g.over_blocked(e as int, rd, m as nat),
                        g.depth(target, rd) + weight(edge.kind),
                    ));
                    match index_of(nodes, target) {
                        Some(t) => {
                            proof {
                                lemma_depth_bounds(g, target, rd);
                            }
                            let val = depths[t] + w;
                            if val > accb {
                                accb = val;
                            }
                        },
                        None => {
                            proof {
                                assert(g.has_node(target));
                            }
                        },
                    }
                    m = m + 1;
                }
                proof {
                    lemma_over_edges_bounds(g, v, rd, (e + 1) as nat);
                    assert(g.over_edges(v, rd, (e + 1) as nat) == max(g.over_edges(v, rd, e as nat), accb as int));
                }
                if accb > acc {
                    acc = accb;
                }
            }
            e = e + 1;
        }
        proof {
            lemma_depth_bounds(g, v, rd + 1);
            assert(g.depth(v, (rd + 1) as nat) == max(g.depth(v, rd), g.over_edges(v, rd, g.edges.len())));
        }
        let mut best = depths[k];
        if acc > best {
            best = acc;
        }
        r.push(best);
        k = k + 1;
    }
    r
}

/// The locations of the graph in buckets by the greatest depth at which they are
/// blocked: bucket `d` holds, once each, the live locations at depth `d`, and
/// every location of the graph is in one bucket.
pub fn expiry_depth_order(graph: &CapabilityGraph) -> (r: Vec<Vec<Place>>)
    requires
        graph.edges.len() + 1 < usize::MAX,
    ensures
        forall|d: int, p: Place| 0 <= d < r@.len() ==> (#[trigger] r@[d]@.contains(p) <==> (graph@.has_node(Node::of_place(p))
            && graph@.expiry_depth(Node::of_place(p)) == d)),
        forall|p: Place| #[trigger] graph@.has_node(Node::of_place(p)) ==> graph@.expiry_depth(Node::of_place(p)) < r@.len(),
        forall|d: int| 0 <= d < r@.len() ==> (#[trigger] r@[d])@.no_duplicates(),
        (forall|p: Place| !#[trigger] graph@.has_node(Node::of_place(p))) ==> r@.len() == 0,
{
    let ghost g = graph@;
    let nodes = graph_nodes(graph);
    let mut depths: Vec<usize> = Vec::new();
    while depths.len() < nodes.len()
        invariant
            depths@.len() <= nodes@.len(),
            forall|k: int| 0 <= k < depths@.len() ==> depths@[k] == 0,
        decreases nodes.len() - depths.len(),
    {
        depths.push(0);
    }
    let mut round: usize = 0;
    proof {
        assert forall|k: int| 0 <= k < nodes@.len() implies depths@[k] == g.depth(#[trigger] nodes@[k], 0) by {}
    }
    while round < graph.edges.len()
        invariant
            round <= graph.edges.len(),
            g == graph@,
            graph.edges.len() + 1 < usize::MAX,
            forall|n: Node| nodes@.contains(n) <==> graph@.has_node(n),
            depths@.len() == nodes@.len(),
            forall|k: int| 0 <= k < nodes@.len() ==> depths@[k] == g.depth(#[trigger] nodes@[k], round as nat),
        decreases graph.edges.len() - round,
    {
        depths = relax(graph, &nodes, &depths, Ghost(round as nat));
        round = round + 1;
    }
    let mut top: usize = 0;
    let mut any = false;
    let mut k: usize = 0;
    while k < depths.len()
        invariant
            k <= depths.len(),
            any <==> exists|j: int| 0 <= j < k && (#[trigger] nodes@[j]).live_place(),
            top <= graph.edges.len(),
            g == graph@,
            depths@.len() == nodes@.len(),
            forall|k: int| 0 <= k < nodes@.len() ==> depths@[k] == g.depth(#[trigger] nodes@[k], g.edges.len()),
            graph.edges.len() + 1 < usize::MAX,
            forall|j: int| 0 <= j < k && (#[trigger] nodes@[j]).live_place() ==> depths@[j] <= top,
            forall|n: Node| nodes@.contains(n) <==> graph@.has_node(n),
        decreases depths.len() - k,
    {
        proof {
            lemma_depth_bounds(g, nodes@[k as int], g.edges.len());
        }
        if nodes[k].is_location() {
            any = true;
            if depths[k] > top {
                top = depths[k];
            }
        }
        k = k + 1;
    }
    if !any {
        proof {
            assert forall|p: Place| !#[trigger] graph@.has_node(Node::of_place(p)) by {
                if graph@.has_node(Node::of_place(p)) {
                    assert(nodes@.contains(Node::of_place(p)));
                    let j = choose|j: int| 0 <= j < nodes@.len() && nodes@[j] == Node::of_place(p);
                }
            }
        }
        return Vec::new();
    }
    proof {
        assert forall|k: int| 0 <= k < nodes@.len() && (#[trigger] nodes@[k]).live_place() implies depths@[k] <= top by {}
    }
    let mut r: Vec<Vec<Place>> = Vec::new();
    let mut d: usize = 0;
    while d <= top
        invariant
            d <= top + 1,
            top < usize::MAX,
            r@.len() == d,
            g == graph@,
            nodes@.no_duplicates(),
            depths@.len() == nodes@.len(),
            forall|k: int| 0 <= k < nodes@.len() ==> depths@[k] == g.expiry_depth(#[trigger] nodes@[k]),
            forall|j: int, p: Place| 0 <= j < d ==> (#[trigger] r@[j]@.contains(p) <==> (nodes@.contains(Node::of_place(p))
                && g.expiry_depth(Node::of_place(p)) == j)),
            forall|j: int| 0 <= j < d ==> (#[trigger] r@[j])@.no_duplicates(),
        decreases top + 1 - d,
    {
        let mut bucket: Vec<Place> = Vec::new();
        let mut k: usize = 0;
        while k < nodes.len()
            invariant
                k <= nodes.len(),
                d <= top,
                nodes@.no_duplicates(),
                depths@.len() == nodes@.len(),
                forall|k: int| 0 <= k < nodes@.len() ==> depths@[k] == g.expiry_depth(#[trigger] nodes@[k]),
                bucket@.no_duplicates(),
                forall|p: Place| #[trigger] bucket@.contains(p) <==> (nodes@.take(k as int).contains(Node::of_place(p))
                    && g.expiry_depth(Node::of_place(p)) == d),
            decreases nodes.len() - k,
        {
            let n = nodes[k];
            let ghost b0 = bucket@;
            match n {
                Node::Place { place, current } => {
                    if current && depths[k] == d {
                        proof {
                            if b0.contains(place) {
                                let j = choose|j: int| 0 <= j < k && nodes@[j] == Node::of_place(place);
                            }
                        }
                        bucket.push(place);
                        proof {
                            crate::graph::lemma_push_no_duplicates(b0, place);
                        }
                    }
                },
                _ => {},
            }
            let ghost k0 = k as int;
            k = k + 1;
            proof {
                assert(nodes@.take(k as int) =~= nodes@.take(k0).push(n));
                assert forall|p: Place| #[trigger] bucket@.contains(p) <==> (nodes@.take(k as int).contains(Node::of_place(p))
                    && g.expiry_depth(Node::of_place(p)) == d) by {
                    crate::graph::lemma_push_contains(nodes@.take(k0), n, Node::of_place(p));
                    assert(b0.contains(p) <==> (nodes@.take(k0).contains(Node::of_place(p)) && g.expiry_depth(Node::of_place(p)) == d));
                    if bucket@ != b0 {
                        crate::graph::lemma_push_contains(b0, n->place, p);
                    }
                }
            }
        }
        assert(nodes@.take(nodes.len() as int) =~= nodes@);
        r.push(bucket);
        d = d + 1;
    }
    proof {
        assert forall|p: Place| #[trigger] graph@.has_node(Node::of_place(p)) implies graph@.expiry_depth(Node::of_place(p)) < r@.len() by {
            assert(nodes@.contains(Node::of_place(p)));
            let k = choose|k: int| 0 <= k < nodes@.len() && nodes@[k] == Node::of_place(p);
            assert(nodes@[k].live_place());
            assert(depths@[k] <= top);
        }
        let j = choose|j: int| 0 <= j < nodes@.len() && (#[trigger] nodes@[j]).live_place();
        assert(graph@.has_node(Node::of_place(nodes@[j].current_place()->0)));
    }
    r
}

} // verus!
