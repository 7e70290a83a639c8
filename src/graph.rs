//! The capability graph of one program point and the traversals over it.
use vstd::prelude::*;
use vstd::set_lib::{lemma_int_range, lemma_len_subset, set_int_range};
use crate::mir::{BorrowKind, Place, is_mut};

verus! {

/// A node of the capability graph.
#[derive(Clone, Copy, Debug, PartialEq, Eq, Structural)]
pub enum Node {
    /// A location; `current` is false for a historical snapshot of it.
    Place { place: Place, current: bool },
    /// The validity scope `scope` associated with the location `base`.
    Scope { base: Place, scope: usize, current: bool },
}

impl Node {
    /// The live location this node stands for, if it belongs to the current state.
    pub open spec fn current_place(self) -> Option<Place> {
        match self {
            Node::Place { place, current } => if current { Some(place) } else { None },
            Node::Scope { base, current, .. } => if current { Some(base) } else { None },
        }
    }

    /// The node is a live location.
    pub open spec fn live_place(self) -> bool {
        match self {
            Node::Place { current, .. } => current,
            _ => false,
        }
    }

    /// The node of the live location `p`.
    pub open spec fn of_place(p: Place) -> Node {
        Node::Place { place: p, current: true }
    }
}

impl Node {
    /// Whether the node is a live location.
    pub fn is_location(&self) -> (r: bool)
        ensures
            r == self.live_place(),
    {
        match self {
            Node::Place { current, .. } => *current,
            _ => false,
        }
    }
}

/// The live location a node stands for, if any.
pub fn local_node_to_current_place(node: Node) -> (r: Option<Place>)
    ensures
        r == node.current_place(),
{
    match node {
        Node::Place { place, current } => if current { Some(place) } else { None },
        Node::Scope { base, current, .. } => if current { Some(base) } else { None },
    }
}

/// What an edge records.
#[derive(Clone, Copy, Debug, PartialEq, Eq, Structural)]
pub enum EdgeKind {
    /// The blocked location is borrowed for validity scope `scope`.
    Borrow { kind: BorrowKind, scope: usize },
    /// A composite location is split into its parts.
    Expansion,
    /// A summary of a call's aliasing effect.
    Abstraction,
}

/// A directed edge: the nodes of `blocked_by` block those of `blocked`.
pub struct Edge {
    pub kind: EdgeKind,
    pub blocked: Vec<Node>,
    pub blocked_by: Vec<Node>,
}

pub struct EdgeModel {
    pub kind: EdgeKind,
    pub blocked: Seq<Node>,
    pub blocked_by: Seq<Node>,
}

impl View for Edge {
    type V = EdgeModel;

    open spec fn view(&self) -> EdgeModel {
        EdgeModel { kind: self.kind, blocked: self.blocked@, blocked_by: self.blocked_by@ }
    }
}

/// The access right held on a location.
#[derive(Clone, Copy, Debug, PartialEq, Eq, Structural)]
pub enum Capability {
    Exclusive,
    Read,
    Write,
    ShallowExclusive,
    LentShared,
    Lent,
}

/// Edges and capabilities at one program point and phase.
pub struct CapabilityGraph {
    pub edges: Vec<Edge>,
    pub capabilities: Vec<(Place, Capability)>,
}

pub struct GraphModel {
    pub edges: Seq<EdgeModel>,
    pub capabilities: Seq<(Place, Capability)>,
}

impl View for CapabilityGraph {
    type V = GraphModel;

    open spec fn view(&self) -> GraphModel {
        GraphModel {
            edges: self.edges@.map_values(|e: Edge| e@),
            capabilities: self.capabilities@,
        }
    }
}

/// Which borrows a search counts.
#[derive(Clone, Copy, Debug, PartialEq, Eq, Structural)]
pub enum BorrowFilter {
    Mut,
    Shared,
    Any,
}

impl BorrowFilter {
    pub open spec fn admits(self, k: BorrowKind) -> bool {
        match self {
            BorrowFilter::Mut => k == BorrowKind::Mut,
            BorrowFilter::Shared => k == BorrowKind::Shared,
            BorrowFilter::Any => true,
        }
    }

    pub fn accepts(&self, k: BorrowKind) -> (r: bool)
        ensures
            r == self.admits(k),
    {
        match self {
            BorrowFilter::Mut => k == BorrowKind::Mut,
            BorrowFilter::Shared => k == BorrowKind::Shared,
            BorrowFilter::Any => true,
        }
    }
}

impl EdgeKind {
    /// Borrow and abstraction edges are the ones that order expiry.
    pub open spec fn orders_expiry(self) -> bool {
        self is Borrow || self is Abstraction
    }
}

impl GraphModel {
    /// Edge `e2` follows edge `e`: it blocks a node that blocks `e`.
    pub open spec fn feeds(self, e: int, e2: int) -> bool {
        &&& 0 <= e < self.edges.len()
        &&& 0 <= e2 < self.edges.len()
        &&& exists|n: Node| self.edges[e].blocked_by.contains(n) && #[trigger] self.edges[e2].blocked.contains(n)
    }

    /// A chain of `n + 1` steps between borrow and abstraction edges leads from edge
    /// `e` to edge `e2`.
    pub open spec fn chain(self, e: int, e2: int, n: nat) -> bool
        decreases n,
    {
        if n == 0 {
            self.feeds(e, e2) && self.edges[e].kind.orders_expiry() && self.edges[e2].kind.orders_expiry()
        } else {
            exists|m: int| #[trigger] self.chain(e, m, (n - 1) as nat) && self.feeds(m, e2)
                && self.edges[e2].kind.orders_expiry()
        }
    }

    /// The borrow and abstraction edges form no cycle.
    pub open spec fn acyclic(self) -> bool {
        forall|e: int, n: nat| !#[trigger] self.chain(e, e, n)
    }

    /// Each location holds at most one capability.
    pub open spec fn wf(self) -> bool {
        forall|i: int, j: int|
            0 <= i < self.capabilities.len() && 0 <= j < self.capabilities.len()
                && #[trigger] self.capabilities[i].0 == #[trigger] self.capabilities[j].0 ==> i == j
    }

    pub open spec fn has_capability(self, p: Place, c: Capability) -> bool {
        exists|i: int| 0 <= i < self.capabilities.len() && #[trigger] self.capabilities[i] == (p, c)
    }

    /// Edge `i` borrows the live location `p` for scope `s` under a kind that `f` admits.
    pub open spec fn edge_borrows(self, i: int, p: Place, s: usize, f: BorrowFilter) -> bool {
        &&& 0 <= i < self.edges.len()
        &&& self.edges[i].kind matches EdgeKind::Borrow { kind, scope } && scope == s && f.admits(kind)
        &&& self.edges[i].blocked.contains(Node::of_place(p))
    }

    pub open spec fn borrows_for(self, p: Place, s: usize, f: BorrowFilter) -> bool {
        exists|i: int| self.edge_borrows(i, p, s, f)
    }

    pub open spec fn borrows(self, p: Place, f: BorrowFilter) -> bool {
        exists|s: usize| self.borrows_for(p, s, f)
    }
}

/// Whether `v` holds `n`.
pub fn contains_node(v: &Vec<Node>, n: Node) -> (r: bool)
    ensures
        r == v@.contains(n),
{
    let mut i: usize = 0;
    while i < v.len()
        invariant
            i <= v.len(),
            forall|k: int| 0 <= k < i ==> v@[k] != n,
        decreases v.len() - i,
    {
        if v[i] == n {
            return true;
        }
        i = i + 1;
    }
    false
}

/// Whether `v` holds `p`.
pub fn contains_place(v: &Vec<Place>, p: Place) -> (r: bool)
    ensures
        r == v@.contains(p),
{
    let mut i: usize = 0;
    while i < v.len()
        invariant
            i <= v.len(),
            forall|k: int| 0 <= k < i ==> v@[k] != p,
        decreases v.len() - i,
    {
        if v[i] == p {
            return true;
        }
        i = i + 1;
    }
    false
}

pub proof fn lemma_push_contains<A>(s: Seq<A>, x: A, y: A)
    ensures
        s.push(x).contains(y) == (s.contains(y) || x == y),
{
    if s.contains(y) {
        let w = choose|w: int| 0 <= w < s.len() && s[w] == y;
        assert(s.push(x)[w] == y);
    }
    if x == y {
        assert(s.push(x)[s.len() as int] == y);
    }
    if s.push(x).contains(y) {
        let w = choose|w: int| 0 <= w < s.len() + 1 && s.push(x)[w] == y;
        if w < s.len() {
            assert(s[w] == y);
        }
    }
}

pub proof fn lemma_push_no_duplicates<A>(s: Seq<A>, x: A)
    requires
        s.no_duplicates(),
        !s.contains(x),
    ensures
        s.push(x).no_duplicates(),
{
    let t = s.push(x);
    assert forall|i: int, j: int| 0 <= i < t.len() && 0 <= j < t.len() && i != j implies t[i] != t[j] by {
        if i == s.len() {
            assert(s[j] == t[j]);
        } else if j == s.len() {
            assert(s[i] == t[i]);
        } else {
            assert(s[i] == t[i] && s[j] == t[j]);
        }
    }
}

/// Every pair of a location and a validity scope for which some borrow edge of the
/// graph, of a kind that `filter` admits, borrows that live location.
pub fn borrowed_places(graph: &CapabilityGraph, filter: BorrowFilter) -> (r: Vec<(Place, usize)>)
    ensures
        forall|p: Place, s: usize| r@.contains((p, s)) <==> graph@.borrows_for(p, s, filter),
{
    let mut r: Vec<(Place, usize)> = Vec::new();
    let mut i: usize = 0;
    while i < graph.edges.len()
        invariant
            i <= graph.edges.len(),
            forall|p: Place, s: usize|
                r@.contains((p, s)) <==> exists|k: int| 0 <= k < i && graph@.edge_borrows(k, p, s, filter),
        decreases graph.edges.len() - i,
    {
        let edge = &graph.edges[i];
        assert(graph@.edges[i as int] == edge@);
        let ghost r0 = r@;
        match edge.kind {
            EdgeKind::Borrow { kind, scope } => {
                if filter.accepts(kind) {
                    let mut j: usize = 0;
                    while j < edge.blocked.len()
                        invariant
                            j <= edge.blocked.len(),
                            forall|p: Place, s: usize|
                                r@.contains((p, s)) <==> (r0.contains((p, s)) || (s == scope
                                    && edge.blocked@.take(j as int).contains(Node::of_place(p)))),
                        decreases edge.blocked.len() - j,
                    {
                        let ghost rj = r@;
                        let n = edge.blocked[j];
                        if let Node::Place { place, current } = n {
                            if current {
                                r.push((place, scope));
                            }
                        }
                        assert(edge.blocked@.take(j + 1) =~= edge.blocked@.take(j as int).push(n));
                        assert forall|p: Place, s: usize|
                            r@.contains((p, s)) <==> (r0.contains((p, s)) || (s == scope
                                && edge.blocked@.take(j + 1).contains(Node::of_place(p)))) by {
                            lemma_push_contains(edge.blocked@.take(j as int), n, Node::of_place(p));
                            if r@ != rj {
                                lemma_push_contains(rj, (n->place, scope), (p, s));
                            }
                        }
                        j = j + 1;
                    }
                    assert(edge.blocked@.take(edge.blocked.len() as int) =~= edge.blocked@);
                }
            },
            _ => {},
        }
        assert forall|p: Place, s: usize|
            r@.contains((p, s)) <==> (r0.contains((p, s)) || graph@.edge_borrows(i as int, p, s, filter)) by {
            assert(graph@.edges[i as int] == edge@);
        }
        assert forall|p: Place, s: usize|
            r@.contains((p, s)) <==> exists|k: int| 0 <= k < i + 1 && graph@.edge_borrows(k, p, s, filter) by {
            if exists|k: int| 0 <= k < i + 1 && graph@.edge_borrows(k, p, s, filter) {
                let k = choose|k: int| 0 <= k < i + 1 && graph@.edge_borrows(k, p, s, filter);
                if k < i {
                    assert(exists|k: int| 0 <= k < i && graph@.edge_borrows(k, p, s, filter));
                }
            }
            if graph@.edge_borrows(i as int, p, s, filter) {
                assert(0 <= i < i + 1 && graph@.edge_borrows(i as int, p, s, filter));
            }
            if r0.contains((p, s)) {
                let k = choose|k: int| 0 <= k < i && graph@.edge_borrows(k, p, s, filter);
                assert(0 <= k < i + 1 && graph@.edge_borrows(k, p, s, filter));
            }
        }
        i = i + 1;
    }
    r
}

/// Whether the live location `p` holds capability `c` in `graph`.
pub fn has_capability(graph: &CapabilityGraph, p: Place, c: Capability) -> (r: bool)
    ensures
        r == graph@.has_capability(p, c),
{
    let mut i: usize = 0;
    while i < graph.capabilities.len()
        invariant
            i <= graph.capabilities.len(),
            forall|k: int| 0 <= k < i ==> graph@.capabilities[k] != (p, c),
        decreases graph.capabilities.len() - i,
    {
        let (q, d) = graph.capabilities[i];
        if q == p && d == c {
            assert(graph@.capabilities[i as int] == (p, c));
            return true;
        }
        i = i + 1;
    }
    false
}

/// The capability that the live location `p` holds in `graph`, or `None` where it holds none.
pub fn capability_of(graph: &CapabilityGraph, p: Place) -> (r: Option<Capability>)
    ensures
        r matches Some(c) ==> graph@.has_capability(p, c),
        r is None ==> forall|c: Capability| !graph@.has_capability(p, c),
        graph@.wf() ==> forall|c: Capability| graph@.has_capability(p, c) ==> r == Some(c),
{
    let mut i: usize = 0;
    while i < graph.capabilities.len()
        invariant
            i <= graph.capabilities.len(),
            forall|k: int| 0 <= k < i ==> (#[trigger] graph@.capabilities[k]).0 != p,
        decreases graph.capabilities.len() - i,
    {
        let (q, c) = graph.capabilities[i];
        if q == p {
            proof {
                assert(graph@.capabilities[i as int] == (p, c));
                assert forall|d: Capability| graph@.wf() && graph@.has_capability(p, d) implies d == c by {
                    let j = choose|j: int| 0 <= j < graph@.capabilities.len() && graph@.capabilities[j] == (p, d);
                    assert(graph@.capabilities[j].0 == graph@.capabilities[i as int].0);
                }
            }
            return Some(c);
        }
        i = i + 1;
    }
    proof {
        assert forall|c: Capability| !graph@.has_capability(p, c) by {
            if graph@.has_capability(p, c) {
                let j = choose|j: int| 0 <= j < graph@.capabilities.len() && graph@.capabilities[j] == (p, c);
                assert(graph@.capabilities[j].0 == p);
            }
        }
    }
    None
}

/// The locations that hold capability `c` in `graph`, each once.
pub fn places_with_capability(graph: &CapabilityGraph, c: Capability) -> (r: Vec<Place>)
    ensures
        forall|p: Place| r@.contains(p) <==> graph@.has_capability(p, c),
        r@.no_duplicates(),
{
    let mut r: Vec<Place> = Vec::new();
    let mut i: usize = 0;
    while i < graph.capabilities.len()
        invariant
            i <= graph.capabilities.len(),
            r@.no_duplicates(),
            forall|p: Place|
                r@.contains(p) <==> exists|k: int| 0 <= k < i && graph@.capabilities[k] == (p, c),
        decreases graph.capabilities.len() - i,
    {
        let (q, d) = graph.capabilities[i];
        let ghost r0 = r@;
        if d == c && !contains_place(&r, q) {
            r.push(q);
        }
        assert forall|p: Place|
            r@.contains(p) <==> exists|k: int| 0 <= k < i + 1 && graph@.capabilities[k] == (p, c) by {
            lemma_push_contains(r0, q, p);
            if exists|k: int| 0 <= k < i + 1 && graph@.capabilities[k] == (p, c) {
                let k = choose|k: int| 0 <= k < i + 1 && graph@.capabilities[k] == (p, c);
                if k < i {
                    assert(exists|k: int| 0 <= k < i && graph@.capabilities[k] == (p, c));
                }
            }
            if r0.contains(p) {
                let k = choose|k: int| 0 <= k < i && graph@.capabilities[k] == (p, c);
                assert(0 <= k < i + 1 && graph@.capabilities[k] == (p, c));
            }
            if d == c && q == p {
                assert(graph@.capabilities[i as int] == (p, c));
            }
        }
        i = i + 1;
    }
    r
}

/// Whether some borrow edge of `graph`, of a kind that `filter` admits, borrows the live location `p`.
pub fn is_borrowed(graph: &CapabilityGraph, p: Place, filter: BorrowFilter) -> (r: bool)
    ensures
        r == graph@.borrows(p, filter),
{
    let mut i: usize = 0;
    while i < graph.edges.len()
        invariant
            i <= graph.edges.len(),
            forall|k: int, s: usize| 0 <= k < i ==> !graph@.edge_borrows(k, p, s, filter),
        decreases graph.edges.len() - i,
    {
        let edge = &graph.edges[i];
        assert(graph@.edges[i as int] == edge@);
        match edge.kind {
            EdgeKind::Borrow { kind, scope } => {
                if filter.accepts(kind) && contains_node(&edge.blocked, Node::Place { place: p, current: true }) {
                    assert(graph@.edge_borrows(i as int, p, scope, filter));
                    assert(graph@.borrows_for(p, scope, filter));
                    return true;
                }
            },
            _ => {},
        }
        i = i + 1;
    }
    assert forall|s: usize| !graph@.borrows_for(p, s, filter) by {
        assert forall|k: int| !graph@.edge_borrows(k, p, s, filter) by {
            if 0 <= k < graph.edges.len() {
            }
        }
    }
    false
}

/// The kinds of edge seen along a path.
#[derive(Clone, Copy, Debug, PartialEq, Eq, Structural)]
pub struct KindSet {
    pub mut_borrow: bool,
    pub other_borrow: bool,
    pub expansion: bool,
    pub abstraction: bool,
}

impl KindSet {
    pub open spec fn none() -> KindSet {
        KindSet { mut_borrow: false, other_borrow: false, expansion: false, abstraction: false }
    }

    pub open spec fn with(self, k: EdgeKind) -> KindSet {
        match k {
            EdgeKind::Borrow { kind, .. } => if kind == BorrowKind::Mut {
                KindSet { mut_borrow: true, ..self }
            } else {
                KindSet { other_borrow: true, ..self }
            },
            EdgeKind::Expansion => KindSet { expansion: true, ..self },
            EdgeKind::Abstraction => KindSet { abstraction: true, ..self },
        }
    }

    pub open spec fn code(self) -> int {
        (if self.mut_borrow { 1int } else { 0 }) + (if self.other_borrow { 2int } else { 0 })
            + (if self.expansion { 4int } else { 0 }) + (if self.abstraction { 8int } else { 0 })
    }

    pub fn empty() -> (r: KindSet)
        ensures
            r == KindSet::none(),
    {
        KindSet { mut_borrow: false, other_borrow: false, expansion: false, abstraction: false }
    }

    pub fn add(self, k: EdgeKind) -> (r: KindSet)
        ensures
            r == self.with(k),
    {
        match k {
            EdgeKind::Borrow { kind, .. } => if is_mut(kind) {
                KindSet { mut_borrow: true, ..self }
            } else {
                KindSet { other_borrow: true, ..self }
            },
            EdgeKind::Expansion => KindSet { expansion: true, ..self },
            EdgeKind::Abstraction => KindSet { abstraction: true, ..self },
        }
    }

    fn index(self) -> (r: usize)
        ensures
            r == self.code(),
            r < 16,
    {
        let mut r: usize = 0;
        if self.mut_borrow {
            r = r + 1;
        }
        if self.other_borrow {
            r = r + 2;
        }
        if self.expansion {
            r = r + 4;
        }
        if self.abstraction {
            r = r + 8;
        }
        r
    }
}

/// What the kinds seen along a path must include for its blockers to count.
#[derive(Clone, Copy, Debug, PartialEq, Eq, Structural)]
pub enum PathRule {
    AnyBorrow,
    MutBorrow,
    AbstractionAndMutBorrow,
}

impl PathRule {
    pub open spec fn admits(self, ks: KindSet) -> bool {
        match self {
            PathRule::AnyBorrow => ks.mut_borrow || ks.other_borrow,
            PathRule::MutBorrow => ks.mut_borrow,
            PathRule::AbstractionAndMutBorrow => ks.abstraction && ks.mut_borrow,
        }
    }

    pub fn accepts(&self, ks: KindSet) -> (r: bool)
        ensures
            r == self.admits(ks),
    {
        match self {
            PathRule::AnyBorrow => ks.mut_borrow || ks.other_borrow,
            PathRule::MutBorrow => ks.mut_borrow,
            PathRule::AbstractionAndMutBorrow => ks.abstraction && ks.mut_borrow,
        }
    }
}

/// Which edges a search may follow.
#[derive(Clone, Copy, Debug, PartialEq, Eq, Structural)]
pub enum HopRule {
    AnyEdge,
    /// Borrow edges only when they are mutable; other edges always.
    MutBorrowsOnly,
}

impl HopRule {
    pub open spec fn admits(self, k: EdgeKind) -> bool {
        match self {
            HopRule::AnyEdge => true,
            HopRule::MutBorrowsOnly => match k {
                EdgeKind::Borrow { kind, .. } => kind == BorrowKind::Mut,
                _ => true,
            },
        }
    }

    pub fn accepts(&self, k: EdgeKind) -> (r: bool)
        ensures
            r == self.admits(k),
    {
        match self {
            HopRule::AnyEdge => true,
            HopRule::MutBorrowsOnly => match k {
                EdgeKind::Borrow { kind, .. } => is_mut(kind),
                _ => true,
            },
        }
    }
}

pub open spec fn slot(e: int, ks: KindSet) -> int {
    e * 16 + ks.code()
}

proof fn lemma_slot(e1: int, k1: KindSet, e2: int, k2: KindSet)
    requires
        0 <= e1,
        0 <= e2,
    ensures
        0 <= slot(e1, k1),
        slot(e1, k1) == slot(e2, k2) ==> e1 == e2 && k1 == k2,
{
    let c1 = k1.code();
    let c2 = k2.code();
    assert(0 <= c1 < 16 && 0 <= c2 < 16);
    assert(e1 * 16 + c1 == e2 * 16 + c2 ==> e1 == e2 && c1 == c2) by (nonlinear_arith)
        requires
            0 <= c1 < 16,
            0 <= c2 < 16,
            0 <= e1,
            0 <= e2,
    ;
    assert(0 <= e1 * 16) by (nonlinear_arith)
        requires
            0 <= e1,
    ;
}

proof fn lemma_slot_bound(e: int, ks: KindSet, n: int)
    requires
        0 <= e < n,
    ensures
        0 <= slot(e, ks) < n * 16,
{
    let c = ks.code();
    assert(0 <= c < 16);
    assert(0 <= e * 16 + c < n * 16) by (nonlinear_arith)
        requires
            0 <= c < 16,
            0 <= e < n,
    ;
}

impl GraphModel {
    /// Edge `e` directly blocks `target` and may be followed.
    pub open spec fn starts(self, target: Node, hop: HopRule, e: int) -> bool {
        0 <= e < self.edges.len() && hop.admits(self.edges[e].kind) && self.edges[e].blocked.contains(target)
    }

    /// Edge `e2` may be followed after edge `e`: it blocks a node that blocks `e`.
    pub open spec fn step(self, hop: HopRule, e: int, e2: int) -> bool {
        &&& 0 <= e < self.edges.len()
        &&& 0 <= e2 < self.edges.len()
        &&& hop.admits(self.edges[e2].kind)
        &&& exists|n: Node| #[trigger] self.edges[e].blocked_by.contains(n) && self.edges[e2].blocked.contains(n)
    }

    /// A path of at most `n + 1` edges from `target` ends at edge `e` having seen the kinds `ks`.
    pub open spec fn reach(self, target: Node, hop: HopRule, e: int, ks: KindSet, n: nat) -> bool
        decreases n,
    {
        if n == 0 {
            self.starts(target, hop, e) && ks == KindSet::none().with(self.edges[e].kind)
        } else {
            self.reach(target, hop, e, ks, (n - 1) as nat) || exists|e0: int, k0: KindSet|
                self.reach(target, hop, e0, k0, (n - 1) as nat) && self.step(hop, e0, e)
                    && ks == k0.with(self.edges[e].kind)
        }
    }

    pub open spec fn reachable(self, target: Node, hop: HopRule, e: int, ks: KindSet) -> bool {
        exists|n: nat| self.reach(target, hop, e, ks, n)
    }

    /// `p` is the live location of a node that blocks `target` along a path of
    /// followable edges whose kinds satisfy `path`.
    pub open spec fn blocks_via(self, target: Node, path: PathRule, hop: HopRule, p: Place) -> bool {
        exists|e: int, ks: KindSet, j: int|
            #[trigger] self.reachable(target, hop, e, ks) && path.admits(ks) && 0 <= j < self.edges[e].blocked_by.len()
                && #[trigger] self.edges[e].blocked_by[j].current_place() == Some(p)
    }

    /// Once state `(e, ks)` is handled: its successors are seen and, if the path
    /// counts, its blockers are in `r`.
    pub open spec fn handled(self, path: PathRule, hop: HopRule, seen: Seq<bool>, r: Seq<Place>, e: int, ks: KindSet) -> bool {
        &&& forall|e2: int| #[trigger] self.step(hop, e, e2) ==> seen[slot(e2, ks.with(self.edges[e2].kind))]
        &&& path.admits(ks) ==> forall|j: int| 0 <= j < self.edges[e].blocked_by.len()
                && (#[trigger] self.edges[e].blocked_by[j].current_place()) is Some
                ==> r.contains(self.edges[e].blocked_by[j].current_place()->0)
    }
}

proof fn lemma_reach_mono(g: GraphModel, target: Node, hop: HopRule, e: int, ks: KindSet, n: nat)
    requires
        g.reach(target, hop, e, ks, n),
    ensures
        0 <= e < g.edges.len(),
    decreases n,
{
    if n > 0 {
        if !g.reach(target, hop, e, ks, (n - 1) as nat) {
        } else {
            lemma_reach_mono(g, target, hop, e, ks, (n - 1) as nat);
        }
    }
}

proof fn lemma_closed_covers(
    g: GraphModel,
    target: Node,
    path: PathRule,
    hop: HopRule,
    seen: Seq<bool>,
    r: Seq<Place>,
    e: int,
    ks: KindSet,
    n: nat,
)
    requires
        seen.len() == g.edges.len() * 16,
        forall|e: int| #[trigger] g.starts(target, hop, e) ==> seen[slot(e, KindSet::none().with(g.edges[e].kind))],
        forall|e: int, ks: KindSet| 0 <= e < g.edges.len() && #[trigger] seen[slot(e, ks)]
            ==> g.handled(path, hop, seen, r, e, ks),
        g.reach(target, hop, e, ks, n),
    ensures
        seen[slot(e, ks)],
    decreases n,
{
    if n > 0 {
        if g.reach(target, hop, e, ks, (n - 1) as nat) {
            lemma_closed_covers(g, target, path, hop, seen, r, e, ks, (n - 1) as nat);
        } else {
            let (e0, k0) = choose|e0: int, k0: KindSet|
                g.reach(target, hop, e0, k0, (n - 1) as nat) && g.step(hop, e0, e)
                    && ks == k0.with(g.edges[e].kind);
            lemma_closed_covers(g, target, path, hop, seen, r, e0, k0, (n - 1) as nat);
            lemma_reach_mono(g, target, hop, e0, k0, (n - 1) as nat);
            assert(g.handled(path, hop, seen, r, e0, k0));
        }
    }
}

proof fn lemma_handled_mono(
    g: GraphModel,
    path: PathRule,
    hop: HopRule,
    s1: Seq<bool>,
    r1: Seq<Place>,
    s2: Seq<bool>,
    r2: Seq<Place>,
    a: int,
    k: KindSet,
)
    requires
        s1.len() == g.edges.len() * 16,
        s2.len() == s1.len(),
        forall|i: int| 0 <= i < s1.len() && s1[i] ==> s2[i],
        forall|p: Place| r1.contains(p) ==> r2.contains(p),
        g.handled(path, hop, s1, r1, a, k),
    ensures
        g.handled(path, hop, s2, r2, a, k),
{
    assert forall|e2: int| #[trigger] g.step(hop, a, e2) implies s2[slot(e2, k.with(g.edges[e2].kind))] by {
        lemma_slot_bound(e2, k.with(g.edges[e2].kind), g.edges.len() as int);
    }
}

proof fn lemma_mark_push(
    g: GraphModel,
    path: PathRule,
    hop: HopRule,
    old_seen: Seq<bool>,
    seen: Seq<bool>,
    old_work: Seq<(usize, KindSet)>,
    work: Seq<(usize, KindSet)>,
    r: Seq<Place>,
    e: int,
    ks: KindSet,
    ex: (int, KindSet),
)
    requires
        old_seen.len() == g.edges.len() * 16,
        0 <= e < g.edges.len(),
        !old_seen[slot(e, ks)],
        seen == old_seen.update(slot(e, ks), true),
        work == old_work.push((e as usize, ks)),
        forall|a: int, k: KindSet| 0 <= a < g.edges.len() && #[trigger] old_seen[slot(a, k)] && !old_work.contains((a as usize, k))
            && (a, k) != ex ==> g.handled(path, hop, old_seen, r, a, k),
    ensures
        forall|a: int, k: KindSet| 0 <= a < g.edges.len() && #[trigger] seen[slot(a, k)] && !work.contains((a as usize, k))
            && (a, k) != ex ==> g.handled(path, hop, seen, r, a, k),
        forall|a: int, k: KindSet| 0 <= a < g.edges.len() ==> (#[trigger] seen[slot(a, k)] <==> (old_seen[slot(a, k)] || (a == e && k == ks))),
{
    lemma_slot_bound(e, ks, g.edges.len() as int);
    assert forall|a: int, k: KindSet| 0 <= a < g.edges.len() implies (#[trigger] seen[slot(a, k)] <==> (old_seen[slot(a, k)] || (a == e && k == ks))) by {
        lemma_slot(a, k, e, ks);
        lemma_slot_bound(a, k, g.edges.len() as int);
    }
    assert forall|a: int, k: KindSet| 0 <= a < g.edges.len() && #[trigger] seen[slot(a, k)] && !work.contains((a as usize, k))
        && (a, k) != ex implies g.handled(path, hop, seen, r, a, k) by {
        lemma_slot(a, k, e, ks);
        lemma_slot_bound(a, k, g.edges.len() as int);
        if a == e && k == ks {
            assert(work[work.len() - 1] == (e as usize, ks));
        } else {
            assert(old_seen[slot(a, k)]);
            if old_work.contains((a as usize, k)) {
                let w = choose|w: int| 0 <= w < old_work.len() && old_work[w] == (a as usize, k);
                assert(work[w] == (a as usize, k));
            }
            assert forall|i: int| 0 <= i < old_seen.len() && old_seen[i] implies seen[i] by {}
            lemma_handled_mono(g, path, hop, old_seen, r, seen, r, a, k);
        }
    }
}

/// The live locations that block `target` along some path of edges that `hop`
/// lets the search follow, counted once the kinds seen so far on the path satisfy
/// `path`; each location once.
pub fn locations_blocking(graph: &CapabilityGraph, target: Place, path: PathRule, hop: HopRule) -> (r: Vec<Place>)
    requires
        graph.edges.len() * 16 <= usize::MAX,
        graph@.acyclic(),
    ensures
        forall|p: Place| r@.contains(p) <==> graph@.blocks_via(Node::of_place(target), path, hop, p),
        r@.no_duplicates(),
{
    let ghost g = graph@;
    let ghost t = Node::of_place(target);
    let n_edges = graph.edges.len();
    let size = n_edges * 16;
    let mut seen: Vec<bool> = Vec::new();
    while seen.len() < size
        invariant
            seen.len() <= size,
            forall|i: int| 0 <= i < seen.len() ==> !seen@[i],
        decreases size - seen.len(),
    {
        seen.push(false);
    }
    let ghost mut seen_set: Set<int> = Set::empty();
    let mut work: Vec<(usize, KindSet)> = Vec::new();
    let mut r: Vec<Place> = Vec::new();
    let start = Node::Place { place: target, current: true };
    let mut e: usize = 0;
    while e < n_edges
        invariant
            n_edges == graph.edges.len(),
            size == n_edges * 16,
            e <= n_edges,
            g == graph@,
            t == start,
            seen.len() == size,
            r@.len() == 0,
            seen_set.finite(),
            seen_set.len() <= size,
            forall|i: int| 0 <= i < size ==> (seen@[i] <==> seen_set.contains(i)),
            forall|i: int| seen_set.contains(i) ==> 0 <= i < size,
            forall|w: int| 0 <= w < work@.len() ==> work@[w].0 < n_edges && seen@[slot(work@[w].0 as int, work@[w].1)],
            forall|a: int, ks: KindSet| 0 <= a < n_edges && #[trigger] seen@[slot(a, ks)] ==> g.reachable(t, hop, a, ks),
            forall|a: int| 0 <= a < e && #[trigger] g.starts(t, hop, a) ==> seen@[slot(a, KindSet::none().with(g.edges[a].kind))],
            forall|a: int, ks: KindSet| 0 <= a < n_edges && #[trigger] seen@[slot(a, ks)] && !work@.contains((a as usize, ks))
                ==> g.handled(path, hop, seen@, r@, a, ks),
        decreases n_edges - e,
    {
        let edge = &graph.edges[e];
        assert(g.edges[e as int] == edge@);
        if hop.accepts(edge.kind) && contains_node(&edge.blocked, start) {
            let ks = KindSet::empty().add(edge.kind);
            proof { lemma_slot_bound(e as int, ks, n_edges as int); }
            let x = e * 16 + ks.index();
            if !seen[x] {
                let ghost old_seen = seen@;
                let ghost old_work = work@;
                seen.set(x, true);
                work.push((e, ks));
                proof {
                    seen_set = seen_set.insert(x as int);
                    lemma_int_range(0, size as int);
                    lemma_len_subset(seen_set, set_int_range(0, size as int));
                    assert(g.reach(t, hop, e as int, ks, 0));
                    lemma_mark_push(g, path, hop, old_seen, seen@, old_work, work@, r@, e as int, ks, (-1int, KindSet::none()));
                    assert forall|w: int| 0 <= w < work@.len() implies work@[w].0 < n_edges && seen@[slot(work@[w].0 as int, work@[w].1)] by {
                        if w < old_work.len() {
                            assert(work@[w] == old_work[w]);
                        }
                    }
                }
            }
        }
        e = e + 1;
    }
    while work.len() > 0
        invariant
            n_edges == graph.edges.len(),
            size == n_edges * 16,
            g == graph@,
            t == start,
            seen.len() == size,
            seen_set.finite(),
            seen_set.len() <= size,
            forall|i: int| 0 <= i < size ==> (seen@[i] <==> seen_set.contains(i)),
            forall|i: int| seen_set.contains(i) ==> 0 <= i < size,
            forall|w: int| 0 <= w < work@.len() ==> work@[w].0 < n_edges && seen@[slot(work@[w].0 as int, work@[w].1)],
            forall|a: int, ks: KindSet| 0 <= a < n_edges && #[trigger] seen@[slot(a, ks)] ==> g.reachable(t, hop, a, ks),
            forall|a: int| #[trigger] g.starts(t, hop, a) ==> seen@[slot(a, KindSet::none().with(g.edges[a].kind))],
            forall|a: int, ks: KindSet| 0 <= a < n_edges && #[trigger] seen@[slot(a, ks)] && !work@.contains((a as usize, ks))
                ==> g.handled(path, hop, seen@, r@, a, ks),
            r@.no_duplicates(),
            forall|p: Place| r@.contains(p) ==> g.blocks_via(t, path, hop, p),
        decreases size - seen_set.len(), work.len(),
    {
        let ghost w0 = work@;
        let ghost set0 = seen_set;
        let last = work.len() - 1;
        let (e, ks) = work[last];
        work.pop();
        assert(work@ =~= w0.drop_last());
        let ghost ex = (e as int, ks);
        assert forall|a: int, k: KindSet| 0 <= a < n_edges && #[trigger] seen@[slot(a, k)] && !work@.contains((a as usize, k))
            && (a, k) != ex implies g.handled(path, hop, seen@, r@, a, k) by {
            if w0.contains((a as usize, k)) {
                let w = choose|w: int| 0 <= w < w0.len() && w0[w] == (a as usize, k);
                if w < w0.len() - 1 {
                    assert(work@[w] == (a as usize, k));
                }
            }
        }
        assert(seen@[slot(e as int, ks)]);
        assert(g.reachable(t, hop, e as int, ks));
        let ghost nr = choose|nr: nat| g.reach(t, hop, e as int, ks, nr);
        let edge = &graph.edges[e];
        assert(g.edges[e as int] == edge@);
        if path.accepts(ks) {
            let mut j: usize = 0;
            while j < edge.blocked_by.len()
                invariant
                    n_edges == graph.edges.len(),
                    g == graph@,
                    e < n_edges,
                    g.edges[e as int] == edge@,
                    seen.len() == size,
                    size == n_edges * 16,
                    g.reach(t, hop, e as int, ks, nr),
                    path.admits(ks),
                    j <= edge.blocked_by.len(),
                    forall|a: int, k: KindSet| 0 <= a < n_edges && #[trigger] seen@[slot(a, k)] && !work@.contains((a as usize, k))
                        && (a, k) != ex ==> g.handled(path, hop, seen@, r@, a, k),
                    r@.no_duplicates(),
                    forall|p: Place| r@.contains(p) ==> g.blocks_via(t, path, hop, p),
                    forall|m: int| 0 <= m < j && (#[trigger] edge.blocked_by@[m].current_place()) is Some
                        ==> r@.contains(edge.blocked_by@[m].current_place()->0),
                decreases edge.blocked_by.len() - j,
            {
                let ghost r0 = r@;
                if let Some(p) = local_node_to_current_place(edge.blocked_by[j]) {
                    if !contains_place(&r, p) {
                        r.push(p);
                        proof {
                            assert(r@[r@.len() - 1] == p);
                            assert forall|q: Place| r0.contains(q) implies r@.contains(q) by {
                                lemma_push_contains(r0, p, q);
                            }
                            assert forall|a: int, k: KindSet| 0 <= a < n_edges && #[trigger] seen@[slot(a, k)] && !work@.contains((a as usize, k))
                                && (a, k) != ex implies g.handled(path, hop, seen@, r@, a, k) by {
                                lemma_handled_mono(g, path, hop, seen@, r0, seen@, r@, a, k);
                            }
                            assert forall|q: Place| r@.contains(q) implies g.blocks_via(t, path, hop, q) by {
                                lemma_push_contains(r0, p, q);
                                if q == p {
                                    assert(g.edges[e as int].blocked_by[j as int].current_place() == Some(p));
                                    assert(g.reachable(t, hop, e as int, ks));
                                }
                            }
                        }
                    }
                }
                proof {
                    assert forall|m: int| 0 <= m < j + 1 && (#[trigger] edge.blocked_by@[m].current_place()) is Some
                        implies r@.contains(edge.blocked_by@[m].current_place()->0) by {
                        if m < j {
                            lemma_push_contains(r0, edge.blocked_by@[j as int].current_place()->0, edge.blocked_by@[m].current_place()->0);
                        }
                    }
                }
                j = j + 1;
            }
        }
        let mut j: usize = 0;
        while j < edge.blocked_by.len()
            invariant
                n_edges == graph.edges.len(),
                size == n_edges * 16,
                g == graph@,
                t == start,
                e < n_edges,
                g.edges[e as int] == edge@,
                ex == (e as int, ks),
                g.reach(t, hop, e as int, ks, nr),
                j <= edge.blocked_by.len(),
                seen.len() == size,
                seen_set.finite(),
                seen_set.len() <= size,
                seen_set.len() >= set0.len(),
                forall|i: int| 0 <= i < size ==> (seen@[i] <==> seen_set.contains(i)),
                forall|i: int| seen_set.contains(i) ==> 0 <= i < size,
                forall|w: int| 0 <= w < work@.len() ==> work@[w].0 < n_edges && seen@[slot(work@[w].0 as int, work@[w].1)],
                forall|a: int, ks: KindSet| 0 <= a < n_edges && #[trigger] seen@[slot(a, ks)] ==> g.reachable(t, hop, a, ks),
                forall|a: int| #[trigger] g.starts(t, hop, a) ==> seen@[slot(a, KindSet::none().with(g.edges[a].kind))],
                forall|a: int, k: KindSet| 0 <= a < n_edges && #[trigger] seen@[slot(a, k)] && !work@.contains((a as usize, k))
                    && (a, k) != ex ==> g.handled(path, hop, seen@, r@, a, k),
                path.admits(ks) ==> forall|m: int| 0 <= m < edge.blocked_by@.len() && (#[trigger] edge.blocked_by@[m].current_place()) is Some
                    ==> r@.contains(edge.blocked_by@[m].current_place()->0),
                forall|m: int, e2: int| 0 <= m < j && 0 <= e2 < n_edges && hop.admits(g.edges[e2].kind)
                    && #[trigger] g.edges[e2].blocked.contains(edge.blocked_by@[m])
                    ==> seen@[slot(e2, ks.with(g.edges[e2].kind))],
                r@.no_duplicates(),
                forall|p: Place| r@.contains(p) ==> g.blocks_via(t, path, hop, p),
                seen_set.len() > set0.len() || (seen_set == set0 && work.len() + 1 == w0.len()),
            decreases edge.blocked_by.len() - j,
        {
            let n = edge.blocked_by[j];
            let mut e2: usize = 0;
            while e2 < n_edges
                invariant
                    n_edges == graph.edges.len(),
                    size == n_edges * 16,
                    g == graph@,
                    t == start,
                    e < n_edges,
                    g.edges[e as int] == edge@,
                    ex == (e as int, ks),
                    g.reach(t, hop, e as int, ks, nr),
                    j < edge.blocked_by.len(),
                    n == edge.blocked_by@[j as int],
                    e2 <= n_edges,
                    seen.len() == size,
                    seen_set.finite(),
                    seen_set.len() <= size,
                    seen_set.len() >= set0.len(),
                    forall|i: int| 0 <= i < size ==> (seen@[i] <==> seen_set.contains(i)),
                    forall|i: int| seen_set.contains(i) ==> 0 <= i < size,
                    forall|w: int| 0 <= w < work@.len() ==> work@[w].0 < n_edges && seen@[slot(work@[w].0 as int, work@[w].1)],
                    forall|a: int, ks: KindSet| 0 <= a < n_edges && #[trigger] seen@[slot(a, ks)] ==> g.reachable(t, hop, a, ks),
                    forall|a: int| #[trigger] g.starts(t, hop, a) ==> seen@[slot(a, KindSet::none().with(g.edges[a].kind))],
                    forall|a: int, k: KindSet| 0 <= a < n_edges && #[trigger] seen@[slot(a, k)] && !work@.contains((a as usize, k))
                        && (a, k) != ex ==> g.handled(path, hop, seen@, r@, a, k),
                    path.admits(ks) ==> forall|m: int| 0 <= m < edge.blocked_by@.len() && (#[trigger] edge.blocked_by@[m].current_place()) is Some
                        ==> r@.contains(edge.blocked_by@[m].current_place()->0),
                    forall|m: int, e3: int| 0 <= m < j && 0 <= e3 < n_edges && hop.admits(g.edges[e3].kind)
                        && #[trigger] g.edges[e3].blocked.contains(edge.blocked_by@[m])
                        ==> seen@[slot(e3, ks.with(g.edges[e3].kind))],
                    forall|e3: int| 0 <= e3 < e2 && hop.admits(g.edges[e3].kind)
                        && #[trigger] g.edges[e3].blocked.contains(n)
                        ==> seen@[slot(e3, ks.with(g.edges[e3].kind))],
                    r@.no_duplicates(),
                    forall|p: Place| r@.contains(p) ==> g.blocks_via(t, path, hop, p),
                    seen_set.len() > set0.len() || (seen_set == set0 && work.len() + 1 == w0.len()),
                decreases n_edges - e2,
            {
                let edge2 = &graph.edges[e2];
                assert(g.edges[e2 as int] == edge2@);
                if hop.accepts(edge2.kind) && contains_node(&edge2.blocked, n) {
                    let ks2 = ks.add(edge2.kind);
                    proof { lemma_slot_bound(e2 as int, ks2, n_edges as int); }
                    let x = e2 * 16 + ks2.index();
                    if !seen[x] {
                        let ghost old_seen = seen@;
                        let ghost old_work = work@;
                        seen.set(x, true);
                        work.push((e2, ks2));
                        proof {
                            seen_set = seen_set.insert(x as int);
                            lemma_int_range(0, size as int);
                            lemma_len_subset(seen_set, set_int_range(0, size as int));
                            assert(g.edges[e as int].blocked_by.contains(n));
                            assert(g.step(hop, e as int, e2 as int));
                            assert(g.reach(t, hop, e2 as int, ks2, nr + 1));
                            lemma_mark_push(g, path, hop, old_seen, seen@, old_work, work@, r@, e2 as int, ks2, ex);
                            assert forall|w: int| 0 <= w < work@.len() implies work@[w].0 < n_edges && seen@[slot(work@[w].0 as int, work@[w].1)] by {
                                if w < old_work.len() {
                                    assert(work@[w] == old_work[w]);
                                }
                            }
                        }
                    }
                }
                e2 = e2 + 1;
            }
            j = j + 1;
        }
        proof {
            assert forall|e2: int| #[trigger] g.step(hop, e as int, e2) implies seen@[slot(e2, ks.with(g.edges[e2].kind))] by {
                let n = choose|n: Node| #[trigger] g.edges[e as int].blocked_by.contains(n) && g.edges[e2].blocked.contains(n);
                let m = choose|m: int| 0 <= m < edge.blocked_by@.len() && edge.blocked_by@[m] == n;
                assert(g.edges[e2].blocked.contains(edge.blocked_by@[m]));
            }
            assert(g.handled(path, hop, seen@, r@, e as int, ks));
        }
    }
    proof {
        assert forall|p: Place| g.blocks_via(t, path, hop, p) implies r@.contains(p) by {
            let (a, k, j) = choose|a: int, k: KindSet, j: int|
                #[trigger] g.reachable(t, hop, a, k) && path.admits(k) && 0 <= j < g.edges[a].blocked_by.len()
                    && #[trigger] g.edges[a].blocked_by[j].current_place() == Some(p);
            let nr = choose|nr: nat| g.reach(t, hop, a, k, nr);
            lemma_reach_mono(g, t, hop, a, k, nr);
            lemma_closed_covers(g, t, path, hop, seen@, r@, a, k, nr);
            assert(g.handled(path, hop, seen@, r@, a, k));
        }
    }
    r
}

/// The capability graphs around one instruction: before its operands are
/// evaluated, after that, and after its main effect.
pub struct ProgramPoint {
    pub block: usize,
    pub statement_index: usize,
    pub pre_operands: CapabilityGraph,
    pub post_operands: CapabilityGraph,
    pub post_main: CapabilityGraph,
}

/// The analysis of a body: for each block, its program points, or nothing
/// where the block was not analysed.
pub struct Analysis {
    pub blocks: Vec<Option<Vec<ProgramPoint>>>,
}

} // verus!
