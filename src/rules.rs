//! The mutation rules: each looks for a pattern at two adjacent program points
//! and plans edits that break the borrowing discipline there.
use vstd::prelude::*;
use crate::graph::{
    BorrowFilter, Capability, CapabilityGraph, GraphModel, HopRule, PathRule, ProgramPoint, borrowed_places,
    contains_place, has_capability, is_borrowed, locations_blocking, places_with_capability,
};
use crate::mir::{Body, BodyModel, Place, ProjectionElem, has_named_local};
use crate::mutant::{Action, Edit, MutantStream};

verus! {

/// `p` is a user binding that holds capability `c` at both points.
pub open spec fn holds_at_both(b: BodyModel, cg: GraphModel, ng: GraphModel, c: Capability, p: Place) -> bool {
    cg.has_capability(p, c) && ng.has_capability(p, c) && b.named(p)
}

/// `p` is a user binding borrowed, under `f`, at both points.
pub open spec fn borrowed_at_both(b: BodyModel, cg: GraphModel, ng: GraphModel, f: BorrowFilter, p: Place) -> bool {
    cg.borrows(p, f) && ng.borrows(p, f) && b.named(p)
}

/// The user bindings that hold capability `c` in both graphs, each once.
pub fn capability_candidates(body: &Body, cg: &CapabilityGraph, ng: &CapabilityGraph, c: Capability) -> (r: Vec<Place>)
    ensures
        forall|p: Place| r@.contains(p) <==> holds_at_both(body@, cg@, ng@, c, p),
        r@.no_duplicates(),
{
    let all = places_with_capability(cg, c);
    let mut r: Vec<Place> = Vec::new();
    let mut i: usize = 0;
    while i < all.len()
        invariant
            i <= all.len(),
            all@.no_duplicates(),
            forall|p: Place| all@.contains(p) <==> cg@.has_capability(p, c),
            r@.no_duplicates(),
            forall|p: Place| r@.contains(p) <==> (all@.take(i as int).contains(p) && ng@.has_capability(p, c) && body@.named(p)),
        decreases all.len() - i,
    {
        let p = all[i];
        let ghost r0 = r@;
        if has_named_local(p, body) && has_capability(ng, p, c) {
            proof {
                if r0.contains(p) {
                    let w = choose|w: int| 0 <= w < i && all@[w] == p;
                    assert(all@[i as int] == p);
                }
            }
            r.push(p);
        }
        proof {
            assert(all@.take(i + 1) =~= all@.take(i as int).push(p));
            assert forall|q: Place| r@.contains(q) <==> (all@.take(i + 1).contains(q) && ng@.has_capability(q, c) && body@.named(q)) by {
                crate::graph::lemma_push_contains(all@.take(i as int), p, q);
                if r@ != r0 {
                    crate::graph::lemma_push_contains(r0, p, q);
                }
            }
        }
        i = i + 1;
    }
    assert(all@.take(all.len() as int) =~= all@);
    r
}

/// The user bindings borrowed, under `f`, in both graphs, each once.
pub fn borrow_candidates(body: &Body, cg: &CapabilityGraph, ng: &CapabilityGraph, f: BorrowFilter) -> (r: Vec<Place>)
    ensures
        forall|p: Place| r@.contains(p) <==> borrowed_at_both(body@, cg@, ng@, f, p),
        r@.no_duplicates(),
{
    borrowed_split(body, cg, ng, f, true)
}

/// The user bindings borrowed, under `f`, in `g` and, as `in_other` says, in `other`
/// or not; each once.
fn borrowed_split(body: &Body, g: &CapabilityGraph, other: &CapabilityGraph, f: BorrowFilter, in_other: bool) -> (r: Vec<Place>)
    ensures
        forall|p: Place| r@.contains(p) <==> (g@.borrows(p, f) && other@.borrows(p, f) == in_other && body@.named(p)),
        r@.no_duplicates(),
{
    let all = borrowed_places(g, f);
    let mut r: Vec<Place> = Vec::new();
    let mut i: usize = 0;
    while i < all.len()
        invariant
            i <= all.len(),
            forall|p: Place, s: usize| all@.contains((p, s)) <==> g@.borrows_for(p, s, f),
            r@.no_duplicates(),
            forall|p: Place| r@.contains(p) <==> ((exists|k: int| 0 <= k < i && (#[trigger] all@[k]).0 == p)
                && other@.borrows(p, f) == in_other && body@.named(p)),
        decreases all.len() - i,
    {
        let (p, sc) = all[i];
        let ghost r0 = r@;
        if has_named_local(p, body) && is_borrowed(other, p, f) == in_other && !contains_place(&r, p) {
            r.push(p);
        }
        proof {
            assert forall|q: Place| r@.contains(q) <==> ((exists|k: int| 0 <= k < i + 1 && (#[trigger] all@[k]).0 == q)
                && other@.borrows(q, f) == in_other && body@.named(q)) by {
                if r@ != r0 {
                    crate::graph::lemma_push_contains(r0, p, q);
                }
                if q == p {
                    assert(all@[i as int].0 == q);
                }
                if exists|k: int| 0 <= k < i + 1 && (#[trigger] all@[k]).0 == q {
                    let k = choose|k: int| 0 <= k < i + 1 && (#[trigger] all@[k]).0 == q;
                    if k < i {
                        assert(exists|k: int| 0 <= k < i && (#[trigger] all@[k]).0 == q);
                    }
                }
                if r0.contains(q) {
                    let k = choose|k: int| 0 <= k < i && (#[trigger] all@[k]).0 == q;
                    assert(0 <= k < i + 1 && all@[k].0 == q);
                }
            }
        }
        i = i + 1;
    }
    assert forall|p: Place| r@.contains(p) <==> (g@.borrows(p, f) && other@.borrows(p, f) == in_other && body@.named(p)) by {
        if g@.borrows(p, f) {
            let s = choose|s: usize| g@.borrows_for(p, s, f);
            assert(all@.contains((p, s)));
            let k = choose|k: int| 0 <= k < all@.len() && all@[k] == (p, s);
            assert(all@[k].0 == p);
        }
        if exists|k: int| 0 <= k < all@.len() && (#[trigger] all@[k]).0 == p {
            let k = choose|k: int| 0 <= k < all@.len() && (#[trigger] all@[k]).0 == p;
            assert(all@.contains(all@[k]));
            assert(g@.borrows_for(p, all@[k].1, f));
        }
    }
    r
}

/// One insertion right after statement `index` of `block` for each place.
pub fn insertions(places: &Vec<Place>, block: usize, index: usize, action: Action) -> (r: Vec<Edit>)
    requires
        places@.no_duplicates(),
    ensures
        r@.no_duplicates(),
        r@.len() == places@.len(),
        forall|k: int| 0 <= k < places@.len() ==> #[trigger] r@[k] == (Edit::Insert { block, index, action, place: places@[k] }),
{
    let mut r: Vec<Edit> = Vec::new();
    let mut i: usize = 0;
    while i < places.len()
        invariant
            i <= places.len(),
            r@.len() == i,
            forall|k: int| 0 <= k < i ==> #[trigger] r@[k] == (Edit::Insert { block, index, action, place: places@[k] }),
        decreases places.len() - i,
    {
        r.push(Edit::Insert { block, index, action, place: places[i] });
        i = i + 1;
    }
    assert forall|x: int, y: int| 0 <= x < r@.len() && 0 <= y < r@.len() && x != y implies r@[x] != r@[y] by {
        assert(places@[x] != places@[y]);
    }
    r
}

/// `edits` are exactly the insertions of `action` after statement `index` of
/// `block`, one for each place that `chosen` picks.
pub open spec fn plans_inserts(edits: Seq<Edit>, block: usize, index: usize, action: Action, chosen: spec_fn(Place) -> bool) -> bool {
    forall|e: Edit| edits.contains(e) <==> exists|p: Place| #[trigger] chosen(p) && e == (Edit::Insert { block, index, action, place: p })
}

proof fn lemma_insertions_plan(
    edits: Seq<Edit>,
    places: Seq<Place>,
    block: usize,
    index: usize,
    action: Action,
    chosen: spec_fn(Place) -> bool,
)
    requires
        edits.len() == places.len(),
        forall|k: int| 0 <= k < places.len() ==> #[trigger] edits[k] == (Edit::Insert { block, index, action, place: places[k] }),
        forall|p: Place| places.contains(p) <==> #[trigger] chosen(p),
    ensures
        plans_inserts(edits, block, index, action, chosen),
{
    assert forall|e: Edit| edits.contains(e) <==> exists|p: Place| #[trigger] chosen(p) && e == (Edit::Insert { block, index, action, place: p }) by {
        if edits.contains(e) {
            let k = choose|k: int| 0 <= k < edits.len() && edits[k] == e;
            assert(places.contains(places[k]));
            assert(chosen(places[k]));
        }
        if exists|p: Place| #[trigger] chosen(p) && e == (Edit::Insert { block, index, action, place: p }) {
            let p = choose|p: Place| #[trigger] chosen(p) && e == (Edit::Insert { block, index, action, place: p });
            assert(places.contains(p));
            let k = choose|k: int| 0 <= k < places.len() && places[k] == p;
            assert(edits[k] == e);
        }
    }
}

/// What a rule looks for in the two graphs.
#[derive(Clone, Copy, Debug, PartialEq, Eq, Structural)]
pub enum Pattern {
    /// The location holds this capability at both points.
    Holds(Capability),
    /// The location is borrowed, under this filter, at both points.
    Borrowed(BorrowFilter),
}

impl Pattern {
    pub open spec fn matches(self, b: BodyModel, cg: GraphModel, ng: GraphModel, p: Place) -> bool {
        match self {
            Pattern::Holds(c) => holds_at_both(b, cg, ng, c, p),
            Pattern::Borrowed(f) => borrowed_at_both(b, cg, ng, f, p),
        }
    }

    /// The user bindings that match, each once.
    pub fn candidates(&self, body: &Body, cg: &CapabilityGraph, ng: &CapabilityGraph) -> (r: Vec<Place>)
        ensures
            forall|p: Place| r@.contains(p) <==> self.matches(body@, cg@, ng@, p),
            r@.no_duplicates(),
    {
        match self {
            Pattern::Holds(c) => capability_candidates(body, cg, ng, *c),
            Pattern::Borrowed(f) => borrow_candidates(body, cg, ng, *f),
        }
    }
}

/// The graph after the main effect of `at` and the graph after the operands of
/// the point that follows it.
pub open spec fn curr_graph(points: Seq<ProgramPoint>, at: int) -> GraphModel {
    points[at].post_main@
}

pub open spec fn next_graph(points: Seq<ProgramPoint>, at: int) -> GraphModel {
    points[at + 1].post_operands@
}

/// Insertions of `action` after the instruction at `at` for every user binding
/// that matches `pattern` between `at` and the point after it.
pub open spec fn plans_pattern(body: BodyModel, points: Seq<ProgramPoint>, at: int, pattern: Pattern, action: Action, edits: Seq<Edit>) -> bool {
    plans_inserts(
        edits,
        points[at].block,
        points[at].statement_index,
        action,
        |p: Place| pattern.matches(body, curr_graph(points, at), next_graph(points, at), p),
    )
}

/// The index of the point after `at`.
fn next_index(points: &Vec<ProgramPoint>, at: usize) -> (r: usize)
    requires
        at + 1 < points@.len(),
    ensures
        r == at + 1,
{
    let last = points.len() - 1;
    if at < last {
        at + 1
    } else {
        last
    }
}

fn pattern_stream(body: &Body, points: &Vec<ProgramPoint>, at: usize, pattern: Pattern, action: Action) -> (r: MutantStream)
    requires
        at + 1 < points@.len(),
    ensures
        plans_pattern(body@, points@, at as int, pattern, action, r.edits@),
        r.named_in(body@),
        r.edits@.no_duplicates(),
{
    let curr = &points[at];
    let next = &points[next_index(points, at)];
    let places = pattern.candidates(body, &curr.post_main, &next.post_operands);
    let edits = insertions(&places, curr.block, curr.statement_index, action);
    proof {
        let chosen = |p: Place| pattern.matches(body@, curr_graph(points@, at as int), next_graph(points@, at as int), p);
        lemma_insertions_plan(edits@, places@, curr.block, curr.statement_index, action, chosen);
        assert forall|k: int| 0 <= k < edits@.len() implies (#[trigger] edits@[k]).named_in(body@) by {
            assert(places@.contains(places@[k]));
            assert(edits@[k].places()[0] == places@[k]);
        }
    }
    MutantStream::new(edits)
}

/// Borrows exclusively a location that is lent shared.
pub struct MutablyLendShared;

/// Writes to a location that is borrowed shared.
pub struct WriteToShared;

/// Writes to a location that is read-only.
pub struct WriteToReadOnly;

/// Reads a location that is write-only.
pub struct ReadFromWriteOnly;

/// Moves out of a location that is borrowed exclusively.
pub struct MoveFromBorrowed;

/// Borrows exclusively a location that is read-only.
pub struct MutablyLendReadOnly;

/// Writes to a location that is lent shared.
pub struct WriteToBorrowed;

impl MutablyLendShared {
    pub open spec fn plans(body: BodyModel, points: Seq<ProgramPoint>, at: int, edits: Seq<Edit>) -> bool {
        plans_pattern(body, points, at, Pattern::Holds(Capability::LentShared), Action::MutBorrow, edits)
    }

    pub fn make_stream(&self, body: &Body, points: &Vec<ProgramPoint>, at: usize) -> (r: MutantStream)
        requires
            at + 1 < points@.len(),
        ensures
            Self::plans(body@, points@, at as int, r.edits@),
            r.named_in(body@),
            r.edits@.no_duplicates(),
    {
        pattern_stream(body, points, at, Pattern::Holds(Capability::LentShared), Action::MutBorrow)
    }

    pub fn name(&self) -> (r: &'static str)
        ensures
            r@ == "mutably-lend-shared"@,
    {
        "mutably-lend-shared"
    }
}

impl WriteToShared {
    pub open spec fn plans(body: BodyModel, points: Seq<ProgramPoint>, at: int, edits: Seq<Edit>) -> bool {
        plans_pattern(body, points, at, Pattern::Borrowed(BorrowFilter::Shared), Action::Write, edits)
    }

    pub fn make_stream(&self, body: &Body, points: &Vec<ProgramPoint>, at: usize) -> (r: MutantStream)
        requires
            at + 1 < points@.len(),
        ensures
            Self::plans(body@, points@, at as int, r.edits@),
            r.named_in(body@),
            r.edits@.no_duplicates(),
    {
        pattern_stream(body, points, at, Pattern::Borrowed(BorrowFilter::Shared), Action::Write)
    }

    pub fn name(&self) -> (r: &'static str)
        ensures
            r@ == "write-to-shared"@,
    {
        "write-to-shared"
    }
}

impl WriteToReadOnly {
    pub open spec fn plans(body: BodyModel, points: Seq<ProgramPoint>, at: int, edits: Seq<Edit>) -> bool {
        plans_pattern(body, points, at, Pattern::Holds(Capability::Read), Action::Write, edits)
    }

    pub fn make_stream(&self, body: &Body, points: &Vec<ProgramPoint>, at: usize) -> (r: MutantStream)
        requires
            at + 1 < points@.len(),
        ensures
            Self::plans(body@, points@, at as int, r.edits@),
            r.named_in(body@),
            r.edits@.no_duplicates(),
    {
        pattern_stream(body, points, at, Pattern::Holds(Capability::Read), Action::Write)
    }

    pub fn name(&self) -> (r: &'static str)
        ensures
            r@ == "write-to-read-only"@,
    {
        "write-to-read-only"
    }
}

impl ReadFromWriteOnly {
    pub open spec fn plans(body: BodyModel, points: Seq<ProgramPoint>, at: int, edits: Seq<Edit>) -> bool {
        plans_pattern(body, points, at, Pattern::Holds(Capability::Write), Action::Read, edits)
    }

    pub fn make_stream(&self, body: &Body, points: &Vec<ProgramPoint>, at: usize) -> (r: MutantStream)
        requires
            at + 1 < points@.len(),
        ensures
            Self::plans(body@, points@, at as int, r.edits@),
            r.named_in(body@),
            r.edits@.no_duplicates(),
    {
        pattern_stream(body, points, at, Pattern::Holds(Capability::Write), Action::Read)
    }

    pub fn name(&self) -> (r: &'static str)
        ensures
            r@ == "read-from-write-only"@,
    {
        "read-from-write-only"
    }
}

impl MoveFromBorrowed {
    pub open spec fn plans(body: BodyModel, points: Seq<ProgramPoint>, at: int, edits: Seq<Edit>) -> bool {
        plans_pattern(body, points, at, Pattern::Borrowed(BorrowFilter::Mut), Action::Move, edits)
    }

    pub fn make_stream(&self, body: &Body, points: &Vec<ProgramPoint>, at: usize) -> (r: MutantStream)
        requires
            at + 1 < points@.len(),
        ensures
            Self::plans(body@, points@, at as int, r.edits@),
            r.named_in(body@),
            r.edits@.no_duplicates(),
    {
        pattern_stream(body, points, at, Pattern::Borrowed(BorrowFilter::Mut), Action::Move)
    }

    pub fn name(&self) -> (r: &'static str)
        ensures
            r@ == "move-from-borrowed"@,
    {
        "move-from-borrowed"
    }
}

impl MutablyLendReadOnly {
    pub open spec fn plans(body: BodyModel, points: Seq<ProgramPoint>, at: int, edits: Seq<Edit>) -> bool {
        plans_pattern(body, points, at, Pattern::Holds(Capability::Read), Action::MutBorrow, edits)
    }

    pub fn make_stream(&self, body: &Body, points: &Vec<ProgramPoint>, at: usize) -> (r: MutantStream)
        requires
            at + 1 < points@.len(),
        ensures
            Self::plans(body@, points@, at as int, r.edits@),
            r.named_in(body@),
            r.edits@.no_duplicates(),
    {
        pattern_stream(body, points, at, Pattern::Holds(Capability::Read), Action::MutBorrow)
    }

    pub fn name(&self) -> (r: &'static str)
        ensures
            r@ == "mutably-lend-read"@,
    {
        "mutably-lend-read"
    }
}

impl WriteToBorrowed {
    pub open spec fn plans(body: BodyModel, points: Seq<ProgramPoint>, at: int, edits: Seq<Edit>) -> bool {
        plans_pattern(body, points, at, Pattern::Holds(Capability::LentShared), Action::Write, edits)
    }

    pub fn make_stream(&self, body: &Body, points: &Vec<ProgramPoint>, at: usize) -> (r: MutantStream)
        requires
            at + 1 < points@.len(),
        ensures
            Self::plans(body@, points@, at as int, r.edits@),
            r.named_in(body@),
            r.edits@.no_duplicates(),
    {
        pattern_stream(body, points, at, Pattern::Holds(Capability::LentShared), Action::Write)
    }

    pub fn name(&self) -> (r: &'static str)
        ensures
            r@ == "use-borrowed"@,
    {
        "use-borrowed"
    }
}

/// `edits` are exactly the edits `make(p)`, one for each place that `chosen` picks.
pub open spec fn plans_each(edits: Seq<Edit>, chosen: spec_fn(Place) -> bool, make: spec_fn(Place) -> Edit) -> bool {
    forall|e: Edit| edits.contains(e) <==> exists|p: Place| #[trigger] chosen(p) && e == make(p)
}

/// A drop of each place of `places`, cutting `block` before `split`.
fn drops_for(places: &Vec<Place>, block: usize, split: usize) -> (r: Vec<Edit>)
    requires
        places@.no_duplicates(),
    ensures
        r@.no_duplicates(),
        r@.len() == places@.len(),
        forall|k: int| 0 <= k < places@.len() ==> #[trigger] r@[k] == (Edit::DropAt { block, split, place: places@[k] }),
{
    let mut r: Vec<Edit> = Vec::new();
    let mut i: usize = 0;
    while i < places.len()
        invariant
            i <= places.len(),
            r@.len() == i,
            forall|k: int| 0 <= k < i ==> #[trigger] r@[k] == (Edit::DropAt { block, split, place: places@[k] }),
        decreases places.len() - i,
    {
        r.push(Edit::DropAt { block, split, place: places[i] });
        i = i + 1;
    }
    assert forall|x: int, y: int| 0 <= x < r@.len() && 0 <= y < r@.len() && x != y implies r@[x] != r@[y] by {
        assert(places@[x] != places@[y]);
    }
    r
}

/// A borrow and reborrow of each place of `places` at statement `index` of `block`.
fn reborrows_for(places: &Vec<Place>, block: usize, index: usize) -> (r: Vec<Edit>)
    requires
        places@.no_duplicates(),
    ensures
        r@.no_duplicates(),
        r@.len() == places@.len(),
        forall|k: int| 0 <= k < places@.len() ==> #[trigger] r@[k] == (Edit::BorrowAndReborrow { block, index, place: places@[k] }),
{
    let mut r: Vec<Edit> = Vec::new();
    let mut i: usize = 0;
    while i < places.len()
        invariant
            i <= places.len(),
            r@.len() == i,
            forall|k: int| 0 <= k < i ==> #[trigger] r@[k] == (Edit::BorrowAndReborrow { block, index, place: places@[k] }),
        decreases places.len() - i,
    {
        r.push(Edit::BorrowAndReborrow { block, index, place: places[i] });
        i = i + 1;
    }
    assert forall|x: int, y: int| 0 <= x < r@.len() && 0 <= y < r@.len() && x != y implies r@[x] != r@[y] by {
        assert(places@[x] != places@[y]);
    }
    r
}

proof fn lemma_each_plan(edits: Seq<Edit>, places: Seq<Place>, chosen: spec_fn(Place) -> bool, make: spec_fn(Place) -> Edit)
    requires
        edits.len() == places.len(),
        forall|k: int| 0 <= k < places.len() ==> #[trigger] edits[k] == make(places[k]),
        forall|p: Place| places.contains(p) <==> #[trigger] chosen(p),
    ensures
        plans_each(edits, chosen, make),
{
    assert forall|e: Edit| edits.contains(e) <==> exists|p: Place| #[trigger] chosen(p) && e == make(p) by {
        if edits.contains(e) {
            let k = choose|k: int| 0 <= k < edits.len() && edits[k] == e;
            assert(places.contains(places[k]));
            assert(chosen(places[k]));
        }
        if exists|p: Place| #[trigger] chosen(p) && e == make(p) {
            let p = choose|p: Place| #[trigger] chosen(p) && e == make(p);
            assert(places.contains(p));
            let k = choose|k: int| 0 <= k < places.len() && places[k] == p;
            assert(edits[k] == e);
        }
    }
}

/// Reads through a location that is exclusive at its top level only.
pub struct ShallowExclusiveRead;

impl ShallowExclusiveRead {
    /// A read through each whole user binding that is shallowly exclusive at both points.
    pub open spec fn plans(body: BodyModel, points: Seq<ProgramPoint>, at: int, edits: Seq<Edit>) -> bool {
        plans_inserts(
            edits,
            points[at].block,
            points[at].statement_index,
            Action::Read,
            |q: Place| shallow_read_target(body, curr_graph(points, at), next_graph(points, at), q),
        )
    }

    pub fn make_stream(&self, body: &Body, points: &Vec<ProgramPoint>, at: usize) -> (r: MutantStream)
        requires
            at + 1 < points@.len(),
        ensures
            Self::plans(body@, points@, at as int, r.edits@),
            r.named_in(body@),
            r.edits@.no_duplicates(),
    {
            let curr = &points[at];
        let next = &points[next_index(points, at)];
        let all = capability_candidates(body, &curr.post_main, &next.post_operands, Capability::ShallowExclusive);
        let ghost chosen = |q: Place| shallow_read_target(body@, curr_graph(points@, at as int), next_graph(points@, at as int), q);
        let mut places: Vec<Place> = Vec::new();
        let mut i: usize = 0;
        while i < all.len()
            invariant
                i <= all.len(),
                forall|p: Place| all@.contains(p) <==> holds_at_both(body@, curr.post_main@, next.post_operands@, Capability::ShallowExclusive, p),
                forall|q: Place| places@.contains(q) <==> (q.projection == Some(ProjectionElem::Deref)
                    && all@.take(i as int).contains(Place { local: q.local, projection: None })),
                all@.no_duplicates(),
                places@.no_duplicates(),
            decreases all.len() - i,
        {
            let p = all[i];
            let ghost v0 = places@;
            if p.projection.is_none() {
                proof {
                    let d = Place { local: p.local, projection: Some(ProjectionElem::Deref) };
                    if v0.contains(d) {
                        let w = choose|w: int| 0 <= w < i && all@.take(i as int)[w] == Place { local: d.local, projection: None };
                        assert(all@[w] == all@[i as int]);
                    }
                    crate::graph::lemma_push_no_duplicates(v0, d);
                }
                places.push(Place { local: p.local, projection: Some(ProjectionElem::Deref) });
            }
            proof {
                assert(all@.take(i + 1) =~= all@.take(i as int).push(p));
                assert forall|q: Place| places@.contains(q) <==> (q.projection == Some(ProjectionElem::Deref)
                    && all@.take(i + 1).contains(Place { local: q.local, projection: None })) by {
                    crate::graph::lemma_push_contains(all@.take(i as int), p, Place { local: q.local, projection: None });
                    if places@ != v0 {
                        crate::graph::lemma_push_contains(v0, Place { local: p.local, projection: Some(ProjectionElem::Deref) }, q);
                    }
                }
            }
            i = i + 1;
        }
        assert(all@.take(all.len() as int) =~= all@);
        let edits = insertions(&places, curr.block, curr.statement_index, Action::Read);
        proof {
            assert forall|q: Place| places@.contains(q) <==> #[trigger] chosen(q) by {}
            lemma_insertions_plan(edits@, places@, curr.block, curr.statement_index, Action::Read, chosen);
            assert forall|k: int| 0 <= k < edits@.len() implies (#[trigger] edits@[k]).named_in(body@) by {
                assert(places@.contains(places@[k]));
                assert(edits@[k].places()[0] == places@[k]);
            }
        }
        MutantStream::new(edits)
    }

    pub fn name(&self) -> (r: &'static str)
        ensures
            r@ == "shallow-exclusive-read"@,
    {
        "shallow-exclusive-read"
    }
}

/// Ends the scope of a location while it is still borrowed.
pub struct DropBorrowed;

impl DropBorrowed {
    /// A drop, just before the next point, of each user binding borrowed at both points.
    pub open spec fn plans(body: BodyModel, points: Seq<ProgramPoint>, at: int, edits: Seq<Edit>) -> bool {
        plans_each(
            edits,
            |p: Place| borrowed_at_both(body, curr_graph(points, at), next_graph(points, at), BorrowFilter::Any, p),
            |p: Place| Edit::DropAt { block: points[at].block, split: points[at + 1].statement_index, place: p },
        )
    }

    pub fn make_stream(&self, body: &Body, points: &Vec<ProgramPoint>, at: usize) -> (r: MutantStream)
        requires
            at + 1 < points@.len(),
        ensures
            Self::plans(body@, points@, at as int, r.edits@),
            r.named_in(body@),
            r.edits@.no_duplicates(),
    {
            let curr = &points[at];
        let next = &points[next_index(points, at)];
        let places = borrow_candidates(body, &curr.post_main, &next.post_operands, BorrowFilter::Any);
        let ghost make = |p: Place| Edit::DropAt { block: points@[at as int].block, split: points@[at + 1].statement_index, place: p };
        let edits = drops_for(&places, curr.block, next.statement_index);
        proof {
            let chosen = |p: Place| borrowed_at_both(body@, curr_graph(points@, at as int), next_graph(points@, at as int), BorrowFilter::Any, p);
            lemma_each_plan(edits@, places@, chosen, make);
            assert forall|k: int| 0 <= k < edits@.len() implies (#[trigger] edits@[k]).named_in(body@) by {
                assert(places@.contains(places@[k]));
                assert(edits@[k].places()[0] == places@[k]);
            }
        }
        MutantStream::new(edits)
    }

    pub fn name(&self) -> (r: &'static str)
        ensures
            r@ == "drop-borrowed"@,
    {
        "drop-borrowed"
    }
}

/// Borrows a location just before it is exclusively borrowed, and reborrows
/// through that borrow after the new exclusive borrow.
pub struct BlockMutableBorrow;

impl BlockMutableBorrow {
    /// A borrow and reborrow at `at` of each user binding that is exclusively
    /// borrowed after the main effect of the next point but not after that of `at`.
    pub open spec fn plans(body: BodyModel, points: Seq<ProgramPoint>, at: int, edits: Seq<Edit>) -> bool {
        plans_each(
            edits,
            |p: Place| newly_borrowed(body, points, at, p),
            |p: Place| Edit::BorrowAndReborrow { block: points[at].block, index: points[at].statement_index, place: p },
        )
    }

    pub fn make_stream(&self, body: &Body, points: &Vec<ProgramPoint>, at: usize) -> (r: MutantStream)
        requires
            at + 1 < points@.len(),
        ensures
            Self::plans(body@, points@, at as int, r.edits@),
            r.named_in(body@),
            r.edits@.no_duplicates(),
    {
            let curr = &points[at];
        let next = &points[next_index(points, at)];
        let places = borrowed_split(body, &next.post_main, &curr.post_main, BorrowFilter::Mut, false);
        let edits = reborrows_for(&places, curr.block, curr.statement_index);
        proof {
            let chosen = |p: Place| newly_borrowed(body@, points@, at as int, p);
            let make = |p: Place| Edit::BorrowAndReborrow { block: points@[at as int].block, index: points@[at as int].statement_index, place: p };
            assert forall|p: Place| places@.contains(p) <==> #[trigger] chosen(p) by {}
            assert forall|k: int| 0 <= k < places@.len() implies #[trigger] edits@[k] == make(places@[k]) by {}
            lemma_each_plan(edits@, places@, chosen, make);
            assert forall|k: int| 0 <= k < edits@.len() implies (#[trigger] edits@[k]).named_in(body@) by {
                assert(places@.contains(places@[k]));
                assert(edits@[k].places()[0] == places@[k]);
            }
        }
        MutantStream::new(edits)
    }

    pub fn name(&self) -> (r: &'static str)
        ensures
            r@ == "block-mutable-borrow"@,
    {
        "block-mutable-borrow"
    }
}

/// Point `k`, at least two after `at`, is the first where `p` is exclusive again.
pub open spec fn expires_at(points: Seq<ProgramPoint>, at: int, p: Place, k: int) -> bool {
    &&& at + 2 <= k < points.len()
    &&& points[k].post_main@.has_capability(p, Capability::Exclusive)
    &&& forall|j: int| at + 2 <= j < k ==> !(#[trigger] points[j]).post_main@.has_capability(p, Capability::Exclusive)
}

/// The first point, at least two after `at`, where `p` is exclusive again.
fn find_expiry(points: &Vec<ProgramPoint>, at: usize, p: Place) -> (r: Option<usize>)
    ensures
        r matches Some(k) ==> expires_at(points@, at as int, p, k as int),
        r is None ==> forall|k: int| !expires_at(points@, at as int, p, k),
{
    let n = points.len();
    if at >= n || n - at < 2 {
        return None;
    }
    let mut k: usize = at + 2;
    while k < n
        invariant
            n == points@.len(),
            at + 2 <= k <= n,
            forall|j: int| at + 2 <= j < k ==> !(#[trigger] points@[j]).post_main@.has_capability(p, Capability::Exclusive),
        decreases n - k,
    {
        if has_capability(&points[k].post_main, p, Capability::Exclusive) {
            return Some(k);
        }
        k = k + 1;
    }
    None
}

/// Extends an exclusive loan: borrows the lent location, and mentions it again
/// where it has become exclusive.
pub struct MutableBorrowMutator;

impl MutableBorrowMutator {
    /// For each user binding lent at both points, a borrow after `at` and a
    /// mention after the first later point where it is exclusive again.
    pub open spec fn plans(body: BodyModel, points: Seq<ProgramPoint>, at: int, edits: Seq<Edit>) -> bool {
        forall|e: Edit| edits.contains(e) <==> exists|p: Place, k: int|
            holds_at_both(body, curr_graph(points, at), next_graph(points, at), Capability::Lent, p)
                && #[trigger] expires_at(points, at, p, k) && e == (Edit::ExtendBorrow {
                    block: points[at].block,
                    index: points[at].statement_index,
                    expiry: points[k].statement_index,
                    place: p,
                })
    }

    pub fn make_stream(&self, body: &Body, points: &Vec<ProgramPoint>, at: usize) -> (r: MutantStream)
        requires
            at + 1 < points@.len(),
        ensures
            Self::plans(body@, points@, at as int, r.edits@),
            r.named_in(body@),
            r.edits@.no_duplicates(),
    {
            let curr = &points[at];
        let next = &points[next_index(points, at)];
        let places = capability_candidates(body, &curr.post_main, &next.post_operands, Capability::Lent);
        let mut edits: Vec<Edit> = Vec::new();
        let mut i: usize = 0;
        while i < places.len()
            invariant
                i <= places.len(),
                at + 1 < points@.len(),
                curr == &points@[at as int],
                next == &points@[at + 1],
                forall|p: Place| places@.contains(p) <==> holds_at_both(body@, curr_graph(points@, at as int), next_graph(points@, at as int), Capability::Lent, p),
                forall|k: int| 0 <= k < edits@.len() ==> (#[trigger] edits@[k]).named_in(body@),
                places@.no_duplicates(),
                edits@.no_duplicates(),
                forall|k: int| 0 <= k < edits@.len() ==> places@.take(i as int).contains((#[trigger] edits@[k]).places()[0]),
                forall|e: Edit| edits@.contains(e) <==> exists|p: Place, k: int|
                    places@.take(i as int).contains(p) && #[trigger] expires_at(points@, at as int, p, k) && e == (Edit::ExtendBorrow {
                        block: curr.block,
                        index: curr.statement_index,
                        expiry: points@[k].statement_index,
                        place: p,
                    }),
            decreases places.len() - i,
        {
            let p = places[i];
            let ghost e0 = edits@;
            assert(places@.contains(p));
            match find_expiry(points, at, p) {
                Some(k) => {
                    let expiry = points[k].statement_index;
                    let ghost made = Edit::ExtendBorrow { block: curr.block, index: curr.statement_index, expiry, place: p };
                    proof {
                        if e0.contains(made) {
                            let w = choose|w: int| 0 <= w < e0.len() && e0[w] == made;
                            let v = choose|v: int| 0 <= v < i && places@.take(i as int)[v] == e0[w].places()[0];
                            assert(places@[v] == places@[i as int]);
                        }
                        crate::graph::lemma_push_no_duplicates(e0, made);
                    }
                    edits.push(Edit::ExtendBorrow { block: curr.block, index: curr.statement_index, expiry, place: p });
                },
                None => {},
            }
            proof {
                assert(places@.take(i + 1) =~= places@.take(i as int).push(p));
                assert forall|k: int| 0 <= k < edits@.len() implies places@.take(i + 1).contains((#[trigger] edits@[k]).places()[0]) by {
                    crate::graph::lemma_push_contains(places@.take(i as int), p, edits@[k].places()[0]);
                    if k < e0.len() {
                        assert(edits@[k] == e0[k]);
                    }
                }
                assert forall|e: Edit| edits@.contains(e) <==> exists|q: Place, k: int|
                    places@.take(i + 1).contains(q) && #[trigger] expires_at(points@, at as int, q, k) && e == (Edit::ExtendBorrow {
                        block: curr.block,
                        index: curr.statement_index,
                        expiry: points@[k].statement_index,
                        place: q,
                    }) by {
                    if edits@ != e0 {
                        crate::graph::lemma_push_contains(e0, edits@[edits@.len() - 1], e);
                    }
                    if exists|q: Place, k: int| places@.take(i + 1).contains(q) && #[trigger] expires_at(points@, at as int, q, k) && e == (Edit::ExtendBorrow {
                        block: curr.block,
                        index: curr.statement_index,
                        expiry: points@[k].statement_index,
                        place: q,
                    }) {
                        let (q, k) = choose|q: Place, k: int| places@.take(i + 1).contains(q) && #[trigger] expires_at(points@, at as int, q, k) && e == (Edit::ExtendBorrow {
                            block: curr.block,
                            index: curr.statement_index,
                            expiry: points@[k].statement_index,
                            place: q,
                        });
                        crate::graph::lemma_push_contains(places@.take(i as int), p, q);
                        if q == p && !places@.take(i as int).contains(q) {
                            assert(edits@ != e0) by {
                                if edits@ == e0 {
                                    assert(!expires_at(points@, at as int, p, k));
                                }
                            }
                            let k2 = choose|k2: int| expires_at(points@, at as int, p, k2) && edits@[edits@.len() - 1] == (Edit::ExtendBorrow {
                                block: curr.block,
                                index: curr.statement_index,
                                expiry: points@[k2].statement_index,
                                place: p,
                            });
                            assert(k2 == k) by {
                                if k2 < k {
                                    assert(!points@[k2].post_main@.has_capability(p, Capability::Exclusive));
                                }
                                if k < k2 {
                                    assert(!points@[k].post_main@.has_capability(p, Capability::Exclusive));
                                }
                            }
                            assert(edits@[edits@.len() - 1] == e);
                        } else {
                            assert(places@.take(i as int).contains(q));
                            assert(e0.contains(e));
                            let w = choose|w: int| 0 <= w < e0.len() && e0[w] == e;
                            assert(edits@[w] == e);
                        }
                    }
                    if edits@.contains(e) {
                        if e0.contains(e) {
                            let (q, k) = choose|q: Place, k: int| places@.take(i as int).contains(q) && #[trigger] expires_at(points@, at as int, q, k) && e == (Edit::ExtendBorrow {
                                block: curr.block,
                                index: curr.statement_index,
                                expiry: points@[k].statement_index,
                                place: q,
                            });
                            crate::graph::lemma_push_contains(places@.take(i as int), p, q);
                        } else {
                            crate::graph::lemma_push_contains(places@.take(i as int), p, p);
                        }
                    }
                }
                assert forall|k: int| 0 <= k < edits@.len() implies (#[trigger] edits@[k]).named_in(body@) by {
                    if k < e0.len() {
                        assert(edits@[k] == e0[k]);
                    } else {
                        assert(edits@[k].places()[0] == p);
                    }
                }
            }
            i = i + 1;
        }
        assert(places@.take(places.len() as int) =~= places@);
        MutantStream::new(edits)
    }

    pub fn name(&self) -> (r: &'static str)
        ensures
            r@ == "mutably-lent-detector"@,
    {
        "mutably-lent-detector"
    }
}

/// `e` reorders, on a side branch before the next point, the expiry of a user
/// binding `p` that is exclusively borrowed after the next point's operands and
/// of a user binding `q` that blocks it on a path that satisfies `rule`.
pub open spec fn reverses_expiry(body: BodyModel, points: Seq<ProgramPoint>, at: int, rule: PathRule, e: Edit) -> bool {
    let g = next_graph(points, at);
    exists|p: Place, q: Place|
        g.borrows(p, BorrowFilter::Mut) && body.named(p)
            && #[trigger] g.blocks_via(crate::graph::Node::of_place(p), rule, HopRule::MutBorrowsOnly, q) && body.named(q)
            && e == (Edit::ReverseExpiry {
                block: points[at].block,
                split: points[at + 1].statement_index,
                blocked: p,
                blocking: q,
            })
}

/// The graph after the operands of the point after `at` can be searched: it is
/// small enough to index its search states, and its borrow and abstraction
/// edges form no cycle.
pub open spec fn searchable(points: Seq<ProgramPoint>, at: int) -> bool {
    points[at + 1].post_operands.edges@.len() * 16 <= usize::MAX && points[at + 1].post_operands@.acyclic()
}

pub open spec fn reversal(block: usize, split: usize, p: Place, q: Place) -> Edit {
    Edit::ReverseExpiry { block, split, blocked: p, blocking: q }
}

/// Reversals of `p` with each user binding among `qs`, added to `edits`.
fn push_reversals(body: &Body, edits: &mut Vec<Edit>, block: usize, split: usize, p: Place, qs: &Vec<Place>)
    requires
        body@.named(p),
        forall|k: int| 0 <= k < old(edits)@.len() ==> (#[trigger] old(edits)@[k]).named_in(body@),
        old(edits)@.no_duplicates(),
        qs@.no_duplicates(),
        forall|k: int| 0 <= k < old(edits)@.len() ==> (#[trigger] old(edits)@[k]).places()[0] != p,
    ensures
        final(edits)@.no_duplicates(),
        final(edits)@.len() >= old(edits)@.len(),
        forall|k: int| 0 <= k < old(edits)@.len() ==> #[trigger] final(edits)@[k] == old(edits)@[k],
        forall|k: int| old(edits)@.len() <= k < final(edits)@.len() ==> (#[trigger] final(edits)@[k]).places()[0] == p,
        forall|k: int| 0 <= k < final(edits)@.len() ==> (#[trigger] final(edits)@[k]).named_in(body@),
        forall|e: Edit| final(edits)@.contains(e) <==> (old(edits)@.contains(e) || exists|q: Place|
            qs@.contains(q) && body@.named(q) && e == #[trigger] reversal(block, split, p, q)),
{
    let mut j: usize = 0;
    while j < qs.len()
        invariant
            j <= qs.len(),
            body@.named(p),
            forall|k: int| 0 <= k < edits@.len() ==> (#[trigger] edits@[k]).named_in(body@),
            edits@.no_duplicates(),
            qs@.no_duplicates(),
            edits@.len() >= old(edits)@.len(),
            forall|k: int| 0 <= k < old(edits)@.len() ==> #[trigger] edits@[k] == old(edits)@[k],
            forall|k: int| 0 <= k < old(edits)@.len() ==> (#[trigger] old(edits)@[k]).places()[0] != p,
            forall|k: int| old(edits)@.len() <= k < edits@.len() ==> (#[trigger] edits@[k]).places()[0] == p
                && qs@.take(j as int).contains(edits@[k].places()[1]),
            forall|e: Edit| edits@.contains(e) <==> (old(edits)@.contains(e) || exists|m: int|
                0 <= m < j && body@.named(qs@[m]) && e == #[trigger] reversal(block, split, p, qs@[m])),
        decreases qs.len() - j,
    {
        let q = qs[j];
        let ghost e0 = edits@;
        if has_named_local(q, body) {
            proof {
                let made = reversal(block, split, p, q);
                if e0.contains(made) {
                    let w = choose|w: int| 0 <= w < e0.len() && e0[w] == made;
                    if w < old(edits)@.len() {
                        assert(old(edits)@[w] == e0[w]);
                    } else {
                        let v = choose|v: int| 0 <= v < j && qs@.take(j as int)[v] == e0[w].places()[1];
                        assert(qs@[v] == qs@[j as int]);
                    }
                }
                crate::graph::lemma_push_no_duplicates(e0, made);
            }
            edits.push(Edit::ReverseExpiry { block, split, blocked: p, blocking: q });
        }
        proof {
            assert forall|e: Edit| edits@.contains(e) <==> (old(edits)@.contains(e) || exists|m: int|
                0 <= m < j + 1 && body@.named(qs@[m]) && e == #[trigger] reversal(block, split, p, qs@[m])) by {
                if edits@ != e0 {
                    crate::graph::lemma_push_contains(e0, reversal(block, split, p, q), e);
                }
                if e0.contains(e) && !old(edits)@.contains(e) {
                    let m = choose|m: int| 0 <= m < j && body@.named(qs@[m]) && e == #[trigger] reversal(block, split, p, qs@[m]);
                    assert(0 <= m < j + 1 && body@.named(qs@[m]) && e == reversal(block, split, p, qs@[m]));
                }
                if edits@.contains(e) && !e0.contains(e) {
                    assert(0 <= j < j + 1 && body@.named(qs@[j as int]) && e == reversal(block, split, p, qs@[j as int]));
                }
                if exists|m: int| 0 <= m < j + 1 && body@.named(qs@[m]) && e == #[trigger] reversal(block, split, p, qs@[m]) {
                    let m = choose|m: int| 0 <= m < j + 1 && body@.named(qs@[m]) && e == #[trigger] reversal(block, split, p, qs@[m]);
                    if m < j {
                        assert(e0.contains(e));
                    } else {
                        assert(edits@[edits@.len() - 1] == e);
                    }
                }
            }
            assert(qs@.take(j + 1) =~= qs@.take(j as int).push(q));
            assert forall|k: int| old(edits)@.len() <= k < edits@.len() implies (#[trigger] edits@[k]).places()[0] == p
                && qs@.take(j + 1).contains(edits@[k].places()[1]) by {
                crate::graph::lemma_push_contains(qs@.take(j as int), q, edits@[k].places()[1]);
                if k < e0.len() {
                    assert(edits@[k] == e0[k]);
                }
            }
            assert forall|k: int| 0 <= k < edits@.len() implies (#[trigger] edits@[k]).named_in(body@) by {
                if k < e0.len() {
                    assert(edits@[k] == e0[k]);
                } else {
                    assert(edits@[k].places()[0] == p);
                    assert(edits@[k].places()[1] == q);
                }
            }
        }
        j = j + 1;
    }
    assert forall|e: Edit| edits@.contains(e) <==> (old(edits)@.contains(e) || exists|q: Place|
        qs@.contains(q) && body@.named(q) && e == #[trigger] reversal(block, split, p, q)) by {
        if exists|q: Place| qs@.contains(q) && body@.named(q) && e == #[trigger] reversal(block, split, p, q) {
            let q = choose|q: Place| qs@.contains(q) && body@.named(q) && e == #[trigger] reversal(block, split, p, q);
            let m = choose|m: int| 0 <= m < qs@.len() && qs@[m] == q;
            assert(body@.named(qs@[m]) && e == reversal(block, split, p, qs@[m]));
        }
        if edits@.contains(e) && !old(edits)@.contains(e) {
            let m = choose|m: int| 0 <= m < qs@.len() && body@.named(qs@[m]) && e == #[trigger] reversal(block, split, p, qs@[m]);
            assert(qs@.contains(qs@[m]));
        }
    }
}

fn expiry_stream(body: &Body, points: &Vec<ProgramPoint>, at: usize, rule: PathRule) -> (r: MutantStream)
    requires
        at + 1 < points@.len(),
        searchable(points@, at as int),
    ensures
        forall|e: Edit| r.edits@.contains(e) <==> reverses_expiry(body@, points@, at as int, rule, e),
        r.named_in(body@),
        r.edits@.no_duplicates(),
{
    let curr = &points[at];
    let next = &points[next_index(points, at)];
    let g = &next.post_operands;
    let block = curr.block;
    let split = next.statement_index;
    let blocked = borrow_candidates(body, g, g, BorrowFilter::Mut);
    let mut edits: Vec<Edit> = Vec::new();
    let mut i: usize = 0;
    while i < blocked.len()
        invariant
            i <= blocked.len(),
            g.edges@.len() * 16 <= usize::MAX,
            g@.acyclic(),
            forall|p: Place| blocked@.contains(p) <==> borrowed_at_both(body@, g@, g@, BorrowFilter::Mut, p),
            forall|k: int| 0 <= k < edits@.len() ==> (#[trigger] edits@[k]).named_in(body@),
            blocked@.no_duplicates(),
            edits@.no_duplicates(),
            forall|k: int| 0 <= k < edits@.len() ==> blocked@.take(i as int).contains((#[trigger] edits@[k]).places()[0]),
            forall|e: Edit| edits@.contains(e) <==> exists|m: int, q: Place|
                0 <= m < i && g@.blocks_via(crate::graph::Node::of_place(blocked@[m]), rule, HopRule::MutBorrowsOnly, q)
                    && body@.named(q) && e == #[trigger] reversal(block, split, blocked@[m], q),
        decreases blocked.len() - i,
    {
        let p = blocked[i];
        assert(blocked@.contains(p));
        let blocking = locations_blocking(g, p, rule, HopRule::MutBorrowsOnly);
        let ghost e0 = edits@;
        proof {
            assert forall|k: int| 0 <= k < e0.len() implies (#[trigger] e0[k]).places()[0] != p by {
                if e0[k].places()[0] == p {
                    let v = choose|v: int| 0 <= v < i && blocked@.take(i as int)[v] == p;
                    assert(blocked@[v] == blocked@[i as int]);
                }
            }
        }
        push_reversals(body, &mut edits, block, split, p, &blocking);
        proof {
            assert(blocked@.take(i + 1) =~= blocked@.take(i as int).push(p));
            assert forall|k: int| 0 <= k < edits@.len() implies blocked@.take(i + 1).contains((#[trigger] edits@[k]).places()[0]) by {
                crate::graph::lemma_push_contains(blocked@.take(i as int), p, edits@[k].places()[0]);
                if k < e0.len() {
                    assert(edits@[k] == e0[k]);
                }
            }
            assert forall|e: Edit| edits@.contains(e) <==> exists|m: int, q: Place|
                0 <= m < i + 1 && g@.blocks_via(crate::graph::Node::of_place(blocked@[m]), rule, HopRule::MutBorrowsOnly, q)
                    && body@.named(q) && e == #[trigger] reversal(block, split, blocked@[m], q) by {
                if e0.contains(e) {
                    let (m, q) = choose|m: int, q: Place|
                        0 <= m < i && g@.blocks_via(crate::graph::Node::of_place(blocked@[m]), rule, HopRule::MutBorrowsOnly, q)
                            && body@.named(q) && e == #[trigger] reversal(block, split, blocked@[m], q);
                    assert(0 <= m < i + 1);
                }
                if edits@.contains(e) && !e0.contains(e) {
                    let q = choose|q: Place| blocking@.contains(q) && body@.named(q) && e == #[trigger] reversal(block, split, p, q);
                    assert(0 <= i < i + 1 && blocked@[i as int] == p);
                }
                if exists|m: int, q: Place|
                    0 <= m < i + 1 && g@.blocks_via(crate::graph::Node::of_place(blocked@[m]), rule, HopRule::MutBorrowsOnly, q)
                        && body@.named(q) && e == #[trigger] reversal(block, split, blocked@[m], q) {
                    let (m, q) = choose|m: int, q: Place|
                        0 <= m < i + 1 && g@.blocks_via(crate::graph::Node::of_place(blocked@[m]), rule, HopRule::MutBorrowsOnly, q)
                            && body@.named(q) && e == #[trigger] reversal(block, split, blocked@[m], q);
                    if m < i {
                        assert(e0.contains(e));
                    } else {
                        assert(blocking@.contains(q));
                    }
                }
            }
        }
        i = i + 1;
    }
    proof {
        assert forall|e: Edit| edits@.contains(e) <==> reverses_expiry(body@, points@, at as int, rule, e) by {
            if edits@.contains(e) {
                let (m, q) = choose|m: int, q: Place|
                    0 <= m < blocked@.len() && g@.blocks_via(crate::graph::Node::of_place(blocked@[m]), rule, HopRule::MutBorrowsOnly, q)
                        && body@.named(q) && e == #[trigger] reversal(block, split, blocked@[m], q);
                let p = blocked@[m];
                assert(blocked@.contains(p));
                assert(g@.borrows(p, BorrowFilter::Mut) && body@.named(p));
                assert(block == points@[at as int].block && split == points@[at + 1].statement_index);
                assert(g@ == next_graph(points@, at as int));
                assert(e == (Edit::ReverseExpiry { block, split, blocked: p, blocking: q }));
            }
            if reverses_expiry(body@, points@, at as int, rule, e) {
                let (p, q) = choose|p: Place, q: Place|
                    g@.borrows(p, BorrowFilter::Mut) && body@.named(p)
                        && #[trigger] g@.blocks_via(crate::graph::Node::of_place(p), rule, HopRule::MutBorrowsOnly, q) && body@.named(q)
                        && e == (Edit::ReverseExpiry { block, split, blocked: p, blocking: q });
                assert(borrowed_at_both(body@, g@, g@, BorrowFilter::Mut, p));
                assert(blocked@.contains(p));
                let m = choose|m: int| 0 <= m < blocked@.len() && blocked@[m] == p;
                assert(e == reversal(block, split, blocked@[m], q));
                assert(0 <= m < blocked@.len() && g@.blocks_via(crate::graph::Node::of_place(blocked@[m]), rule, HopRule::MutBorrowsOnly, q)
                    && body@.named(q));
                assert(edits@.contains(e));
            }
        }
    }
    MutantStream::new(edits)
}

/// Uses a location before another that blocks it through exclusive borrows
/// has expired, on a branch that only the borrow checker considers.
pub struct BorrowExpiryOrder;

impl BorrowExpiryOrder {
    pub open spec fn plans(body: BodyModel, points: Seq<ProgramPoint>, at: int, edits: Seq<Edit>) -> bool {
        forall|e: Edit| edits.contains(e) <==> reverses_expiry(body, points, at, PathRule::MutBorrow, e)
    }

    pub fn make_stream(&self, body: &Body, points: &Vec<ProgramPoint>, at: usize) -> (r: MutantStream)
        requires
            at + 1 < points@.len(),
            searchable(points@, at as int),
        ensures
            Self::plans(body@, points@, at as int, r.edits@),
            r.named_in(body@),
            r.edits@.no_duplicates(),
    {
        expiry_stream(body, points, at, PathRule::MutBorrow)
    }

    pub fn name(&self) -> (r: &'static str)
        ensures
            r@ == "borrow-expiry-order"@,
    {
        "borrow-expiry-order"
    }
}

/// Like `BorrowExpiryOrder`, for a blocker reached through a call's abstraction edge.
pub struct AbstractExpiryOrder;

impl AbstractExpiryOrder {
    pub open spec fn plans(body: BodyModel, points: Seq<ProgramPoint>, at: int, edits: Seq<Edit>) -> bool {
        forall|e: Edit| edits.contains(e) <==> reverses_expiry(body, points, at, PathRule::AbstractionAndMutBorrow, e)
    }

    pub fn make_stream(&self, body: &Body, points: &Vec<ProgramPoint>, at: usize) -> (r: MutantStream)
        requires
            at + 1 < points@.len(),
            searchable(points@, at as int),
        ensures
            Self::plans(body@, points@, at as int, r.edits@),
            r.named_in(body@),
            r.edits@.no_duplicates(),
    {
        expiry_stream(body, points, at, PathRule::AbstractionAndMutBorrow)
    }

    pub fn name(&self) -> (r: &'static str)
        ensures
            r@ == "abstract-expiry-order"@,
    {
        "abstract-expiry-order"
    }
}

/// The rules, as one closed set.
#[derive(Clone, Copy, Debug, PartialEq, Eq, Structural)]
pub enum Mutation {
    BorrowExpiryOrder,
    AbstractExpiryOrder,
    MutablyLendShared,
    WriteToShared,
    WriteToReadOnly,
    ReadFromWriteOnly,
    MoveFromBorrowed,
    MutablyLendReadOnly,
    WriteToBorrowed,
    ShallowExclusiveRead,
    DropBorrowed,
    BlockMutableBorrow,
    MutableBorrowMutator,
}

impl Mutation {
    /// The edits this rule plans between point `at` and the point after it.
    pub open spec fn plans(self, body: BodyModel, points: Seq<ProgramPoint>, at: int, edits: Seq<Edit>) -> bool {
        match self {
            Mutation::BorrowExpiryOrder => BorrowExpiryOrder::plans(body, points, at, edits),
            Mutation::AbstractExpiryOrder => AbstractExpiryOrder::plans(body, points, at, edits),
            Mutation::MutablyLendShared => MutablyLendShared::plans(body, points, at, edits),
            Mutation::WriteToShared => WriteToShared::plans(body, points, at, edits),
            Mutation::WriteToReadOnly => WriteToReadOnly::plans(body, points, at, edits),
            Mutation::ReadFromWriteOnly => ReadFromWriteOnly::plans(body, points, at, edits),
            Mutation::MoveFromBorrowed => MoveFromBorrowed::plans(body, points, at, edits),
            Mutation::MutablyLendReadOnly => MutablyLendReadOnly::plans(body, points, at, edits),
            Mutation::WriteToBorrowed => WriteToBorrowed::plans(body, points, at, edits),
            Mutation::ShallowExclusiveRead => ShallowExclusiveRead::plans(body, points, at, edits),
            Mutation::DropBorrowed => DropBorrowed::plans(body, points, at, edits),
            Mutation::BlockMutableBorrow => BlockMutableBorrow::plans(body, points, at, edits),
            Mutation::MutableBorrowMutator => MutableBorrowMutator::plans(body, points, at, edits),
        }
    }

    pub fn make_stream(&self, body: &Body, points: &Vec<ProgramPoint>, at: usize) -> (r: MutantStream)
        requires
            at + 1 < points@.len(),
            searchable(points@, at as int),
        ensures
            self.plans(body@, points@, at as int, r.edits@),
            r.named_in(body@),
            r.edits@.no_duplicates(),
    {
        match self {
            Mutation::BorrowExpiryOrder => BorrowExpiryOrder.make_stream(body, points, at),
            Mutation::AbstractExpiryOrder => AbstractExpiryOrder.make_stream(body, points, at),
            Mutation::MutablyLendShared => MutablyLendShared.make_stream(body, points, at),
            Mutation::WriteToShared => WriteToShared.make_stream(body, points, at),
            Mutation::WriteToReadOnly => WriteToReadOnly.make_stream(body, points, at),
            Mutation::ReadFromWriteOnly => ReadFromWriteOnly.make_stream(body, points, at),
            Mutation::MoveFromBorrowed => MoveFromBorrowed.make_stream(body, points, at),
            Mutation::MutablyLendReadOnly => MutablyLendReadOnly.make_stream(body, points, at),
            Mutation::WriteToBorrowed => WriteToBorrowed.make_stream(body, points, at),
            Mutation::ShallowExclusiveRead => ShallowExclusiveRead.make_stream(body, points, at),
            Mutation::DropBorrowed => DropBorrowed.make_stream(body, points, at),
            Mutation::BlockMutableBorrow => BlockMutableBorrow.make_stream(body, points, at),
            Mutation::MutableBorrowMutator => MutableBorrowMutator.make_stream(body, points, at),
        }
    }

    /// The rule's name in reports.
    pub open spec fn name_spec(self) -> Seq<char> {
        match self {
            Mutation::BorrowExpiryOrder => "borrow-expiry-order"@,
            Mutation::AbstractExpiryOrder => "abstract-expiry-order"@,
            Mutation::MutablyLendShared => "mutably-lend-shared"@,
            Mutation::WriteToShared => "write-to-shared"@,
            Mutation::WriteToReadOnly => "write-to-read-only"@,
            Mutation::ReadFromWriteOnly => "read-from-write-only"@,
            Mutation::MoveFromBorrowed => "move-from-borrowed"@,
            Mutation::MutablyLendReadOnly => "mutably-lend-read"@,
            Mutation::WriteToBorrowed => "use-borrowed"@,
            Mutation::ShallowExclusiveRead => "shallow-exclusive-read"@,
            Mutation::DropBorrowed => "drop-borrowed"@,
            Mutation::BlockMutableBorrow => "block-mutable-borrow"@,
            Mutation::MutableBorrowMutator => "mutably-lent-detector"@,
        }
    }

    pub fn name(&self) -> (r: &'static str)
        ensures
            r@ == self.name_spec(),
    {
        match self {
            Mutation::BorrowExpiryOrder => BorrowExpiryOrder.name(),
            Mutation::AbstractExpiryOrder => AbstractExpiryOrder.name(),
            Mutation::MutablyLendShared => MutablyLendShared.name(),
            Mutation::WriteToShared => WriteToShared.name(),
            Mutation::WriteToReadOnly => WriteToReadOnly.name(),
            Mutation::ReadFromWriteOnly => ReadFromWriteOnly.name(),
            Mutation::MoveFromBorrowed => MoveFromBorrowed.name(),
            Mutation::MutablyLendReadOnly => MutablyLendReadOnly.name(),
            Mutation::WriteToBorrowed => WriteToBorrowed.name(),
            Mutation::ShallowExclusiveRead => ShallowExclusiveRead.name(),
            Mutation::DropBorrowed => DropBorrowed.name(),
            Mutation::BlockMutableBorrow => BlockMutableBorrow.name(),
            Mutation::MutableBorrowMutator => MutableBorrowMutator.name(),
        }
    }
}

/// `q` reads through a whole user binding that is shallowly exclusive at both points.
pub open spec fn shallow_read_target(body: BodyModel, cg: GraphModel, ng: GraphModel, q: Place) -> bool {
    q.projection == Some(ProjectionElem::Deref) && holds_at_both(
        body,
        cg,
        ng,
        Capability::ShallowExclusive,
        Place { local: q.local, projection: None },
    )
}

/// `p` is a user binding exclusively borrowed after the main effect of the point
/// after `at`, and not after that of `at`.
pub open spec fn newly_borrowed(body: BodyModel, points: Seq<ProgramPoint>, at: int, p: Place) -> bool {
    points[at + 1].post_main@.borrows(p, BorrowFilter::Mut) && !points[at].post_main@.borrows(p, BorrowFilter::Mut)
        && body.named(p)
}

impl Mutation {
    /// The rule plans edit `e` between point `at` and the point after it.
    pub open spec fn wants(self, body: BodyModel, points: Seq<ProgramPoint>, at: int, e: Edit) -> bool {
        let cg = curr_graph(points, at);
        let ng = next_graph(points, at);
        let block = points[at].block;
        let index = points[at].statement_index;
        match self {
            Mutation::MutablyLendShared => exists|p: Place| #[trigger] Pattern::Holds(Capability::LentShared).matches(body, cg, ng, p)
                && e == (Edit::Insert { block, index, action: Action::MutBorrow, place: p }),
            Mutation::WriteToShared => exists|p: Place| #[trigger] Pattern::Borrowed(BorrowFilter::Shared).matches(body, cg, ng, p)
                && e == (Edit::Insert { block, index, action: Action::Write, place: p }),
            Mutation::WriteToReadOnly => exists|p: Place| #[trigger] Pattern::Holds(Capability::Read).matches(body, cg, ng, p)
                && e == (Edit::Insert { block, index, action: Action::Write, place: p }),
            Mutation::ReadFromWriteOnly => exists|p: Place| #[trigger] Pattern::Holds(Capability::Write).matches(body, cg, ng, p)
                && e == (Edit::Insert { block, index, action: Action::Read, place: p }),
            Mutation::MoveFromBorrowed => exists|p: Place| #[trigger] Pattern::Borrowed(BorrowFilter::Mut).matches(body, cg, ng, p)
                && e == (Edit::Insert { block, index, action: Action::Move, place: p }),
            Mutation::MutablyLendReadOnly => exists|p: Place| #[trigger] Pattern::Holds(Capability::Read).matches(body, cg, ng, p)
                && e == (Edit::Insert { block, index, action: Action::MutBorrow, place: p }),
            Mutation::WriteToBorrowed => exists|p: Place| #[trigger] Pattern::Holds(Capability::LentShared).matches(body, cg, ng, p)
                && e == (Edit::Insert { block, index, action: Action::Write, place: p }),
            Mutation::ShallowExclusiveRead => exists|q: Place| #[trigger] shallow_read_target(body, cg, ng, q)
                && e == (Edit::Insert { block, index, action: Action::Read, place: q }),
            Mutation::DropBorrowed => exists|p: Place| #[trigger] borrowed_at_both(body, cg, ng, BorrowFilter::Any, p)
                && e == (Edit::DropAt { block, split: points[at + 1].statement_index, place: p }),
            Mutation::BlockMutableBorrow => exists|p: Place| #[trigger] newly_borrowed(body, points, at, p)
                && e == (Edit::BorrowAndReborrow { block, index, place: p }),
            Mutation::MutableBorrowMutator => exists|p: Place, k: int|
                holds_at_both(body, cg, ng, Capability::Lent, p) && #[trigger] expires_at(points, at, p, k)
                    && e == (Edit::ExtendBorrow { block, index, expiry: points[k].statement_index, place: p }),
            Mutation::BorrowExpiryOrder => reverses_expiry(body, points, at, PathRule::MutBorrow, e),
            Mutation::AbstractExpiryOrder => reverses_expiry(body, points, at, PathRule::AbstractionAndMutBorrow, e),
        }
    }
}

proof fn lemma_pattern_wants(
    body: BodyModel,
    points: Seq<ProgramPoint>,
    at: int,
    pattern: Pattern,
    action: Action,
    edits: Seq<Edit>,
    e: Edit,
)
    requires
        plans_pattern(body, points, at, pattern, action, edits),
    ensures
        edits.contains(e) <==> exists|p: Place| #[trigger] pattern.matches(body, curr_graph(points, at), next_graph(points, at), p)
            && e == (Edit::Insert { block: points[at].block, index: points[at].statement_index, action, place: p }),
{
    let cg = curr_graph(points, at);
    let ng = next_graph(points, at);
    let chosen = |p: Place| pattern.matches(body, cg, ng, p);
    assert(forall|p: Place| #[trigger] chosen(p) == pattern.matches(body, cg, ng, p));
    if edits.contains(e) {
        let p = choose|p: Place| #[trigger] chosen(p) && e == (Edit::Insert {
            block: points[at].block,
            index: points[at].statement_index,
            action,
            place: p,
        });
        assert(pattern.matches(body, cg, ng, p));
    }
    if exists|p: Place| #[trigger] pattern.matches(body, cg, ng, p)
        && e == (Edit::Insert { block: points[at].block, index: points[at].statement_index, action, place: p }) {
        let p = choose|p: Place| #[trigger] pattern.matches(body, cg, ng, p)
            && e == (Edit::Insert { block: points[at].block, index: points[at].statement_index, action, place: p });
        assert(chosen(p));
    }
}

/// What a rule plans is exactly what it wants.
pub proof fn lemma_plans_are_wants(m: Mutation, body: BodyModel, points: Seq<ProgramPoint>, at: int, edits: Seq<Edit>)
    requires
        m.plans(body, points, at, edits),
    ensures
        forall|e: Edit| edits.contains(e) <==> m.wants(body, points, at, e),
{
    assert forall|e: Edit| edits.contains(e) <==> m.wants(body, points, at, e) by {
        match m {
            Mutation::BorrowExpiryOrder => {
                assert(edits.contains(e) <==> m.wants(body, points, at, e));
            },
            Mutation::AbstractExpiryOrder => {
                assert(edits.contains(e) <==> m.wants(body, points, at, e));
            },
            Mutation::MutablyLendShared => {
                lemma_pattern_wants(body, points, at, Pattern::Holds(Capability::LentShared), Action::MutBorrow, edits, e);
                assert(edits.contains(e) <==> m.wants(body, points, at, e));
            },
            Mutation::WriteToShared => {
                lemma_pattern_wants(body, points, at, Pattern::Borrowed(BorrowFilter::Shared), Action::Write, edits, e);
                assert(edits.contains(e) <==> m.wants(body, points, at, e));
            },
            Mutation::WriteToReadOnly => {
                lemma_pattern_wants(body, points, at, Pattern::Holds(Capability::Read), Action::Write, edits, e);
                assert(edits.contains(e) <==> m.wants(body, points, at, e));
            },
            Mutation::ReadFromWriteOnly => {
                lemma_pattern_wants(body, points, at, Pattern::Holds(Capability::Write), Action::Read, edits, e);
                assert(edits.contains(e) <==> m.wants(body, points, at, e));
            },
            Mutation::MoveFromBorrowed => {
                lemma_pattern_wants(body, points, at, Pattern::Borrowed(BorrowFilter::Mut), Action::Move, edits, e);
                assert(edits.contains(e) <==> m.wants(body, points, at, e));
            },
            Mutation::MutablyLendReadOnly => {
                lemma_pattern_wants(body, points, at, Pattern::Holds(Capability::Read), Action::MutBorrow, edits, e);
                assert(edits.contains(e) <==> m.wants(body, points, at, e));
            },
            Mutation::WriteToBorrowed => {
                lemma_pattern_wants(body, points, at, Pattern::Holds(Capability::LentShared), Action::Write, edits, e);
                assert(edits.contains(e) <==> m.wants(body, points, at, e));
            },
            Mutation::ShallowExclusiveRead => {
                let cg = curr_graph(points, at);
                let ng = next_graph(points, at);
                let chosen = |q: Place| shallow_read_target(body, cg, ng, q);
                let block = points[at].block;
                let index = points[at].statement_index;
                if edits.contains(e) {
                    let q = choose|q: Place| #[trigger] chosen(q) && e == (Edit::Insert { block, index, action: Action::Read, place: q });
                    assert(shallow_read_target(body, cg, ng, q));
                }
                if m.wants(body, points, at, e) {
                    let q = choose|q: Place| #[trigger] shallow_read_target(body, cg, ng, q)
                        && e == (Edit::Insert { block, index, action: Action::Read, place: q });
                    assert(chosen(q));
                }
                assert(edits.contains(e) <==> m.wants(body, points, at, e));
            },
            Mutation::DropBorrowed => {
                let cg = curr_graph(points, at);
                let ng = next_graph(points, at);
                let chosen = |p: Place| borrowed_at_both(body, cg, ng, BorrowFilter::Any, p);
                let make = |p: Place| Edit::DropAt { block: points[at].block, split: points[at + 1].statement_index, place: p };
                if edits.contains(e) {
                    let p = choose|p: Place| #[trigger] chosen(p) && e == make(p);
                    assert(borrowed_at_both(body, cg, ng, BorrowFilter::Any, p));
                }
                if m.wants(body, points, at, e) {
                    let p = choose|p: Place| #[trigger] borrowed_at_both(body, cg, ng, BorrowFilter::Any, p)
                        && e == (Edit::DropAt { block: points[at].block, split: points[at + 1].statement_index, place: p });
                    assert(chosen(p) && e == make(p));
                }
                assert(edits.contains(e) <==> m.wants(body, points, at, e));
            },
            Mutation::BlockMutableBorrow => {
                let chosen = |p: Place| newly_borrowed(body, points, at, p);
                let make = |p: Place| Edit::BorrowAndReborrow { block: points[at].block, index: points[at].statement_index, place: p };
                if edits.contains(e) {
                    let p = choose|p: Place| #[trigger] chosen(p) && e == make(p);
                    assert(newly_borrowed(body, points, at, p));
                }
                if m.wants(body, points, at, e) {
                    let p = choose|p: Place| #[trigger] newly_borrowed(body, points, at, p)
                        && e == (Edit::BorrowAndReborrow { block: points[at].block, index: points[at].statement_index, place: p });
                    assert(chosen(p) && e == make(p));
                }
                assert(edits.contains(e) <==> m.wants(body, points, at, e));
            },
            Mutation::MutableBorrowMutator => {
                assert(edits.contains(e) <==> m.wants(body, points, at, e));
            },
        }
    }
}

/// The exclusive-borrow-of-shared pattern is sound. A user binding `x` that is
/// lent shared after the main effect of point `at` and after the operands of the
/// next point gets a planned edit. Where the instruction at `at` exists, that edit
/// applies, and the statement it inserts is an exclusive borrow of `x`. A binding
/// that is exclusive at either point gets no edit.
pub proof fn lemma_lend_shared_pattern(body: BodyModel, points: Seq<ProgramPoint>, at: int, edits: Seq<Edit>, x: Place)
    requires
        0 <= at,
        at + 1 < points.len(),
        MutablyLendShared::plans(body, points, at, edits),
    ensures
        holds_at_both(body, curr_graph(points, at), next_graph(points, at), Capability::LentShared, x) ==> {
            let e = Edit::Insert {
                block: points[at].block,
                index: points[at].statement_index,
                action: Action::MutBorrow,
                place: x,
            };
            &&& edits.contains(e)
            &&& e.applies(body) ==> e.result(body).blocks[points[at].block as int].statements[points[at].statement_index + 1]
                == (crate::mir::Statement::Borrow {
                    target: Place { local: body.local_decls.len() as usize, projection: None },
                    kind: crate::mir::BorrowKind::Mut,
                    borrowed: x,
                })
        },
        curr_graph(points, at).wf() && next_graph(points, at).wf() && (curr_graph(points, at).has_capability(
            x,
            Capability::Exclusive,
        ) || next_graph(points, at).has_capability(x, Capability::Exclusive)) ==> forall|k: int|
            0 <= k < edits.len() ==> (#[trigger] edits[k]).places()[0] != x,
{
    let cg = curr_graph(points, at);
    let ng = next_graph(points, at);
    let chosen = |p: Place| Pattern::Holds(Capability::LentShared).matches(body, cg, ng, p);
    let block = points[at].block;
    let index = points[at].statement_index;
    if holds_at_both(body, cg, ng, Capability::LentShared, x) {
        let e = Edit::Insert { block, index, action: Action::MutBorrow, place: x };
        assert(chosen(x));
        assert(edits.contains(e));
        if e.applies(body) {
            let b1 = body.with_fresh_local();
            assert(e.result(body) == b1.with_statement(block as int, index + 1, Action::MutBorrow.statement(x, body.local_decls.len() as usize)));
        }
    }
    if cg.wf() && ng.wf() && (cg.has_capability(x, Capability::Exclusive) || ng.has_capability(x, Capability::Exclusive)) {
        assert forall|k: int| 0 <= k < edits.len() implies (#[trigger] edits[k]).places()[0] != x by {
            assert(edits.contains(edits[k]));
            let p = choose|p: Place| #[trigger] chosen(p) && edits[k] == (Edit::Insert { block, index, action: Action::MutBorrow, place: p });
            if p == x {
                if cg.has_capability(x, Capability::Exclusive) {
                    let i = choose|i: int| 0 <= i < cg.capabilities.len() && cg.capabilities[i] == (x, Capability::Exclusive);
                    let j = choose|j: int| 0 <= j < cg.capabilities.len() && cg.capabilities[j] == (x, Capability::LentShared);
                    assert(cg.capabilities[i].0 == cg.capabilities[j].0);
                } else {
                    let i = choose|i: int| 0 <= i < ng.capabilities.len() && ng.capabilities[i] == (x, Capability::Exclusive);
                    let j = choose|j: int| 0 <= j < ng.capabilities.len() && ng.capabilities[j] == (x, Capability::LentShared);
                    assert(ng.capabilities[i].0 == ng.capabilities[j].0);
                }
            }
        }
    }
}

} // verus!
