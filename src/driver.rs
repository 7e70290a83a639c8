//! The driver: walks a body's blocks and program points, asks the rule for a
//! stream at each pair of adjacent points, and hands out its mutants one by one.
use vstd::prelude::*;
use std::collections::VecDeque;
use crate::graph::{Analysis, ProgramPoint};
use crate::mir::{Body, BodyModel};
use crate::mutant::Edit;
use crate::rules::lemma_plans_are_wants;
use crate::mutant::{Mutant, MutantStream};
use crate::rules::Mutation;

verus! {

/// Every graph after the operands of an analysed point can be searched: it is
/// small enough, and its borrow and abstraction edges form no cycle.
pub open spec fn graphs_fit(analysis: &Analysis) -> bool {
    forall|b: int, k: int|
        0 <= b < analysis.blocks@.len() && (#[trigger] analysis.blocks@[b]) is Some
            && 0 <= k < analysis.blocks@[b]->0@.len()
            ==> (#[trigger] analysis.blocks@[b]->0@[k]).post_operands.edges@.len() * 16 <= usize::MAX
                && analysis.blocks@[b]->0@[k].post_operands@.acyclic()
}

/// The points of block `b`, where it was analysed.
pub open spec fn block_points(analysis: &Analysis, b: usize) -> Option<Seq<ProgramPoint>> {
    if b < analysis.blocks@.len() && analysis.blocks@[b as int] is Some {
        Some(analysis.blocks@[b as int]->0@)
    } else {
        None
    }
}

/// The rule plans `e` for some pair of adjacent points of `pts` from `from` on.
pub open spec fn pair_wants(m: Mutation, body: BodyModel, pts: Seq<ProgramPoint>, from: int, e: Edit) -> bool {
    exists|at: int| from <= at && at + 1 < pts.len() && #[trigger] m.wants(body, pts, at, e)
}

pub open spec fn lex_below(a: (int, int, int), b: (int, int, int)) -> bool {
    a.0 < b.0 || (a.0 == b.0 && (a.1 < b.1 || (a.1 == b.1 && a.2 < b.2)))
}

/// Generates the mutants of one body for one rule.
pub struct Mutator {
    pub mutation: Mutation,
    /// The stream of the current pair of points.
    pub mutants: MutantStream,
    /// The blocks not visited yet, in declaration order.
    pub basic_blocks: VecDeque<usize>,
    /// The block whose points are being walked, if it was analysed.
    pub bb_stmts: Option<usize>,
    /// The index of the next point of that block to pair with its successor.
    pub stmt_idx: usize,
}

impl Mutator {
    /// The points of the block being walked.
    pub open spec fn points(&self, analysis: &Analysis) -> Seq<ProgramPoint> {
        match self.bb_stmts {
            Some(b) => analysis.blocks@[b as int]->0@,
            None => Seq::empty(),
        }
    }

    /// The cursor agrees with the body and its analysis.
    pub open spec fn wf(&self, body: &Body, analysis: &Analysis) -> bool {
        &&& graphs_fit(analysis)
        &&& self.mutants.named_in(body@)
        &&& self.bb_stmts matches Some(b) ==> b < analysis.blocks@.len() && analysis.blocks@[b as int] is Some
            && self.stmt_idx <= self.points(analysis).len()
    }

    /// What is left to do: blocks, points of the current block, planned edits.
    pub open spec fn rank(&self, analysis: &Analysis) -> (int, int, int) {
        (
            self.basic_blocks@.len() as int,
            if self.bb_stmts is Some { self.points(analysis).len() - self.stmt_idx } else { 0 },
            self.mutants.edits@.len() as int,
        )
    }

    /// Edit `e` is still to be tried: the current stream plans it, or the rule plans
    /// it for a pair of points not visited yet.
    pub open spec fn may_yield(&self, body: BodyModel, analysis: &Analysis, e: Edit) -> bool {
        ||| self.mutants.edits@.contains(e)
        ||| (self.bb_stmts is Some && pair_wants(self.mutation, body, self.points(analysis), self.stmt_idx as int, e))
        ||| exists|k: int| 0 <= k < self.basic_blocks@.len() && (#[trigger] block_points(analysis, self.basic_blocks@[k])) is Some
                && pair_wants(self.mutation, body, block_points(analysis, self.basic_blocks@[k])->0, 0, e)
    }

    /// `m` is what an edit still to be tried makes of the body.
    pub open spec fn could_yield(&self, body: BodyModel, analysis: &Analysis, m: Mutant) -> bool {
        exists|e: Edit| #[trigger] self.may_yield(body, analysis, e) && e.applies(body) && m.body@ == e.result(body)
            && m.range == e.range(body)
    }

    /// Some edit still to be tried applies to the body.
    pub open spec fn has_work(&self, body: BodyModel, analysis: &Analysis) -> bool {
        exists|e: Edit| #[trigger] self.may_yield(body, analysis, e) && e.applies(body)
    }

    /// Nothing is left to do.
    pub open spec fn done(&self) -> bool {
        self.basic_blocks@.len() == 0 && self.bb_stmts is None && self.mutants.edits@.len() == 0
    }

    /// A driver at the start of `body`, with every block queued in declaration order.
    pub fn new(mutation: Mutation, body: &Body) -> (r: Mutator)
        ensures
            r.mutation == mutation,
            r.basic_blocks@.len() == body.basic_blocks@.len(),
            forall|k: int| 0 <= k < r.basic_blocks@.len() ==> r.basic_blocks@[k] == k,
            r.bb_stmts is None,
            r.stmt_idx == 0,
            r.mutants.edits@.len() == 0,
    {
        let mut queue: VecDeque<usize> = VecDeque::new();
        let n = body.basic_blocks.len();
        let mut b: usize = 0;
        while b < n
            invariant
                b <= n,
                queue@.len() == b,
                forall|k: int| 0 <= k < b ==> queue@[k] == k,
            decreases n - b,
        {
            queue.push_back(b);
            b = b + 1;
        }
        Mutator { mutation, mutants: MutantStream::new(Vec::new()), basic_blocks: queue, bb_stmts: None, stmt_idx: 0 }
    }

    pub fn name(&self) -> (r: &'static str)
        ensures
            r@ == self.mutation.name_spec(),
    {
        self.mutation.name()
    }

    /// The block being walked, if any.
    fn curr_bb(&self) -> (r: Option<usize>)
        ensures
            r == self.bb_stmts,
    {
        self.bb_stmts
    }

    /// The next mutant of the body, or `None` once every block has been walked.
    /// Each call that yields a mutant leaves strictly less to do, so the calls end.
    pub fn next(&mut self, body: &Body, analysis: &Analysis) -> (r: Option<Mutant>)
        requires
            old(self).wf(body, analysis),
        ensures
            final(self).wf(body, analysis),
            final(self).mutation == old(self).mutation,
            r matches Some(m) ==> m.well_placed() && lex_below(final(self).rank(analysis), old(self).rank(analysis)),
            r matches Some(m) ==> old(self).could_yield(body@, analysis, m),
            r is None ==> final(self).done() && !old(self).has_work(body@, analysis),
            forall|e: Edit| #[trigger] final(self).may_yield(body@, analysis, e) ==> old(self).may_yield(body@, analysis, e),
            forall|e: Edit| #[trigger] old(self).may_yield(body@, analysis, e) && e.applies(body@) ==> final(self).may_yield(
                body@,
                analysis,
                e,
            ) || (r is Some && r->0.body@ == e.result(body@) && r->0.range == e.range(body@)),
            old(self).done() ==> r is None && final(self).stmt_idx == old(self).stmt_idx && final(self).bb_stmts
                == old(self).bb_stmts && final(self).basic_blocks@ == old(self).basic_blocks@
                && final(self).mutants.edits@ == old(self).mutants.edits@,
    {
        loop
            invariant
                self.wf(body, analysis),
                self.mutation == old(self).mutation,
                self.rank(analysis) == old(self).rank(analysis) || lex_below(self.rank(analysis), old(self).rank(analysis)),
                forall|e: Edit| #[trigger] self.may_yield(body@, analysis, e) ==> old(self).may_yield(body@, analysis, e),
                forall|e: Edit| #[trigger] old(self).may_yield(body@, analysis, e) && e.applies(body@)
                    ==> self.may_yield(body@, analysis, e),
                old(self).done() ==> self.done() && self.stmt_idx == old(self).stmt_idx,
            decreases self.rank(analysis).0, self.rank(analysis).1, self.rank(analysis).2,
        {
            let ghost before = self.rank(analysis);
            let ghost s0 = *self;
            match self.mutants.next(body) {
                Some(m) => {
                    proof {
                        let k = self.mutants.edits@.len() as int;
                        let e = s0.mutants.edits@[k];
                        assert(s0.mutants.edits@.contains(e));
                        assert(s0.may_yield(body@, analysis, e));
                        assert forall|e2: Edit| #[trigger] self.may_yield(body@, analysis, e2) implies s0.may_yield(body@, analysis, e2) by {
                            if self.mutants.edits@.contains(e2) {
                                let j = choose|j: int| 0 <= j < self.mutants.edits@.len() && self.mutants.edits@[j] == e2;
                                assert(s0.mutants.edits@[j] == e2);
                            }
                        }
                        assert forall|e2: Edit| #[trigger] s0.may_yield(body@, analysis, e2) && e2.applies(body@) implies self.may_yield(
                            body@,
                            analysis,
                            e2,
                        ) || (m.body@ == e2.result(body@) && m.range == e2.range(body@)) by {
                            if s0.mutants.edits@.contains(e2) {
                                let j = choose|j: int| 0 <= j < s0.mutants.edits@.len() && s0.mutants.edits@[j] == e2;
                                if j < k {
                                    assert(self.mutants.edits@[j] == e2);
                                } else if j > k {
                                    assert(!s0.mutants.edits@[j].applies(body@));
                                }
                            }
                        }
                    }
                    return Some(m);
                },
                None => {},
            }
            proof {
                assert forall|e: Edit| #[trigger] self.may_yield(body@, analysis, e) implies s0.may_yield(body@, analysis, e) by {
                    assert(self.mutants.edits@.len() == 0);
                }
                assert forall|e: Edit| #[trigger] s0.may_yield(body@, analysis, e) && e.applies(body@) implies self.may_yield(body@, analysis, e) by {
                    if s0.mutants.edits@.contains(e) {
                        let k = choose|k: int| 0 <= k < s0.mutants.edits@.len() && s0.mutants.edits@[k] == e;
                        assert(!s0.mutants.edits@[k].applies(body@));
                    }
                    assert(self.may_yield(body@, analysis, e));
                }
            }
            let ghost s1 = *self;
            let mut advanced = false;
            match self.curr_bb() {
                Some(b) => {
                    match &analysis.blocks[b] {
                        Some(points) => {
                            if points.len() >= 1 && self.stmt_idx < points.len() - 1 {
                                proof {
                                    assert(graphs_fit(analysis));
                                    assert(analysis.blocks@[b as int] is Some);
                                    assert(points@[self.stmt_idx + 1].post_operands.edges@.len() * 16 <= usize::MAX);
                                    assert(points@[self.stmt_idx + 1].post_operands@.acyclic());
                                }
                                let at = self.stmt_idx;
                                self.mutants = self.mutation.make_stream(body, points, at);
                                self.stmt_idx = at + 1;
                                advanced = true;
                                proof {
                                    lemma_plans_are_wants(self.mutation, body@, points@, at as int, self.mutants.edits@);
                                    assert(s1.points(analysis) == points@);
                                    assert(self.points(analysis) == points@);
                                    assert forall|e: Edit| #[trigger] self.may_yield(body@, analysis, e) implies s1.may_yield(body@, analysis, e) by {
                                        if self.mutants.edits@.contains(e) {
                                            assert(self.mutation.wants(body@, points@, at as int, e));
                                            assert(pair_wants(s1.mutation, body@, s1.points(analysis), s1.stmt_idx as int, e));
                                        }
                                        if pair_wants(self.mutation, body@, points@, self.stmt_idx as int, e) {
                                            let a = choose|a: int| self.stmt_idx <= a && a + 1 < points@.len() && #[trigger] self.mutation.wants(body@, points@, a, e);
                                            assert(pair_wants(s1.mutation, body@, s1.points(analysis), s1.stmt_idx as int, e));
                                        }
                                    }
                                    assert forall|e: Edit| #[trigger] s1.may_yield(body@, analysis, e) && e.applies(body@) implies self.may_yield(body@, analysis, e) by {
                                        if pair_wants(s1.mutation, body@, s1.points(analysis), s1.stmt_idx as int, e) {
                                            let a = choose|a: int| s1.stmt_idx <= a && a + 1 < points@.len() && #[trigger] s1.mutation.wants(body@, points@, a, e);
                                            if a == at {
                                                assert(self.mutants.edits@.contains(e));
                                            } else {
                                                assert(pair_wants(self.mutation, body@, points@, self.stmt_idx as int, e));
                                            }
                                        }
                                        assert(self.may_yield(body@, analysis, e));
                                    }
                                }
                            }
                        },
                        None => {},
                    }
                },
                None => {},
            }
            if !advanced {
                proof {
                    assert forall|e: Edit| !(s1.bb_stmts is Some && pair_wants(s1.mutation, body@, s1.points(analysis), s1.stmt_idx as int, e)) by {
                        if s1.bb_stmts is Some && pair_wants(s1.mutation, body@, s1.points(analysis), s1.stmt_idx as int, e) {
                            let a = choose|a: int| s1.stmt_idx <= a && a + 1 < s1.points(analysis).len() && #[trigger] s1.mutation.wants(body@, s1.points(analysis), a, e);
                        }
                    }
                }
                match self.basic_blocks.pop_front() {
                    Some(b) => {
                        self.stmt_idx = 0;
                        if b < analysis.blocks.len() && analysis.blocks[b].is_some() {
                            self.bb_stmts = Some(b);
                        } else {
                            self.bb_stmts = None;
                        }
                        proof {
                            assert(s1.basic_blocks@[0] == b);
                            assert forall|e: Edit| #[trigger] self.may_yield(body@, analysis, e) implies s1.may_yield(body@, analysis, e) by {
                                if self.bb_stmts is Some && pair_wants(self.mutation, body@, self.points(analysis), 0, e) {
                                    assert(block_points(analysis, s1.basic_blocks@[0]) is Some);
                                }
                                if exists|k: int| 0 <= k < self.basic_blocks@.len() && (#[trigger] block_points(analysis, self.basic_blocks@[k])) is Some
                                    && pair_wants(self.mutation, body@, block_points(analysis, self.basic_blocks@[k])->0, 0, e) {
                                    let k = choose|k: int| 0 <= k < self.basic_blocks@.len() && (#[trigger] block_points(analysis, self.basic_blocks@[k])) is Some
                                        && pair_wants(self.mutation, body@, block_points(analysis, self.basic_blocks@[k])->0, 0, e);
                                    assert(s1.basic_blocks@[k + 1] == self.basic_blocks@[k]);
                                }
                            }
                            assert forall|e: Edit| #[trigger] s1.may_yield(body@, analysis, e) && e.applies(body@) implies self.may_yield(body@, analysis, e) by {
                                let k = choose|k: int| 0 <= k < s1.basic_blocks@.len() && (#[trigger] block_points(analysis, s1.basic_blocks@[k])) is Some
                                    && pair_wants(s1.mutation, body@, block_points(analysis, s1.basic_blocks@[k])->0, 0, e);
                                if k == 0 {
                                    assert(self.bb_stmts == Some(b));
                                    assert(self.points(analysis) == block_points(analysis, b)->0);
                                } else {
                                    assert(self.basic_blocks@[k - 1] == s1.basic_blocks@[k]);
                                }
                                assert(self.may_yield(body@, analysis, e));
                            }
                        }
                    },
                    None => {
                        self.bb_stmts = None;
                        proof {
                            assert forall|e: Edit| #[trigger] s1.may_yield(body@, analysis, e) && e.applies(body@) implies false by {
                            }
                        }
                        return None;
                    },
                }
            }
        }
    }

    /// Every remaining mutant of the body, in order; the walk always ends.
    pub fn collect_mutants(&mut self, body: &Body, analysis: &Analysis) -> (r: Vec<Mutant>)
        requires
            old(self).wf(body, analysis),
        ensures
            final(self).done(),
            forall|k: int| 0 <= k < r@.len() ==> (#[trigger] r@[k]).well_placed(),
            forall|k: int| 0 <= k < r@.len() ==> old(self).could_yield(body@, analysis, #[trigger] r@[k]),
            old(self).has_work(body@, analysis) ==> r@.len() > 0,
            forall|e: Edit| #[trigger] old(self).may_yield(body@, analysis, e) && e.applies(body@) ==> exists|k: int|
                0 <= k < r@.len() && r@[k].body@ == e.result(body@) && r@[k].range == e.range(body@),
    {
        let mut all: Vec<Mutant> = Vec::new();
        loop
            invariant
                self.wf(body, analysis),
                forall|k: int| 0 <= k < all@.len() ==> (#[trigger] all@[k]).well_placed(),
                forall|e: Edit| #[trigger] self.may_yield(body@, analysis, e) ==> old(self).may_yield(body@, analysis, e),
                forall|k: int| 0 <= k < all@.len() ==> old(self).could_yield(body@, analysis, #[trigger] all@[k]),
                all@.len() == 0 ==> (old(self).has_work(body@, analysis) ==> self.has_work(body@, analysis)),
                forall|e: Edit| #[trigger] old(self).may_yield(body@, analysis, e) && e.applies(body@) ==> self.may_yield(
                    body@,
                    analysis,
                    e,
                ) || exists|k: int| 0 <= k < all@.len() && all@[k].body@ == e.result(body@) && all@[k].range == e.range(body@),
            decreases self.rank(analysis).0, self.rank(analysis).1, self.rank(analysis).2,
        {
            let ghost s0 = *self;
            let ghost a0 = all@;
            match self.next(body, analysis) {
                Some(m) => {
                    all.push(m);
                    proof {
                        assert forall|e: Edit| #[trigger] old(self).may_yield(body@, analysis, e) && e.applies(body@) implies self.may_yield(
                            body@,
                            analysis,
                            e,
                        ) || exists|k: int| 0 <= k < all@.len() && all@[k].body@ == e.result(body@) && all@[k].range == e.range(body@) by {
                            if !s0.may_yield(body@, analysis, e) {
                                let k = choose|k: int| 0 <= k < a0.len() && a0[k].body@ == e.result(body@) && a0[k].range == e.range(body@);
                                assert(all@[k] == a0[k]);
                            } else if !self.may_yield(body@, analysis, e) {
                                assert(all@[a0.len() as int] == m);
                            }
                        }
                    }
                },
                None => {
                    proof {
                        assert forall|e: Edit| #[trigger] old(self).may_yield(body@, analysis, e) && e.applies(body@) implies exists|k: int|
                            0 <= k < all@.len() && all@[k].body@ == e.result(body@) && all@[k].range == e.range(body@) by {
                            if s0.may_yield(body@, analysis, e) {
                                assert(s0.has_work(body@, analysis));
                            }
                        }
                    }
                    return all;
                },
            }
        }
    }
}

} // verus!
