//! A mutation engine for borrow checkers: from the capability graphs of a
//! function body it plans small edits that a sound borrow checker must reject, and
//! hands the edited bodies out one at a time.
pub mod mir;
pub mod graph;
pub mod mutant;
pub mod rules;
pub mod driver;
pub mod errors;
pub mod depth;
pub mod flags;

use vstd::prelude::*;

verus! {

/// The results of one rule over a run: how many mutants were checked, how many
/// the borrow checker accepted and rejected, and the codes it rejected them with.
pub struct MutatorData {
    pub instances: i64,
    pub passed: i64,
    pub failed: i64,
    pub error_codes: Vec<u32>,
}

impl MutatorData {
    pub fn new() -> (r: MutatorData)
        ensures
            r.instances == 0 && r.passed == 0 && r.failed == 0,
            r.error_codes@.len() == 0,
    {
        MutatorData { instances: 0, passed: 0, failed: 0, error_codes: Vec::new() }
    }

    /// Each code appears once.
    pub open spec fn wf(&self) -> bool {
        self.error_codes@.no_duplicates()
    }

    /// Counts one checked mutant: accepted, or rejected with `codes`.
    pub fn record(&mut self, accepted: bool, codes: &Vec<u32>)
        requires
            old(self).wf(),
            old(self).instances < i64::MAX,
            old(self).passed < i64::MAX,
            old(self).failed < i64::MAX,
        ensures
            final(self).wf(),
            final(self).instances == old(self).instances + 1,
            accepted ==> final(self).passed == old(self).passed + 1 && final(self).failed == old(self).failed
                && final(self).error_codes@ == old(self).error_codes@,
            !accepted ==> final(self).failed == old(self).failed + 1 && final(self).passed == old(self).passed,
            !accepted ==> forall|c: u32| final(self).error_codes@.contains(c) <==> (old(self).error_codes@.contains(c) || codes@.contains(c)),
    {
        self.instances = self.instances + 1;
        if accepted {
            self.passed = self.passed + 1;
        } else {
            self.failed = self.failed + 1;
            let ghost start = self.error_codes@;
            let mut i: usize = 0;
            while i < codes.len()
                invariant
                    i <= codes.len(),
                    self.instances == old(self).instances + 1,
                    self.passed == old(self).passed,
                    self.failed == old(self).failed + 1,
                    start == old(self).error_codes@,
                    self.error_codes@.no_duplicates(),
                    forall|d: u32| #[trigger] self.error_codes@.contains(d) <==> (start.contains(d) || codes@.take(i as int).contains(d)),
                decreases codes.len() - i,
            {
                let c = codes[i];
                let found = contains_code(&self.error_codes, c);
                let ghost before = self.error_codes@;
                if !found {
                    self.error_codes.push(c);
                }
                proof {
                    if !found {
                        crate::graph::lemma_push_no_duplicates(before, c);
                        assert(self.error_codes@.no_duplicates());
                    } else {
                        assert(before.contains(c));
                        assert(start.contains(c) || codes@.take(i as int).contains(c));
                    }
                }
                let ghost i0 = i as int;
                i = i + 1;
                proof {
                    assert(codes@.take(i as int) =~= codes@.take(i0).push(c));
                    assert forall|d: u32| #[trigger] self.error_codes@.contains(d) <==> (start.contains(d) || codes@.take(i as int).contains(d)) by {
                        crate::graph::lemma_push_contains(codes@.take(i0), c, d);
                        assert(before.contains(d) <==> (start.contains(d) || codes@.take(i0).contains(d)));
                        if !found {
                            crate::graph::lemma_push_contains(before, c, d);
                        }
                    }
                }
            }
            assert(codes@.take(codes.len() as int) =~= codes@);
        }
    }
}

fn contains_code(v: &Vec<u32>, c: u32) -> (r: bool)
    ensures
        r == v@.contains(c),
{
    let mut i: usize = 0;
    while i < v.len()
        invariant
            i <= v.len(),
            forall|k: int| 0 <= k < i ==> v@[k] != c,
        decreases v.len() - i,
    {
        if v[i] == c {
            return true;
        }
        i = i + 1;
    }
    false
}

} // verus!
