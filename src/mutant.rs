//! Mutants, the edits that produce them, and the lazy stream that hands them out.
use vstd::prelude::*;
use crate::mir::{Body, BodyModel, BlockModel, BorrowKind, LocalDecl, Place, ProjectionElem, Statement, Terminator};

verus! {

/// A position in a body: a statement, or the exit when `statement_index` is the block's length.
#[derive(Clone, Copy, Debug, PartialEq, Eq, Structural)]
pub struct MutantLocation {
    pub basic_block: usize,
    pub statement_index: usize,
}

/// Where in a mutant's body its edit lives.
#[derive(Clone, Copy, Debug, PartialEq, Eq, Structural)]
pub struct MutantRange {
    pub start: MutantLocation,
    pub end: MutantLocation,
}

/// An edited copy of a body, where the edit lives, and why it was made.
pub struct Mutant {
    pub body: Body,
    pub range: MutantRange,
    pub info: String,
}

/// The places an instruction acts on.
pub open spec fn statement_places(s: Statement) -> Seq<Place> {
    match s {
        Statement::Opaque { .. } => Seq::empty(),
        Statement::Borrow { target, borrowed, .. } => seq![target, borrowed],
        Statement::Write { place } => seq![place],
        Statement::FakeRead { place } => seq![place],
        Statement::Move { target, source } => seq![target, source],
        Statement::Mention { place } => seq![place],
    }
}

pub open spec fn terminator_places(t: Terminator) -> Seq<Place> {
    match t {
        Terminator::Drop { place, .. } => seq![place],
        _ => Seq::empty(),
    }
}

impl BodyModel {
    /// `l` names a statement of the body, or the exit of a block that has one.
    pub open spec fn located(self, l: MutantLocation) -> bool {
        &&& l.basic_block < self.blocks.len()
        &&& {
            let b = self.blocks[l.basic_block as int];
            l.statement_index < b.statements.len() || (l.statement_index == b.statements.len()
                && b.terminator is Some)
        }
    }

    /// The places that the instruction at `l` acts on.
    pub open spec fn places_at(self, l: MutantLocation) -> Seq<Place> {
        let b = self.blocks[l.basic_block as int];
        if l.statement_index < b.statements.len() {
            statement_places(b.statements[l.statement_index as int])
        } else {
            match b.terminator {
                Some(t) => terminator_places(t),
                None => Seq::empty(),
            }
        }
    }

    /// Every place that the instruction at `l` acts on is a user binding.
    pub open spec fn acts_on_named(self, l: MutantLocation) -> bool {
        forall|k: int| 0 <= k < self.places_at(l).len() ==> self.named(#[trigger] self.places_at(l)[k])
    }
}

impl Mutant {
    /// Both ends of the range are instructions of the mutant's own body, and they
    /// act on user bindings only.
    pub open spec fn well_placed(self) -> bool {
        &&& self.body@.located(self.range.start)
        &&& self.body@.located(self.range.end)
        &&& self.body@.acts_on_named(self.range.start)
        &&& self.body@.acts_on_named(self.range.end)
    }
}

/// The instruction that an insertion adds.
#[derive(Clone, Copy, Debug, PartialEq, Eq, Structural)]
pub enum Action {
    /// An exclusive borrow of the place into a new binding.
    MutBorrow,
    /// A write to the place.
    Write,
    /// A read of the place.
    Read,
    /// A move out of the place into a new binding.
    Move,
}

impl Action {
    pub open spec fn needs_slot(self) -> bool {
        self is MutBorrow || self is Move
    }

    pub open spec fn statement(self, place: Place, slot: usize) -> Statement {
        let target = Place { local: slot, projection: None };
        match self {
            Action::MutBorrow => Statement::Borrow { target, kind: BorrowKind::Mut, borrowed: place },
            Action::Write => Statement::Write { place },
            Action::Read => Statement::FakeRead { place },
            Action::Move => Statement::Move { target, source: place },
        }
    }

    fn wants_slot(&self) -> (r: bool)
        ensures
            r == self.needs_slot(),
    {
        match self {
            Action::MutBorrow => true,
            Action::Move => true,
            _ => false,
        }
    }

    fn make(&self, place: Place, slot: usize) -> (r: Statement)
        ensures
            r == self.statement(place, slot),
    {
        let target = Place { local: slot, projection: None };
        match self {
            Action::MutBorrow => Statement::Borrow { target, kind: BorrowKind::Mut, borrowed: place },
            Action::Write => Statement::Write { place },
            Action::Read => Statement::FakeRead { place },
            Action::Move => Statement::Move { target, source: place },
        }
    }
}

/// A planned change to a body.
#[derive(Clone, Copy, Debug, PartialEq, Eq, Structural)]
pub enum Edit {
    /// Right after statement `index` of `block`, an instruction `action` on `place`.
    Insert { block: usize, index: usize, action: Action, place: Place },
    /// At `index`, a shared borrow of `place`; after the two statements that
    /// follow, a reborrow through that borrow.
    BorrowAndReborrow { block: usize, index: usize, place: Place },
    /// Right after `index`, a shared borrow of `place`; right after `expiry`, a
    /// mention of `place`.
    ExtendBorrow { block: usize, index: usize, expiry: usize, place: Place },
    /// Cut `block` before `split` and end its first part with a drop of `place`.
    DropAt { block: usize, split: usize, place: Place },
    /// Cut `block` before `split`, and add a side branch, reachable only to the
    /// borrow checker, that borrows `blocked` and then `blocking`.
    ReverseExpiry { block: usize, split: usize, blocked: Place, blocking: Place },
}

pub open spec fn whole(local: usize) -> Place {
    Place { local, projection: None }
}

pub open spec fn shared_borrow(target: usize, borrowed: Place) -> Statement {
    Statement::Borrow { target: whole(target), kind: BorrowKind::Shared, borrowed }
}

impl Edit {
    /// The places the edit acts on, besides the bindings it creates.
    pub open spec fn places(self) -> Seq<Place> {
        match self {
            Edit::Insert { place, .. } => seq![place],
            Edit::BorrowAndReborrow { place, .. } => seq![place],
            Edit::ExtendBorrow { place, .. } => seq![place],
            Edit::DropAt { place, .. } => seq![place],
            Edit::ReverseExpiry { blocked, blocking, .. } => seq![blocked, blocking],
        }
    }

    /// Every place the edit acts on is a user binding of `b`.
    pub open spec fn named_in(self, b: BodyModel) -> bool {
        forall|k: int| 0 <= k < self.places().len() ==> b.named(#[trigger] self.places()[k])
    }

    /// The offsets the edit needs exist in `b`, and the new bindings and blocks fit.
    pub open spec fn applies(self, b: BodyModel) -> bool {
        let n = b.blocks.len();
        let l = b.local_decls.len();
        match self {
            Edit::Insert { block, index, .. } => block < n && index < b.blocks[block as int].statements.len()
                && l + 1 < usize::MAX && b.blocks[block as int].statements.len() + 1 < usize::MAX,
            Edit::BorrowAndReborrow { block, index, .. } => block < n
                && index + 2 <= b.blocks[block as int].statements.len() && l + 2 < usize::MAX
                && b.blocks[block as int].statements.len() + 2 < usize::MAX,
            Edit::ExtendBorrow { block, index, expiry, .. } => block < n && index <= expiry
                && expiry < b.blocks[block as int].statements.len() && l + 1 < usize::MAX
                && b.blocks[block as int].statements.len() + 2 < usize::MAX,
            Edit::DropAt { block, split, .. } => block < n && split <= b.blocks[block as int].statements.len()
                && n + 1 < usize::MAX,
            Edit::ReverseExpiry { block, split, .. } => block < n
                && split <= b.blocks[block as int].statements.len() && n + 2 < usize::MAX && l + 2 < usize::MAX,
        }
    }

    /// The edited body.
    pub open spec fn result(self, b: BodyModel) -> BodyModel {
        let n = b.blocks.len();
        let l = b.local_decls.len();
        match self {
            Edit::Insert { block, index, action, place } => {
                let b1 = if action.needs_slot() { b.with_fresh_local() } else { b };
                b1.with_statement(block as int, index + 1, action.statement(place, l as usize))
            },
            Edit::BorrowAndReborrow { block, index, place } => {
                let outer = l as usize;
                let inner = (l + 1) as usize;
                b.with_fresh_local().with_fresh_local().with_statement(
                    block as int,
                    index + 2,
                    shared_borrow(outer, Place { local: inner, projection: Some(ProjectionElem::Deref) }),
                ).with_statement(block as int, index as int, shared_borrow(inner, place))
            },
            Edit::ExtendBorrow { block, index, expiry, place } => b.with_fresh_local().with_statement(
                block as int,
                expiry + 1,
                Statement::Mention { place },
            ).with_statement(block as int, index + 1, shared_borrow(l as usize, place)),
            Edit::DropAt { block, split, place } => b.split_before(block as int, split as int).with_terminator(
                block as int,
                Some(Terminator::Drop { place, target: n as usize }),
            ),
            Edit::ReverseExpiry { block, split, blocked, blocking } => {
                let side = BlockModel {
                    statements: seq![shared_borrow(l as usize, blocked), shared_borrow((l + 1) as usize, blocking)],
                    terminator: Some(Terminator::Unreachable),
                };
                let b1 = b.with_fresh_local().with_fresh_local().split_before(block as int, split as int);
                BodyModel { local_decls: b1.local_decls, blocks: b1.blocks.push(side) }.with_terminator(
                    block as int,
                    Some(Terminator::FalseEdge { real_target: n as usize, imaginary_target: (n + 1) as usize }),
                )
            },
        }
    }

    /// Where the edit lives in the edited body.
    pub open spec fn range(self, b: BodyModel) -> MutantRange {
        let n = b.blocks.len();
        match self {
            Edit::Insert { block, index, .. } => MutantRange {
                start: MutantLocation { basic_block: block, statement_index: (index + 1) as usize },
                end: MutantLocation { basic_block: block, statement_index: (index + 1) as usize },
            },
            Edit::BorrowAndReborrow { block, index, .. } => MutantRange {
                start: MutantLocation { basic_block: block, statement_index: index },
                end: MutantLocation { basic_block: block, statement_index: (index + 3) as usize },
            },
            Edit::ExtendBorrow { block, index, expiry, .. } => MutantRange {
                start: MutantLocation { basic_block: block, statement_index: (index + 1) as usize },
                end: MutantLocation { basic_block: block, statement_index: (expiry + 2) as usize },
            },
            Edit::DropAt { block, split, .. } => MutantRange {
                start: MutantLocation { basic_block: block, statement_index: split },
                end: MutantLocation { basic_block: block, statement_index: split },
            },
            Edit::ReverseExpiry { .. } => MutantRange {
                start: MutantLocation { basic_block: (n + 1) as usize, statement_index: 0 },
                end: MutantLocation { basic_block: (n + 1) as usize, statement_index: 1 },
            },
        }
    }
}

/// Relies on `format!` with the derived `Debug` of `Place`: a readable
/// justification for a mutant. Nothing is stated of the text.
#[verifier::external_body]
fn describe(place: &Place, what: &str) -> String {
    format!("{:?} {}", place, what)
}

fn justification(edit: &Edit) -> String {
    match edit {
        Edit::Insert { action, place, .. } => match action {
            Action::MutBorrow => describe(place, "was lent shared or read-only, so inserted an exclusive borrow of it"),
            Action::Write => describe(place, "was shared or read-only, so inserted a write to it"),
            Action::Read => describe(place, "was write-only, so inserted a read of it"),
            Action::Move => describe(place, "was lent, so inserted a move out of it"),
        },
        Edit::BorrowAndReborrow { place, .. } => describe(place, "was mutably lent, so inserted a borrow and a reborrow of it"),
        Edit::ExtendBorrow { place, .. } => describe(place, "was mutably lent, so inserted a borrow of it that outlives its expiry"),
        Edit::DropAt { place, .. } => describe(place, "was lent, so dropped it"),
        Edit::ReverseExpiry { blocked, .. } => describe(blocked, "was blocked, so borrowed it before the place blocking it"),
    }
}

/// Applies `edit` to an independent copy of `body`; `None` where an offset it
/// needs does not exist.
pub fn apply(body: &Body, edit: &Edit) -> (r: Option<Mutant>)
    ensures
        r is Some <==> edit.applies(body@),
        r matches Some(m) ==> m.body@ == edit.result(body@) && m.range == edit.range(body@),
{
    let n = body.basic_blocks.len();
    let l = body.local_decls.len();
    let info = justification(edit);
    match *edit {
        Edit::Insert { block, index, action, place } => {
            if block >= n || index >= body.basic_blocks[block].statements.len() || l >= usize::MAX - 1
                || body.basic_blocks[block].statements.len() >= usize::MAX - 1 {
                return None;
            }
            let mut mb = body.deep_clone();
            if action.wants_slot() {
                mb.fresh_local();
            }
            mb.splice(block, index + 1, action.make(place, l));
            let at = MutantLocation { basic_block: block, statement_index: index + 1 };
            Some(Mutant { body: mb, range: MutantRange { start: at, end: at }, info })
        },
        Edit::BorrowAndReborrow { block, index, place } => {
            if block >= n || body.basic_blocks[block].statements.len() < 2
                || index > body.basic_blocks[block].statements.len() - 2 || l >= usize::MAX - 2
                || body.basic_blocks[block].statements.len() >= usize::MAX - 2 {
                return None;
            }
            let mut mb = body.deep_clone();
            let outer = mb.fresh_local();
            let inner = mb.fresh_local();
            let through = Place { local: inner, projection: Some(ProjectionElem::Deref) };
            mb.splice(block, index + 2, Statement::Borrow { target: Place::from_local(outer), kind: BorrowKind::Shared, borrowed: through });
            mb.splice(block, index, Statement::Borrow { target: Place::from_local(inner), kind: BorrowKind::Shared, borrowed: place });
            let range = MutantRange {
                start: MutantLocation { basic_block: block, statement_index: index },
                end: MutantLocation { basic_block: block, statement_index: index + 3 },
            };
            Some(Mutant { body: mb, range, info })
        },
        Edit::ExtendBorrow { block, index, expiry, place } => {
            if block >= n || index > expiry || expiry >= body.basic_blocks[block].statements.len() || l >= usize::MAX - 1
                || body.basic_blocks[block].statements.len() >= usize::MAX - 2 {
                return None;
            }
            let mut mb = body.deep_clone();
            let slot = mb.fresh_local();
            mb.splice(block, expiry + 1, Statement::Mention { place });
            mb.splice(block, index + 1, Statement::Borrow { target: Place::from_local(slot), kind: BorrowKind::Shared, borrowed: place });
            let range = MutantRange {
                start: MutantLocation { basic_block: block, statement_index: index + 1 },
                end: MutantLocation { basic_block: block, statement_index: expiry + 2 },
            };
            Some(Mutant { body: mb, range, info })
        },
        Edit::DropAt { block, split, place } => {
            if block >= n || split > body.basic_blocks[block].statements.len() || n >= usize::MAX - 1 {
                return None;
            }
            let mut mb = body.deep_clone();
            let tail = mb.split_block_before(block, split);
            mb.set_terminator(block, Some(Terminator::Drop { place, target: tail }));
            let at = MutantLocation { basic_block: block, statement_index: split };
            Some(Mutant { body: mb, range: MutantRange { start: at, end: at }, info })
        },
        Edit::ReverseExpiry { block, split, blocked, blocking } => {
            if block >= n || split > body.basic_blocks[block].statements.len() || n >= usize::MAX - 2
                || l >= usize::MAX - 2 {
                return None;
            }
            let mut mb = body.deep_clone();
            let first = mb.fresh_local();
            let second = mb.fresh_local();
            let tail = mb.split_block_before(block, split);
            let side = mb.fresh_basic_block();
            let ghost before_side = mb@;
            mb.splice(side, 0, Statement::Borrow { target: Place::from_local(first), kind: BorrowKind::Shared, borrowed: blocked });
            mb.splice(side, 1, Statement::Borrow { target: Place::from_local(second), kind: BorrowKind::Shared, borrowed: blocking });
            assert(mb@.blocks[side as int].statements =~= seq![
                shared_borrow(first, blocked), shared_borrow(second, blocking)]);
            mb.set_terminator(side, Some(Terminator::Unreachable));
            proof {
                let b1 = body@.with_fresh_local().with_fresh_local().split_before(block as int, split as int);
                let side_model = BlockModel {
                    statements: seq![shared_borrow(first, blocked), shared_borrow(second, blocking)],
                    terminator: Some(Terminator::Unreachable),
                };
                assert(mb@.blocks =~= b1.blocks.push(side_model));
            }
            mb.set_terminator(block, Some(Terminator::FalseEdge { real_target: tail, imaginary_target: side }));
            proof {
                assert(mb@.blocks =~= edit.result(body@).blocks);
                assert(mb@.local_decls =~= edit.result(body@).local_decls);
            }
            let range = MutantRange {
                start: MutantLocation { basic_block: side, statement_index: 0 },
                end: MutantLocation { basic_block: side, statement_index: 1 },
            };
            Some(Mutant { body: mb, range, info })
        },
    }
}

/// An edit that applies and acts only on user bindings yields a body whose range
/// ends at instructions that exist in that body, and those instructions act
/// only on user bindings (the bindings an edit creates are user bindings too).
pub proof fn lemma_edit_well_placed(b: BodyModel, e: Edit)
    requires
        e.applies(b),
        e.named_in(b),
    ensures
        e.result(b).located(e.range(b).start),
        e.result(b).located(e.range(b).end),
        e.result(b).acts_on_named(e.range(b).start),
        e.result(b).acts_on_named(e.range(b).end),
{
    let r = e.result(b);
    let g = e.range(b);
    assert(b.named(e.places()[0]));
    match e {
        Edit::Insert { block, index, action, place } => {
            let b1 = if action.needs_slot() { b.with_fresh_local() } else { b };
            assert(b1.named(place));
            assert(r.blocks[block as int].statements.len() == b.blocks[block as int].statements.len() + 1);
            assert(r.blocks[block as int].statements[index + 1] == action.statement(place, b.local_decls.len() as usize));
            if action.needs_slot() {
                assert(r.named(whole(b.local_decls.len() as usize)));
            }
            assert(g.start == MutantLocation { basic_block: block, statement_index: (index + 1) as usize });
            assert(r.places_at(g.start) == statement_places(action.statement(place, b.local_decls.len() as usize)));
        },
        Edit::BorrowAndReborrow { block, index, place } => {
            let l = b.local_decls.len();
            let b2 = b.with_fresh_local().with_fresh_local();
            assert(b2.local_decls[l as int] == LocalDecl { user_variable: true });
            assert(b2.local_decls[l + 1int] == LocalDecl { user_variable: true });
            assert(r.named(whole(l as usize)));
            assert(r.named(whole((l + 1) as usize)));
            assert(r.named(Place { local: (l + 1) as usize, projection: Some(ProjectionElem::Deref) }));
            assert(r.named(place));
            assert(r.places_at(g.start) =~= seq![whole((l + 1) as usize), place]);
            assert(r.places_at(g.end) =~= seq![whole(l as usize), Place { local: (l + 1) as usize, projection: Some(ProjectionElem::Deref) }]);
        },
        Edit::ExtendBorrow { block, index, expiry, place } => {
            let l = b.local_decls.len();
            assert(r.named(whole(l as usize)));
            assert(r.named(place));
            assert(r.places_at(g.start) =~= seq![whole(l as usize), place]);
            assert(r.places_at(g.end) =~= seq![place]);
        },
        Edit::DropAt { block, split, place } => {
            assert(r.named(place));
            assert(r.places_at(g.start) =~= seq![place]);
        },
        Edit::ReverseExpiry { block, split, blocked, blocking } => {
            let l = b.local_decls.len();
            assert(b.named(e.places()[1]));
            assert(r.named(whole(l as usize)));
            assert(r.named(whole((l + 1) as usize)));
            assert(r.named(blocked));
            assert(r.named(blocking));
            assert(r.places_at(g.start) =~= seq![whole(l as usize), blocked]);
            assert(r.places_at(g.end) =~= seq![whole((l + 1) as usize), blocking]);
        },
    }
}

/// The mutants that one rule plans for one pair of program points, produced one
/// at a time: each is built only when it is asked for.
pub struct MutantStream {
    pub edits: Vec<Edit>,
}

impl MutantStream {
    pub fn new(edits: Vec<Edit>) -> (r: MutantStream)
        ensures
            r.edits@ == edits@,
    {
        MutantStream { edits }
    }

    /// Every planned edit acts only on user bindings of `b`.
    pub open spec fn named_in(&self, b: BodyModel) -> bool {
        forall|k: int| 0 <= k < self.edits@.len() ==> (#[trigger] self.edits@[k]).named_in(b)
    }

    /// The next mutant: the last planned edit that applies to `body`, taking off
    /// the edits tried; `None` once no planned edit applies.
    pub fn next(&mut self, body: &Body) -> (r: Option<Mutant>)
        ensures
            final(self).edits@ == old(self).edits@.take(final(self).edits@.len() as int),
            r is None ==> final(self).edits@.len() == 0 && forall|k: int| 0 <= k < old(self).edits@.len()
                ==> !(#[trigger] old(self).edits@[k]).applies(body@),
            r matches Some(m) ==> {
                let k = final(self).edits@.len() as int;
                &&& k < old(self).edits@.len()
                &&& old(self).edits@[k].applies(body@)
                &&& m.body@ == old(self).edits@[k].result(body@)
                &&& m.range == old(self).edits@[k].range(body@)
                &&& forall|j: int| k < j < old(self).edits@.len() ==> !(#[trigger] old(self).edits@[j]).applies(body@)
            },
            old(self).named_in(body@) ==> (r matches Some(m) ==> m.well_placed()),
            old(self).named_in(body@) ==> final(self).named_in(body@),
    {
        while self.edits.len() > 0
            invariant
                self.edits@ == old(self).edits@.take(self.edits@.len() as int),
                self.edits@.len() <= old(self).edits@.len(),
                forall|j: int| self.edits@.len() <= j < old(self).edits@.len() ==> !(#[trigger] old(self).edits@[j]).applies(body@),
            decreases self.edits.len(),
        {
            let last = self.edits.len() - 1;
            let edit = self.edits[last];
            self.edits.pop();
            assert(self.edits@ =~= old(self).edits@.take(last as int));
            match apply(body, &edit) {
                Some(m) => {
                    proof {
                        if old(self).named_in(body@) {
                            assert(old(self).edits@[last as int] == edit);
                            lemma_edit_well_placed(body@, edit);
                        }
                    }
                    return Some(m);
                },
                None => {},
            }
        }
        None
    }

    /// How many planned edits are left.
    pub fn remaining(&self) -> (r: usize)
        ensures
            r == self.edits@.len(),
    {
        self.edits.len()
    }
}

} // verus!
