//! A small model of a function body: locals, places, statements and blocks,
//! together with the edit primitives that the mutation rules build on.
use vstd::prelude::*;

verus! {

/// One step from a local into its contents.
#[derive(Clone, Copy, Debug, PartialEq, Eq, Structural)]
pub enum ProjectionElem {
    Deref,
    Field(usize),
    Index(usize),
}

/// A storage location: a local slot, optionally refined by one projection step.
#[derive(Clone, Copy, Debug, PartialEq, Eq, Structural)]
pub struct Place {
    pub local: usize,
    pub projection: Option<ProjectionElem>,
}

impl Place {
    /// The whole of a local.
    pub fn from_local(local: usize) -> (r: Place)
        ensures
            r == (Place { local, projection: None }),
    {
        Place { local, projection: None }
    }
}

/// How a borrow takes its place.
#[derive(Clone, Copy, Debug, PartialEq, Eq, Structural)]
pub enum BorrowKind {
    Shared,
    Mut,
    TwoPhaseMut,
    Fake,
}

/// Whether a borrow is a plain exclusive (mutable) borrow.
pub fn is_mut(kind: BorrowKind) -> (r: bool)
    ensures
        r == (kind == BorrowKind::Mut),
{
    match kind {
        BorrowKind::Mut => true,
        _ => false,
    }
}

/// Whether a borrow is a shared borrow.
pub fn is_shared(kind: BorrowKind) -> (r: bool)
    ensures
        r == (kind == BorrowKind::Shared),
{
    match kind {
        BorrowKind::Shared => true,
        _ => false,
    }
}

/// An instruction inside a block.
#[derive(Clone, Copy, Debug, PartialEq, Eq, Structural)]
pub enum Statement {
    /// An instruction that the engine does not interpret.
    Opaque { id: u64 },
    /// `target = &kind borrowed`
    Borrow { target: Place, kind: BorrowKind, borrowed: Place },
    /// An assignment that overwrites `place`.
    Write { place: Place },
    /// A use of `place` that only reads it.
    FakeRead { place: Place },
    /// `target = move source`
    Move { target: Place, source: Place },
    /// A mention of `place` that keeps its borrows alive.
    Mention { place: Place },
}

/// How control leaves a block.
#[derive(Clone, Copy, Debug, PartialEq, Eq, Structural)]
pub enum Terminator {
    Goto { target: usize },
    Return,
    Unreachable,
    /// Control always goes to `real_target`; the borrow checker also considers `imaginary_target`.
    FalseEdge { real_target: usize, imaginary_target: usize },
    /// Ends the scope of `place`, then continues at `target`.
    Drop { place: Place, target: usize },
    Opaque { id: u64 },
}

/// The declaration of a local slot.
#[derive(Clone, Copy, Debug, PartialEq, Eq, Structural)]
pub struct LocalDecl {
    /// True for a binding the user wrote, false for a compiler temporary.
    pub user_variable: bool,
}

pub struct BasicBlock {
    pub statements: Vec<Statement>,
    pub terminator: Option<Terminator>,
}

pub struct BlockModel {
    pub statements: Seq<Statement>,
    pub terminator: Option<Terminator>,
}

impl View for BasicBlock {
    type V = BlockModel;

    open spec fn view(&self) -> BlockModel {
        BlockModel { statements: self.statements@, terminator: self.terminator }
    }
}

pub struct Body {
    pub local_decls: Vec<LocalDecl>,
    pub basic_blocks: Vec<BasicBlock>,
}

pub struct BodyModel {
    pub local_decls: Seq<LocalDecl>,
    pub blocks: Seq<BlockModel>,
}

impl View for Body {
    type V = BodyModel;

    open spec fn view(&self) -> BodyModel {
        BodyModel {
            local_decls: self.local_decls@,
            blocks: self.basic_blocks@.map_values(|b: BasicBlock| b@),
        }
    }
}

impl BodyModel {
    /// The place's local is a binding the user wrote.
    pub open spec fn named(self, p: Place) -> bool {
        p.local < self.local_decls.len() && self.local_decls[p.local as int].user_variable
    }

    /// The body with one more user-visible local.
    pub open spec fn with_fresh_local(self) -> BodyModel {
        BodyModel {
            local_decls: self.local_decls.push(LocalDecl { user_variable: true }),
            blocks: self.blocks,
        }
    }

    /// The body with `s` inserted at position `i` of block `bb`.
    pub open spec fn with_statement(self, bb: int, i: int, s: Statement) -> BodyModel {
        BodyModel {
            local_decls: self.local_decls,
            blocks: self.blocks.update(
                bb,
                BlockModel {
                    statements: self.blocks[bb].statements.insert(i, s),
                    terminator: self.blocks[bb].terminator,
                },
            ),
        }
    }

    /// The body with block `bb`'s terminator replaced.
    pub open spec fn with_terminator(self, bb: int, t: Option<Terminator>) -> BodyModel {
        BodyModel {
            local_decls: self.local_decls,
            blocks: self.blocks.update(
                bb,
                BlockModel { statements: self.blocks[bb].statements, terminator: t },
            ),
        }
    }

    /// The body with block `bb` cut before statement `i`: the prefix stays in `bb`
    /// with no exit, the rest and the exit move to a new block at the end.
    pub open spec fn split_before(self, bb: int, i: int) -> BodyModel {
        BodyModel {
            local_decls: self.local_decls,
            blocks: self.blocks.update(
                bb,
                BlockModel { statements: self.blocks[bb].statements.take(i), terminator: None },
            ).push(
                BlockModel {
                    statements: self.blocks[bb].statements.skip(i),
                    terminator: self.blocks[bb].terminator,
                },
            ),
        }
    }
}

/// Whether `place` belongs to a binding the user wrote.
pub fn has_named_local(place: Place, body: &Body) -> (r: bool)
    ensures
        r == body@.named(place),
{
    if place.local < body.local_decls.len() {
        body.local_decls[place.local].user_variable
    } else {
        false
    }
}

/// Copies a list of statements.
fn copy_statements(v: &Vec<Statement>) -> (r: Vec<Statement>)
    ensures
        r@ == v@,
{
    let mut r: Vec<Statement> = Vec::new();
    let mut i: usize = 0;
    while i < v.len()
        invariant
            i <= v.len(),
            r@ == v@.take(i as int),
        decreases v.len() - i,
    {
        r.push(v[i]);
        i = i + 1;
        assert(r@ =~= v@.take(i as int));
    }
    assert(v@.take(v.len() as int) =~= v@);
    r
}

impl BasicBlock {
    pub fn empty() -> (r: BasicBlock)
        ensures
            r@ == (BlockModel { statements: Seq::empty(), terminator: None }),
    {
        BasicBlock { statements: Vec::new(), terminator: None }
    }

    /// An independent copy of the block.
    pub fn deep_clone(&self) -> (r: BasicBlock)
        ensures
            r@ == self@,
    {
        BasicBlock { statements: copy_statements(&self.statements), terminator: self.terminator }
    }
}

impl Body {
    /// An independent copy of the body: nothing in it is shared with `self`.
    pub fn deep_clone(&self) -> (r: Body)
        ensures
            r@ == self@,
    {
        let mut locals: Vec<LocalDecl> = Vec::new();
        let mut i: usize = 0;
        while i < self.local_decls.len()
            invariant
                i <= self.local_decls.len(),
                locals@ == self.local_decls@.take(i as int),
            decreases self.local_decls.len() - i,
        {
            locals.push(self.local_decls[i]);
            i = i + 1;
            assert(locals@ =~= self.local_decls@.take(i as int));
        }
        assert(self.local_decls@.take(self.local_decls.len() as int) =~= self.local_decls@);
        let mut blocks: Vec<BasicBlock> = Vec::new();
        let mut j: usize = 0;
        while j < self.basic_blocks.len()
            invariant
                j <= self.basic_blocks.len(),
                blocks.len() == j,
                forall|k: int| 0 <= k < j ==> #[trigger] blocks@[k]@ == self.basic_blocks@[k]@,
            decreases self.basic_blocks.len() - j,
        {
            blocks.push(self.basic_blocks[j].deep_clone());
            j = j + 1;
        }
        let r = Body { local_decls: locals, basic_blocks: blocks };
        assert(r@.blocks =~= self@.blocks);
        r
    }

    /// Appends a new user-visible local and returns its index.
    pub fn fresh_local(&mut self) -> (r: usize)
        requires
            old(self).local_decls.len() < usize::MAX,
        ensures
            r == old(self).local_decls.len(),
            final(self)@ == old(self)@.with_fresh_local(),
    {
        let r = self.local_decls.len();
        self.local_decls.push(LocalDecl { user_variable: true });
        r
    }

    /// Appends an empty block and returns its index.
    pub fn fresh_basic_block(&mut self) -> (r: usize)
        ensures
            r == old(self).basic_blocks.len(),
            final(self)@ == (BodyModel {
                local_decls: old(self)@.local_decls,
                blocks: old(self)@.blocks.push(BlockModel { statements: Seq::empty(), terminator: None }),
            }),
    {
        let r = self.basic_blocks.len();
        self.basic_blocks.push(BasicBlock::empty());
        proof {
            assert(self@.blocks =~= old(self)@.blocks.push(BlockModel { statements: Seq::empty(), terminator: None }));
        }
        r
    }

    /// Inserts `s` at position `i` of block `bb`, shifting the later statements.
    pub fn splice(&mut self, bb: usize, i: usize, s: Statement)
        requires
            bb < old(self)@.blocks.len(),
            i <= old(self)@.blocks[bb as int].statements.len(),
        ensures
            final(self)@ == old(self)@.with_statement(bb as int, i as int, s),
    {
        let mut blk = BasicBlock::empty();
        self.basic_blocks.set_and_swap(bb, &mut blk);
        blk.statements.insert(i, s);
        self.basic_blocks.set_and_swap(bb, &mut blk);
        proof {
            assert(self@.blocks =~= old(self)@.with_statement(bb as int, i as int, s).blocks);
        }
    }

    /// Replaces the exit of block `bb`.
    pub fn set_terminator(&mut self, bb: usize, t: Option<Terminator>)
        requires
            bb < old(self)@.blocks.len(),
        ensures
            final(self)@ == old(self)@.with_terminator(bb as int, t),
    {
        let mut blk = BasicBlock::empty();
        self.basic_blocks.set_and_swap(bb, &mut blk);
        blk.terminator = t;
        self.basic_blocks.set_and_swap(bb, &mut blk);
        proof {
            assert(self@.blocks =~= old(self)@.with_terminator(bb as int, t).blocks);
        }
    }

    /// Moves the statements of block `bb` from `i` on, and its exit, into a new
    /// continuation block; returns the new block's index.
    pub fn split_block_before(&mut self, bb: usize, i: usize) -> (r: usize)
        requires
            bb < old(self)@.blocks.len(),
            i <= old(self)@.blocks[bb as int].statements.len(),
        ensures
            r == old(self)@.blocks.len(),
            final(self)@ == old(self)@.split_before(bb as int, i as int),
    {
        let mut blk = BasicBlock::empty();
        self.basic_blocks.set_and_swap(bb, &mut blk);
        let mut head: Vec<Statement> = Vec::new();
        let mut tail: Vec<Statement> = Vec::new();
        let mut k: usize = 0;
        while k < blk.statements.len()
            invariant
                i <= blk.statements.len(),
                k <= blk.statements.len(),
                k <= i ==> head@ == blk.statements@.take(k as int) && tail@.len() == 0,
                k > i ==> head@ == blk.statements@.take(i as int)
                    && tail@ == blk.statements@.subrange(i as int, k as int),
            decreases blk.statements.len() - k,
        {
            if k < i {
                head.push(blk.statements[k]);
                assert(head@ =~= blk.statements@.take(k + 1));
            } else {
                tail.push(blk.statements[k]);
                assert(tail@ =~= blk.statements@.subrange(i as int, k + 1));
            }
            k = k + 1;
        }
        assert(head@ =~= blk.statements@.take(i as int));
        assert(tail@ =~= blk.statements@.skip(i as int));
        let exit = blk.terminator;
        let mut prefix = BasicBlock { statements: head, terminator: None };
        self.basic_blocks.set_and_swap(bb, &mut prefix);
        let r = self.basic_blocks.len();
        self.basic_blocks.push(BasicBlock { statements: tail, terminator: exit });
        proof {
            assert(self@.blocks =~= old(self)@.split_before(bb as int, i as int).blocks);
        }
        r
    }
}

} // verus!
