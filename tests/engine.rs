use borrow_mutants::depth::{expiry_depth_order, graph_nodes};
use borrow_mutants::driver::Mutator;
use borrow_mutants::flags::{parse_feature_flag, FlagError};
use borrow_mutants::errors::{get_registered_errors, initialize_error_tracking, track_body_error_codes, track_diagnostic};
use borrow_mutants::graph::{
    borrowed_places, capability_of, locations_blocking, Analysis, BorrowFilter, Capability, CapabilityGraph, Edge, EdgeKind, HopRule,
    Node, PathRule, ProgramPoint,
};
use borrow_mutants::mir::{BasicBlock, Body, BorrowKind, LocalDecl, Place, ProjectionElem, Statement, Terminator};
use borrow_mutants::mutant::{Mutant, MutantLocation};
use borrow_mutants::rules::{
    AbstractExpiryOrder, BlockMutableBorrow, BorrowExpiryOrder, DropBorrowed, MoveFromBorrowed, MutableBorrowMutator,
    MutablyLendReadOnly, MutablyLendShared, Mutation, ReadFromWriteOnly, ShallowExclusiveRead, WriteToBorrowed,
    WriteToReadOnly, WriteToShared,
};
use borrow_mutants::MutatorData;

fn place(local: usize) -> Place {
    Place { local, projection: None }
}

fn node(local: usize) -> Node {
    Node::Place { place: place(local), current: true }
}

fn edge(kind: EdgeKind, blocked: usize, blocked_by: usize) -> Edge {
    Edge { kind, blocked: vec![node(blocked)], blocked_by: vec![node(blocked_by)] }
}

fn mut_borrow() -> EdgeKind {
    EdgeKind::Borrow { kind: BorrowKind::Mut, scope: 0 }
}

fn shared_borrow() -> EdgeKind {
    EdgeKind::Borrow { kind: BorrowKind::Shared, scope: 0 }
}

fn graph(edges: Vec<Edge>, capabilities: Vec<(Place, Capability)>) -> CapabilityGraph {
    CapabilityGraph { edges, capabilities }
}

fn empty() -> CapabilityGraph {
    graph(vec![], vec![])
}

/// Locals 0..named are user bindings, the rest up to `locals` temporaries; one block
/// with `statements` opaque statements and a return.
fn body(locals: usize, named: usize, statements: usize) -> Body {
    let mut local_decls = Vec::new();
    for i in 0..locals {
        local_decls.push(LocalDecl { user_variable: i < named });
    }
    let stmts = (0..statements).map(|i| Statement::Opaque { id: i as u64 }).collect();
    Body { local_decls, basic_blocks: vec![BasicBlock { statements: stmts, terminator: Some(Terminator::Return) }] }
}

fn point(block: usize, statement_index: usize, post_operands: CapabilityGraph, post_main: CapabilityGraph) -> ProgramPoint {
    ProgramPoint { block, statement_index, pre_operands: empty(), post_operands, post_main }
}

fn caps(c: Capability, locals: &[usize]) -> CapabilityGraph {
    graph(vec![], locals.iter().map(|l| (place(*l), c)).collect())
}

fn two_points(curr_main: CapabilityGraph, next_operands: CapabilityGraph) -> Vec<ProgramPoint> {
    vec![point(0, 0, empty(), curr_main), point(0, 1, next_operands, empty())]
}

fn drain(mutation: Mutation, body: &Body, points: &Vec<ProgramPoint>) -> Vec<Mutant> {
    let mut stream = mutation.make_stream(body, points, 0);
    let mut out = Vec::new();
    while let Some(m) = stream.next(body) {
        out.push(m);
    }
    out
}

fn located(m: &Mutant, l: MutantLocation) -> bool {
    match m.body.basic_blocks.get(l.basic_block) {
        Some(b) => l.statement_index < b.statements.len()
            || (l.statement_index == b.statements.len() && b.terminator.is_some()),
        None => false,
    }
}

#[test]
fn traversal_single_borrow_edge() {
    let g = graph(vec![edge(mut_borrow(), 1, 2)], vec![]);
    let r = locations_blocking(&g, place(1), PathRule::AnyBorrow, HopRule::AnyEdge);
    assert_eq!(r, vec![place(2)]);
}

#[test]
fn traversal_counts_blockers_once_the_path_has_a_mutable_borrow() {
    let g = graph(vec![edge(EdgeKind::Expansion, 1, 2), edge(mut_borrow(), 2, 3)], vec![]);
    let r = locations_blocking(&g, place(1), PathRule::MutBorrow, HopRule::MutBorrowsOnly);
    assert_eq!(r, vec![place(3)]);
    let from_b = locations_blocking(&g, place(2), PathRule::MutBorrow, HopRule::MutBorrowsOnly);
    assert_eq!(from_b, vec![place(3)]);
}

#[test]
fn traversal_keeps_every_blocker_downstream_of_the_satisfying_edge() {
    let g = graph(vec![edge(mut_borrow(), 1, 2), edge(EdgeKind::Expansion, 2, 3)], vec![]);
    let mut r = locations_blocking(&g, place(1), PathRule::MutBorrow, HopRule::MutBorrowsOnly);
    r.sort_by_key(|p| p.local);
    assert_eq!(r, vec![place(2), place(3)]);
}

#[test]
fn traversal_does_not_follow_shared_borrows_when_told_not_to() {
    let g = graph(vec![edge(shared_borrow(), 1, 2)], vec![]);
    assert!(locations_blocking(&g, place(1), PathRule::AnyBorrow, HopRule::MutBorrowsOnly).is_empty());
    assert_eq!(locations_blocking(&g, place(1), PathRule::AnyBorrow, HopRule::AnyEdge), vec![place(2)]);
}

#[test]
fn traversal_skips_historical_nodes_and_needs_an_abstraction_when_asked() {
    let old_b = Node::Place { place: place(2), current: false };
    let g = graph(vec![Edge { kind: mut_borrow(), blocked: vec![node(1)], blocked_by: vec![old_b] }], vec![]);
    assert!(locations_blocking(&g, place(1), PathRule::AnyBorrow, HopRule::AnyEdge).is_empty());
    let g2 = graph(vec![edge(mut_borrow(), 1, 2), edge(EdgeKind::Abstraction, 2, 3)], vec![]);
    assert_eq!(locations_blocking(&g2, place(1), PathRule::AbstractionAndMutBorrow, HopRule::MutBorrowsOnly), vec![place(3)]);
}

#[test]
fn traversal_terminates_on_an_expansion_cycle() {
    let g = graph(vec![edge(mut_borrow(), 1, 2), edge(EdgeKind::Expansion, 2, 1)], vec![]);
    let mut r = locations_blocking(&g, place(1), PathRule::MutBorrow, HopRule::AnyEdge);
    r.sort_by_key(|p| p.local);
    assert_eq!(r, vec![place(1), place(2)]);
}

#[test]
fn borrowed_places_filters_by_kind() {
    let g = graph(vec![edge(mut_borrow(), 1, 2), edge(EdgeKind::Borrow { kind: BorrowKind::Shared, scope: 7 }, 3, 4)], vec![]);
    assert_eq!(borrowed_places(&g, BorrowFilter::Mut), vec![(place(1), 0)]);
    assert_eq!(borrowed_places(&g, BorrowFilter::Shared), vec![(place(3), 7)]);
    assert_eq!(borrowed_places(&g, BorrowFilter::Any).len(), 2);
}

#[test]
fn depth_order_chain() {
    let g = graph(vec![edge(mut_borrow(), 1, 2), edge(mut_borrow(), 2, 3)], vec![]);
    let buckets = expiry_depth_order(&g);
    assert_eq!(buckets, vec![vec![place(1)], vec![place(2)], vec![place(3)]]);
}

#[test]
fn depth_order_takes_the_greatest_depth_and_expansions_keep_it() {
    let g = graph(vec![edge(mut_borrow(), 1, 2), edge(mut_borrow(), 2, 3), edge(mut_borrow(), 1, 3)], vec![]);
    assert_eq!(expiry_depth_order(&g), vec![vec![place(1)], vec![place(2)], vec![place(3)]]);
    let e = graph(vec![edge(EdgeKind::Expansion, 1, 2), edge(EdgeKind::Abstraction, 2, 3)], vec![]);
    let mut buckets = expiry_depth_order(&e);
    buckets[0].sort_by_key(|p| p.local);
    assert_eq!(buckets, vec![vec![place(1), place(2)], vec![place(3)]]);
    assert!(expiry_depth_order(&empty()).is_empty());
}

#[test]
fn lend_shared_pattern_inserts_an_exclusive_borrow() {
    let b = body(3, 3, 2);
    let points = two_points(caps(Capability::LentShared, &[1]), caps(Capability::LentShared, &[1]));
    let out = drain(Mutation::MutablyLendShared, &b, &points);
    assert_eq!(out.len(), 1);
    let m = &out[0];
    assert_eq!(m.body.local_decls.len(), 4);
    assert_eq!(
        m.body.basic_blocks[0].statements[1],
        Statement::Borrow { target: place(3), kind: BorrowKind::Mut, borrowed: place(1) }
    );
    assert_eq!(m.range.start, MutantLocation { basic_block: 0, statement_index: 1 });
    assert_eq!(m.range.end, m.range.start);
}

#[test]
fn lend_shared_pattern_ignores_exclusive_locations() {
    let b = body(3, 3, 2);
    let points = two_points(caps(Capability::LentShared, &[1]), caps(Capability::Exclusive, &[1]));
    assert!(drain(Mutation::MutablyLendShared, &b, &points).is_empty());
    let points = two_points(caps(Capability::Exclusive, &[1]), caps(Capability::LentShared, &[1]));
    assert!(MutablyLendShared.make_stream(&b, &points, 0).edits.is_empty());
}

#[test]
fn unnamed_locations_are_never_targeted() {
    let b = body(3, 1, 2);
    let points = two_points(caps(Capability::Read, &[2]), caps(Capability::Read, &[2]));
    assert!(drain(Mutation::WriteToReadOnly, &b, &points).is_empty());
    let g = graph(vec![edge(mut_borrow(), 2, 0)], vec![]);
    let points = two_points(g, graph(vec![edge(mut_borrow(), 2, 0)], vec![]));
    assert!(drain(Mutation::DropBorrowed, &b, &points).is_empty());
    assert!(drain(Mutation::MoveFromBorrowed, &b, &points).is_empty());
}

#[test]
fn drop_borrowed_range_points_into_the_split_body() {
    let b = body(3, 3, 3);
    let g = || graph(vec![edge(shared_borrow(), 1, 2)], vec![]);
    let points = vec![point(0, 0, empty(), g()), point(0, 1, g(), empty())];
    let out = drain(Mutation::DropBorrowed, &b, &points);
    assert_eq!(out.len(), 1);
    let m = &out[0];
    assert_eq!(m.body.basic_blocks.len(), 2);
    assert_eq!(m.body.basic_blocks[0].statements.len(), 1);
    assert_eq!(m.body.basic_blocks[0].terminator, Some(Terminator::Drop { place: place(1), target: 1 }));
    assert_eq!(m.body.basic_blocks[1].statements.len(), 2);
    assert_eq!(m.body.basic_blocks[1].terminator, Some(Terminator::Return));
    assert_eq!(m.range.start, MutantLocation { basic_block: 0, statement_index: 1 });
    assert!(located(m, m.range.start) && located(m, m.range.end));
}

#[test]
fn mutants_are_independent_copies() {
    let b = body(4, 4, 2);
    let points = two_points(caps(Capability::Read, &[1, 2]), caps(Capability::Read, &[1, 2]));
    let mut out = drain(Mutation::WriteToReadOnly, &b, &points);
    assert_eq!(out.len(), 2);
    let second_before = out[1].body.basic_blocks[0].statements.clone();
    out[0].body.basic_blocks[0].statements.clear();
    out[0].body.local_decls.clear();
    assert_eq!(out[1].body.basic_blocks[0].statements, second_before);
    assert_eq!(out[1].body.local_decls.len(), 4);
    assert_eq!(b.basic_blocks[0].statements.len(), 2);
}

#[test]
fn driver_walks_every_block_and_ends() {
    let mut b = body(2, 2, 3);
    b.basic_blocks.push(BasicBlock { statements: vec![Statement::Opaque { id: 9 }], terminator: Some(Terminator::Return) });
    b.basic_blocks.push(BasicBlock { statements: vec![Statement::Opaque { id: 8 }, Statement::Opaque { id: 7 }], terminator: Some(Terminator::Return) });
    let w = || caps(Capability::Write, &[1]);
    let analysis = Analysis {
        blocks: vec![
            Some(vec![point(0, 0, w(), w()), point(0, 1, w(), w()), point(0, 2, w(), w())]),
            None,
            Some(vec![point(2, 0, w(), w()), point(2, 1, w(), w())]),
        ],
    };
    let mut driver = Mutator::new(Mutation::ReadFromWriteOnly, &b);
    assert_eq!(driver.name(), "read-from-write-only");
    let mut seen = Vec::new();
    while let Some(m) = driver.next(&b, &analysis) {
        assert!(located(&m, m.range.start));
        seen.push(m.range.start);
    }
    assert_eq!(
        seen,
        vec![
            MutantLocation { basic_block: 0, statement_index: 1 },
            MutantLocation { basic_block: 0, statement_index: 2 },
            MutantLocation { basic_block: 2, statement_index: 1 },
        ]
    );
    assert!(driver.next(&b, &analysis).is_none());
    let idx = driver.stmt_idx;
    assert!(driver.next(&b, &analysis).is_none());
    assert_eq!(driver.stmt_idx, idx);
    assert!(driver.basic_blocks.is_empty() && driver.bb_stmts.is_none());
    let mut again = Mutator::new(Mutation::ReadFromWriteOnly, &b);
    assert_eq!(again.collect_mutants(&b, &analysis).len(), 3);
}

#[test]
fn driver_with_no_analysis_yields_nothing() {
    let b = body(2, 2, 3);
    let analysis = Analysis { blocks: vec![None] };
    let mut driver = Mutator::new(Mutation::WriteToShared, &b);
    assert!(driver.next(&b, &analysis).is_none());
}

#[test]
fn borrow_expiry_order_builds_a_shadow_branch() {
    let b = body(3, 3, 3);
    let next = graph(vec![edge(mut_borrow(), 1, 2)], vec![]);
    let points = vec![point(0, 0, empty(), empty()), point(0, 1, next, empty())];
    let out = drain(Mutation::BorrowExpiryOrder, &b, &points);
    assert_eq!(out.len(), 1);
    assert_eq!(Mutation::MutablyLendReadOnly.name(), "mutably-lend-read");
    let m = &out[0];
    assert_eq!(m.body.basic_blocks.len(), 3);
    assert_eq!(m.body.basic_blocks[0].terminator, Some(Terminator::FalseEdge { real_target: 1, imaginary_target: 2 }));
    assert_eq!(m.body.basic_blocks[0].statements.len(), 1);
    assert_eq!(m.body.basic_blocks[1].statements.len(), 2);
    assert_eq!(
        m.body.basic_blocks[2].statements,
        vec![
            Statement::Borrow { target: place(3), kind: BorrowKind::Shared, borrowed: place(1) },
            Statement::Borrow { target: place(4), kind: BorrowKind::Shared, borrowed: place(2) },
        ]
    );
    assert_eq!(m.body.basic_blocks[2].terminator, Some(Terminator::Unreachable));
    assert_eq!(m.range.start, MutantLocation { basic_block: 2, statement_index: 0 });
    assert_eq!(m.range.end, MutantLocation { basic_block: 2, statement_index: 1 });
    assert!(BorrowExpiryOrder.make_stream(&b, &points, 0).edits.len() == 1);
}

#[test]
fn abstract_expiry_order_needs_an_abstraction_edge() {
    let b = body(4, 4, 3);
    let direct = graph(vec![edge(mut_borrow(), 1, 2)], vec![]);
    let points = vec![point(0, 0, empty(), empty()), point(0, 1, direct, empty())];
    assert!(AbstractExpiryOrder.make_stream(&b, &points, 0).edits.is_empty());
    let through_call = graph(vec![edge(mut_borrow(), 1, 2), edge(EdgeKind::Abstraction, 2, 3)], vec![]);
    let points = vec![point(0, 0, empty(), empty()), point(0, 1, through_call, empty())];
    let out = drain(Mutation::AbstractExpiryOrder, &b, &points);
    assert_eq!(out.len(), 1);
    assert_eq!(
        out[0].body.basic_blocks[2].statements[1],
        Statement::Borrow { target: place(5), kind: BorrowKind::Shared, borrowed: place(3) }
    );
}

#[test]
fn block_mutable_borrow_inserts_a_borrow_and_a_reborrow() {
    let b = body(2, 2, 3);
    let points = vec![
        point(0, 0, empty(), empty()),
        point(0, 1, empty(), graph(vec![edge(mut_borrow(), 1, 0)], vec![])),
    ];
    let out = drain(Mutation::BlockMutableBorrow, &b, &points);
    assert_eq!(out.len(), 1);
    let s = &out[0].body.basic_blocks[0].statements;
    assert_eq!(s.len(), 5);
    assert_eq!(s[0], Statement::Borrow { target: place(3), kind: BorrowKind::Shared, borrowed: place(1) });
    assert_eq!(
        s[3],
        Statement::Borrow {
            target: place(2),
            kind: BorrowKind::Shared,
            borrowed: Place { local: 3, projection: Some(ProjectionElem::Deref) },
        }
    );
    assert_eq!(out[0].range.end, MutantLocation { basic_block: 0, statement_index: 3 });
    let already = vec![
        point(0, 0, empty(), graph(vec![edge(mut_borrow(), 1, 0)], vec![])),
        point(0, 1, empty(), graph(vec![edge(mut_borrow(), 1, 0)], vec![])),
    ];
    assert!(BlockMutableBorrow.make_stream(&b, &already, 0).edits.is_empty());
}

#[test]
fn mutable_borrow_mutator_extends_the_loan_past_its_expiry() {
    let b = body(2, 2, 4);
    let lent = || caps(Capability::Lent, &[1]);
    let points = vec![
        point(0, 0, empty(), lent()),
        point(0, 1, lent(), lent()),
        point(0, 2, empty(), lent()),
        point(0, 3, empty(), caps(Capability::Exclusive, &[1])),
    ];
    let out = drain(Mutation::MutableBorrowMutator, &b, &points);
    assert_eq!(out.len(), 1);
    let s = &out[0].body.basic_blocks[0].statements;
    assert_eq!(s.len(), 6);
    assert_eq!(s[1], Statement::Borrow { target: place(2), kind: BorrowKind::Shared, borrowed: place(1) });
    assert_eq!(s[5], Statement::Mention { place: place(1) });
    assert_eq!(out[0].range.start, MutantLocation { basic_block: 0, statement_index: 1 });
    assert_eq!(out[0].range.end, MutantLocation { basic_block: 0, statement_index: 5 });
    let never = vec![point(0, 0, empty(), lent()), point(0, 1, lent(), lent())];
    assert!(MutableBorrowMutator.make_stream(&b, &never, 0).edits.is_empty());
}

#[test]
fn insertion_rules_insert_their_instruction() {
    let b = body(3, 3, 2);
    let shared = || graph(vec![edge(shared_borrow(), 1, 2)], vec![]);
    let out = drain(Mutation::WriteToShared, &b, &two_points(shared(), shared()));
    assert_eq!(out[0].body.basic_blocks[0].statements[1], Statement::Write { place: place(1) });
    assert_eq!(out[0].body.local_decls.len(), 3);
    assert_eq!(WriteToShared.make_stream(&b, &two_points(shared(), empty()), 0).edits.len(), 0);

    let lent = || graph(vec![edge(mut_borrow(), 1, 2)], vec![]);
    let out = drain(Mutation::MoveFromBorrowed, &b, &two_points(lent(), lent()));
    assert_eq!(out[0].body.basic_blocks[0].statements[1], Statement::Move { target: place(3), source: place(1) });
    assert_eq!(MoveFromBorrowed.make_stream(&b, &two_points(lent(), lent()), 0).edits.len(), 1);

    let w = || caps(Capability::Write, &[2]);
    let out = drain(Mutation::ReadFromWriteOnly, &b, &two_points(w(), w()));
    assert_eq!(out[0].body.basic_blocks[0].statements[1], Statement::FakeRead { place: place(2) });
    assert_eq!(ReadFromWriteOnly.make_stream(&b, &two_points(w(), w()), 0).edits.len(), 1);

    let r = || caps(Capability::Read, &[2]);
    let out = drain(Mutation::MutablyLendReadOnly, &b, &two_points(r(), r()));
    assert_eq!(out[0].body.basic_blocks[0].statements[1], Statement::Borrow { target: place(3), kind: BorrowKind::Mut, borrowed: place(2) });
    assert_eq!(MutablyLendReadOnly.make_stream(&b, &two_points(r(), r()), 0).edits.len(), 1);
    assert_eq!(WriteToReadOnly.make_stream(&b, &two_points(r(), r()), 0).edits.len(), 1);

    let ls = || caps(Capability::LentShared, &[1]);
    let out = drain(Mutation::WriteToBorrowed, &b, &two_points(ls(), ls()));
    assert_eq!(out[0].body.basic_blocks[0].statements[1], Statement::Write { place: place(1) });
    assert_eq!(WriteToBorrowed.make_stream(&b, &two_points(ls(), ls()), 0).edits.len(), 1);

    let se = || caps(Capability::ShallowExclusive, &[1]);
    let out = drain(Mutation::ShallowExclusiveRead, &b, &two_points(se(), se()));
    assert_eq!(
        out[0].body.basic_blocks[0].statements[1],
        Statement::FakeRead { place: Place { local: 1, projection: Some(ProjectionElem::Deref) } }
    );
    assert_eq!(ShallowExclusiveRead.make_stream(&b, &two_points(se(), se()), 0).edits.len(), 1);
    assert_eq!(DropBorrowed.make_stream(&b, &two_points(lent(), lent()), 0).edits.len(), 1);
}

#[test]
fn candidates_whose_offset_is_missing_are_dropped() {
    let b = body(3, 3, 1);
    let points = vec![point(0, 5, empty(), caps(Capability::Read, &[1])), point(0, 6, caps(Capability::Read, &[1]), empty())];
    let mut stream = Mutation::WriteToReadOnly.make_stream(&b, &points, 0);
    assert_eq!(stream.remaining(), 1);
    assert!(stream.next(&b).is_none());
    assert_eq!(stream.remaining(), 0);
}

#[test]
fn justification_names_the_place() {
    let b = body(3, 3, 2);
    let points = two_points(caps(Capability::Write, &[1]), caps(Capability::Write, &[1]));
    let out = drain(Mutation::ReadFromWriteOnly, &b, &points);
    assert!(out[0].info.contains("local: 1"));
    assert!(out[0].info.contains("write-only"));
}

#[test]
fn rule_names() {
    assert_eq!(Mutation::BorrowExpiryOrder.name(), "borrow-expiry-order");
    assert_eq!(Mutation::AbstractExpiryOrder.name(), "abstract-expiry-order");
    assert_eq!(Mutation::MutablyLendShared.name(), "mutably-lend-shared");
    assert_eq!(Mutation::DropBorrowed.name(), "drop-borrowed");
    assert_eq!(WriteToBorrowed.name(), "use-borrowed");
}

#[test]
fn error_tracking_collects_codes_per_body() {
    let mut t = initialize_error_tracking();
    track_body_error_codes(&mut t, 7);
    track_diagnostic(&mut t, Some(499));
    track_diagnostic(&mut t, None);
    track_diagnostic(&mut t, Some(502));
    assert_eq!(get_registered_errors(&t), vec![499, 502]);
    assert_eq!(t.current_body, Some(7));
    track_body_error_codes(&mut t, 8);
    assert!(get_registered_errors(&t).is_empty());
    assert_eq!(t.current_body, Some(8));
}

#[test]
fn mutator_data_counts_outcomes() {
    let mut d = MutatorData::new();
    d.record(true, &vec![]);
    d.record(false, &vec![499, 502]);
    d.record(false, &vec![499]);
    assert_eq!((d.instances, d.passed, d.failed), (3, 1, 2));
    assert_eq!(d.error_codes, vec![499, 502]);
}

#[test]
fn feature_flags_accept_the_four_spellings() {
    assert_eq!(parse_feature_flag(""), Ok(None));
    assert_eq!(parse_feature_flag("true"), Ok(Some(true)));
    assert_eq!(parse_feature_flag("1"), Ok(Some(true)));
    assert_eq!(parse_feature_flag("false"), Ok(Some(false)));
    assert_eq!(parse_feature_flag("0"), Ok(Some(false)));
    assert_eq!(parse_feature_flag("yes"), Err(FlagError::UnexpectedValue));
    assert_eq!(parse_feature_flag("TRUE"), Err(FlagError::UnexpectedValue));
}

#[test]
fn graph_lookups() {
    let g = graph(
        vec![edge(mut_borrow(), 1, 2), edge(EdgeKind::Expansion, 2, 3)],
        vec![(place(1), Capability::Lent), (place(3), Capability::Read)],
    );
    assert_eq!(capability_of(&g, place(1)), Some(Capability::Lent));
    assert_eq!(capability_of(&g, place(3)), Some(Capability::Read));
    assert_eq!(capability_of(&g, place(2)), None);
    assert_eq!(graph_nodes(&g), vec![node(1), node(2), node(3)]);
}

#[test]
fn borrow_expiry_order_on_a_chain_plans_each_pair_once() {
    let b = body(6, 6, 3);
    let chain = graph(vec![edge(mut_borrow(), 1, 2), edge(mut_borrow(), 2, 3)], vec![]);
    let points = vec![point(0, 0, empty(), empty()), point(0, 1, chain, empty())];
    let out = drain(Mutation::BorrowExpiryOrder, &b, &points);
    let mut pairs: Vec<(usize, usize)> = out
        .iter()
        .map(|m| match (m.body.basic_blocks[2].statements[0], m.body.basic_blocks[2].statements[1]) {
            (Statement::Borrow { borrowed: a, .. }, Statement::Borrow { borrowed: c, .. }) => (a.local, c.local),
            _ => panic!("the side branch holds two borrows"),
        })
        .collect();
    pairs.sort();
    assert_eq!(pairs, vec![(1, 2), (1, 3), (2, 3)]);
}
