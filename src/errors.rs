//! Collects the diagnostic codes the borrow checker reports while it checks one body.
//! The codes live in an explicit context rather than in global state.
use vstd::prelude::*;

verus! {

/// A borrow-checker diagnostic code, such as 499 for E0499.
pub type ErrCode = u32;

/// The body being checked and the codes reported for it so far.
pub struct ErrorTracker {
    pub current_body: Option<u64>,
    pub codes: Vec<ErrCode>,
}

/// A tracker with no body and no codes; made before a crate is analysed.
pub fn initialize_error_tracking() -> (r: ErrorTracker)
    ensures
        r.current_body is None,
        r.codes@.len() == 0,
{
    ErrorTracker { current_body: None, codes: Vec::new() }
}

/// Records the code of one reported diagnostic, if it has one.
pub fn track_diagnostic(tracker: &mut ErrorTracker, code: Option<ErrCode>)
    ensures
        final(tracker).current_body == old(tracker).current_body,
        final(tracker).codes@ == match code {
            Some(c) => old(tracker).codes@.push(c),
            None => old(tracker).codes@,
        },
{
    match code {
        Some(c) => tracker.codes.push(c),
        None => {},
    }
}

/// Starts tracking a new body: forgets the codes of the previous one.
pub fn track_body_error_codes(tracker: &mut ErrorTracker, def_id: u64)
    ensures
        final(tracker).current_body == Some(def_id),
        final(tracker).codes@.len() == 0,
{
    tracker.current_body = Some(def_id);
    tracker.codes.clear();
}

/// The codes reported since the current body was started, in order.
pub fn get_registered_errors(tracker: &ErrorTracker) -> (r: Vec<ErrCode>)
    ensures
        r@ == tracker.codes@,
{
    let mut r: Vec<ErrCode> = Vec::new();
    let mut i: usize = 0;
    while i < tracker.codes.len()
        invariant
            i <= tracker.codes.len(),
            r@ == tracker.codes@.take(i as int),
        decreases tracker.codes.len() - i,
    {
        r.push(tracker.codes[i]);
        i = i + 1;
        assert(r@ =~= tracker.codes@.take(i as int));
    }
    assert(tracker.codes@.take(tracker.codes.len() as int) =~= tracker.codes@);
    r
}

} // verus!
