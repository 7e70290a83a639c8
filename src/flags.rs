//! Boolean switches given as text: empty for unset, `true`/`1`, `false`/`0`.
use vstd::prelude::*;
use vstd::string::StringSliceAdditionalSpecFns;

verus! {

/// A switch whose text is none of the accepted spellings.
#[derive(Clone, Copy, Debug, PartialEq, Eq, Structural)]
pub enum FlagError {
    UnexpectedValue,
}

pub open spec fn spells_true(b: Seq<u8>) -> bool {
    b == seq![116u8, 114u8, 117u8, 101u8] || b == seq![49u8]
}

pub open spec fn spells_false(b: Seq<u8>) -> bool {
    b == seq![102u8, 97u8, 108u8, 115u8, 101u8] || b == seq![48u8]
}

/// What the text of a switch means: unset when empty, on or off for the
/// accepted spellings, an error otherwise.
pub open spec fn flag_meaning(b: Seq<u8>) -> Result<Option<bool>, FlagError> {
    if b.len() == 0 {
        Ok(None)
    } else if spells_true(b) {
        Ok(Some(true))
    } else if spells_false(b) {
        Ok(Some(false))
    } else {
        Err(FlagError::UnexpectedValue)
    }
}

fn same_bytes(a: &[u8], expected: &[u8]) -> (r: bool)
    ensures
        r == (a@ == expected@),
{
    if a.len() != expected.len() {
        return false;
    }
    let mut i: usize = 0;
    while i < a.len()
        invariant
            i <= a@.len(),
            a@.len() == expected@.len(),
            forall|k: int| 0 <= k < i ==> a@[k] == expected@[k],
        decreases a.len() - i,
    {
        if a[i] != expected[i] {
            return false;
        }
        i = i + 1;
    }
    assert(a@ =~= expected@);
    true
}

/// Reads the text of a switch.
pub fn parse_feature_flag(value: &str) -> (r: Result<Option<bool>, FlagError>)
    ensures
        r == flag_meaning(value.spec_bytes()),
{
    let b = value.as_bytes();
    let word_true: [u8; 4] = [116, 114, 117, 101];
    let word_false: [u8; 5] = [102, 97, 108, 115, 101];
    let one: [u8; 1] = [49];
    let zero: [u8; 1] = [48];
    assert(word_true@ =~= seq![116u8, 114u8, 117u8, 101u8]);
    assert(word_false@ =~= seq![102u8, 97u8, 108u8, 115u8, 101u8]);
    assert(one@ =~= seq![49u8]);
    assert(zero@ =~= seq![48u8]);
    if b.len() == 0 {
        Ok(None)
    } else if same_bytes(b, word_true.as_slice()) || same_bytes(b, one.as_slice()) {
        Ok(Some(true))
    } else if same_bytes(b, word_false.as_slice()) || same_bytes(b, zero.as_slice()) {
        Ok(Some(false))
    } else {
        Err(FlagError::UnexpectedValue)
    }
}

} // verus!
