//! Helpers on strings.

use vstd::prelude::*;
use vstd::string::StringExecFns;

verus! {

/// Whether `s` is the text `lit`.
pub fn text_is(s: &String, lit: &str) -> (same: bool)
    ensures
        same == (s@ == lit@),
{
    let t = String::from_str(lit);
    *s == t
}

} // verus!
