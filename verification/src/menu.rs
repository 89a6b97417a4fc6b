//! Interpreting interactive answers. The prompting loop itself reads the
//! terminal and is not the library's business: it hands each trimmed
//! answer line here and asks again as long as the answer decides nothing.

use vstd::prelude::*;

use crate::util;

verus! {

/// What a yes/no answer decides: an affirmative or negative word decides,
/// an empty answer falls back to the default, anything else decides
/// nothing and must be asked again.
pub open spec fn spec_yes_no(a: Seq<char>, default: Option<bool>) -> Option<bool> {
    if a == "y"@ || a == "Y"@ || a == "yes"@ {
        Option::Some(true)
    } else if a == "n"@ || a == "N"@ || a == "no"@ {
        Option::Some(false)
    } else if a.len() == 0 {
        default
    } else {
        Option::None
    }
}

/// Decides a yes/no prompt from one trimmed answer line.
pub fn prompt_yes_no(answer: &str, default: Option<bool>) -> (r: Option<bool>)
    ensures
        r == spec_yes_no(answer@, default),
{
    if util::str_eq(answer, "y") || util::str_eq(answer, "Y") || util::str_eq(answer, "yes") {
        Option::Some(true)
    } else if util::str_eq(answer, "n") || util::str_eq(answer, "N") || util::str_eq(answer, "no") {
        Option::Some(false)
    } else if answer.is_empty() {
        default
    } else {
        Option::None
    }
}

} // verus!
