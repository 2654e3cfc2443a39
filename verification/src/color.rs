//! Colour values as the user interface wants them.

use vstd::prelude::*;
use vstd::string::StringExecFns;

verus! {

/// A colour value with its leading `#`: put in front of a non-empty text
/// that does not start with one, else the text as it is.
pub open spec fn with_hash(text: Seq<char>) -> Seq<char> {
    if text.len() > 0 && text[0] != '#' {
        seq!['#'] + text
    } else {
        text
    }
}

/// Makes sure that a colour value from the configuration starts with `#`.
pub fn prepend_hash(s: String) -> (res: String)
    ensures
        res@ == with_hash(s@),
{
    if s.as_str().is_empty() {
        return s;
    }
    if s.as_str().get_char(0) != '#' {
        let mut out = String::from_str("#");
        proof {
            reveal_strlit("#");
        }
        out.append(s.as_str());
        assert(out@ =~= seq!['#'] + s@);
        out
    } else {
        s
    }
}

} // verus!
