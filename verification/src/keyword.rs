//! Field names may carry a trailing `.keyword` marker naming an exact-match
//! sub-field; queries, sorts and aggregations address the bare field.

use vstd::prelude::*;

verus! {

/// The model of the marker: eight characters, `.keyword`.
pub open spec fn keyword_suffix() -> Seq<char> {
    seq!['.', 'k', 'e', 'y', 'w', 'o', 'r', 'd']
}

/// A field name with any trailing `.keyword` marker removed.
pub open spec fn strip_keyword_spec(s: Seq<char>) -> Seq<char> {
    if s.len() >= 8 && s.subrange(s.len() - 8, s.len() as int) == keyword_suffix() {
        s.subrange(0, s.len() - 8)
    } else {
        s
    }
}

/// Removes a trailing `.keyword` marker from a field name, if present.
pub fn strip_keyword(field: &String) -> (r: String)
    ensures
        r@ == strip_keyword_spec(field@),
{
    let s = field.as_str();
    let n = s.unicode_len();
    if n < 8 {
        return field.clone();
    }
    let suffix_matches = s.get_char(n - 8) == '.' && s.get_char(n - 7) == 'k' && s.get_char(n - 6)
        == 'e' && s.get_char(n - 5) == 'y' && s.get_char(n - 4) == 'w' && s.get_char(n - 3) == 'o'
        && s.get_char(n - 2) == 'r' && s.get_char(n - 1) == 'd';
    if suffix_matches {
        proof {
            assert(field@.subrange(n - 8, n as int) =~= keyword_suffix());
        }
        let stripped = s.substring_char(0, n - 8);
        String::from_str(stripped)
    } else {
        proof {
            assert(field@.subrange(n - 8, n as int) != keyword_suffix());
        }
        field.clone()
    }
}

} // verus!
