//! Conversion between boolean values and the atoms `true` / `false`.

use vstd::prelude::*;

verus! {

/// The boolean encoded by an atom: only the exact atoms `true` and `false`
/// are accepted, case-sensitively.
pub open spec fn spec_parse_bool(s: Seq<char>) -> Option<bool> {
    if s == "true"@ {
        Some(true)
    } else if s == "false"@ {
        Some(false)
    } else {
        None
    }
}

/// The canonical atom for a boolean.
pub open spec fn spec_serialize_bool(value: bool) -> Seq<char> {
    if value {
        "true"@
    } else {
        "false"@
    }
}

/// Round trip of the boolean codec: the canonical atom for a boolean
/// parses back to exactly that boolean.
pub proof fn lemma_bool_round_trip(value: bool)
    ensures
        spec_parse_bool(spec_serialize_bool(value)) == Some(value),
{
    reveal_strlit("true");
    reveal_strlit("false");
    assert("true"@ != "false"@) by {
        assert("true"@.len() == 4);
        assert("false"@.len() == 5);
    }
}

/// Parses `true` or `false`; any other atom is rejected.
pub fn parse_bool(atom: &str) -> (r: Option<bool>)
    ensures
        r == spec_parse_bool(atom@),
{
    proof {
        reveal_strlit("true");
        reveal_strlit("false");
    }
    let n = atom.unicode_len();
    if n == 4 {
        if atom.get_char(0) == 't' && atom.get_char(1) == 'r' && atom.get_char(2) == 'u'
            && atom.get_char(3) == 'e' {
            proof {
                assert(atom@ =~= "true"@);
            }
            Some(true)
        } else {
            proof {
                assert(atom@ != "true"@);
                assert(atom@ != "false"@);
            }
            None
        }
    } else if n == 5 {
        if atom.get_char(0) == 'f' && atom.get_char(1) == 'a' && atom.get_char(2) == 'l'
            && atom.get_char(3) == 's' && atom.get_char(4) == 'e' {
            proof {
                assert(atom@ =~= "false"@);
            }
            Some(false)
        } else {
            proof {
                assert(atom@ != "true"@);
                assert(atom@ != "false"@);
            }
            None
        }
    } else {
        None
    }
}

/// Renders a boolean as its canonical atom.
pub fn serialize_bool(value: bool) -> (r: &'static str)
    ensures
        r@ == spec_serialize_bool(value),
{
    if value {
        "true"
    } else {
        "false"
    }
}

} // verus!
