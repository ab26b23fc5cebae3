//! The line that tells the engine which player it is.

use vstd::prelude::*;
use crate::text::{
    CharClass,
    begins_at,
    decimal_value,
    find,
    find_back,
    has_prefix,
    parse_number,
    scan,
    to_chars,
    trimmed,
    trimmed_between,
};

verus! {

/// The player number that the line announces. The line, white space at its
/// ends apart, begins with `$$$ exec p`; then comes the number, with or
/// without white space around it, up to the first colon. Only 1 and 2 are
/// player numbers; any other line gives `None`.
pub open spec fn spec_player_number(line: Seq<char>) -> Option<u8> {
    let start = scan(line, CharClass::Space, false, 0);
    let after = start + "$$$ exec p"@.len();
    let colon = scan(line, CharClass::Colon, true, after);
    if has_prefix(trimmed(line), "$$$ exec p"@) && colon < line.len() {
        match decimal_value(trimmed_between(line, after, colon)) {
            Some(n) => if n == 1 {
                Some(1u8)
            } else if n == 2 {
                Some(2u8)
            } else {
                None
            },
            None => None,
        }
    } else {
        None
    }
}

/// Reads the player number from the line that starts the game, such as
/// `$$$ exec p1 : [./player]`.
pub fn parse_player_number(line: &str) -> (player: Option<u8>)
    ensures
        player == spec_player_number(line@),
{
    let text = to_chars(line);
    let prefix = to_chars("$$$ exec p");
    proof {
        reveal_strlit("$$$ exec p");
    }
    let start = find(&text, CharClass::Space, false, 0);
    let end = find_back(&text, CharClass::Space, text.len());
    if start >= end || end - start < prefix.len() || !begins_at(&text, start, &prefix) {
        proof {
            if start < end && has_prefix(trimmed(text@), prefix@) {
                assert forall|i: int| 0 <= i < prefix@.len() implies text@.skip(start as int)[i]
                    == prefix@[i] by {
                    assert(trimmed(text@)[i] == prefix@[i]);
                }
            }
        }
        return None;
    }
    proof {
        assert forall|i: int| 0 <= i < prefix@.len() implies trimmed(text@)[i] == prefix@[i] by {
            assert(text@.skip(start as int)[i] == prefix@[i]);
        }
    }
    let after = start + prefix.len();
    let colon = find(&text, CharClass::Colon, true, after);
    if colon >= text.len() {
        return None;
    }
    let number_start = find(&text, CharClass::Space, false, after);
    let number_end = find_back(&text, CharClass::Space, colon);
    if number_start >= number_end {
        return None;
    }
    match parse_number(&text, number_start, number_end) {
        Some(n) => if n == 1 {
            Some(1)
        } else if n == 2 {
            Some(2)
        } else {
            None
        },
        None => None,
    }
}

} // verus!
