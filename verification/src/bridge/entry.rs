//! What a text that was typed into a cell means.
use vstd::prelude::*;
use vstd::string::*;

use crate::opc::parts;
use crate::text;

verus! {

/// What reading a text as a number gives.
#[derive(Debug, Clone, Copy, PartialEq, Eq, Structural)]
pub enum Reading {
    /// It is no number.
    NoNumber,
    Finite,
    /// It is infinite or not a number: in a table that is text.
    NotFinite,
}

/// What is done with a cell.
#[derive(Debug, Clone, Copy, PartialEq, Eq, Structural)]
pub enum CellEdit {
    Clear,
    /// The number that was read.
    Number,
    Bool(bool),
    /// The text as it was typed.
    Text,
}

/// A text without white space around it.
pub open spec fn bare(s: Seq<char>) -> Seq<char> {
    parts::trim_front(parts::trim_back(s))
}

pub open spec fn is_word(s: Seq<char>, word: Seq<char>) -> bool {
    text::lowered(s) == text::lowered(word)
}

/// What is done with a cell into which a text was typed.
pub open spec fn edit_of(s: Seq<char>, reading: Reading) -> CellEdit {
    let t = bare(s);
    if t.len() == 0 {
        CellEdit::Clear
    } else if reading is Finite {
        CellEdit::Number
    } else if reading is NotFinite {
        CellEdit::Text
    } else if is_word(t, "истина"@) || is_word(t, "true"@) {
        CellEdit::Bool(true)
    } else if is_word(t, "ложь"@) || is_word(t, "false"@) {
        CellEdit::Bool(false)
    } else {
        CellEdit::Text
    }
}

fn same_word(t: &Vec<char>, word: &str) -> (r: bool)
    ensures
        r == is_word(t@, word@),
{
    let w: Vec<char> = text::chars_of(word);
    text::same_ignoring_case(t.as_slice(), w.as_slice())
}

/// What is done with a cell into which a text was typed. `reading` is what
/// reading the text, without white space around it, as a number gives.
#[must_use]
pub fn classify(s: &str, reading: Reading) -> (r: CellEdit)
    ensures
        r == edit_of(s@, reading),
{
    let cs: Vec<char> = text::chars_of(s);
    let t: Vec<char> = parts::trimmed(cs.as_slice());
    if t.len() == 0 {
        return CellEdit::Clear;
    }
    match reading {
        Reading::Finite => CellEdit::Number,
        Reading::NotFinite => CellEdit::Text,
        Reading::NoNumber => {
            if same_word(&t, "истина") || same_word(&t, "true") {
                CellEdit::Bool(true)
            } else if same_word(&t, "ложь") || same_word(&t, "false") {
                CellEdit::Bool(false)
            } else {
                CellEdit::Text
            }
        },
    }
}

} // verus!
