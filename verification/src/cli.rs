//! The commands of the program.
use vstd::prelude::*;
use vstd::string::*;

use crate::text;

verus! {

/// What the program does.
#[derive(Debug, Clone, Copy, PartialEq, Eq, Structural)]
pub enum Action {
    /// There is no command: it says how it is used, and fails.
    Usage,
    /// It says how it is used.
    Help,
    /// It knows the command but cannot do it yet.
    Planned,
    /// It does not know the command.
    Unknown,
}

pub open spec fn is_help(s: Seq<char>) -> bool {
    s == "-h"@ || s == "--help"@ || s == "help"@
}

pub open spec fn is_planned(s: Seq<char>) -> bool {
    s == "info"@ || s == "zipdump"@ || s == "xmldump"@ || s == "get"@ || s == "set"@ || s
        == "roundtrip"@ || s == "fuzz"@
}

/// What the program does for its first argument.
pub open spec fn action_for(s: Option<Seq<char>>) -> Action {
    match s {
        None => Action::Usage,
        Some(t) => if is_help(t) {
            Action::Help
        } else if is_planned(t) {
            Action::Planned
        } else {
            Action::Unknown
        },
    }
}

/// What the program does for its first argument.
#[must_use]
pub fn action(first: Option<&str>) -> (r: Action)
    ensures
        r == action_for(
            match first {
                Some(t) => Some(t@),
                None => None,
            },
        ),
{
    let t: &str = match first {
        Some(t) => t,
        None => return Action::Usage,
    };
    if text::same_text(t, "-h") || text::same_text(t, "--help") || text::same_text(t, "help") {
        Action::Help
    } else if text::same_text(t, "info") || text::same_text(t, "zipdump") || text::same_text(
        t,
        "xmldump",
    ) || text::same_text(t, "get") || text::same_text(t, "set") || text::same_text(
        t,
        "roundtrip",
    ) || text::same_text(t, "fuzz") {
        Action::Planned
    } else {
        Action::Unknown
    }
}

} // verus!
