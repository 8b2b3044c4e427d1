//! Selectable force methods for the LJ fluid: the naive O(N^2) pair loop and a
//! cell list.

use vstd::prelude::*;
use vstd::string::*;
use crate::text::{same_text, debug_quoted, debug_text};

verus! {

#[derive(Clone, Copy, Debug, PartialEq, Eq, Structural)]
pub enum ForceMethod {
    Naive,
    Cells,
}

/// Name of a force method on the command line.
pub open spec fn force_name(m: ForceMethod) -> Seq<char> {
    match m {
        ForceMethod::Naive => "naive"@,
        ForceMethod::Cells => "cells"@,
    }
}

/// The force method a text names, if any.
pub open spec fn force_from_text(s: Seq<char>) -> Option<ForceMethod> {
    if s == "naive"@ {
        Some(ForceMethod::Naive)
    } else if s == "cells"@ {
        Some(ForceMethod::Cells)
    } else {
        None
    }
}

impl Default for ForceMethod {
    fn default() -> (r: Self)
        ensures
            r == ForceMethod::Naive,
    {
        ForceMethod::Naive
    }
}

impl ForceMethod {
    pub fn parse(s: &str) -> (r: Result<Self, String>)
        ensures
            match r {
                Ok(m) => force_from_text(s@) == Some(m),
                Err(e) => force_from_text(s@) is None && e@ == "expected naive or cells, got "@
                    + debug_text(s@),
            },
    {
        if same_text(s, "naive") {
            Ok(ForceMethod::Naive)
        } else if same_text(s, "cells") {
            Ok(ForceMethod::Cells)
        } else {
            let mut e = String::from_str("expected naive or cells, got ");
            let quoted = debug_quoted(s);
            e.append(quoted.as_str());
            Err(e)
        }
    }

    pub fn as_str(self) -> (r: &'static str)
        ensures
            r@ == force_name(self),
    {
        match self {
            ForceMethod::Naive => "naive",
            ForceMethod::Cells => "cells",
        }
    }
}

/// Reading back the name of a force method gives the same method.
pub proof fn lemma_force_name_round_trip(m: ForceMethod)
    ensures
        force_from_text(force_name(m)) == Some(m),
{
    reveal_strlit("naive");
    reveal_strlit("cells");
    assert("naive"@[0] != "cells"@[0]);
}

} // verus!
