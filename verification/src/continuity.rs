//! Continuity classes of door transitions.
use vstd::prelude::*;
use vstd::string::StringExecFns;

verus! {

/// Continuity class of a door's transition map.
///
/// - `C0`: the door is a continuous (not necessarily smooth) map between rooms.
/// - `C1`: the door is a continuously differentiable map; the transition is smooth.
#[derive(Debug, Clone, Copy, PartialEq, Eq, Hash, Structural)]
pub enum ContinuityClass {
    C0,
    C1,
}

impl Default for ContinuityClass {
    fn default() -> (r: Self)
        ensures
            r == ContinuityClass::C0,
    {
        ContinuityClass::C0
    }
}

/// The name of a continuity class: `C⁰` or `C¹`.
pub open spec fn class_text(k: ContinuityClass) -> Seq<char> {
    match k {
        ContinuityClass::C0 => "C⁰"@,
        ContinuityClass::C1 => "C¹"@,
    }
}

impl ContinuityClass {
    /// The class as text: `C⁰` or `C¹`.
    pub fn to_string(&self) -> (s: String)
        ensures
            s@ == class_text(*self),
    {
        match self {
            ContinuityClass::C0 => String::from_str("C⁰"),
            ContinuityClass::C1 => String::from_str("C¹"),
        }
    }
}

} // verus!
