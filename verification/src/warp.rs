//! Warps: teleports between rooms that do not follow any geometric
//! adjacency, and so create non-contractible loops.
use vstd::prelude::*;
use vstd::string::StringExecFns;

verus! {

/// A warp: a non-contractible path between rooms. Each warp contributes a
/// generator to the fundamental group.
#[derive(Debug, PartialEq, Eq, Hash)]
pub struct Warp {
    /// Source room id.
    pub from: String,
    /// Target room id.
    pub to: String,
    /// Human-readable label.
    pub label: String,
}

/// The mathematical value of a warp.
pub struct WarpView {
    pub from: Seq<char>,
    pub to: Seq<char>,
    pub label: Seq<char>,
}

impl View for Warp {
    type V = WarpView;

    open spec fn view(&self) -> WarpView {
        WarpView { from: self.from@, to: self.to@, label: self.label@ }
    }
}

impl Clone for Warp {
    fn clone(&self) -> (r: Self)
        ensures
            r@ == self@,
    {
        Warp { from: self.from.clone(), to: self.to.clone(), label: self.label.clone() }
    }
}

impl Warp {
    /// A new warp `from → to` labelled `label`.
    pub fn new(from: &str, to: &str, label: &str) -> (w: Warp)
        ensures
            w@ == (WarpView { from: from@, to: to@, label: label@ }),
    {
        Warp {
            from: String::from_str(from),
            to: String::from_str(to),
            label: String::from_str(label),
        }
    }
}

} // verus!
