//! What a search does at one node: take its group, fold a whole subtree
//! into the result, or keep descending.

use vstd::prelude::*;

verus! {

/// The decision a comparator chain makes at one node.  `take` collects the
/// node's own group; `fold_*` collects a whole subtree wholesale; `go_*`
/// descends to keep searching.  A well-formed action never folds and
/// descends on the same side.
pub struct SearchAction {
    pub take: bool,
    pub fold_left: bool,
    pub fold_right: bool,
    pub go_left: bool,
    pub go_right: bool,
}

impl SearchAction {
    pub open spec fn wf(self) -> bool {
        !(self.fold_left && self.go_left) && !(self.fold_right && self.go_right)
    }

    /// Whether either side of this node still interests the search.
    pub open spec fn left_interest(self) -> bool {
        self.fold_left || self.go_left
    }

    pub open spec fn right_interest(self) -> bool {
        self.fold_right || self.go_right
    }

    /// The neutral action: everything matches until a comparator says
    /// otherwise.
    pub fn new() -> (a: SearchAction)
        ensures
            a.take && a.fold_left && a.fold_right && !a.go_left && !a.go_right,
            a.wf(),
    {
        SearchAction { take: true, fold_left: true, fold_right: true, go_left: false, go_right: false }
    }

    /// Combines this action with another comparator's action on the same
    /// node: the node is taken only when both take it, a subtree is folded
    /// only when both fold it, and a subtree is descended into when both
    /// sides keep an interest in it but at least one cannot fold it whole.
    pub fn merge(&self, other: &SearchAction) -> (r: SearchAction)
        requires
            self.wf(),
            other.wf(),
        ensures
            r.wf(),
            r.take == (self.take && other.take),
            r.fold_left == (self.fold_left && other.fold_left),
            r.fold_right == (self.fold_right && other.fold_right),
            r.left_interest() == (self.left_interest() && other.left_interest()),
            r.right_interest() == (self.right_interest() && other.right_interest()),
    {
        let fold_left = self.fold_left && other.fold_left;
        let fold_right = self.fold_right && other.fold_right;
        let left = (self.fold_left || self.go_left) && (other.fold_left || other.go_left);
        let right = (self.fold_right || self.go_right) && (other.fold_right || other.go_right);
        SearchAction {
            take: self.take && other.take,
            fold_left,
            fold_right,
            go_left: left && !fold_left,
            go_right: right && !fold_right,
        }
    }

    /// Whether the search cannot expand past this node.
    pub fn is_stopped(&self) -> (r: bool)
        ensures
            r == (!self.go_left && !self.go_right),
    {
        !self.go_left && !self.go_right
    }
}

} // verus!
