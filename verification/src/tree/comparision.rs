//! One field condition: a comparator and a literal, and the search action
//! it dictates at a tree node.

use vstd::prelude::*;
use crate::value::Value;
use crate::value::Vs;
use crate::value::is_key;
use crate::value::key_lt;
use crate::value::key_compare;
use crate::value::lemma_key_order_total;
use crate::value::lemma_key_lt_trans;
use super::action::SearchAction;

verus! {

/// The comparators a query condition may use.
#[derive(Clone, Copy, PartialEq, Eq, Debug)]
pub enum Cmp {
    Eq,
    Ne,
    Gt,
    Lt,
    Ge,
    Le,
}

/// Whether an indexed key satisfies `cmp` against the literal `other`,
/// in the total key order.  A literal that is not a number or string is
/// never below or above any key, so only `Ne` can hold against it.
pub open spec fn meets(k: Vs, cmp: Cmp, other: Vs) -> bool {
    match cmp {
        Cmp::Eq => k == other,
        Cmp::Ne => k != other,
        Cmp::Gt => key_lt(other, k),
        Cmp::Lt => key_lt(k, other),
        Cmp::Ge => k == other || key_lt(other, k),
        Cmp::Le => k == other || key_lt(k, other),
    }
}

/// One comparator of one field's condition chain.
pub struct Comparision {
    pub field_int: Vec<char>,
    pub cmp: Cmp,
    pub other: Value,
}

/// Every comparator of a chain holds of the key.
pub open spec fn chain_meets(chain: Seq<Comparision>, k: Vs) -> bool {
    forall|i: int| 0 <= i < chain.len() ==> meets(k, chain[i].cmp, #[trigger] chain[i].other@)
}

impl Comparision {
    /// A condition on one field.
    pub fn new(field_int: Vec<char>, cmp: Cmp, other: Value) -> (c: Comparision)
        ensures
            c.field_int == field_int,
            c.cmp == cmp,
            c.other == other,
    {
        Comparision { field_int, cmp, other }
    }

    pub open spec fn spec_match(&self, k: Vs) -> bool {
        meets(k, self.cmp, self.other@)
    }

    /// Whether an indexed key passes this comparator; the point-wise test
    /// the executor applies to candidates of other fields.
    pub fn _match(&self, value: &Value) -> (r: bool)
        requires
            is_key(value@),
        ensures
            r == self.spec_match(value@),
    {
        proof {
            if is_key(self.other@) {
                lemma_key_order_total(value@, self.other@);
            }
        }
        if !self.other.can_index() {
            match self.cmp {
                Cmp::Ne => true,
                _ => false,
            }
        } else {
            let c = key_compare(value, &self.other);
            match self.cmp {
                Cmp::Eq => c == 0,
                Cmp::Ne => c != 0,
                Cmp::Gt => c == 1,
                Cmp::Lt => c == -1,
                Cmp::Ge => c >= 0,
                Cmp::Le => c <= 0,
            }
        }
    }

    /// The action this comparator dictates at a node holding `current`:
    /// where the matching keys can lie relative to it, which whole
    /// subtrees certainly match, and whether the node itself is taken.
    pub fn compare(&self, current: &Value) -> (a: SearchAction)
        requires
            is_key(current@),
        ensures
            a.wf(),
            a.take == self.spec_match(current@),
            a.fold_left ==> forall|k: Vs|
                is_key(k) && key_lt(k, current@) ==> #[trigger] self.spec_match(k),
            !a.left_interest() ==> forall|k: Vs|
                is_key(k) && key_lt(k, current@) ==> !(#[trigger] self.spec_match(k)),
            a.fold_right ==> forall|k: Vs|
                is_key(k) && key_lt(current@, k) ==> #[trigger] self.spec_match(k),
            !a.right_interest() ==> forall|k: Vs|
                is_key(k) && key_lt(current@, k) ==> !(#[trigger] self.spec_match(k)),
    {
        proof {
            if is_key(self.other@) {
                lemma_key_order_total(current@, self.other@);
            }
            assert forall|k: Vs| is_key(k) implies (key_lt(k, current@) ==> !key_lt(current@, k))
                && (key_lt(current@, k) ==> !key_lt(k, current@)) by {
                lemma_key_order_total(k, current@);
            }
        }
        let take = SearchAction { take: false, fold_left: false, fold_right: false, go_left: false, go_right: false };
        let c = if self.other.can_index() {
            key_compare(current, &self.other)
        } else {
            2
        };
        let a = match self.cmp {
            Cmp::Eq => {
                if c == 0 {
                    SearchAction { take: true, ..take }
                } else if c == -1 {
                    SearchAction { go_right: true, ..take }
                } else {
                    SearchAction { go_left: true, ..take }
                }
            },
            Cmp::Ne => {
                if c == 0 {
                    SearchAction { fold_left: true, fold_right: true, ..take }
                } else if c == -1 {
                    SearchAction { take: true, fold_left: true, go_right: true, ..take }
                } else {
                    SearchAction { take: true, fold_right: true, go_left: true, ..take }
                }
            },
            Cmp::Gt => {
                if c == 1 {
                    SearchAction { take: true, fold_right: true, go_left: true, ..take }
                } else if c == -1 {
                    SearchAction { go_right: true, ..take }
                } else if c == 0 {
                    SearchAction { fold_right: true, ..take }
                } else {
                    take
                }
            },
            Cmp::Lt => {
                if c == -1 {
                    SearchAction { take: true, fold_left: true, go_right: true, ..take }
                } else if c == 1 {
                    SearchAction { go_left: true, ..take }
                } else if c == 0 {
                    SearchAction { fold_left: true, ..take }
                } else {
                    take
                }
            },
            Cmp::Ge => {
                if c == 0 || c == 1 {
                    SearchAction { take: true, fold_right: true, go_left: c == 1, ..take }
                } else if c == -1 {
                    SearchAction { go_right: true, ..take }
                } else {
                    take
                }
            },
            Cmp::Le => {
                if c == 0 || c == -1 {
                    SearchAction { take: true, fold_left: true, go_right: c == -1, ..take }
                } else if c == 1 {
                    SearchAction { go_left: true, ..take }
                } else {
                    take
                }
            },
        };
        proof {
            assert forall|k: Vs| is_key(k) && key_lt(k, current@) && a.fold_left implies #[trigger] self.spec_match(
                k,
            ) by {
                lemma_cmp_below(k, current@, self.other@, self.cmp);
            }
            assert forall|k: Vs| is_key(k) && key_lt(k, current@) && !a.left_interest() implies !(
            #[trigger] self.spec_match(k)) by {
                lemma_cmp_below(k, current@, self.other@, self.cmp);
            }
            assert forall|k: Vs| is_key(k) && key_lt(current@, k) && a.fold_right implies #[trigger] self.spec_match(
                k,
            ) by {
                lemma_cmp_above(k, current@, self.other@, self.cmp);
            }
            assert forall|k: Vs| is_key(k) && key_lt(current@, k) && !a.right_interest() implies !(
            #[trigger] self.spec_match(k)) by {
                lemma_cmp_above(k, current@, self.other@, self.cmp);
            }
        }
        a
    }
}

/// Every comparator among the first `n` holds of the key.
pub open spec fn chain_meets_upto(chain: Seq<Comparision>, n: int, k: Vs) -> bool {
    forall|j: int| 0 <= j < n ==> meets(k, chain[j].cmp, #[trigger] chain[j].other@)
}

/// Evaluates a whole comparator chain at one node value, merging the
/// per-comparator actions.  The resulting action is sound and complete:
/// it takes the node exactly when every comparator holds, folds a side
/// only when every key on that side satisfies the whole chain, and loses
/// interest in a side only when no key there can satisfy it.
pub fn compare_self(chain: &Vec<Comparision>, current: &Value) -> (a: SearchAction)
    requires
        is_key(current@),
    ensures
        a.wf(),
        a.take == chain_meets(chain@, current@),
        a.fold_left ==> forall|k: Vs|
            is_key(k) && key_lt(k, current@) ==> #[trigger] chain_meets(chain@, k),
        !a.left_interest() ==> forall|k: Vs|
            is_key(k) && key_lt(k, current@) ==> !(#[trigger] chain_meets(chain@, k)),
        a.fold_right ==> forall|k: Vs|
            is_key(k) && key_lt(current@, k) ==> #[trigger] chain_meets(chain@, k),
        !a.right_interest() ==> forall|k: Vs|
            is_key(k) && key_lt(current@, k) ==> !(#[trigger] chain_meets(chain@, k)),
{
    let mut a = SearchAction::new();
    let mut i: usize = 0;
    while i < chain.len()
        invariant
            is_key(current@),
            0 <= i <= chain@.len(),
            a.wf(),
            a.take == chain_meets_upto(chain@, i as int, current@),
            a.fold_left ==> forall|k: Vs|
                is_key(k) && key_lt(k, current@) ==> #[trigger] chain_meets_upto(
                    chain@,
                    i as int,
                    k,
                ),
            !a.left_interest() ==> forall|k: Vs|
                is_key(k) && key_lt(k, current@) ==> !(#[trigger] chain_meets_upto(
                    chain@,
                    i as int,
                    k,
                )),
            a.fold_right ==> forall|k: Vs|
                is_key(k) && key_lt(current@, k) ==> #[trigger] chain_meets_upto(
                    chain@,
                    i as int,
                    k,
                ),
            !a.right_interest() ==> forall|k: Vs|
                is_key(k) && key_lt(current@, k) ==> !(#[trigger] chain_meets_upto(
                    chain@,
                    i as int,
                    k,
                )),
        decreases chain@.len() - i,
    {
        let ghost a0 = a;
        let ghost n = i as int;
        let c = chain[i].compare(current);
        a = a.merge(&c);
        i = i + 1;
        proof {
            assert forall|k: Vs|
                is_key(k) && chain_meets_upto(chain@, n, k) && chain@[n].spec_match(
                    k,
                ) implies #[trigger] chain_meets_upto(chain@, n + 1, k) by {
                assert forall|j: int| 0 <= j < n + 1 implies meets(
                    k,
                    chain@[j].cmp,
                    #[trigger] chain@[j].other@,
                ) by {
                    if j < n {
                        assert(chain_meets_upto(chain@, n, k));
                    } else {
                        assert(chain@[n].spec_match(k));
                    }
                }
            }
            assert forall|k: Vs|
                is_key(k) && #[trigger] chain_meets_upto(chain@, n + 1, k) implies chain_meets_upto(
                chain@,
                n,
                k,
            ) && chain@[n].spec_match(k) by {
                assert(meets(k, chain@[n].cmp, chain@[n].other@));
            }
            if a.take {
                assert(chain_meets_upto(chain@, n + 1, current@));
            } else {
                if chain_meets_upto(chain@, n + 1, current@) {
                    assert(chain_meets_upto(chain@, n, current@) && chain@[n].spec_match(current@));
                }
            }
            if a.fold_left {
                assert forall|k: Vs| is_key(k) && key_lt(k, current@) implies #[trigger] chain_meets_upto(
                    chain@,
                    n + 1,
                    k,
                ) by {
                    assert(chain_meets_upto(chain@, n, k));
                    assert(chain@[n].spec_match(k));
                }
            }
            if !a.left_interest() {
                assert forall|k: Vs| is_key(k) && key_lt(k, current@) implies !(
                #[trigger] chain_meets_upto(chain@, n + 1, k)) by {
                    if !a0.left_interest() {
                        assert(!chain_meets_upto(chain@, n, k));
                    } else {
                        assert(!c.left_interest());
                        assert(!chain@[n].spec_match(k));
                    }
                }
            }
            if a.fold_right {
                assert forall|k: Vs| is_key(k) && key_lt(current@, k) implies #[trigger] chain_meets_upto(
                    chain@,
                    n + 1,
                    k,
                ) by {
                    assert(chain_meets_upto(chain@, n, k));
                    assert(chain@[n].spec_match(k));
                }
            }
            if !a.right_interest() {
                assert forall|k: Vs| is_key(k) && key_lt(current@, k) implies !(
                #[trigger] chain_meets_upto(chain@, n + 1, k)) by {
                    if !a0.right_interest() {
                        assert(!chain_meets_upto(chain@, n, k));
                    } else {
                        assert(!c.right_interest());
                        assert(!chain@[n].spec_match(k));
                    }
                }
            }
        }
    }
    proof {
        assert forall|k: Vs| is_key(k) implies (chain_meets_upto(chain@, chain@.len() as int, k)
            == chain_meets(chain@, k)) by {}
    }
    a
}

/// Order facts relating a key below the current node to the literal.
proof fn lemma_cmp_below(k: Vs, cur: Vs, other: Vs, cmp: Cmp)
    requires
        is_key(k),
        is_key(cur),
        key_lt(k, cur),
    ensures
        cur == other ==> key_lt(k, other),
        key_lt(cur, other) ==> key_lt(k, other),
        (is_key(other) && key_lt(k, other)) ==> k != other,
        key_lt(k, other) ==> !key_lt(other, k),
        !is_key(other) ==> k != other && !key_lt(other, k) && !key_lt(k, other),
{
    lemma_key_order_total(k, cur);
    if is_key(other) {
        lemma_key_order_total(k, other);
        lemma_key_order_total(cur, other);
        if key_lt(cur, other) {
            lemma_key_lt_trans(k, cur, other);
        }
    }
}

/// Order facts relating a key above the current node to the literal.
proof fn lemma_cmp_above(k: Vs, cur: Vs, other: Vs, cmp: Cmp)
    requires
        is_key(k),
        is_key(cur),
        key_lt(cur, k),
    ensures
        cur == other ==> key_lt(other, k),
        key_lt(other, cur) ==> key_lt(other, k),
        (is_key(other) && key_lt(other, k)) ==> k != other,
        key_lt(other, k) ==> !key_lt(k, other),
        !is_key(other) ==> k != other && !key_lt(other, k) && !key_lt(k, other),
{
    lemma_key_order_total(cur, k);
    if is_key(other) {
        lemma_key_order_total(k, other);
        lemma_key_order_total(cur, other);
        if key_lt(other, cur) {
            lemma_key_lt_trans(other, cur, k);
        }
    }
}

} // verus!
