//! One tree node per distinct value of one indexed field.  A node owns the
//! group of record ids sharing its value and the two subtrees; the subtree
//! reachable from a node is viewed as a map from each distinct key to the
//! sequence of ids holding it.

use vstd::prelude::*;
use crate::value::Value;
use crate::value::Vs;
use crate::value::Id;
use crate::value::is_key;
use crate::value::key_lt;
use crate::value::key_compare;
use crate::value::lex_compare;
use crate::value::clone_chars;
use crate::value::lemma_key_order_total;
use super::comparision::Comparision;
use super::comparision::chain_meets;
use super::comparision::compare_self;

verus! {

/// The ids of the records sharing one node's value, in insertion order.
pub type Group = Vec<Id>;

/// The groups a search has accumulated.
pub type Groups = Vec<Group>;

/// The mathematical view of a group: the sequence of its id strings.
pub open spec fn group_view(g: Seq<Id>) -> Seq<Seq<char>> {
    Seq::new(g.len(), |i: int| if 0 <= i < g.len() { g[i]@ } else { Seq::empty() })
}

/// Inserting an id under a key in a key-to-group map: the id joins the
/// key's group, which is created when absent.
pub open spec fn map_insert_group(
    m: Map<Vs, Seq<Seq<char>>>,
    k: Vs,
    idv: Seq<char>,
) -> Map<Vs, Seq<Seq<char>>> {
    m.insert(
        k,
        if m.dom().contains(k) {
            m[k].push(idv)
        } else {
            seq![idv]
        },
    )
}

/// Removing the first occurrence of an id from a group.
pub open spec fn group_remove(g: Seq<Seq<char>>, idv: Seq<char>) -> Seq<Seq<char>>
    decreases g.len(),
{
    if g.len() == 0 {
        g
    } else if g[0] == idv {
        g.drop_first()
    } else {
        seq![g[0]] + group_remove(g.drop_first(), idv)
    }
}

/// Removing an id from a key's group in a key-to-group map; a group left
/// empty disappears together with its key.
pub open spec fn map_remove_id(
    m: Map<Vs, Seq<Seq<char>>>,
    k: Vs,
    idv: Seq<char>,
) -> Map<Vs, Seq<Seq<char>>> {
    if m.dom().contains(k) {
        if group_remove(m[k], idv).len() == 0 {
            m.remove(k)
        } else {
            m.insert(k, group_remove(m[k], idv))
        }
    } else {
        m
    }
}

/// One vertex of a field's binary search tree.
pub struct Node {
    pub key: Value,
    pub group: Group,
    pub left: Option<Box<Node>>,
    pub right: Option<Box<Node>>,
}

impl Node {
    /// The key-to-group map of an optional subtree.
    pub open spec fn optional_as_map(node_opt: Option<Box<Node>>) -> Map<Vs, Seq<Seq<char>>>
        decreases node_opt,
    {
        match node_opt {
            Option::None => Map::empty(),
            Option::Some(node) => node.as_map(),
        }
    }

    /// The key-to-group map of the subtree rooted here.
    pub open spec fn as_map(self) -> Map<Vs, Seq<Seq<char>>>
        decreases self,
    {
        Node::optional_as_map(self.left).union_prefer_right(
            Node::optional_as_map(self.right),
        ).insert(self.key@, group_view(self.group@))
    }

    /// The search-tree shape: an indexable key, a never-empty group, and
    /// strictly smaller keys to the left, strictly greater to the right.
    pub open spec fn well_formed(self) -> bool
        decreases self,
    {
        &&& is_key(self.key@)
        &&& self.group@.len() > 0
        &&& (forall|elem: Vs|
            Node::optional_as_map(self.left).dom().contains(elem) ==> key_lt(elem, self.key@))
        &&& (forall|elem: Vs|
            Node::optional_as_map(self.right).dom().contains(elem) ==> key_lt(self.key@, elem))
        &&& (match self.left {
            Option::Some(n) => n.well_formed(),
            Option::None => true,
        })
        &&& (match self.right {
            Option::Some(n) => n.well_formed(),
            Option::None => true,
        })
    }

    /// A fresh node holding one id under one key.
    pub fn new(id: Id, key: Value) -> (n: Node)
        requires
            is_key(key@),
        ensures
            n.well_formed(),
            n.as_map() =~= Map::empty().insert(key@, seq![id@]),
    {
        let mut group: Group = Vec::new();
        group.push(id);
        proof {
            assert(group_view(group@) =~= seq![id@]);
        }
        Node { key, group, left: None, right: None }
    }

    /// Files an id under its key somewhere below `node`, creating the
    /// node for a first-seen key.
    pub fn insert_into_optional(node: &mut Option<Box<Node>>, key: &Value, id: Id)
        requires
            old(node).is_some() ==> old(node).unwrap().well_formed(),
            is_key(key@),
        ensures
            final(node).is_some(),
            final(node).unwrap().well_formed(),
            Node::optional_as_map(*final(node)) =~= map_insert_group(
                Node::optional_as_map(*old(node)),
                key@,
                id@,
            ),
        decreases *old(node),
    {
        match node.take() {
            None => {
                *node = Some(Box::new(Node::new(id, key.duplicate_key())));
            },
            Some(mut boxed_node) => {
                (&mut *boxed_node).insert(key, id);
                *node = Some(boxed_node);
            },
        }
    }

    /// Files an id under its key in this subtree: an equal key joins this
    /// node's group, smaller and greater keys descend.
    pub fn insert(&mut self, key: &Value, id: Id)
        requires
            old(self).well_formed(),
            is_key(key@),
        ensures
            final(self).well_formed(),
            final(self).as_map() =~= map_insert_group(old(self).as_map(), key@, id@),
        decreases *old(self),
    {
        proof {
            lemma_key_order_total(key@, self.key@);
        }
        let c = key_compare(key, &self.key);
        if c == 0 {
            self.group.push(id);
            proof {
                assert(!Node::optional_as_map(self.left).dom().contains(key@));
                assert(!Node::optional_as_map(self.right).dom().contains(key@));
                assert(group_view(self.group@) =~= group_view(old(self).group@).push(id@));
            }
        } else if c == -1 {
            Self::insert_into_optional(&mut self.left, key, id);
            proof {
                assert(!Node::optional_as_map(old(self).right).dom().contains(key@));
            }
        } else {
            Self::insert_into_optional(&mut self.right, key, id);
            proof {
                assert(!Node::optional_as_map(old(self).left).dom().contains(key@));
            }
        }
    }

    /// Removes one id filed under `key` below `node`.  A group left empty
    /// takes its node with it: a leaf is unlinked, a one-child node is
    /// replaced by its child, and a two-children node by its in-order
    /// successor, the leftmost node of its right subtree.
    pub fn delete_from_optional(node: &mut Option<Box<Node>>, key: &Value, id: &Id)
        requires
            old(node).is_some() ==> old(node).unwrap().well_formed(),
            is_key(key@),
        ensures
            final(node).is_some() ==> final(node).unwrap().well_formed(),
            Node::optional_as_map(*final(node)) =~= map_remove_id(
                Node::optional_as_map(*old(node)),
                key@,
                id@,
            ),
        decreases *old(node),
    {
        if let Some(mut boxed_node) = node.take() {
            proof {
                lemma_key_order_total(key@, boxed_node.key@);
            }
            let c = key_compare(key, &boxed_node.key);
            if c == 0 {
                proof {
                    assert(!Node::optional_as_map(boxed_node.left).dom().contains(key@));
                    assert(!Node::optional_as_map(boxed_node.right).dom().contains(key@));
                }
                group_remove_exec(&mut boxed_node.group, id);
                if boxed_node.group.len() > 0 {
                    *node = Some(boxed_node);
                } else {
                    if boxed_node.left.is_none() {
                        *node = boxed_node.right;
                    } else if boxed_node.right.is_none() {
                        *node = boxed_node.left;
                    } else {
                        let ghost old_key = boxed_node.key@;
                        let (k2, g2) = Node::delete_leftmost(&mut boxed_node.right);
                        proof {
                            assert(key_lt(old_key, k2@));
                            assert forall|elem: Vs|
                                Node::optional_as_map(boxed_node.left).dom().contains(elem)
                                implies key_lt(elem, k2@) by {
                                crate::value::lemma_key_lt_trans(elem, old_key, k2@);
                            }
                        }
                        boxed_node.key = k2;
                        boxed_node.group = g2;
                        *node = Some(boxed_node);
                    }
                }
            } else if c == -1 {
                proof {
                    assert(!Node::optional_as_map(boxed_node.right).dom().contains(key@));
                }
                Node::delete_from_optional(&mut boxed_node.left, key, id);
                *node = Some(boxed_node);
            } else {
                proof {
                    assert(!Node::optional_as_map(boxed_node.left).dom().contains(key@));
                }
                Node::delete_from_optional(&mut boxed_node.right, key, id);
                *node = Some(boxed_node);
            }
        }
    }

    /// Unlinks and hands back the smallest key of a nonempty subtree,
    /// together with its whole group.
    fn delete_leftmost(node: &mut Option<Box<Node>>) -> (popped: (Value, Group))
        requires
            old(node).is_some(),
            old(node).unwrap().well_formed(),
        ensures
            final(node).is_some() ==> final(node).unwrap().well_formed(),
            Node::optional_as_map(*final(node)) =~= Node::optional_as_map(*old(node)).remove(
                popped.0@,
            ),
            Node::optional_as_map(*old(node)).dom().contains(popped.0@),
            Node::optional_as_map(*old(node))[popped.0@] == group_view(popped.1@),
            is_key(popped.0@),
            group_view(popped.1@).len() > 0,
            forall|elem: Vs|
                Node::optional_as_map(*old(node)).dom().contains(elem) && elem != popped.0@
                    ==> key_lt(popped.0@, elem),
        decreases *old(node),
    {
        let mut boxed_node = node.take().unwrap();
        if boxed_node.left.is_none() {
            proof {
                lemma_key_order_total(boxed_node.key@, boxed_node.key@);
                assert(Node::optional_as_map(boxed_node.left) =~= Map::empty());
                assert(!Node::optional_as_map(boxed_node.right).dom().contains(boxed_node.key@));
            }
            *node = boxed_node.right;
            return (boxed_node.key, boxed_node.group);
        } else {
            let ghost left0 = Node::optional_as_map(boxed_node.left);
            let popped = Node::delete_leftmost(&mut boxed_node.left);
            proof {
                assert(left0.dom().contains(popped.0@));
                assert(key_lt(popped.0@, boxed_node.key@));
                lemma_key_order_total(popped.0@, boxed_node.key@);
                if Node::optional_as_map(boxed_node.right).dom().contains(popped.0@) {
                    assert(key_lt(boxed_node.key@, popped.0@));
                    assert(false);
                }
                assert forall|elem: Vs|
                    Node::optional_as_map(*old(node)).dom().contains(elem) && elem != popped.0@
                    implies key_lt(popped.0@, elem) by {
                    if left0.dom().contains(elem) {
                    } else if Node::optional_as_map(boxed_node.right).dom().contains(elem) {
                        crate::value::lemma_key_lt_trans(popped.0@, boxed_node.key@, elem);
                    }
                }
            }
            *node = Some(boxed_node);
            return popped;
        }
    }

    /// The value this node stands for.
    pub fn get_value(&self) -> (r: &Value)
        ensures
            r@ == self.key@,
    {
        &self.key
    }
}

/// Removes the first id equal to `id` from a group, if any.
pub fn group_remove_exec(group: &mut Group, id: &Id)
    ensures
        group_view(final(group)@) =~= group_remove(group_view(old(group)@), id@),
{
    let mut i: usize = 0;
    while i < group.len()
        invariant
            0 <= i <= group@.len(),
            forall|j: int| 0 <= j < i ==> group@[j]@ != id@,
            group@ == old(group)@,
        decreases group@.len() - i,
    {
        if lex_compare(&group[i], id) == 0 {
            group.remove(i);
            proof {
                lemma_group_remove_at(group_view(old(group)@), id@, i as int);
                assert(group_view(group@) =~= group_view(old(group)@).remove(i as int));
            }
            return ;
        }
        i = i + 1;
    }
    proof {
        lemma_group_remove_absent(group_view(old(group)@), id@);
    }
}

/// When the first `i` entries differ from the id and entry `i` equals it,
/// removing the id removes exactly entry `i`.
proof fn lemma_group_remove_at(g: Seq<Seq<char>>, idv: Seq<char>, i: int)
    requires
        0 <= i < g.len(),
        forall|j: int| 0 <= j < i ==> g[j] != idv,
        g[i] == idv,
    ensures
        group_remove(g, idv) =~= g.remove(i),
    decreases i,
{
    if i == 0 {
        assert(group_remove(g, idv) =~= g.drop_first());
        assert(g.remove(0) =~= g.drop_first());
    } else {
        assert forall|j: int| 0 <= j < i - 1 implies g.drop_first()[j] != idv by {
            assert(g[j + 1] != idv);
        }
        lemma_group_remove_at(g.drop_first(), idv, i - 1);
        assert(g.drop_first().remove(i - 1) =~= g.remove(i).drop_first());
        assert(group_remove(g, idv) =~= seq![g[0]] + g.drop_first().remove(i - 1));
        assert(g.remove(i) =~= seq![g[0]] + g.remove(i).drop_first());
    }
}

/// What removing an id does to a duplicate-free group: the id leaves, the
/// rest stay, and the group shrinks by one when the id was present.
pub proof fn lemma_group_remove_semantics(g: Seq<Seq<char>>, idv: Seq<char>)
    requires
        g.no_duplicates(),
    ensures
        group_remove(g, idv).no_duplicates(),
        forall|x: Seq<char>|
            #[trigger] group_remove(g, idv).contains(x) <==> (g.contains(x) && x != idv),
        group_remove(g, idv).len() == (if g.contains(idv) {
            g.len() - 1
        } else {
            g.len() as int
        }),
    decreases g.len(),
{
    if g.len() == 0 {
        assert forall|x: Seq<char>| !(#[trigger] group_remove(g, idv).contains(x)) by {}
        assert(!g.contains(idv));
    } else if g[0] == idv {
        assert(group_remove(g, idv) == g.drop_first());
        assert(g.contains(idv)) by {
            assert(g[0] == idv);
        }
        assert forall|x: Seq<char>|
            #[trigger] g.drop_first().contains(x) implies g.contains(x) && x != idv by {
            let j = choose|j: int| 0 <= j < g.drop_first().len() && g.drop_first()[j] == x;
            assert(g[j + 1] == x);
            if x == idv {
                assert(g[0] == g[j + 1]);
            }
        }
        assert forall|x: Seq<char>|
            g.contains(x) && x != idv implies #[trigger] g.drop_first().contains(x) by {
            let j = choose|j: int| 0 <= j < g.len() && g[j] == x;
            assert(j > 0);
            assert(g.drop_first()[j - 1] == x);
        }
    } else {
        let rest = g.drop_first();
        assert(rest.no_duplicates()) by {
            assert forall|i: int, j: int|
                0 <= i < rest.len() && 0 <= j < rest.len() && i != j implies rest[i] != rest[j] by {
                assert(g[i + 1] == rest[i]);
                assert(g[j + 1] == rest[j]);
            }
        }
        lemma_group_remove_semantics(rest, idv);
        let out = seq![g[0]] + group_remove(rest, idv);
        assert(group_remove(g, idv) == out);
        assert forall|x: Seq<char>| #[trigger] out.contains(x) implies (g.contains(x) && x
            != idv) by {
            let j = choose|j: int| 0 <= j < out.len() && out[j] == x;
            if j == 0 {
                assert(g[0] == x);
                assert(g.contains(x));
            } else {
                assert(group_remove(rest, idv).contains(x)) by {
                    assert(group_remove(rest, idv)[j - 1] == x);
                }
                assert(rest.contains(x));
                let jj = choose|jj: int| 0 <= jj < rest.len() && rest[jj] == x;
                assert(g[jj + 1] == x);
                assert(g.contains(x));
            }
        }
        assert forall|x: Seq<char>|
            g.contains(x) && x != idv implies #[trigger] out.contains(x) by {
            let j = choose|j: int| 0 <= j < g.len() && g[j] == x;
            if j == 0 {
                assert(out[0] == x);
            } else {
                assert(rest[j - 1] == x);
                assert(rest.contains(x));
                assert(group_remove(rest, idv).contains(x));
                let jj = choose|jj: int|
                    0 <= jj < group_remove(rest, idv).len() && group_remove(rest, idv)[jj] == x;
                assert(out[jj + 1] == x);
            }
        }
        assert(out.no_duplicates()) by {
            assert forall|i: int, j: int|
                0 <= i < out.len() && 0 <= j < out.len() && i != j implies out[i] != out[j] by {
                if i == 0 || j == 0 {
                    let (z, nz) = if i == 0 {
                        (i, j)
                    } else {
                        (j, i)
                    };
                    assert(out[nz] == group_remove(rest, idv)[nz - 1]);
                    assert(group_remove(rest, idv).contains(out[nz]));
                    if out[z] == out[nz] {
                        assert(rest.contains(g[0]));
                        let jj = choose|jj: int| 0 <= jj < rest.len() && rest[jj] == g[0];
                        assert(g[jj + 1] == g[0]);
                    }
                } else {
                    assert(out[i] == group_remove(rest, idv)[i - 1]);
                    assert(out[j] == group_remove(rest, idv)[j - 1]);
                }
            }
        }
        if g.contains(idv) {
            assert(rest.contains(idv)) by {
                let j = choose|j: int| 0 <= j < g.len() && g[j] == idv;
                assert(j > 0);
                assert(rest[j - 1] == idv);
            }
        } else {
            assert(!rest.contains(idv)) by {
                if rest.contains(idv) {
                    let j = choose|j: int| 0 <= j < rest.len() && rest[j] == idv;
                    assert(g[j + 1] == idv);
                }
            }
        }
    }
}

/// Removing an absent id leaves a group unchanged.
proof fn lemma_group_remove_absent(g: Seq<Seq<char>>, idv: Seq<char>)
    requires
        forall|j: int| 0 <= j < g.len() ==> g[j] != idv,
    ensures
        group_remove(g, idv) =~= g,
    decreases g.len(),
{
    if g.len() > 0 {
        assert forall|j: int| 0 <= j < g.drop_first().len() implies g.drop_first()[j] != idv by {
            assert(g[j + 1] != idv);
        }
        lemma_group_remove_absent(g.drop_first(), idv);
        assert(seq![g[0]] + g.drop_first() =~= g);
    }
}

/// The set of ids a sequence holds.
pub open spec fn set_of(g: Seq<Seq<char>>) -> Set<Seq<char>> {
    Set::new(|idv: Seq<char>| g.contains(idv))
}

/// The set of all ids filed anywhere in a key-to-group map.
pub open spec fn all_ids(m: Map<Vs, Seq<Seq<char>>>) -> Set<Seq<char>> {
    Set::new(
        |idv: Seq<char>|
            exists|k: Vs| #![auto] m.dom().contains(k) && m[k].contains(idv),
    )
}

/// The set of ids filed under keys satisfying the chain.
pub open spec fn matching_ids(m: Map<Vs, Seq<Seq<char>>>, chain: Seq<Comparision>) -> Set<
    Seq<char>,
> {
    Set::new(
        |idv: Seq<char>|
            exists|k: Vs| #![auto]
                m.dom().contains(k) && chain_meets(chain, k) && m[k].contains(idv),
    )
}

/// No id is filed twice in a key-to-group map: an id appears in at most
/// one group, and once in it.
pub open spec fn ids_unique(m: Map<Vs, Seq<Seq<char>>>) -> bool {
    forall|k1: Vs, k2: Vs, i1: int, i2: int|
        #![trigger m[k1][i1], m[k2][i2]]
        m.dom().contains(k1) && m.dom().contains(k2) && 0 <= i1 < m[k1].len() && 0 <= i2
            < m[k2].len() && m[k1][i1] == m[k2][i2] ==> k1 == k2 && i1 == i2
}

/// A search result grew from `before` to `after` by exactly the ids of
/// `want`, each appended once.
pub open spec fn adds(
    before: Seq<Seq<char>>,
    after: Seq<Seq<char>>,
    want: Set<Seq<char>>,
) -> bool {
    &&& after.len() >= before.len()
    &&& after.take(before.len() as int) == before
    &&& after.skip(before.len() as int).no_duplicates()
    &&& forall|idv: Seq<char>|
        #[trigger] after.skip(before.len() as int).contains(idv) <==> want.contains(idv)
}

/// Nothing appended: the result is unchanged and the want is empty.
pub proof fn lemma_adds_refl(s: Seq<Seq<char>>, want: Set<Seq<char>>)
    requires
        forall|idv: Seq<char>| !want.contains(idv),
    ensures
        adds(s, s, want),
{
    assert(s.take(s.len() as int) =~= s);
    assert(s.skip(s.len() as int) =~= Seq::<Seq<char>>::empty());
}

/// Two appends in a row add the union of their wants, provided the wants
/// share no id.
pub proof fn lemma_adds_trans(
    a: Seq<Seq<char>>,
    b: Seq<Seq<char>>,
    c: Seq<Seq<char>>,
    w1: Set<Seq<char>>,
    w2: Set<Seq<char>>,
)
    requires
        adds(a, b, w1),
        adds(b, c, w2),
        w1.disjoint(w2),
    ensures
        adds(a, c, w1.union(w2)),
{
    let p1 = b.skip(a.len() as int);
    let p2 = c.skip(b.len() as int);
    assert(c.take(a.len() as int) =~= a) by {
        assert forall|j: int| 0 <= j < a.len() implies c[j] == a[j] by {
            assert(c.take(b.len() as int)[j] == b[j]);
            assert(b.take(a.len() as int)[j] == a[j]);
        }
    }
    assert(c.skip(a.len() as int) =~= p1 + p2) by {
        assert forall|j: int| 0 <= j < c.len() - a.len() implies c.skip(a.len() as int)[j] == (p1
            + p2)[j] by {
            if j < b.len() - a.len() {
                assert(c.take(b.len() as int)[a.len() + j] == b[a.len() + j]);
            }
        }
    }
    assert(c.skip(a.len() as int).no_duplicates()) by {
        assert forall|i: int, j: int|
            0 <= i < (p1 + p2).len() && 0 <= j < (p1 + p2).len() && i != j implies (p1 + p2)[i]
            != (p1 + p2)[j] by {
            if i < p1.len() && j < p1.len() {
            } else if i >= p1.len() && j >= p1.len() {
            } else {
                let (x, y) = if i < p1.len() {
                    (i, j)
                } else {
                    (j, i)
                };
                assert(p1.contains(p1[x]));
                assert(p2.contains(p2[y - p1.len()]));
            }
        }
    }
    assert forall|idv: Seq<char>| #[trigger] c.skip(a.len() as int).contains(idv) implies w1.union(
        w2,
    ).contains(idv) by {
        let j = choose|j: int| 0 <= j < (p1 + p2).len() && (p1 + p2)[j] == idv;
        if j < p1.len() {
            assert(p1.contains(idv));
        } else {
            assert(p2.contains(idv));
        }
    }
    assert forall|idv: Seq<char>| w1.union(w2).contains(idv) implies #[trigger] c.skip(
        a.len() as int,
    ).contains(idv) by {
        if w1.contains(idv) {
            assert(p1.contains(idv));
            let j = choose|j: int| 0 <= j < p1.len() && p1[j] == idv;
            assert((p1 + p2)[j] == idv);
        } else {
            assert(p2.contains(idv));
            let j = choose|j: int| 0 <= j < p2.len() && p2[j] == idv;
            assert((p1 + p2)[p1.len() + j] == idv);
        }
    }
}

impl Node {
    /// How a well-formed node's map decomposes into its regions.
    pub proof fn lemma_map_structure(self)
        requires
            self.well_formed(),
        ensures
            self.as_map().dom() =~= Node::optional_as_map(self.left).dom().union(
                Node::optional_as_map(self.right).dom(),
            ).insert(self.key@),
            self.as_map()[self.key@] == group_view(self.group@),
            !Node::optional_as_map(self.left).dom().contains(self.key@),
            !Node::optional_as_map(self.right).dom().contains(self.key@),
            Node::optional_as_map(self.left).dom().disjoint(
                Node::optional_as_map(self.right).dom(),
            ),
            forall|k: Vs|
                Node::optional_as_map(self.left).dom().contains(k) ==> self.as_map()[k]
                    == #[trigger] Node::optional_as_map(self.left)[k],
            forall|k: Vs|
                Node::optional_as_map(self.right).dom().contains(k) ==> self.as_map()[k]
                    == #[trigger] Node::optional_as_map(self.right)[k],
    {
        let lm = Node::optional_as_map(self.left);
        let rm = Node::optional_as_map(self.right);
        assert forall|k: Vs| lm.dom().contains(k) && rm.dom().contains(k) implies false by {
            crate::value::lemma_key_asym(k, self.key@);
        }
        assert forall|k: Vs| lm.dom().contains(k) implies self.as_map()[k] == lm[k] by {
            if k == self.key@ {
                crate::value::lemma_key_asym(k, self.key@);
            }
        }
        assert forall|k: Vs| rm.dom().contains(k) implies self.as_map()[k] == rm[k] by {
            if k == self.key@ {
                crate::value::lemma_key_asym(self.key@, k);
            }
        }
        assert forall|k: Vs| lm.dom().contains(k) implies k != self.key@ by {
            if k == self.key@ {
                crate::value::lemma_key_asym(k, self.key@);
            }
        }
        assert forall|k: Vs| rm.dom().contains(k) implies k != self.key@ by {
            if k == self.key@ {
                crate::value::lemma_key_asym(self.key@, k);
            }
        }
    }

    /// Uniqueness of ids passes from a node's map to its regions, whose
    /// id sets are pairwise disjoint.
    pub proof fn lemma_regions(self)
        requires
            self.well_formed(),
            ids_unique(self.as_map()),
        ensures
            ids_unique(Node::optional_as_map(self.left)),
            ids_unique(Node::optional_as_map(self.right)),
            group_view(self.group@).no_duplicates(),
            all_ids(Node::optional_as_map(self.left)).disjoint(
                all_ids(Node::optional_as_map(self.right)),
            ),
            all_ids(Node::optional_as_map(self.left)).disjoint(set_of(group_view(self.group@))),
            all_ids(Node::optional_as_map(self.right)).disjoint(set_of(group_view(self.group@))),
    {
        self.lemma_map_structure();
        let m = self.as_map();
        let lm = Node::optional_as_map(self.left);
        let rm = Node::optional_as_map(self.right);
        assert forall|k1: Vs, k2: Vs, i1: int, i2: int|
            #![trigger lm[k1][i1], lm[k2][i2]]
            lm.dom().contains(k1) && lm.dom().contains(k2) && 0 <= i1 < lm[k1].len() && 0 <= i2
                < lm[k2].len() && lm[k1][i1] == lm[k2][i2] implies k1 == k2 && i1 == i2 by {
            assert(m[k1][i1] == m[k2][i2]);
        }
        assert forall|k1: Vs, k2: Vs, i1: int, i2: int|
            #![trigger rm[k1][i1], rm[k2][i2]]
            rm.dom().contains(k1) && rm.dom().contains(k2) && 0 <= i1 < rm[k1].len() && 0 <= i2
                < rm[k2].len() && rm[k1][i1] == rm[k2][i2] implies k1 == k2 && i1 == i2 by {
            assert(m[k1][i1] == m[k2][i2]);
        }
        assert forall|i1: int, i2: int|
            0 <= i1 < group_view(self.group@).len() && 0 <= i2 < group_view(self.group@).len()
                && i1 != i2 implies group_view(self.group@)[i1] != group_view(
            self.group@,
        )[i2] by {
            assert(m[self.key@][i1] == group_view(self.group@)[i1]);
            assert(m[self.key@][i2] == group_view(self.group@)[i2]);
        }
        assert forall|idv: Seq<char>|
            all_ids(lm).contains(idv) && all_ids(rm).contains(idv) implies false by {
            let k1 = choose|k1: Vs| #![auto] lm.dom().contains(k1) && lm[k1].contains(idv);
            let k2 = choose|k2: Vs| #![auto] rm.dom().contains(k2) && rm[k2].contains(idv);
            let i1 = choose|i1: int| 0 <= i1 < lm[k1].len() && lm[k1][i1] == idv;
            let i2 = choose|i2: int| 0 <= i2 < rm[k2].len() && rm[k2][i2] == idv;
            assert(m[k1][i1] == m[k2][i2]);
        }
        assert forall|idv: Seq<char>|
            all_ids(lm).contains(idv) && set_of(group_view(self.group@)).contains(
                idv,
            ) implies false by {
            let k1 = choose|k1: Vs| #![auto] lm.dom().contains(k1) && lm[k1].contains(idv);
            let i1 = choose|i1: int| 0 <= i1 < lm[k1].len() && lm[k1][i1] == idv;
            let i2 = choose|i2: int|
                0 <= i2 < group_view(self.group@).len() && group_view(self.group@)[i2] == idv;
            assert(m[k1][i1] == m[self.key@][i2]);
        }
        assert forall|idv: Seq<char>|
            all_ids(rm).contains(idv) && set_of(group_view(self.group@)).contains(
                idv,
            ) implies false by {
            let k1 = choose|k1: Vs| #![auto] rm.dom().contains(k1) && rm[k1].contains(idv);
            let i1 = choose|i1: int| 0 <= i1 < rm[k1].len() && rm[k1][i1] == idv;
            let i2 = choose|i2: int|
                0 <= i2 < group_view(self.group@).len() && group_view(self.group@)[i2] == idv;
            assert(m[k1][i1] == m[self.key@][i2]);
        }
    }
}

/// Appends every id of a group to the result.
fn push_group(out: &mut Vec<Id>, group: &Group)
    requires
        group_view(group@).no_duplicates(),
    ensures
        adds(group_view(old(out)@), group_view(final(out)@), set_of(group_view(group@))),
{
    let ghost before = group_view(old(out)@);
    let mut i: usize = 0;
    while i < group.len()
        invariant
            group_view(group@).no_duplicates(),
            0 <= i <= group@.len(),
            group_view(out@) =~= before + group_view(group@).take(i as int),
        decreases group@.len() - i,
    {
        let ghost prevv = out@;
        let idc = clone_chars(&group[i]);
        let ghost cidv = idc@;
        out.push(idc);
        proof {
            assert(group_view(out@) =~= group_view(prevv).push(cidv));
            assert(group_view(group@).take(i + 1) =~= group_view(group@).take(i as int).push(
                group@[i as int]@,
            ));
            assert(group_view(out@) =~= before + group_view(group@).take(i + 1));
        }
        i = i + 1;
    }
    proof {
        assert(group_view(group@).take(group@.len() as int) =~= group_view(group@));
        let after = group_view(out@);
        assert(after.take(before.len() as int) =~= before);
        assert(after.skip(before.len() as int) =~= group_view(group@));
        assert forall|idv: Seq<char>|
            #[trigger] after.skip(before.len() as int).contains(idv) == set_of(
                group_view(group@),
            ).contains(idv) by {}
    }
}

impl Node {
    /// How a subtree's ids split over its three regions.
    proof fn lemma_all_ids_split(self)
        requires
            self.well_formed(),
        ensures
            all_ids(self.as_map()) =~= set_of(group_view(self.group@)).union(
                all_ids(Node::optional_as_map(self.left)),
            ).union(all_ids(Node::optional_as_map(self.right))),
    {
        self.lemma_map_structure();
        let m = self.as_map();
        let lm = Node::optional_as_map(self.left);
        let rm = Node::optional_as_map(self.right);
        assert forall|idv: Seq<char>| all_ids(m).contains(idv) implies set_of(
            group_view(self.group@),
        ).union(all_ids(lm)).union(all_ids(rm)).contains(idv) by {
            let k = choose|k: Vs| #![auto] m.dom().contains(k) && m[k].contains(idv);
            if k == self.key@ {
                assert(set_of(group_view(self.group@)).contains(idv));
            } else if lm.dom().contains(k) {
                assert(all_ids(lm).contains(idv));
            } else {
                assert(rm.dom().contains(k));
                assert(all_ids(rm).contains(idv));
            }
        }
        assert forall|idv: Seq<char>|
            set_of(group_view(self.group@)).union(all_ids(lm)).union(all_ids(rm)).contains(
                idv,
            ) implies all_ids(m).contains(idv) by {
            if set_of(group_view(self.group@)).contains(idv) {
                assert(m.dom().contains(self.key@) && m[self.key@].contains(idv));
            } else if all_ids(lm).contains(idv) {
                let k = choose|k: Vs| #![auto] lm.dom().contains(k) && lm[k].contains(idv);
                assert(m.dom().contains(k) && m[k].contains(idv));
            } else {
                let k = choose|k: Vs| #![auto] rm.dom().contains(k) && rm[k].contains(idv);
                assert(m.dom().contains(k) && m[k].contains(idv));
            }
        }
    }

    /// How a subtree's matching ids split over its three regions.
    proof fn lemma_matching_split(self, chain: Seq<Comparision>)
        requires
            self.well_formed(),
        ensures
            matching_ids(self.as_map(), chain) =~= (if chain_meets(chain, self.key@) {
                set_of(group_view(self.group@))
            } else {
                Set::empty()
            }).union(matching_ids(Node::optional_as_map(self.left), chain)).union(
                matching_ids(Node::optional_as_map(self.right), chain),
            ),
    {
        self.lemma_map_structure();
        let m = self.as_map();
        let lm = Node::optional_as_map(self.left);
        let rm = Node::optional_as_map(self.right);
        let own = if chain_meets(chain, self.key@) {
            set_of(group_view(self.group@))
        } else {
            Set::empty()
        };
        assert forall|idv: Seq<char>| matching_ids(m, chain).contains(idv) implies own.union(
            matching_ids(lm, chain),
        ).union(matching_ids(rm, chain)).contains(idv) by {
            let k = choose|k: Vs| #![auto]
                m.dom().contains(k) && chain_meets(chain, k) && m[k].contains(idv);
            if k == self.key@ {
                assert(own.contains(idv));
            } else if lm.dom().contains(k) {
                assert(matching_ids(lm, chain).contains(idv));
            } else {
                assert(rm.dom().contains(k));
                assert(matching_ids(rm, chain).contains(idv));
            }
        }
        assert forall|idv: Seq<char>|
            own.union(matching_ids(lm, chain)).union(matching_ids(rm, chain)).contains(
                idv,
            ) implies matching_ids(m, chain).contains(idv) by {
            if own.contains(idv) {
                assert(m.dom().contains(self.key@) && chain_meets(chain, self.key@)
                    && m[self.key@].contains(idv));
            } else if matching_ids(lm, chain).contains(idv) {
                let k = choose|k: Vs| #![auto]
                    lm.dom().contains(k) && chain_meets(chain, k) && lm[k].contains(idv);
                assert(m.dom().contains(k) && m[k].contains(idv));
            } else {
                let k = choose|k: Vs| #![auto]
                    rm.dom().contains(k) && chain_meets(chain, k) && rm[k].contains(idv);
                assert(m.dom().contains(k) && m[k].contains(idv));
            }
        }
    }
}

/// Matching ids are among all ids.
proof fn lemma_matching_sub(m: Map<Vs, Seq<Seq<char>>>, chain: Seq<Comparision>)
    ensures
        matching_ids(m, chain).subset_of(all_ids(m)),
{
    assert forall|idv: Seq<char>| matching_ids(m, chain).contains(idv) implies all_ids(
        m,
    ).contains(idv) by {
        let k = choose|k: Vs| #![auto]
            m.dom().contains(k) && chain_meets(chain, k) && m[k].contains(idv);
        assert(m.dom().contains(k) && m[k].contains(idv));
    }
}

/// When every key of a subtree satisfies the chain, its matching ids are
/// all of its ids.
proof fn lemma_matching_all(m: Map<Vs, Seq<Seq<char>>>, chain: Seq<Comparision>)
    requires
        forall|k: Vs| m.dom().contains(k) ==> #[trigger] chain_meets(chain, k),
    ensures
        matching_ids(m, chain) =~= all_ids(m),
{
    lemma_matching_sub(m, chain);
    assert forall|idv: Seq<char>| all_ids(m).contains(idv) implies matching_ids(
        m,
        chain,
    ).contains(idv) by {
        let k = choose|k: Vs| #![auto] m.dom().contains(k) && m[k].contains(idv);
        assert(chain_meets(chain, k));
    }
}

/// When no key of a subtree satisfies the chain, nothing in it matches.
proof fn lemma_matching_none(m: Map<Vs, Seq<Seq<char>>>, chain: Seq<Comparision>)
    requires
        forall|k: Vs| m.dom().contains(k) ==> !(#[trigger] chain_meets(chain, k)),
    ensures
        matching_ids(m, chain) =~= Set::<Seq<char>>::empty(),
{
    assert forall|idv: Seq<char>| !matching_ids(m, chain).contains(idv) by {
        if matching_ids(m, chain).contains(idv) {
            let k = choose|k: Vs| #![auto]
                m.dom().contains(k) && chain_meets(chain, k) && m[k].contains(idv);
        }
    }
}

/// All keys of a well-formed subtree are index keys.
pub proof fn lemma_dom_is_key(node_opt: Option<Box<Node>>)
    requires
        node_opt.is_some() ==> node_opt.unwrap().well_formed(),
    ensures
        forall|k: Vs| Node::optional_as_map(node_opt).dom().contains(k) ==> #[trigger] is_key(k),
    decreases node_opt,
{
    if let Some(n) = node_opt {
        lemma_dom_is_key(n.left);
        lemma_dom_is_key(n.right);
    }
}

impl Node {
    /// Appends every id of the subtree to the result, the node's own group
    /// first, then the right subtree, then the left.
    pub fn collect_all(node: &Option<Box<Node>>, out: &mut Vec<Id>)
        requires
            node.is_some() ==> node.unwrap().well_formed(),
            ids_unique(Node::optional_as_map(*node)),
        ensures
            adds(
                group_view(old(out)@),
                group_view(final(out)@),
                all_ids(Node::optional_as_map(*node)),
            ),
        decreases node,
    {
        match node {
            None => {
                proof {
                    assert forall|idv: Seq<char>|
                        !all_ids(Node::optional_as_map(*node)).contains(idv) by {
                        if all_ids(Node::optional_as_map(*node)).contains(idv) {
                            let k = choose|k: Vs| #![auto]
                                Node::optional_as_map(*node).dom().contains(k)
                                    && Node::optional_as_map(*node)[k].contains(idv);
                        }
                    }
                    lemma_adds_refl(group_view(out@), all_ids(Node::optional_as_map(*node)));
                }
            },
            Some(n) => {
                proof {
                    n.lemma_map_structure();
                    n.lemma_regions();
                    n.lemma_all_ids_split();
                }
                let ghost s0 = group_view(out@);
                push_group(out, &n.group);
                let ghost s1 = group_view(out@);
                Node::collect_all(&n.right, out);
                let ghost s2 = group_view(out@);
                Node::collect_all(&n.left, out);
                proof {
                    let own = set_of(group_view(n.group@));
                    let wl = all_ids(Node::optional_as_map(n.left));
                    let wr = all_ids(Node::optional_as_map(n.right));
                    lemma_adds_trans(s0, s1, s2, own, wr);
                    lemma_adds_trans(s0, s2, group_view(out@), own.union(wr), wl);
                    assert(own.union(wr).union(wl) =~= all_ids(n.as_map()));
                }
            },
        }
    }

    /// Searches the subtree from its root downward, collecting exactly the
    /// ids whose key satisfies the whole chain.
    pub fn search_root(&self, chain: &Vec<Comparision>, out: &mut Vec<Id>)
        requires
            self.well_formed(),
            ids_unique(self.as_map()),
        ensures
            adds(
                group_view(old(out)@),
                group_view(final(out)@),
                matching_ids(self.as_map(), chain@),
            ),
        decreases *self,
    {
        proof {
            self.lemma_map_structure();
            self.lemma_regions();
            self.lemma_matching_split(chain@);
            lemma_dom_is_key(self.left);
            lemma_dom_is_key(self.right);
            lemma_matching_sub(Node::optional_as_map(self.left), chain@);
            lemma_matching_sub(Node::optional_as_map(self.right), chain@);
        }
        let a = compare_self(chain, &self.key);
        let ghost own = if chain_meets(chain@, self.key@) {
            set_of(group_view(self.group@))
        } else {
            Set::<Seq<char>>::empty()
        };
        let ghost wl = matching_ids(Node::optional_as_map(self.left), chain@);
        let ghost wr = matching_ids(Node::optional_as_map(self.right), chain@);
        let ghost s0 = group_view(out@);
        if a.take {
            push_group(out, &self.group);
        } else {
            proof {
                lemma_adds_refl(group_view(out@), own);
            }
        }
        let ghost s1 = group_view(out@);
        if a.fold_right {
            proof {
                lemma_matching_all(Node::optional_as_map(self.right), chain@);
            }
            Node::collect_all(&self.right, out);
        } else if a.go_right {
            match &self.right {
                Some(r) => {
                    r.search_root(chain, out);
                },
                None => {
                    proof {
                        lemma_matching_none(Node::optional_as_map(self.right), chain@);
                        lemma_adds_refl(group_view(out@), wr);
                    }
                },
            }
        } else {
            proof {
                lemma_matching_none(Node::optional_as_map(self.right), chain@);
                lemma_adds_refl(group_view(out@), wr);
            }
        }
        let ghost s2 = group_view(out@);
        if a.fold_left {
            proof {
                lemma_matching_all(Node::optional_as_map(self.left), chain@);
            }
            Node::collect_all(&self.left, out);
        } else if a.go_left {
            match &self.left {
                Some(l) => {
                    l.search_root(chain, out);
                },
                None => {
                    proof {
                        lemma_matching_none(Node::optional_as_map(self.left), chain@);
                        lemma_adds_refl(group_view(out@), wl);
                    }
                },
            }
        } else {
            proof {
                lemma_matching_none(Node::optional_as_map(self.left), chain@);
                lemma_adds_refl(group_view(out@), wl);
            }
        }
        proof {
            lemma_adds_trans(s0, s1, s2, own, wr);
            lemma_adds_trans(s0, s2, group_view(out@), own.union(wr), wl);
            assert(own.union(wr).union(wl) =~= matching_ids(self.as_map(), chain@));
        }
    }
}

/// No key above `b` satisfies the chain.
pub open spec fn no_matches_above(chain: Seq<Comparision>, b: Vs) -> bool {
    forall|k: Vs| is_key(k) && key_lt(b, k) ==> !(#[trigger] chain_meets(chain, k))
}

/// No key below `b` satisfies the chain.
pub open spec fn no_matches_below(chain: Seq<Comparision>, b: Vs) -> bool {
    forall|k: Vs| is_key(k) && key_lt(k, b) ==> !(#[trigger] chain_meets(chain, k))
}

impl Node {
    /// Searches the subtree starting from its smallest key and moving
    /// upward, halting as soon as no greater key can satisfy the chain.
    /// Collects exactly the matching ids; a `true` result reports the
    /// early halt, naming a key past which nothing matches.
    pub fn search_min(&self, chain: &Vec<Comparision>, out: &mut Vec<Id>) -> (stopped: bool)
        requires
            self.well_formed(),
            ids_unique(self.as_map()),
        ensures
            adds(
                group_view(old(out)@),
                group_view(final(out)@),
                matching_ids(self.as_map(), chain@),
            ),
            stopped ==> exists|b: Vs|
                is_key(b) && self.as_map().dom().contains(b) && #[trigger] no_matches_above(
                    chain@,
                    b,
                ),
        decreases *self,
    {
        proof {
            self.lemma_map_structure();
            self.lemma_regions();
            self.lemma_matching_split(chain@);
            lemma_dom_is_key(self.left);
            lemma_dom_is_key(self.right);
        }
        let ghost own = if chain_meets(chain@, self.key@) {
            set_of(group_view(self.group@))
        } else {
            Set::<Seq<char>>::empty()
        };
        let ghost wl = matching_ids(Node::optional_as_map(self.left), chain@);
        let ghost wr = matching_ids(Node::optional_as_map(self.right), chain@);
        let ghost s0 = group_view(out@);
        let mut left_stopped = false;
        match &self.left {
            Some(l) => {
                left_stopped = l.search_min(chain, out);
            },
            None => {
                proof {
                    lemma_matching_none(Node::optional_as_map(self.left), chain@);
                    lemma_adds_refl(group_view(out@), wl);
                }
            },
        }
        let ghost s1 = group_view(out@);
        if left_stopped {
            proof {
                let b = choose|b: Vs|
                    is_key(b) && Node::optional_as_map(self.left).dom().contains(b)
                        && #[trigger] no_matches_above(chain@, b);
                assert(key_lt(b, self.key@));
                assert(!chain_meets(chain@, self.key@));
                assert forall|k: Vs|
                    Node::optional_as_map(self.right).dom().contains(k) implies !(
                #[trigger] chain_meets(chain@, k)) by {
                    crate::value::lemma_key_lt_trans(b, self.key@, k);
                }
                lemma_matching_none(Node::optional_as_map(self.right), chain@);
                lemma_adds_refl(s1, own.union(wr));
                lemma_adds_trans(s0, s1, s1, wl, own.union(wr));
                assert(wl.union(own.union(wr)) =~= matching_ids(self.as_map(), chain@));
                assert(self.as_map().dom().contains(b));
            }
            return true;
        }
        let a = compare_self(chain, &self.key);
        if a.take {
            push_group(out, &self.group);
        } else {
            proof {
                lemma_adds_refl(group_view(out@), own);
            }
        }
        let ghost s2 = group_view(out@);
        let mut stopped = false;
        if a.fold_right {
            proof {
                lemma_matching_all(Node::optional_as_map(self.right), chain@);
            }
            Node::collect_all(&self.right, out);
        } else if a.go_right {
            match &self.right {
                Some(r) => {
                    r.search_root(chain, out);
                },
                None => {
                    proof {
                        lemma_matching_none(Node::optional_as_map(self.right), chain@);
                        lemma_adds_refl(group_view(out@), wr);
                    }
                },
            }
        } else {
            stopped = true;
            proof {
                lemma_matching_none(Node::optional_as_map(self.right), chain@);
                lemma_adds_refl(group_view(out@), wr);
            }
        }
        proof {
            lemma_adds_trans(s0, s1, s2, wl, own);
            lemma_adds_trans(s0, s2, group_view(out@), wl.union(own), wr);
            assert(wl.union(own).union(wr) =~= matching_ids(self.as_map(), chain@));
            if stopped {
                assert(is_key(self.key@) && self.as_map().dom().contains(self.key@)
                    && no_matches_above(chain@, self.key@));
            }
        }
        stopped
    }

    /// Searches the subtree starting from its greatest key and moving
    /// downward, halting as soon as no smaller key can satisfy the chain.
    pub fn search_max(&self, chain: &Vec<Comparision>, out: &mut Vec<Id>) -> (stopped: bool)
        requires
            self.well_formed(),
            ids_unique(self.as_map()),
        ensures
            adds(
                group_view(old(out)@),
                group_view(final(out)@),
                matching_ids(self.as_map(), chain@),
            ),
            stopped ==> exists|b: Vs|
                is_key(b) && self.as_map().dom().contains(b) && #[trigger] no_matches_below(
                    chain@,
                    b,
                ),
        decreases *self,
    {
        proof {
            self.lemma_map_structure();
            self.lemma_regions();
            self.lemma_matching_split(chain@);
            lemma_dom_is_key(self.left);
            lemma_dom_is_key(self.right);
        }
        let ghost own = if chain_meets(chain@, self.key@) {
            set_of(group_view(self.group@))
        } else {
            Set::<Seq<char>>::empty()
        };
        let ghost wl = matching_ids(Node::optional_as_map(self.left), chain@);
        let ghost wr = matching_ids(Node::optional_as_map(self.right), chain@);
        let ghost s0 = group_view(out@);
        let mut right_stopped = false;
        match &self.right {
            Some(r) => {
                right_stopped = r.search_max(chain, out);
            },
            None => {
                proof {
                    lemma_matching_none(Node::optional_as_map(self.right), chain@);
                    lemma_adds_refl(group_view(out@), wr);
                }
            },
        }
        let ghost s1 = group_view(out@);
        if right_stopped {
            proof {
                let b = choose|b: Vs|
                    is_key(b) && Node::optional_as_map(self.right).dom().contains(b)
                        && #[trigger] no_matches_below(chain@, b);
                assert(key_lt(self.key@, b));
                assert(!chain_meets(chain@, self.key@));
                assert forall|k: Vs|
                    Node::optional_as_map(self.left).dom().contains(k) implies !(
                #[trigger] chain_meets(chain@, k)) by {
                    crate::value::lemma_key_lt_trans(k, self.key@, b);
                }
                lemma_matching_none(Node::optional_as_map(self.left), chain@);
                lemma_adds_refl(s1, own.union(wl));
                lemma_adds_trans(s0, s1, s1, wr, own.union(wl));
                assert(wr.union(own.union(wl)) =~= matching_ids(self.as_map(), chain@));
                assert(self.as_map().dom().contains(b));
            }
            return true;
        }
        let a = compare_self(chain, &self.key);
        if a.take {
            push_group(out, &self.group);
        } else {
            proof {
                lemma_adds_refl(group_view(out@), own);
            }
        }
        let ghost s2 = group_view(out@);
        let mut stopped = false;
        if a.fold_left {
            proof {
                lemma_matching_all(Node::optional_as_map(self.left), chain@);
            }
            Node::collect_all(&self.left, out);
        } else if a.go_left {
            match &self.left {
                Some(l) => {
                    l.search_root(chain, out);
                },
                None => {
                    proof {
                        lemma_matching_none(Node::optional_as_map(self.left), chain@);
                        lemma_adds_refl(group_view(out@), wl);
                    }
                },
            }
        } else {
            stopped = true;
            proof {
                lemma_matching_none(Node::optional_as_map(self.left), chain@);
                lemma_adds_refl(group_view(out@), wl);
            }
        }
        proof {
            lemma_adds_trans(s0, s1, s2, wr, own);
            lemma_adds_trans(s0, s2, group_view(out@), wr.union(own), wl);
            assert(wr.union(own).union(wl) =~= matching_ids(self.as_map(), chain@));
            if stopped {
                assert(is_key(self.key@) && self.as_map().dom().contains(self.key@)
                    && no_matches_below(chain@, self.key@));
            }
        }
        stopped
    }
}

impl Value {
    /// Copies an index key (a number or string value).
    pub fn duplicate_key(&self) -> (r: Value)
        ensures
            r@ == self@,
    {
        self.duplicate()
    }
}

} // verus!
