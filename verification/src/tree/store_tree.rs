//! The whole-store index of one registered type: the id-to-record map and
//! one binary search tree per indexed field, with cached extreme values.

use vstd::prelude::*;
use crate::value::Value;
use crate::value::Vs;
use crate::value::Id;
use crate::value::is_key;
use crate::value::key_lt;
use crate::value::clone_chars;
use crate::value::lex_compare;
use crate::schema::len_marker;
use crate::schema::unique_int_str;
use crate::schema::id_field_name;
use super::node::Node;
use super::node::group_view;
use super::node::map_insert_group;
use super::node::map_remove_id;
use super::node::group_remove;
use super::node::ids_unique;
use super::node::adds;
use super::node::matching_ids;
use super::node::lemma_adds_refl;
use super::comparision::Comparision;
use super::comparision::chain_meets;

verus! {

/// One stored record: its id and its encoded flat value.
pub struct Item {
    pub id: Id,
    pub value: Value,
}

/// One field's index: the tree of distinct values plus the cached extreme
/// values used to pick a search entrance.
pub struct FieldTree {
    pub field_int: Vec<char>,
    pub root: Option<Box<Node>>,
    pub min: Option<Value>,
    pub max: Option<Value>,
}

/// One (field id, key) pair a record is indexed under.
pub struct IndexPair {
    pub field_int: Vec<char>,
    pub key: Value,
}

pub open spec fn pairs_view(ps: Seq<IndexPair>) -> Seq<(Seq<char>, Vs)> {
    Seq::new(
        ps.len(),
        |i: int|
            if 0 <= i < ps.len() {
                (ps[i].field_int@, ps[i].key@)
            } else {
                (Seq::empty(), Vs::Null)
            },
    )
}

/// The length a collection or string value exposes as its derived length
/// pseudo-field, capped at the largest storable number.  A string's
/// length is the byte count of its UTF-8 form, as the embedder's
/// serialized strings measure it.
pub open spec fn len_of(v: Vs) -> int {
    let n: int = match v {
        Vs::Arr(items) => items.len() as int,
        Vs::Obj(es) => es.len() as int,
        Vs::Str(s) => vstd::utf8::encode_utf8(s).len() as int,
        _ => 0,
    };
    if n > i64::MAX as int {
        i64::MAX as int
    } else {
        n
    }
}

pub open spec fn can_len(v: Vs) -> bool {
    v is Arr || v is Obj || v is Str
}

/// The id column's field id, which is never indexed.
pub open spec fn id_int() -> Seq<char> {
    unique_int_str(id_field_name())
}

/// The (field, key) pairs one encoded entry contributes: its own value if
/// indexable, and its derived length if it has one.  The id column is
/// skipped.
pub open spec fn head_pairs(e: (Seq<char>, Vs)) -> Seq<(Seq<char>, Vs)> {
    if e.0 == id_int() {
        Seq::empty()
    } else {
        (if is_key(e.1) {
            seq![e]
        } else {
            Seq::empty()
        }) + (if can_len(e.1) {
            seq![(len_marker(e.0), Vs::Int(len_of(e.1)))]
        } else {
            Seq::empty()
        })
    }
}

pub open spec fn entry_pairs(es: Seq<(Seq<char>, Vs)>) -> Seq<(Seq<char>, Vs)>
    decreases es.len(),
{
    if es.len() == 0 {
        Seq::empty()
    } else {
        entry_pairs(es.drop_last()) + head_pairs(es.last())
    }
}

/// Every (field, key) pair an encoded record is indexed under.
pub open spec fn index_pairs(rec: Vs) -> Seq<(Seq<char>, Vs)> {
    if rec is Obj {
        entry_pairs(rec->Obj_0)
    } else {
        Seq::empty()
    }
}

pub open spec fn pair_lookup(ps: Seq<(Seq<char>, Vs)>, f: Seq<char>) -> Option<Vs>
    decreases ps.len(),
{
    if ps.len() == 0 {
        Option::None
    } else if ps[0].0 == f {
        Option::Some(ps[0].1)
    } else {
        pair_lookup(ps.drop_first(), f)
    }
}

/// The key a record is indexed under for one field, if any.
pub open spec fn rec_key(rec: Vs, f: Seq<char>) -> Option<Vs> {
    pair_lookup(index_pairs(rec), f)
}

/// The fields of a pair list are distinct and its keys indexable.
pub open spec fn pairs_wf(ps: Seq<(Seq<char>, Vs)>) -> bool {
    &&& forall|i: int, j: int| 0 <= i < j < ps.len() ==> (#[trigger] ps[i]).0 != (#[trigger] ps[j]).0
    &&& forall|i: int| 0 <= i < ps.len() ==> is_key((#[trigger] ps[i]).1)
}

/// The position of a field's tree among the slots, if present.
pub open spec fn slots_idx(fields: Seq<FieldTree>, f: Seq<char>) -> Option<int> {
    if exists|s: int| 0 <= s < fields.len() && (#[trigger] fields[s]).field_int@ == f {
        Option::Some(
            choose|s: int| 0 <= s < fields.len() && (#[trigger] fields[s]).field_int@ == f,
        )
    } else {
        Option::None
    }
}

/// The key-to-group map a slot list holds for one field.
pub open spec fn slots_map(fields: Seq<FieldTree>, f: Seq<char>) -> Map<Vs, Seq<Seq<char>>> {
    match slots_idx(fields, f) {
        Option::Some(s) => Node::optional_as_map(fields[s].root),
        Option::None => Map::empty(),
    }
}

impl Node {
    /// The smallest key of the subtree.
    pub fn min_key(&self) -> (r: &Value)
        requires
            self.well_formed(),
        ensures
            self.as_map().dom().contains(r@),
            forall|k: Vs| self.as_map().dom().contains(k) ==> k == r@ || key_lt(r@, k),
        decreases *self,
    {
        proof {
            self.lemma_map_structure();
        }
        match &self.left {
            Option::None => {
                proof {
                    assert forall|k: Vs|
                        self.as_map().dom().contains(k) implies k == self.key@ || key_lt(
                        self.key@,
                        k,
                    ) by {}
                }
                &self.key
            },
            Option::Some(l) => {
                let r = l.min_key();
                proof {
                    assert forall|k: Vs| self.as_map().dom().contains(k) implies k == r@ || key_lt(
                        r@,
                        k,
                    ) by {
                        if k == self.key@ {
                            assert(key_lt(r@, self.key@));
                        } else if Node::optional_as_map(self.right).dom().contains(k) {
                            crate::value::lemma_key_lt_trans(r@, self.key@, k);
                        }
                    }
                }
                r
            },
        }
    }

    /// The greatest key of the subtree.
    pub fn max_key(&self) -> (r: &Value)
        requires
            self.well_formed(),
        ensures
            self.as_map().dom().contains(r@),
            forall|k: Vs| self.as_map().dom().contains(k) ==> k == r@ || key_lt(k, r@),
        decreases *self,
    {
        proof {
            self.lemma_map_structure();
        }
        match &self.right {
            Option::None => {
                proof {
                    assert forall|k: Vs|
                        self.as_map().dom().contains(k) implies k == self.key@ || key_lt(
                        k,
                        self.key@,
                    ) by {}
                }
                &self.key
            },
            Option::Some(rt) => {
                let r = rt.max_key();
                proof {
                    assert forall|k: Vs| self.as_map().dom().contains(k) implies k == r@ || key_lt(
                        k,
                        r@,
                    ) by {
                        if k == self.key@ {
                            assert(key_lt(self.key@, r@));
                        } else if Node::optional_as_map(self.left).dom().contains(k) {
                            crate::value::lemma_key_lt_trans(k, self.key@, r@);
                        }
                    }
                }
                r
            },
        }
    }
}

/// Refreshes a slot's cached extreme values from its tree.
fn refresh_extremes(slot: &mut FieldTree)
    requires
        old(slot).root.is_some() ==> old(slot).root.unwrap().well_formed(),
    ensures
        final(slot).root == old(slot).root,
        final(slot).field_int == old(slot).field_int,
        final(slot).min.is_some() == final(slot).root.is_some(),
        final(slot).max.is_some() == final(slot).root.is_some(),
        final(slot).root.is_some() ==> {
            &&& Node::optional_as_map(final(slot).root).dom().contains(final(slot).min.unwrap()@)
            &&& Node::optional_as_map(final(slot).root).dom().contains(final(slot).max.unwrap()@)
            &&& (forall|k: Vs|
                #![auto]
                Node::optional_as_map(final(slot).root).dom().contains(k) ==> (k
                    == final(slot).min.unwrap()@ || key_lt(final(slot).min.unwrap()@, k)) && (k
                    == final(slot).max.unwrap()@ || key_lt(k, final(slot).max.unwrap()@)))
        },
{
    match &slot.root {
        Option::None => {
            slot.min = None;
            slot.max = None;
        },
        Option::Some(n) => {
            let mn = n.min_key().duplicate();
            let mx = n.max_key().duplicate();
            slot.min = Some(mn);
            slot.max = Some(mx);
        },
    }
}

/// The whole-store index of one registered type.
pub struct Tree {
    id_map: Vec<Item>,
    fields: Vec<FieldTree>,
}

impl Tree {
    /// The stored records: each id with its encoded record, in insertion
    /// order.
    pub closed spec fn items(&self) -> Seq<(Seq<char>, Vs)> {
        Seq::new(
            self.id_map@.len(),
            |i: int|
                if 0 <= i < self.id_map@.len() {
                    (self.id_map@[i].id@, self.id_map@[i].value@)
                } else {
                    (Seq::empty(), Vs::Null)
                },
        )
    }

    /// Whether an id is stored.
    pub open spec fn contains_id(&self, idv: Seq<char>) -> bool {
        exists|i: int| 0 <= i < self.items().len() && (#[trigger] self.items()[i]).0 == idv
    }

    pub closed spec fn slot_idx(&self, f: Seq<char>) -> Option<int> {
        slots_idx(self.fields@, f)
    }

    /// The key-to-group map of one field's tree; empty for a field with
    /// no tree.
    pub closed spec fn field_map(&self, f: Seq<char>) -> Map<Vs, Seq<Seq<char>>> {
        slots_map(self.fields@, f)
    }

    #[verifier::type_invariant]
    closed spec fn inv(&self) -> bool {
        &&& (forall|i: int, j: int|
            0 <= i < j < self.items().len() ==> (#[trigger] self.items()[i]).0
                != (#[trigger] self.items()[j]).0)
        &&& (forall|s1: int, s2: int|
            0 <= s1 < s2 < self.fields@.len() ==> (#[trigger] self.fields@[s1]).field_int@
                != (#[trigger] self.fields@[s2]).field_int@)
        &&& (forall|s: int|
            0 <= s < self.fields@.len() ==> ((#[trigger] self.fields@[s]).root.is_some()
                ==> self.fields@[s].root.unwrap().well_formed()))
        &&& (forall|s: int, k: Vs, idv: Seq<char>|
            #![trigger Node::optional_as_map(self.fields@[s].root)[k].contains(idv)]
            (0 <= s < self.fields@.len() && Node::optional_as_map(
                self.fields@[s].root,
            ).dom().contains(k) && Node::optional_as_map(self.fields@[s].root)[k].contains(idv))
                ==> exists|i: int|
                0 <= i < self.items().len() && (#[trigger] self.items()[i]).0 == idv && rec_key(
                    self.items()[i].1,
                    self.fields@[s].field_int@,
                ) == Option::Some(k))
        &&& (forall|i: int, f: Seq<char>|
            #![trigger rec_key(self.items()[i].1, f)]
            (0 <= i < self.items().len() && rec_key(self.items()[i].1, f).is_some()) ==> {
                &&& self.slot_idx(f).is_some()
                &&& self.field_map(f).dom().contains(rec_key(self.items()[i].1, f).unwrap())
                &&& self.field_map(f)[rec_key(self.items()[i].1, f).unwrap()].contains(
                    self.items()[i].0,
                )
            })
        &&& (forall|s: int|
            0 <= s < self.fields@.len() ==> ids_unique(
                Node::optional_as_map((#[trigger] self.fields@[s]).root),
            ))
        &&& (forall|i: int|
            0 <= i < self.items().len() ==> pairs_wf(
                index_pairs((#[trigger] self.items()[i]).1),
            ))
        &&& (forall|s: int|
            0 <= s < self.fields@.len() ==> (#[trigger] self.fields@[s]).min.is_some()
                == self.fields@[s].root.is_some() && self.fields@[s].max.is_some()
                == self.fields@[s].root.is_some())
        &&& (forall|s: int|
            0 <= s < self.fields@.len() && (#[trigger] self.fields@[s]).root.is_some() ==> {
                &&& Node::optional_as_map(self.fields@[s].root).dom().contains(
                    self.fields@[s].min.unwrap()@,
                )
                &&& Node::optional_as_map(self.fields@[s].root).dom().contains(
                    self.fields@[s].max.unwrap()@,
                )
                &&& (forall|k: Vs|
                    #![auto]
                    Node::optional_as_map(self.fields@[s].root).dom().contains(k) ==> (k
                        == self.fields@[s].min.unwrap()@ || key_lt(
                        self.fields@[s].min.unwrap()@,
                        k,
                    )) && (k == self.fields@[s].max.unwrap()@ || key_lt(
                        k,
                        self.fields@[s].max.unwrap()@,
                    )))
            })
    }

    /// A fresh, empty index.
    pub fn new() -> (t: Tree)
        ensures
            t.items() =~= Seq::<(Seq<char>, Vs)>::empty(),
    {
        Tree { id_map: Vec::new(), fields: Vec::new() }
    }

    /// How many records are stored.
    pub fn len(&self) -> (n: usize)
        ensures
            n == self.items().len(),
    {
        self.id_map.len()
    }

    /// Stores a record under a fresh id and files it in every field tree
    /// it is indexed under.  The caller hands the record's index pairs,
    /// which must be exactly what the record's encoded form dictates.
    pub fn insert(&mut self, id: Id, value: Value, pairs: Vec<IndexPair>)
        requires
            !old(self).contains_id(id@),
            pairs_view(pairs@) == index_pairs(value@),
            pairs_wf(pairs_view(pairs@)),
        ensures
            final(self).items() =~= old(self).items().push((id@, value@)),
    {
        proof {
            use_type_invariant(&*self);
        }
        let mut tmp = Tree { id_map: Vec::new(), fields: Vec::new() };
        core::mem::swap(&mut tmp, self);
        let Tree { mut id_map, mut fields } = tmp;
        let ghost before = fields@;
        let ghost before_items = old(self).items();
        let ghost pv = pairs_view(pairs@);
        let ghost idv = id@;
        let mut p: usize = 0;
        while p < pairs.len()
            invariant
                pairs_wf(pv),
                pv == pairs_view(pairs@),
                pv.len() == pairs@.len(),
                0 <= p <= pairs@.len(),
                forall|s1: int, s2: int|
                    0 <= s1 < s2 < fields@.len() ==> (#[trigger] fields@[s1]).field_int@
                        != (#[trigger] fields@[s2]).field_int@,
                forall|s: int|
                    0 <= s < fields@.len() ==> ((#[trigger] fields@[s]).root.is_some()
                        ==> fields@[s].root.unwrap().well_formed()),
                forall|f: Seq<char>|
                    #![trigger slots_map(fields@, f)]
                    slots_map(fields@, f) == (match pair_lookup(pv.take(p as int), f) {
                        Option::Some(k) => map_insert_group(slots_map(before, f), k, idv),
                        Option::None => slots_map(before, f),
                    }),
                forall|s: int|
                    0 <= s < fields@.len() ==> ids_unique(
                        Node::optional_as_map((#[trigger] fields@[s]).root),
                    ),
                forall|s: int|
                    0 <= s < fields@.len() ==> extremes_ok(#[trigger] fields@[s]),
                forall|s: int, k: Vs, idv2: Seq<char>|
                    #![trigger Node::optional_as_map(before[s].root)[k].contains(idv2)]
                    (0 <= s < before.len() && Node::optional_as_map(before[s].root).dom().contains(
                        k,
                    ) && Node::optional_as_map(before[s].root)[k].contains(idv2)) ==> idv2 != idv,
                forall|f: Seq<char>|
                    #![trigger slots_idx(fields@, f)]
                    slots_idx(before, f).is_some() ==> slots_idx(fields@, f).is_some(),
                id@ == idv,
            decreases pairs@.len() - p,
        {
            let ghost fields0 = fields@;
            proof {
                assert(pv.take(p as int).push(pv[p as int]) =~= pv.take(p + 1));
                lemma_pair_lookup_none_distinct(pv, p as int);
            }
            let mut s: usize = 0;
            let mut found = false;
            while s < fields.len() && !found
                invariant
                    0 <= s <= fields@.len(),
                    p < pairs@.len(),
                    pv == pairs_view(pairs@),
                    found ==> s < fields@.len() && fields@[s as int].field_int@ == pv[p as int].0,
                    !found ==> forall|j: int|
                        0 <= j < s ==> (#[trigger] fields@[j]).field_int@ != pv[p as int].0,
                decreases fields@.len() - s, (if found { 0int } else { 1int }),
            {
                if lex_compare(&fields[s].field_int, &pairs[p].field_int) == 0 {
                    found = true;
                } else {
                    s = s + 1;
                }
            }
            let si: usize;
            if found {
                si = s;
            } else {
                si = fields.len();
                let nf = FieldTree {
                    field_int: clone_chars(&pairs[p].field_int),
                    root: None,
                    min: None,
                    max: None,
                };
                proof {
                    assert(Node::optional_as_map(nf.root) =~= Map::<Vs, Seq<Seq<char>>>::empty());
                }
                fields.push(nf);
                proof {
                    assert(fields@[fields@.len() - 1].field_int@ == pv[p as int].0);
                    lemma_slots_grow(fields0, fields@, pv[p as int].0);
                }
            }
            let ghost fields1 = fields@;
            let ghost f = pv[p as int].0;
            let ghost k = pv[p as int].1;
            proof {
                assert(f == pairs@[p as int].field_int@);
                assert(k == pairs@[p as int].key@);
                assert(fields1[si as int].field_int@ == f);
                lemma_slots_unique(fields1, f, si as int);
                assert(slots_map(fields1, f) == Node::optional_as_map(fields1[si as int].root));
                assert(slots_map(fields1, f) == slots_map(fields0, f)) by {
                    if si < fields0.len() {
                        lemma_slots_unique(fields0, f, si as int);
                    } else {
                        assert(slots_idx(fields0, f).is_none());
                    }
                }
                assert(pair_lookup(pv.take(p as int), f).is_none());
                assert(slots_map(fields1, f) == slots_map(before, f));
                assert(!all_ids_contains(slots_map(fields1, f), idv)) by {
                    if exists|kk: Vs| #![auto]
                        slots_map(fields1, f).dom().contains(kk) && slots_map(
                            fields1,
                            f,
                        )[kk].contains(idv) {
                        let kk = choose|kk: Vs| #![auto]
                            slots_map(fields1, f).dom().contains(kk) && slots_map(
                                fields1,
                                f,
                            )[kk].contains(idv);
                        let sb = slots_idx(before, f).unwrap();
                        assert(Node::optional_as_map(before[sb].root)[kk].contains(idv));
                    }
                }
            }
            let mut ft = fields.swap_remove(si);
            proof {
                assert(ft == fields1[si as int]);
                assert(is_key(pv[p as int].1));
                assert(Node::optional_as_map(ft.root) == slots_map(before, f));
            }
            let idc = clone_chars(&id);
            proof {
                assert(idc@ == idv);
            }
            Node::insert_into_optional(&mut ft.root, &pairs[p].key, idc);
            proof {
                assert(Node::optional_as_map(ft.root) =~= map_insert_group(
                    slots_map(before, f),
                    pairs@[p as int].key@,
                    idv,
                ));
            }
            refresh_extremes(&mut ft);
            proof {
                let newmap = Node::optional_as_map(ft.root);
                assert(newmap =~= map_insert_group(slots_map(before, f), k, idv));
                assert(ids_unique(newmap)) by {
                    let m0 = slots_map(before, f);
                    assert forall|k1: Vs, k2: Vs, i1: int, i2: int|
                        #![trigger newmap[k1][i1], newmap[k2][i2]]
                        newmap.dom().contains(k1) && newmap.dom().contains(k2) && 0 <= i1
                            < newmap[k1].len() && 0 <= i2 < newmap[k2].len() && newmap[k1][i1]
                            == newmap[k2][i2] implies k1 == k2 && i1 == i2 by {
                        if k1 == k && i1 == newmap[k1].len() - 1 && m0.dom().contains(k) {
                            if !(k2 == k && i2 == newmap[k2].len() - 1) {
                                assert(m0[k2][i2] == idv);
                                assert(m0[k2].contains(idv));
                                assert(all_ids_contains(m0, idv));
                            }
                        } else if k2 == k && i2 == newmap[k2].len() - 1 && m0.dom().contains(k) {
                            if !(k1 == k && i1 == newmap[k1].len() - 1) {
                                assert(m0[k1][i1] == idv);
                                assert(m0[k1].contains(idv));
                                assert(all_ids_contains(m0, idv));
                            }
                        } else if !m0.dom().contains(k) && k1 == k && k2 == k {
                            assert(newmap[k] =~= seq![idv]);
                        } else {
                            assert(m0[k1][i1] == m0[k2][i2]);
                        }
                    }
                }
            }
            fields.push(ft);
            p = p + 1;
            proof {
                let fields2 = fields@;
                assert forall|g: Seq<char>| #![trigger slots_map(fields2, g)] slots_map(fields2, g)
                    == (match pair_lookup(pv.take(p as int), g) {
                    Option::Some(kk) => map_insert_group(slots_map(before, g), kk, idv),
                    Option::None => slots_map(before, g),
                }) by {
                    lemma_pair_lookup_snoc(pv.take(p as int - 1), pv[p as int - 1], g);
                    if g == f {
                        lemma_slots_unique(fields2, g, fields2.len() as int - 1);
                    } else {
                        lemma_slots_same(fields1, fields2, si as int, g);
                    }
                }
                assert forall|g: Seq<char>| #![trigger slots_idx(fields2, g)]
                    slots_idx(before, g).is_some() implies slots_idx(fields2, g).is_some() by {
                    if g == f {
                        assert(fields2[fields2.len() - 1].field_int@ == g);
                    } else {
                        assert(slots_idx(fields1, g).is_some()) by {
                            if slots_idx(before, g).is_some() {
                                let sb = choose|j: int|
                                    0 <= j < fields0.len() && (#[trigger] fields0[j]).field_int@
                                        == g;
                                assert(fields1[sb].field_int@ == g);
                            }
                        }
                        let s1 = choose|j: int|
                            0 <= j < fields1.len() && (#[trigger] fields1[j]).field_int@ == g;
                        if s1 == si {
                            assert(false);
                        } else if s1 == fields1.len() - 1 {
                            assert(fields2[si as int].field_int@ == g);
                        } else {
                            assert(fields2[s1].field_int@ == g);
                        }
                    }
                }
            }
        }
        proof {
            assert(pv.take(pv.len() as int) =~= pv);
        }
        id_map.push(Item { id, value });
        let ghost new_items = Seq::new(
            id_map@.len() as nat,
            |i: int|
                if 0 <= i < id_map@.len() {
                    (id_map@[i].id@, id_map@[i].value@)
                } else {
                    (Seq::empty(), Vs::Null)
                },
        );
        proof {
            assert(new_items =~= before_items.push((idv, value@)));
            lemma_insert_inv(before, fields@, before_items, new_items, pv, idv, value@);
        }
        *self = Tree { id_map, fields };
    }
}

impl Tree {
    /// The position of a stored id.
    pub open spec fn items_idx(&self, idv: Seq<char>) -> int {
        choose|i: int| 0 <= i < self.items().len() && (#[trigger] self.items()[i]).0 == idv
    }

    /// A reference to the stored record of an id.
    pub fn find_item(&self, id: &Id) -> (r: Option<&Item>)
        ensures
            r.is_some() == self.contains_id(id@),
            r.is_some() ==> r.unwrap().id@ == id@ && r.unwrap().value@ == self.items()[self.items_idx(id@)].1,
    {
        let mut i: usize = 0;
        while i < self.id_map.len()
            invariant
                0 <= i <= self.id_map@.len(),
                forall|j: int| 0 <= j < i ==> (#[trigger] self.items()[j]).0 != id@,
            decreases self.id_map@.len() - i,
        {
            if lex_compare(&self.id_map[i].id, id) == 0 {
                proof {
                    use_type_invariant(self);
                    assert(self.items()[i as int].0 == id@);
                    let w = self.items_idx(id@);
                    if w != i as int {
                        if w < i as int {
                            assert(self.items()[w].0 != self.items()[i as int].0);
                        } else {
                            assert(self.items()[i as int].0 != self.items()[w].0);
                        }
                    }
                }
                return Some(&self.id_map[i]);
            }
            i = i + 1;
        }
        proof {
            if self.contains_id(id@) {
                let w = choose|w: int|
                    0 <= w < self.items().len() && (#[trigger] self.items()[w]).0 == id@;
            }
        }
        None
    }

    /// The record stored at one position.
    pub fn item_at(&self, i: usize) -> (r: &Item)
        requires
            i < self.items().len(),
        ensures
            r.id@ == self.items()[i as int].0,
            r.value@ == self.items()[i as int].1,
    {
        &self.id_map[i]
    }

    /// Forgets every record and every field tree.
    pub fn clear(&mut self)
        ensures
            final(self).items() =~= Seq::<(Seq<char>, Vs)>::empty(),
    {
        *self = Tree { id_map: Vec::new(), fields: Vec::new() };
    }

    /// Removes a stored record and unfiles it from every field tree it
    /// was indexed under.  An absent id leaves the store unchanged.
    pub fn delete(&mut self, id: &Id)
        ensures
            !old(self).contains_id(id@) ==> final(self).items() == old(self).items(),
            old(self).contains_id(id@) ==> final(self).items() =~= old(self).items().remove(
                old(self).items_idx(id@),
            ),
    {
        proof {
            use_type_invariant(&*self);
        }
        let mut tmp = Tree { id_map: Vec::new(), fields: Vec::new() };
        core::mem::swap(&mut tmp, self);
        let Tree { mut id_map, mut fields } = tmp;
        let ghost before = fields@;
        let ghost before_items = old(self).items();
        let mut i: usize = 0;
        let mut found = false;
        while i < id_map.len() && !found
            invariant
                0 <= i <= id_map@.len(),
                found ==> i < id_map@.len() && id_map@[i as int].id@ == id@,
                !found ==> forall|j: int| 0 <= j < i ==> (#[trigger] id_map@[j]).id@ != id@,
            decreases id_map@.len() - i, (if found { 0int } else { 1int }),
        {
            if lex_compare(&id_map[i].id, id) == 0 {
                found = true;
            } else {
                i = i + 1;
            }
        }
        if !found {
            proof {
                if old(self).contains_id(id@) {
                    let w = choose|w: int|
                        0 <= w < before_items.len() && (#[trigger] before_items[w]).0 == id@;
                    assert(id_map@[w].id@ == id@);
                }
            }
            *self = Tree { id_map, fields };
            proof {
                assert(final(self).items() =~= before_items);
            }
            return ;
        }
        proof {
            assert(before_items[i as int].0 == id@);
            let w = old(self).items_idx(id@);
            assert(before_items[w].0 == id@);
            if w != i as int {
                if w < i as int {
                    assert(before_items[w].0 != before_items[i as int].0);
                } else {
                    assert(before_items[i as int].0 != before_items[w].0);
                }
            }
        }
        let victim = id_map.remove(i);
        let ghost idv = victim.id@;
        let ghost recv = victim.value@;
        let pairs = derive_pairs(&victim.value);
        let ghost pv = pairs_view(pairs@);
        proof {
            assert(before_items[i as int].1 == recv);
            assert(pairs_wf(pv)) by {
                assert(pairs_wf(index_pairs(before_items[i as int].1)));
            }
        }
        let mut p: usize = 0;
        while p < pairs.len()
            invariant
                pairs_wf(pv),
                pv == pairs_view(pairs@),
                pv == index_pairs(recv),
                0 <= p <= pairs@.len(),
                id@ == idv,
                forall|s1: int, s2: int|
                    0 <= s1 < s2 < fields@.len() ==> (#[trigger] fields@[s1]).field_int@
                        != (#[trigger] fields@[s2]).field_int@,
                forall|s: int|
                    0 <= s < fields@.len() ==> ((#[trigger] fields@[s]).root.is_some()
                        ==> fields@[s].root.unwrap().well_formed()),
                forall|f: Seq<char>|
                    #![trigger slots_map(fields@, f)]
                    slots_map(fields@, f) == (match pair_lookup(pv.take(p as int), f) {
                        Option::Some(k) => map_remove_id(slots_map(before, f), k, idv),
                        Option::None => slots_map(before, f),
                    }),
                forall|s: int|
                    0 <= s < fields@.len() ==> ids_unique(
                        Node::optional_as_map((#[trigger] fields@[s]).root),
                    ),
                forall|s: int|
                    0 <= s < fields@.len() ==> extremes_ok(#[trigger] fields@[s]),
                forall|f: Seq<char>|
                    #![trigger slots_idx(fields@, f)]
                    slots_idx(before, f).is_some() ==> slots_idx(fields@, f).is_some(),
            decreases pairs@.len() - p,
        {
            let ghost fields0 = fields@;
            proof {
                assert(pv.take(p as int).push(pv[p as int]) =~= pv.take(p + 1));
                lemma_pair_lookup_none_distinct(pv, p as int);
            }
            let mut s: usize = 0;
            let mut sfound = false;
            while s < fields.len() && !sfound
                invariant
                    0 <= s <= fields@.len(),
                    p < pairs@.len(),
                    pv == pairs_view(pairs@),
                    sfound ==> s < fields@.len() && fields@[s as int].field_int@ == pv[p as int].0,
                    !sfound ==> forall|j: int|
                        0 <= j < s ==> (#[trigger] fields@[j]).field_int@ != pv[p as int].0,
                decreases fields@.len() - s, (if sfound { 0int } else { 1int }),
            {
                if lex_compare(&fields[s].field_int, &pairs[p].field_int) == 0 {
                    sfound = true;
                } else {
                    s = s + 1;
                }
            }
            let ghost f = pv[p as int].0;
            let ghost k = pv[p as int].1;
            if !sfound {
                proof {
                    assert(slots_idx(fields0, f).is_none());
                    assert(slots_map(fields0, f) =~= Map::<Vs, Seq<Seq<char>>>::empty());
                    assert(slots_map(before, f) =~= Map::<Vs, Seq<Seq<char>>>::empty()) by {
                        if slots_idx(before, f).is_some() {
                            assert(slots_idx(fields0, f).is_some());
                        }
                    }
                    assert(map_remove_id(slots_map(before, f), k, idv) == slots_map(before, f));
                    assert forall|g: Seq<char>| #![trigger slots_map(fields0, g)]
                        slots_map(fields0, g) == (match pair_lookup(pv.take(p + 1), g) {
                        Option::Some(kk) => map_remove_id(slots_map(before, g), kk, idv),
                        Option::None => slots_map(before, g),
                    }) by {
                        lemma_pair_lookup_snoc(pv.take(p as int), pv[p as int], g);
                        assert(pv.take(p as int).push(pv[p as int]) == pv.take(p + 1));
                    }
                }
                p = p + 1;
                continue ;
            }
            let si = s;
            let ghost fields1 = fields@;
            proof {
                assert(f == pairs@[p as int].field_int@);
                assert(k == pairs@[p as int].key@);
                assert(fields1[si as int].field_int@ == f);
                lemma_slots_unique(fields1, f, si as int);
                assert(slots_map(fields1, f) == slots_map(before, f));
                assert(is_key(pv[p as int].1));
            }
            let mut ft = fields.swap_remove(si);
            proof {
                assert(ft == fields1[si as int]);
                assert(Node::optional_as_map(ft.root) == slots_map(before, f));
            }
            Node::delete_from_optional(&mut ft.root, &pairs[p].key, id);
            proof {
                assert(Node::optional_as_map(ft.root) =~= map_remove_id(
                    slots_map(before, f),
                    k,
                    idv,
                ));
            }
            refresh_extremes(&mut ft);
            proof {
                let newmap = Node::optional_as_map(ft.root);
                let m0 = slots_map(before, f);
                assert(ids_unique(newmap)) by {
                    if m0.dom().contains(k) {
                        assert forall|i1: int, i2: int|
                            0 <= i1 < m0[k].len() && 0 <= i2 < m0[k].len() && i1 != i2 implies m0[k][i1]
                            != m0[k][i2] by {}
                        crate::tree::node::lemma_group_remove_semantics(m0[k], idv);
                        assert forall|k1: Vs, k2: Vs, i1: int, i2: int|
                            #![trigger newmap[k1][i1], newmap[k2][i2]]
                            newmap.dom().contains(k1) && newmap.dom().contains(k2) && 0 <= i1
                                < newmap[k1].len() && 0 <= i2 < newmap[k2].len() && newmap[k1][i1]
                                == newmap[k2][i2] implies k1 == k2 && i1 == i2 by {
                            if group_remove(m0[k], idv).len() == 0 {
                                assert(m0[k1][i1] == m0[k2][i2]);
                            } else {
                                if k1 == k && k2 == k {
                                    let g1 = group_remove(m0[k], idv);
                                    if i1 != i2 {
                                        assert(g1.no_duplicates());
                                    }
                                } else if k1 == k {
                                    assert(group_remove(m0[k], idv).contains(newmap[k1][i1]));
                                    assert(m0[k].contains(newmap[k1][i1]));
                                    let j1 = choose|j1: int|
                                        0 <= j1 < m0[k].len() && m0[k][j1] == newmap[k1][i1];
                                    assert(m0[k][j1] == m0[k2][i2]);
                                } else if k2 == k {
                                    assert(group_remove(m0[k], idv).contains(newmap[k2][i2]));
                                    assert(m0[k].contains(newmap[k2][i2]));
                                    let j2 = choose|j2: int|
                                        0 <= j2 < m0[k].len() && m0[k][j2] == newmap[k2][i2];
                                    assert(m0[k1][i1] == m0[k][j2]);
                                } else {
                                    assert(m0[k1][i1] == m0[k2][i2]);
                                }
                            }
                        }
                    } else {
                        assert(newmap == m0);
                    }
                }
            }
            fields.push(ft);
            p = p + 1;
            proof {
                let fields2 = fields@;
                assert forall|g: Seq<char>| #![trigger slots_map(fields2, g)] slots_map(fields2, g)
                    == (match pair_lookup(pv.take(p as int), g) {
                    Option::Some(kk) => map_remove_id(slots_map(before, g), kk, idv),
                    Option::None => slots_map(before, g),
                }) by {
                    lemma_pair_lookup_snoc(pv.take(p as int - 1), pv[p as int - 1], g);
                    assert(pv.take(p as int - 1).push(pv[p as int - 1]) == pv.take(p as int));
                    if g == f {
                        lemma_slots_unique(fields2, g, fields2.len() as int - 1);
                    } else {
                        lemma_slots_same(fields1, fields2, si as int, g);
                    }
                }
                assert forall|g: Seq<char>| #![trigger slots_idx(fields2, g)]
                    slots_idx(before, g).is_some() implies slots_idx(fields2, g).is_some() by {
                    if g == f {
                        assert(fields2[fields2.len() - 1].field_int@ == g);
                    } else {
                        assert(slots_idx(fields1, g).is_some());
                        let s1 = choose|j: int|
                            0 <= j < fields1.len() && (#[trigger] fields1[j]).field_int@ == g;
                        if s1 == si {
                            assert(false);
                        } else if s1 == fields1.len() - 1 {
                            assert(fields2[si as int].field_int@ == g);
                        } else {
                            assert(fields2[s1].field_int@ == g);
                        }
                    }
                }
            }
        }
        proof {
            assert(pv.take(pv.len() as int) =~= pv);
        }
        let ghost new_items = Seq::new(
            id_map@.len() as nat,
            |j: int|
                if 0 <= j < id_map@.len() {
                    (id_map@[j].id@, id_map@[j].value@)
                } else {
                    (Seq::empty(), Vs::Null)
                },
        );
        proof {
            assert(new_items =~= before_items.remove(i as int));
            lemma_delete_inv(before, fields@, before_items, new_items, pv, idv, recv, i as int);
        }
        *self = Tree { id_map, fields };
    }
}

/// Rebuilds the whole-tree invariant after a delete.
proof fn lemma_delete_inv(
    before: Seq<FieldTree>,
    after: Seq<FieldTree>,
    before_items: Seq<(Seq<char>, Vs)>,
    new_items: Seq<(Seq<char>, Vs)>,
    pv: Seq<(Seq<char>, Vs)>,
    idv: Seq<char>,
    recv: Vs,
    vi: int,
)
    requires
        0 <= vi < before_items.len(),
        new_items == before_items.remove(vi),
        before_items[vi].0 == idv,
        before_items[vi].1 == recv,
        pv == index_pairs(recv),
        pairs_wf(pv),
        forall|i1: int, i2: int|
            0 <= i1 < i2 < before_items.len() ==> (#[trigger] before_items[i1]).0
                != (#[trigger] before_items[i2]).0,
        forall|f: Seq<char>|
            #![trigger slots_map(after, f)]
            slots_map(after, f) == (match pair_lookup(pv, f) {
                Option::Some(k) => map_remove_id(slots_map(before, f), k, idv),
                Option::None => slots_map(before, f),
            }),
        forall|f: Seq<char>|
            #![trigger slots_idx(after, f)]
            slots_idx(before, f).is_some() ==> slots_idx(after, f).is_some(),
        forall|s: int|
            0 <= s < before.len() ==> ids_unique(
                Node::optional_as_map((#[trigger] before[s]).root),
            ),
        forall|s: int, k: Vs, idv2: Seq<char>|
            #![trigger Node::optional_as_map(before[s].root)[k].contains(idv2)]
            (0 <= s < before.len() && Node::optional_as_map(before[s].root).dom().contains(k)
                && Node::optional_as_map(before[s].root)[k].contains(idv2)) ==> exists|i: int|
                0 <= i < before_items.len() && (#[trigger] before_items[i]).0 == idv2 && rec_key(
                    before_items[i].1,
                    before[s].field_int@,
                ) == Option::Some(k),
        forall|i: int, f: Seq<char>|
            #![trigger rec_key(before_items[i].1, f)]
            (0 <= i < before_items.len() && rec_key(before_items[i].1, f).is_some()) ==> {
                &&& slots_idx(before, f).is_some()
                &&& slots_map(before, f).dom().contains(rec_key(before_items[i].1, f).unwrap())
                &&& slots_map(before, f)[rec_key(before_items[i].1, f).unwrap()].contains(
                    before_items[i].0,
                )
            },
        forall|s1: int, s2: int|
            0 <= s1 < s2 < before.len() ==> (#[trigger] before[s1]).field_int@
                != (#[trigger] before[s2]).field_int@,
        forall|s1: int, s2: int|
            0 <= s1 < s2 < after.len() ==> (#[trigger] after[s1]).field_int@
                != (#[trigger] after[s2]).field_int@,
    ensures
        forall|s: int, k: Vs, idv2: Seq<char>|
            #![trigger Node::optional_as_map(after[s].root)[k].contains(idv2)]
            (0 <= s < after.len() && Node::optional_as_map(after[s].root).dom().contains(k)
                && Node::optional_as_map(after[s].root)[k].contains(idv2)) ==> exists|i: int|
                0 <= i < new_items.len() && (#[trigger] new_items[i]).0 == idv2 && rec_key(
                    new_items[i].1,
                    after[s].field_int@,
                ) == Option::Some(k),
        forall|i: int, f: Seq<char>|
            #![trigger rec_key(new_items[i].1, f)]
            (0 <= i < new_items.len() && rec_key(new_items[i].1, f).is_some()) ==> {
                &&& slots_idx(after, f).is_some()
                &&& slots_map(after, f).dom().contains(rec_key(new_items[i].1, f).unwrap())
                &&& slots_map(after, f)[rec_key(new_items[i].1, f).unwrap()].contains(
                    new_items[i].0,
                )
            },
{
    assert forall|s: int, k: Vs, idv2: Seq<char>|
        #![trigger Node::optional_as_map(after[s].root)[k].contains(idv2)]
        (0 <= s < after.len() && Node::optional_as_map(after[s].root).dom().contains(k)
            && Node::optional_as_map(after[s].root)[k].contains(idv2)) implies exists|i: int|
        0 <= i < new_items.len() && (#[trigger] new_items[i]).0 == idv2 && rec_key(
            new_items[i].1,
            after[s].field_int@,
        ) == Option::Some(k) by {
        let f = after[s].field_int@;
        lemma_slots_unique(after, f, s);
        let m0 = slots_map(before, f);
        let m1 = slots_map(after, f);
        assert(m1.dom().contains(k) && m1[k].contains(idv2));
        // relate to the old map
        let in_old: bool = m0.dom().contains(k) && m0[k].contains(idv2);
        match pair_lookup(pv, f) {
            Option::Some(kk) => {
                if m0.dom().contains(kk) {
                    if k == kk {
                        if group_remove(m0[k], idv).len() == 0 {
                            assert(!m1.dom().contains(k));
                        } else {
                            assert(m1[k] == group_remove(m0[k], idv));
                            let sb = slots_idx(before, f).unwrap();
                            assert(0 <= sb < before.len() && before[sb].field_int@ == f);
                            assert(Node::optional_as_map(before[sb].root) == m0);
                            assert forall|i1: int, i2: int|
                                0 <= i1 < m0[k].len() && 0 <= i2 < m0[k].len() && i1
                                    != i2 implies m0[k][i1] != m0[k][i2] by {}
                            crate::tree::node::lemma_group_remove_semantics(m0[k], idv);
                            assert(m0[k].contains(idv2) && idv2 != idv);
                        }
                    } else {
                        assert(m1[k] == m0[k]);
                    }
                } else {
                    assert(m1 == m0);
                }
            },
            Option::None => {
                assert(m1 == m0);
            },
        }
        assert(m0.dom().contains(k) && m0[k].contains(idv2));
        let sb = slots_idx(before, f).unwrap();
        assert(Node::optional_as_map(before[sb].root)[k].contains(idv2));
        let i0 = choose|i0: int|
            0 <= i0 < before_items.len() && (#[trigger] before_items[i0]).0 == idv2 && rec_key(
                before_items[i0].1,
                before[sb].field_int@,
            ) == Option::Some(k);
        assert(idv2 != idv ==> i0 != vi) by {
            if i0 == vi {
            }
        }
        if idv2 == idv {
            // the deleted id cannot remain anywhere for a field it was
            // indexed under, and fields it was not indexed under never
            // held it
            assert(i0 == vi) by {
                if i0 != vi {
                    if i0 < vi {
                        assert(before_items[i0].0 != before_items[vi].0);
                    } else {
                        assert(before_items[vi].0 != before_items[i0].0);
                    }
                }
            }
            assert(rec_key(recv, f) == Option::Some(k));
            assert(pair_lookup(pv, f) == Option::Some(k));
            assert(m0.dom().contains(k));
            assert forall|i1: int, i2: int|
                0 <= i1 < m0[k].len() && 0 <= i2 < m0[k].len() && i1 != i2 implies m0[k][i1]
                != m0[k][i2] by {
                let sb2 = slots_idx(before, f).unwrap();
            }
            crate::tree::node::lemma_group_remove_semantics(m0[k], idv);
            if group_remove(m0[k], idv).len() == 0 {
                assert(!m1.dom().contains(k));
            } else {
                assert(!m1[k].contains(idv));
            }
            assert(false);
        }
        let iw = if i0 < vi {
            i0
        } else {
            i0 - 1
        };
        assert(new_items[iw] == before_items[i0]);
    }
    assert forall|i: int, f: Seq<char>|
        #![trigger rec_key(new_items[i].1, f)]
        (0 <= i < new_items.len() && rec_key(new_items[i].1, f).is_some()) implies {
        &&& slots_idx(after, f).is_some()
        &&& slots_map(after, f).dom().contains(rec_key(new_items[i].1, f).unwrap())
        &&& slots_map(after, f)[rec_key(new_items[i].1, f).unwrap()].contains(new_items[i].0)
    } by {
        let i0 = if i < vi {
            i
        } else {
            i + 1
        };
        assert(new_items[i] == before_items[i0]);
        let k = rec_key(before_items[i0].1, f).unwrap();
        let m0 = slots_map(before, f);
        assert(m0.dom().contains(k) && m0[k].contains(before_items[i0].0));
        let idv2 = before_items[i0].0;
        assert(idv2 != idv) by {
            if i0 != vi {
                if i0 < vi {
                    assert(before_items[i0].0 != before_items[vi].0);
                } else {
                    assert(before_items[vi].0 != before_items[i0].0);
                }
            }
        }
        match pair_lookup(pv, f) {
            Option::Some(kk) => {
                if m0.dom().contains(kk) {
                    let sb = slots_idx(before, f).unwrap();
                    assert(Node::optional_as_map(before[sb].root) == m0);
                    assert forall|i1: int, i2: int|
                        0 <= i1 < m0[kk].len() && 0 <= i2 < m0[kk].len() && i1 != i2 implies m0[kk][i1]
                        != m0[kk][i2] by {}
                    crate::tree::node::lemma_group_remove_semantics(m0[kk], idv);
                    if kk == k {
                        assert(group_remove(m0[k], idv).contains(idv2));
                        assert(group_remove(m0[k], idv).len() > 0) by {
                            if group_remove(m0[k], idv).len() == 0 {
                                assert(!group_remove(m0[k], idv).contains(idv2));
                            }
                        }
                        assert(slots_map(after, f)[k] == group_remove(m0[k], idv));
                    } else {
                        assert(slots_map(after, f) == map_remove_id(m0, kk, idv));
                    }
                } else {
                    assert(slots_map(after, f) == m0);
                }
            },
            Option::None => {
                assert(slots_map(after, f) == m0);
            },
        }
        assert(slots_idx(after, f).is_some());
    }
}

/// Whether a map files the id anywhere.
pub open spec fn all_ids_contains(m: Map<Vs, Seq<Seq<char>>>, idv: Seq<char>) -> bool {
    exists|k: Vs| #![auto] m.dom().contains(k) && m[k].contains(idv)
}

/// A slot's cached extremes describe its tree.
pub open spec fn extremes_ok(ft: FieldTree) -> bool {
    &&& ft.min.is_some() == ft.root.is_some()
    &&& ft.max.is_some() == ft.root.is_some()
    &&& ft.root.is_some() ==> {
        &&& Node::optional_as_map(ft.root).dom().contains(ft.min.unwrap()@)
        &&& Node::optional_as_map(ft.root).dom().contains(ft.max.unwrap()@)
        &&& (forall|k: Vs|
            #![auto]
            Node::optional_as_map(ft.root).dom().contains(k) ==> (k == ft.min.unwrap()@ || key_lt(
                ft.min.unwrap()@,
                k,
            )) && (k == ft.max.unwrap()@ || key_lt(k, ft.max.unwrap()@)))
    }
}

/// Looking a field up among the first pairs of a well-formed pair list
/// fails while the field is still ahead.
proof fn lemma_pair_lookup_none_distinct(pv: Seq<(Seq<char>, Vs)>, p: int)
    requires
        pairs_wf(pv),
        0 <= p < pv.len(),
    ensures
        pair_lookup(pv.take(p), pv[p].0).is_none(),
{
    lemma_pair_lookup_props(pv.take(p), pv[p].0);
    if pair_lookup(pv.take(p), pv[p].0).is_some() {
        let j = choose|j: int|
            0 <= j < pv.take(p).len() && (#[trigger] pv.take(p)[j]).0 == pv[p].0;
    }
}

/// What a successful or failed pair lookup says about the list.
proof fn lemma_pair_lookup_props(ps: Seq<(Seq<char>, Vs)>, f: Seq<char>)
    ensures
        pair_lookup(ps, f).is_some() ==> exists|j: int|
            0 <= j < ps.len() && (#[trigger] ps[j]).0 == f && ps[j].1 == pair_lookup(
                ps,
                f,
            ).unwrap(),
        pair_lookup(ps, f).is_none() ==> forall|j: int| 0 <= j < ps.len() ==> (#[trigger] ps[j]).0
            != f,
    decreases ps.len(),
{
    if ps.len() > 0 {
        lemma_pair_lookup_props(ps.drop_first(), f);
        if ps[0].0 != f {
            if pair_lookup(ps.drop_first(), f).is_some() {
                let j = choose|j: int|
                    0 <= j < ps.drop_first().len() && (#[trigger] ps.drop_first()[j]).0 == f
                        && ps.drop_first()[j].1 == pair_lookup(ps.drop_first(), f).unwrap();
                assert(ps[j + 1].0 == f && ps[j + 1].1 == pair_lookup(ps, f).unwrap());
            } else {
                assert forall|j: int| 0 <= j < ps.len() implies (#[trigger] ps[j]).0 != f by {
                    if j > 0 {
                        assert(ps.drop_first()[j - 1].0 != f);
                    }
                }
            }
        }
    }
}

/// Appending a pair only affects lookups that previously failed.
proof fn lemma_pair_lookup_snoc(ps: Seq<(Seq<char>, Vs)>, x: (Seq<char>, Vs), f: Seq<char>)
    ensures
        pair_lookup(ps.push(x), f) == (if pair_lookup(ps, f).is_some() {
            pair_lookup(ps, f)
        } else if x.0 == f {
            Option::Some(x.1)
        } else {
            Option::<Vs>::None
        }),
    decreases ps.len(),
{
    if ps.len() == 0 {
        assert(ps.push(x)[0] == x);
        assert(pair_lookup(ps, f).is_none());
        if x.0 == f {
            assert(pair_lookup(ps.push(x), f) == Option::Some(x.1));
        } else {
            assert(ps.push(x).drop_first() =~= Seq::<(Seq<char>, Vs)>::empty());
            assert(pair_lookup(Seq::<(Seq<char>, Vs)>::empty(), f).is_none());
            assert(pair_lookup(ps.push(x), f).is_none());
        }
    } else {
        assert(ps.push(x)[0] == ps[0]);
        if ps[0].0 == f {
            assert(pair_lookup(ps.push(x), f) == Option::Some(ps[0].1));
            assert(pair_lookup(ps, f) == Option::Some(ps[0].1));
        } else {
            assert(ps.push(x).drop_first() =~= ps.drop_first().push(x));
            lemma_pair_lookup_snoc(ps.drop_first(), x, f);
            assert(pair_lookup(ps.push(x), f) == pair_lookup(ps.drop_first().push(x), f));
            assert(pair_lookup(ps, f) == pair_lookup(ps.drop_first(), f));
        }
    }
}

/// A field found at one slot is the field's only slot.
proof fn lemma_slots_unique(fields: Seq<FieldTree>, f: Seq<char>, s: int)
    requires
        0 <= s < fields.len(),
        fields[s].field_int@ == f,
        forall|s1: int, s2: int|
            0 <= s1 < s2 < fields.len() ==> (#[trigger] fields[s1]).field_int@
                != (#[trigger] fields[s2]).field_int@,
    ensures
        slots_idx(fields, f) == Option::Some(s),
        slots_map(fields, f) == Node::optional_as_map(fields[s].root),
{
    let c = choose|j: int| 0 <= j < fields.len() && (#[trigger] fields[j]).field_int@ == f;
    if c != s {
        if c < s {
            assert(fields[c].field_int@ != fields[s].field_int@);
        } else {
            assert(fields[s].field_int@ != fields[c].field_int@);
        }
    }
}

/// Slots other than the one replaced keep their maps when a slot moves to
/// the end of the list.
proof fn lemma_slots_same(
    fields1: Seq<FieldTree>,
    fields2: Seq<FieldTree>,
    si: int,
    g: Seq<char>,
)
    requires
        0 <= si < fields1.len(),
        fields2.len() == fields1.len(),
        g != fields1[si].field_int@,
        fields2[fields2.len() - 1].field_int@ == fields1[si].field_int@,
        forall|j: int|
            0 <= j < fields1.len() - 1 ==> #[trigger] fields2[j] == (if j == si {
                fields1[fields1.len() - 1]
            } else {
                fields1[j]
            }),
        forall|s1: int, s2: int|
            0 <= s1 < s2 < fields1.len() ==> (#[trigger] fields1[s1]).field_int@
                != (#[trigger] fields1[s2]).field_int@,
    ensures
        slots_map(fields2, g) == slots_map(fields1, g),
{
    if exists|j: int| 0 <= j < fields1.len() && (#[trigger] fields1[j]).field_int@ == g {
        let j = choose|j: int| 0 <= j < fields1.len() && (#[trigger] fields1[j]).field_int@ == g;
        lemma_slots_unique(fields1, g, j);
        if j == fields1.len() - 1 && j != si {
            lemma_slots_unique2(fields2, g, si);
            assert(fields2[si].field_int@ == g);
        } else if j != si {
            lemma_slots_unique2(fields2, g, j);
        } else {
            assert(false);
        }
    } else {
        assert(slots_idx(fields1, g).is_none());
        if exists|j: int| 0 <= j < fields2.len() && (#[trigger] fields2[j]).field_int@ == g {
            let j = choose|j: int|
                0 <= j < fields2.len() && (#[trigger] fields2[j]).field_int@ == g;
            if j == fields2.len() - 1 {
            } else if j == si {
                assert(fields1[fields1.len() - 1].field_int@ == g);
            } else {
                assert(fields1[j].field_int@ == g);
            }
        }
    }
}

/// As `lemma_slots_unique`, but without assuming distinctness of the new
/// list: a direct witness is enough when every other slot differs.
proof fn lemma_slots_unique2(fields: Seq<FieldTree>, f: Seq<char>, s: int)
    requires
        0 <= s < fields.len(),
        fields[s].field_int@ == f,
        forall|j: int| 0 <= j < fields.len() && j != s ==> (#[trigger] fields[j]).field_int@ != f,
    ensures
        slots_idx(fields, f) == Option::Some(s),
        slots_map(fields, f) == Node::optional_as_map(fields[s].root),
{
}

/// After a new slot for an unseen field is pushed, every field that had a
/// slot still has one, no other field's map changes, and the slots stay
/// distinct.
proof fn lemma_slots_grow(fields0: Seq<FieldTree>, fields1: Seq<FieldTree>, nf: Seq<char>)
    requires
        fields1.len() == fields0.len() + 1,
        forall|j: int| 0 <= j < fields0.len() ==> #[trigger] fields1[j] == fields0[j],
        fields1[fields1.len() - 1].field_int@ == nf,
        forall|j: int| 0 <= j < fields0.len() ==> (#[trigger] fields0[j]).field_int@ != nf,
        forall|s1: int, s2: int|
            0 <= s1 < s2 < fields0.len() ==> (#[trigger] fields0[s1]).field_int@
                != (#[trigger] fields0[s2]).field_int@,
    ensures
        forall|s1: int, s2: int|
            0 <= s1 < s2 < fields1.len() ==> (#[trigger] fields1[s1]).field_int@
                != (#[trigger] fields1[s2]).field_int@,
        forall|g: Seq<char>|
            #![trigger slots_idx(fields1, g)]
            slots_idx(fields0, g).is_some() ==> slots_idx(fields1, g).is_some(),
        forall|g: Seq<char>|
            #![trigger slots_map(fields1, g)]
            g != nf ==> slots_map(fields1, g) == slots_map(fields0, g),
{
    assert forall|s1: int, s2: int|
        0 <= s1 < s2 < fields1.len() implies (#[trigger] fields1[s1]).field_int@
        != (#[trigger] fields1[s2]).field_int@ by {
        if s2 == fields1.len() - 1 {
            assert(fields0[s1].field_int@ != nf);
        }
    }
    assert forall|g: Seq<char>| #![trigger slots_idx(fields1, g)]
        slots_idx(fields0, g).is_some() implies slots_idx(fields1, g).is_some() by {
        let j = choose|j: int| 0 <= j < fields0.len() && (#[trigger] fields0[j]).field_int@ == g;
        assert(fields1[j].field_int@ == g);
    }
    assert forall|g: Seq<char>|
        #![trigger slots_map(fields1, g)]
        g != nf implies slots_map(fields1, g) == slots_map(fields0, g) by {
        if exists|j: int| 0 <= j < fields0.len() && (#[trigger] fields0[j]).field_int@ == g {
            let j = choose|j: int|
                0 <= j < fields0.len() && (#[trigger] fields0[j]).field_int@ == g;
            lemma_slots_unique(fields0, g, j);
            assert(fields1[j].field_int@ == g);
            lemma_slots_unique(fields1, g, j);
        } else {
            assert(slots_idx(fields0, g).is_none());
            if exists|j: int| 0 <= j < fields1.len() && (#[trigger] fields1[j]).field_int@ == g {
                let j = choose|j: int|
                    0 <= j < fields1.len() && (#[trigger] fields1[j]).field_int@ == g;
                if j < fields0.len() {
                    assert(fields0[j].field_int@ == g);
                }
                assert(false);
            }
        }
    }
}

/// The reconstruction of the whole-tree invariant after an insert.
proof fn lemma_insert_inv(
    before: Seq<FieldTree>,
    after: Seq<FieldTree>,
    before_items: Seq<(Seq<char>, Vs)>,
    new_items: Seq<(Seq<char>, Vs)>,
    pv: Seq<(Seq<char>, Vs)>,
    idv: Seq<char>,
    recv: Vs,
)
    requires
        new_items == before_items.push((idv, recv)),
        pv == index_pairs(recv),
        pairs_wf(pv),
        forall|f: Seq<char>|
            #![trigger slots_map(after, f)]
            slots_map(after, f) == (match pair_lookup(pv, f) {
                Option::Some(k) => map_insert_group(slots_map(before, f), k, idv),
                Option::None => slots_map(before, f),
            }),
        forall|f: Seq<char>|
            #![trigger slots_idx(after, f)]
            slots_idx(before, f).is_some() ==> slots_idx(after, f).is_some(),
        // soundness of the old tree
        forall|s: int, k: Vs, idv2: Seq<char>|
            #![trigger Node::optional_as_map(before[s].root)[k].contains(idv2)]
            (0 <= s < before.len() && Node::optional_as_map(before[s].root).dom().contains(k)
                && Node::optional_as_map(before[s].root)[k].contains(idv2)) ==> exists|i: int|
                0 <= i < before_items.len() && (#[trigger] before_items[i]).0 == idv2 && rec_key(
                    before_items[i].1,
                    before[s].field_int@,
                ) == Option::Some(k),
        // completeness of the old tree
        forall|i: int, f: Seq<char>|
            #![trigger rec_key(before_items[i].1, f)]
            (0 <= i < before_items.len() && rec_key(before_items[i].1, f).is_some()) ==> {
                &&& slots_idx(before, f).is_some()
                &&& slots_map(before, f).dom().contains(rec_key(before_items[i].1, f).unwrap())
                &&& slots_map(before, f)[rec_key(before_items[i].1, f).unwrap()].contains(
                    before_items[i].0,
                )
            },
        forall|s1: int, s2: int|
            0 <= s1 < s2 < before.len() ==> (#[trigger] before[s1]).field_int@
                != (#[trigger] before[s2]).field_int@,
        forall|s1: int, s2: int|
            0 <= s1 < s2 < after.len() ==> (#[trigger] after[s1]).field_int@
                != (#[trigger] after[s2]).field_int@,
    ensures
        // soundness of the new tree
        forall|s: int, k: Vs, idv2: Seq<char>|
            #![trigger Node::optional_as_map(after[s].root)[k].contains(idv2)]
            (0 <= s < after.len() && Node::optional_as_map(after[s].root).dom().contains(k)
                && Node::optional_as_map(after[s].root)[k].contains(idv2)) ==> exists|i: int|
                0 <= i < new_items.len() && (#[trigger] new_items[i]).0 == idv2 && rec_key(
                    new_items[i].1,
                    after[s].field_int@,
                ) == Option::Some(k),
        // completeness of the new tree
        forall|i: int, f: Seq<char>|
            #![trigger rec_key(new_items[i].1, f)]
            (0 <= i < new_items.len() && rec_key(new_items[i].1, f).is_some()) ==> {
                &&& slots_idx(after, f).is_some()
                &&& slots_map(after, f).dom().contains(rec_key(new_items[i].1, f).unwrap())
                &&& slots_map(after, f)[rec_key(new_items[i].1, f).unwrap()].contains(
                    new_items[i].0,
                )
            },
{
    assert forall|s: int, k: Vs, idv2: Seq<char>|
        #![trigger Node::optional_as_map(after[s].root)[k].contains(idv2)]
        (0 <= s < after.len() && Node::optional_as_map(after[s].root).dom().contains(k)
            && Node::optional_as_map(after[s].root)[k].contains(idv2)) implies exists|i: int|
        0 <= i < new_items.len() && (#[trigger] new_items[i]).0 == idv2 && rec_key(
            new_items[i].1,
            after[s].field_int@,
        ) == Option::Some(k) by {
        let f = after[s].field_int@;
        lemma_slots_unique(after, f, s);
        let m0 = slots_map(before, f);
        match pair_lookup(pv, f) {
            Option::Some(kk) => {
                if k == kk && idv2 == idv {
                    assert(rec_key(recv, f) == Option::Some(k));
                    assert(new_items[new_items.len() - 1].0 == idv);
                    assert(new_items[new_items.len() - 1].1 == recv);
                } else {
                    if k == kk {
                        if m0.dom().contains(k) {
                            if m0[k].contains(idv2) {
                                lemma_old_witness(before, before_items, new_items, f, k, idv2);
                            } else {
                                assert(m0[k].push(idv).contains(idv2));
                                let j = choose|j: int|
                                    0 <= j < m0[k].push(idv).len() && m0[k].push(idv)[j] == idv2;
                                assert(j == m0[k].len());
                                assert(false);
                            }
                        } else {
                            assert(slots_map(after, f)[k] == seq![idv]);
                            assert(seq![idv][0] == idv);
                            let j = choose|j: int|
                                0 <= j < seq![idv].len() && seq![idv][j] == idv2;
                            assert(false);
                        }
                    } else {
                        assert(m0.dom().contains(k) && m0[k].contains(idv2));
                        lemma_old_witness(before, before_items, new_items, f, k, idv2);
                    }
                }
            },
            Option::None => {
                lemma_old_witness(before, before_items, new_items, f, k, idv2);
            },
        }
    }
    assert forall|i: int, f: Seq<char>|
        #![trigger rec_key(new_items[i].1, f)]
        (0 <= i < new_items.len() && rec_key(new_items[i].1, f).is_some()) implies {
        &&& slots_idx(after, f).is_some()
        &&& slots_map(after, f).dom().contains(rec_key(new_items[i].1, f).unwrap())
        &&& slots_map(after, f)[rec_key(new_items[i].1, f).unwrap()].contains(new_items[i].0)
    } by {
        let k = rec_key(new_items[i].1, f).unwrap();
        if i < before_items.len() {
            assert(rec_key(before_items[i].1, f) == Option::Some(k));
            let m0 = slots_map(before, f);
            assert(m0.dom().contains(k) && m0[k].contains(before_items[i].0));
            match pair_lookup(pv, f) {
                Option::Some(kk) => {
                    if kk == k {
                        assert(slots_map(after, f)[k] == m0[k].push(idv));
                        assert(m0[k].push(idv).contains(before_items[i].0)) by {
                            let j = choose|j: int| 0 <= j < m0[k].len() && m0[k][j] == before_items[i].0;
                            assert(m0[k].push(idv)[j] == before_items[i].0);
                        }
                    } else {
                        assert(slots_map(after, f) == map_insert_group(m0, kk, idv));
                    }
                },
                Option::None => {},
            }
            assert(slots_idx(after, f).is_some());
        } else {
            assert(new_items[i].1 == recv);
            assert(pair_lookup(pv, f) == Option::Some(k));
            let m1 = slots_map(after, f);
            assert(m1 == map_insert_group(slots_map(before, f), k, idv));
            assert(m1.dom().contains(k));
            assert(m1[k].contains(idv)) by {
                if slots_map(before, f).dom().contains(k) {
                    let g0 = slots_map(before, f)[k];
                    assert(m1[k] == g0.push(idv));
                    assert(g0.push(idv)[g0.len() as int] == idv);
                } else {
                    assert(m1[k] == seq![idv]);
                    assert(seq![idv][0] == idv);
                }
            }
            assert(slots_idx(after, f).is_some()) by {
                if slots_idx(after, f).is_none() {
                    assert(slots_map(after, f) =~= Map::<Vs, Seq<Seq<char>>>::empty());
                }
            }
        }
    }
}

/// Ids found in the old tree keep their witnesses among the unchanged
/// prefix of the items.
proof fn lemma_old_witness(
    before: Seq<FieldTree>,
    before_items: Seq<(Seq<char>, Vs)>,
    new_items: Seq<(Seq<char>, Vs)>,
    f: Seq<char>,
    k: Vs,
    idv2: Seq<char>,
)
    requires
        new_items.len() == before_items.len() + 1,
        forall|i: int| 0 <= i < before_items.len() ==> #[trigger] new_items[i] == before_items[i],
        slots_idx(before, f).is_some(),
        slots_map(before, f).dom().contains(k),
        slots_map(before, f)[k].contains(idv2),
        forall|s1: int, s2: int|
            0 <= s1 < s2 < before.len() ==> (#[trigger] before[s1]).field_int@
                != (#[trigger] before[s2]).field_int@,
        forall|s: int, kk: Vs, idd: Seq<char>|
            #![trigger Node::optional_as_map(before[s].root)[kk].contains(idd)]
            (0 <= s < before.len() && Node::optional_as_map(before[s].root).dom().contains(kk)
                && Node::optional_as_map(before[s].root)[kk].contains(idd)) ==> exists|i: int|
                0 <= i < before_items.len() && (#[trigger] before_items[i]).0 == idd && rec_key(
                    before_items[i].1,
                    before[s].field_int@,
                ) == Option::Some(kk),
    ensures
        exists|i: int|
            0 <= i < new_items.len() && (#[trigger] new_items[i]).0 == idv2 && rec_key(
                new_items[i].1,
                f,
            ) == Option::Some(k),
{
    let s = slots_idx(before, f).unwrap();
    assert(0 <= s < before.len() && before[s].field_int@ == f);
    assert(Node::optional_as_map(before[s].root)[k].contains(idv2));
    let i = choose|i: int|
        0 <= i < before_items.len() && (#[trigger] before_items[i]).0 == idv2 && rec_key(
            before_items[i].1,
            before[s].field_int@,
        ) == Option::Some(k);
    assert(new_items[i].0 == idv2);
}


/// Computes the (field, key) pairs a flat encoded record is indexed
/// under: every indexable column under its own id, and every column with
/// a length under its derived length id; the id column is skipped.
pub fn derive_pairs(value: &Value) -> (pairs: Vec<IndexPair>)
    ensures
        pairs_view(pairs@) =~= index_pairs(value@),
{
    let mut out: Vec<IndexPair> = Vec::new();
    let mut idname: Vec<char> = Vec::new();
    idname.push('_');
    idname.push('i');
    idname.push('d');
    proof {
        assert(idname@ =~= id_field_name());
    }
    let idcol = crate::schema::get_unique_int_str(&idname);
    proof {
        assert(idcol@ == id_int());
    }
    match value {
        Value::Obj(entries) => {
            proof {
                assert(value is Obj);
                assert(*entries == value->Obj_0);
                let vv = *value;
                assert(vv@ == value@);
                assert(vv@->Obj_0.len() == entries@.len());
                assert(value@->Obj_0.len() == entries@.len());
                assert forall|j: int| 0 <= j < entries@.len() implies #[trigger] value@->Obj_0[j]
                    == (entries@[j].key@, entries@[j].value@) by {}
            }
            let mut i: usize = 0;
            while i < entries.len()
                invariant
                    value is Obj,
                    *entries == value->Obj_0,
                    idcol@ == id_int(),
                    0 <= i <= entries@.len(),
                    value@->Obj_0.len() == entries@.len(),
                    forall|j: int|
                        0 <= j < entries@.len() ==> #[trigger] value@->Obj_0[j] == (
                        entries@[j].key@,
                        entries@[j].value@,
                        ),
                    pairs_view(out@) =~= entry_pairs(value@->Obj_0.take(i as int)),
                decreases entries@.len() - i,
            {
                let ghost prefix = value@->Obj_0.take(i as int);
                let ghost e = value@->Obj_0[i as int];
                proof {
                    assert(value@->Obj_0.take(i + 1) =~= prefix.push(e));
                    assert(value@->Obj_0.take(i + 1).drop_last() =~= prefix);
                    assert(entry_pairs(value@->Obj_0.take(i + 1)) == entry_pairs(prefix)
                        + head_pairs(e));
                    assert(e.0 == entries@[i as int].key@);
                    assert(e.1 == entries@[i as int].value@);
                }
                if lex_compare(&entries[i].key, &idcol) != 0 {
                    let ghost before_pairs = pairs_view(out@);
                    if entries[i].value.can_index() {
                        let p = IndexPair {
                            field_int: clone_chars(&entries[i].key),
                            key: entries[i].value.duplicate(),
                        };
                        out.push(p);
                    }
                    if can_len_exec(&entries[i].value) {
                        let lf = crate::schema::get_len_field_int(&entries[i].key);
                        let lv = len_value(&entries[i].value);
                        out.push(IndexPair { field_int: lf, key: lv });
                    }
                    proof {
                        assert(pairs_view(out@) =~= before_pairs + head_pairs(e));
                    }
                } else {
                    proof {
                        assert(head_pairs(e) =~= Seq::<(Seq<char>, Vs)>::empty());
                        assert(pairs_view(out@) + head_pairs(e) =~= pairs_view(out@));
                    }
                }
                i = i + 1;
            }
            proof {
                assert(value@->Obj_0.take(entries@.len() as int) =~= value@->Obj_0);
            }
        },
        _ => {
            proof {
                assert(pairs_view(out@) =~= index_pairs(value@));
            }
        },
    }
    out
}

/// Whether a value exposes a derived length pseudo-field.
pub fn can_len_exec(v: &Value) -> (b: bool)
    ensures
        b == can_len(v@),
{
    match v {
        Value::Arr(_) => true,
        Value::Obj(_) => true,
        Value::Str(_) => true,
        _ => false,
    }
}

/// The derived length of a collection or string, as a stored number.
pub fn len_value(v: &Value) -> (r: Value)
    requires
        can_len(v@),
    ensures
        r@ == Vs::Int(len_of(v@)),
{
    let n: u128 = match v {
        Value::Arr(items) => {
            proof {
                assert(v@->Arr_0.len() == items@.len());
            }
            items.len() as u128
        },
        Value::Obj(es) => {
            proof {
                assert(*es == v->Obj_0);
                assert(v@->Obj_0.len() == es@.len());
            }
            es.len() as u128
        },
        Value::Str(s) => utf8_byte_len(s),
        _ => {
            proof {
                assert(false);
            }
            0
        },
    };
    if n > i64::MAX as u128 {
        Value::Int(i64::MAX)
    } else {
        Value::Int(n as i64)
    }
}

/// The byte count of a string's UTF-8 form.
fn utf8_byte_len(s: &Vec<char>) -> (r: u128)
    ensures
        r == vstd::utf8::encode_utf8(s@).len(),
{
    let mut acc: u128 = 0;
    let mut i: usize = 0;
    proof {
        assert(s@.skip(0) =~= s@);
    }
    while i < s.len()
        invariant
            0 <= i <= s@.len(),
            acc <= 4 * i,
            vstd::utf8::encode_utf8(s@).len() == acc + vstd::utf8::encode_utf8(
                s@.skip(i as int),
            ).len(),
        decreases s@.len() - i,
    {
        let c = s[i] as u32;
        proof {
            vstd::utf8::char_is_scalar(s@[i as int]);
            assert(s@.skip(i as int)[0] == s@[i as int]);
            assert(s@.skip(i as int).drop_first() =~= s@.skip(i + 1));
        }
        let w: u128 = if c < 0x80 {
            1
        } else if c < 0x800 {
            2
        } else if c < 0x10000 {
            3
        } else {
            4
        };
        proof {
            assert(vstd::utf8::encode_scalar(s@[i as int] as u32).len() == w);
        }
        acc = acc + w;
        i = i + 1;
    }
    proof {
        assert(s@.skip(s@.len() as int) =~= Seq::<char>::empty());
    }
    acc
}


/// The sum of a string's code points, the coarse magnitude the entrance
/// heuristic compares strings by.
pub open spec fn char_sum(s: Seq<char>) -> int
    decreases s.len(),
{
    if s.len() == 0 {
        0
    } else {
        char_sum(s.drop_last()) + (s.last() as u32)
    }
}

/// The distance between a candidate entry value and the query literal:
/// the absolute difference of numbers, of string code-point sums, and
/// nothing for values of different kinds.
pub open spec fn key_dist(a: Vs, b: Vs) -> Option<int> {
    match (a, b) {
        (Vs::Int(x), Vs::Int(y)) => Option::Some(
            if x < y {
                y - x
            } else {
                x - y
            },
        ),
        (Vs::Str(x), Vs::Str(y)) => Option::Some(
            if char_sum(x) < char_sum(y) {
                char_sum(y) - char_sum(x)
            } else {
                char_sum(x) - char_sum(y)
            },
        ),
        _ => Option::None,
    }
}

/// Where a field search enters the tree: its root, or the cached extreme
/// value whose distance to the literal is smallest.  The root wins ties,
/// as the deterministic fall-back.
pub open spec fn entrance_of(root_k: Vs, mn: Vs, mx: Vs, target: Vs) -> EntranceKind {
    let dr = key_dist(root_k, target);
    let dmin = key_dist(mn, target);
    let dmax = key_dist(mx, target);
    if dmin.is_some() && (dr.is_none() || dmin.unwrap() < dr.unwrap()) && (dmax.is_none()
        || dmin.unwrap() <= dmax.unwrap()) {
        EntranceKind::Min
    } else if dmax.is_some() && (dr.is_none() || dmax.unwrap() < dr.unwrap()) {
        EntranceKind::Max
    } else {
        EntranceKind::Root
    }
}

/// Which cached reference point a field search starts from.
#[derive(Clone, Copy, PartialEq, Eq, Debug)]
pub enum EntranceKind {
    Root,
    Min,
    Max,
}

/// The code-point sum of a string, for the entrance heuristic.
fn char_sum_exec(s: &Vec<char>) -> (r: u128)
    ensures
        r == char_sum(s@),
{
    let mut acc: u128 = 0;
    let mut i: usize = 0;
    proof {
        assert(s@.take(0) =~= Seq::<char>::empty());
    }
    while i < s.len()
        invariant
            0 <= i <= s@.len(),
            acc == char_sum(s@.take(i as int)),
            acc <= i * 0x110000,
        decreases s@.len() - i,
    {
        proof {
            assert(s@.take(i + 1).drop_last() =~= s@.take(i as int));
            assert(s@.take(i + 1).last() == s@[i as int]);
            vstd::utf8::char_is_scalar(s@[i as int]);
            assert((i + 1) * 0x110000 == i * 0x110000 + 0x110000) by (nonlinear_arith);
            assert(i * 0x110000 <= 0xFFFF_FFFF_FFFF_FFFF * 0x110000int) by (nonlinear_arith)
                requires i <= 0xFFFF_FFFF_FFFF_FFFFu64;
        }
        acc = acc + (s[i] as u32) as u128;
        i = i + 1;
    }
    proof {
        assert(s@.take(s@.len() as int) =~= s@);
    }
    acc
}

/// The distance between an entry candidate and the literal.
fn key_dist_exec(a: &Value, b: &Value) -> (r: Option<i128>)
    requires
        is_key(a@),
    ensures
        r.is_some() == key_dist(a@, b@).is_some(),
        r.is_some() ==> r.unwrap() as int == key_dist(a@, b@).unwrap(),
{
    match (a, b) {
        (Value::Int(x), Value::Int(y)) => {
            let xi = *x as i128;
            let yi = *y as i128;
            if xi < yi {
                Some(yi - xi)
            } else {
                Some(xi - yi)
            }
        },
        (Value::Str(x), Value::Str(y)) => {
            let xl = x.len();
            let yl = y.len();
            let sx = char_sum_exec(x);
            let sy = char_sum_exec(y);
            proof {
                lemma_char_sum_bound(x@);
                lemma_char_sum_bound(y@);
                assert(x@.len() * 0x110000 <= 0xFFFF_FFFF_FFFF_FFFFu64 * 0x110000int)
                    by (nonlinear_arith)
                    requires x@.len() == xl as int, xl <= 0xFFFF_FFFF_FFFF_FFFFu64;
                assert(y@.len() * 0x110000 <= 0xFFFF_FFFF_FFFF_FFFFu64 * 0x110000int)
                    by (nonlinear_arith)
                    requires y@.len() == yl as int, yl <= 0xFFFF_FFFF_FFFF_FFFFu64;
                assert(0xFFFF_FFFF_FFFF_FFFFu64 * 0x110000int < 0x8000_0000_0000_0000_0000_0000_0000_0000int);
            }
            if sx < sy {
                Some((sy - sx) as i128)
            } else {
                Some((sx - sy) as i128)
            }
        },
        _ => None,
    }
}

/// A code-point sum is bounded by the string length times the largest
/// scalar value.
proof fn lemma_char_sum_bound(s: Seq<char>)
    ensures
        0 <= char_sum(s),
        char_sum(s) <= s.len() * 0x110000,
    decreases s.len(),
{
    if s.len() > 0 {
        lemma_char_sum_bound(s.drop_last());
        vstd::utf8::char_is_scalar(s.last());
        let n = s.len() as int;
        assert((n - 1) * 0x110000 + 0x110000 == n * 0x110000) by (nonlinear_arith);
    }
}

impl Tree {
    /// Searches one field's tree with a comparator chain, entering at the
    /// root or at a cached extreme value per the distance heuristic, and
    /// appends exactly the matching ids.  The result reports whether this
    /// field's own search ran out of candidates on its own.
    pub fn search_field(&self, f: &Vec<char>, chain: &Vec<Comparision>, target: &Value, out: &mut Vec<Id>) -> (stopped: bool)
        ensures
            adds(
                group_view(old(out)@),
                group_view(final(out)@),
                matching_ids(self.field_map(f@), chain@),
            ),
    {
        proof {
            use_type_invariant(&*self);
        }
        let mut s: usize = 0;
        let mut sfound = false;
        while s < self.fields.len() && !sfound
            invariant
                0 <= s <= self.fields@.len(),
                sfound ==> s < self.fields@.len() && self.fields@[s as int].field_int@ == f@,
                !sfound ==> forall|j: int|
                    0 <= j < s ==> (#[trigger] self.fields@[j]).field_int@ != f@,
            decreases self.fields@.len() - s, (if sfound { 0int } else { 1int }),
        {
            if lex_compare(&self.fields[s].field_int, f) == 0 {
                sfound = true;
            } else {
                s = s + 1;
            }
        }
        if !sfound {
            proof {
                assert(slots_idx(self.fields@, f@).is_none());
                assert(self.field_map(f@) =~= Map::<Vs, Seq<Seq<char>>>::empty());
                lemma_matching_ids_empty(self.field_map(f@), chain@);
                lemma_adds_refl(group_view(out@), matching_ids(self.field_map(f@), chain@));
            }
            return true;
        }
        proof {
            use_type_invariant(&*self);
            lemma_slots_unique(self.fields@, f@, s as int);
        }
        match (&self.fields[s].root, &self.fields[s].min, &self.fields[s].max) {
            (Some(root), Some(mn), Some(mx), ) => {
                proof {
                    crate::tree::node::lemma_dom_is_key(self.fields@[s as int].root);
                    assert(is_key(mn@));
                    assert(is_key(mx@));
                    assert(is_key(root.key@));
                }
                let dr = key_dist_exec(root.get_value(), target);
                let dmin = key_dist_exec(mn, target);
                let dmax = key_dist_exec(mx, target);
                let use_min = dmin.is_some() && (dr.is_none() || dmin.unwrap() < dr.unwrap()) && (
                dmax.is_none() || dmin.unwrap() <= dmax.unwrap());
                let use_max = !use_min && dmax.is_some() && (dr.is_none() || dmax.unwrap()
                    < dr.unwrap());
                if use_min {
                    let stopped = root.search_min(chain, out);
                    stopped
                } else if use_max {
                    let stopped = root.search_max(chain, out);
                    stopped
                } else {
                    root.search_root(chain, out);
                    true
                }
            },
            _ => {
                proof {
                    assert(self.field_map(f@) =~= Map::<Vs, Seq<Seq<char>>>::empty());
                    lemma_matching_ids_empty(self.field_map(f@), chain@);
                    lemma_adds_refl(group_view(out@), matching_ids(self.field_map(f@), chain@));
                }
                return true;
            },
        }
    }
}

/// An empty field map matches nothing.
proof fn lemma_matching_ids_empty(m: Map<Vs, Seq<Seq<char>>>, chain: Seq<Comparision>)
    requires
        m =~= Map::<Vs, Seq<Seq<char>>>::empty(),
    ensures
        forall|idv: Seq<char>| !matching_ids(m, chain).contains(idv),
{
    assert forall|idv: Seq<char>| !matching_ids(m, chain).contains(idv) by {
        if matching_ids(m, chain).contains(idv) {
            let k = choose|k: Vs| #![auto]
                m.dom().contains(k) && chain_meets(chain, k) && m[k].contains(idv);
        }
    }
}


impl Tree {
    /// What the whole-store index guarantees at all times: ids are stored
    /// once, stored records have well-formed pair lists, every id a field
    /// tree files belongs to a stored record indexed under that key, and
    /// every indexed key of every stored record is filed in its field's
    /// tree.
    #[inline]
    pub fn index_facts(&self)
        ensures
            forall|i: int, j: int|
                0 <= i < j < self.items().len() ==> (#[trigger] self.items()[i]).0
                    != (#[trigger] self.items()[j]).0,
            forall|i: int|
                0 <= i < self.items().len() ==> pairs_wf(
                    index_pairs((#[trigger] self.items()[i]).1),
                ),
            forall|f: Seq<char>, k: Vs, idv: Seq<char>|
                #![trigger self.field_map(f)[k].contains(idv)]
                (self.field_map(f).dom().contains(k) && self.field_map(f)[k].contains(idv))
                    ==> exists|i: int|
                    0 <= i < self.items().len() && (#[trigger] self.items()[i]).0 == idv
                        && rec_key(self.items()[i].1, f) == Option::Some(k),
            forall|i: int, f: Seq<char>|
                #![trigger rec_key(self.items()[i].1, f)]
                (0 <= i < self.items().len() && rec_key(self.items()[i].1, f).is_some()) ==> {
                    &&& self.field_map(f).dom().contains(rec_key(self.items()[i].1, f).unwrap())
                    &&& self.field_map(f)[rec_key(self.items()[i].1, f).unwrap()].contains(
                        self.items()[i].0,
                    )
                },
            forall|f: Seq<char>| #![trigger self.field_map(f)] ids_unique(self.field_map(f)),
    {
        proof {
            use_type_invariant(self);
            assert forall|f: Seq<char>, k: Vs, idv: Seq<char>|
                #![trigger self.field_map(f)[k].contains(idv)]
                (self.field_map(f).dom().contains(k) && self.field_map(f)[k].contains(
                    idv,
                )) implies exists|i: int|
                0 <= i < self.items().len() && (#[trigger] self.items()[i]).0 == idv && rec_key(
                    self.items()[i].1,
                    f,
                ) == Option::Some(k) by {
                if self.slot_idx(f).is_some() {
                    let sl = self.slot_idx(f).unwrap();
                    assert(0 <= sl < self.fields@.len() && self.fields@[sl].field_int@ == f);
                    assert(Node::optional_as_map(self.fields@[sl].root)[k].contains(idv));
                }
            }
            assert forall|f: Seq<char>| #![trigger self.field_map(f)] ids_unique(
                self.field_map(f),
            ) by {
                if self.slot_idx(f).is_some() {
                    let sl = self.slot_idx(f).unwrap();
                    assert(ids_unique(Node::optional_as_map(self.fields@[sl].root)));
                } else {
                    let m = self.field_map(f);
                    assert(m =~= Map::<Vs, Seq<Seq<char>>>::empty());
                    assert forall|k1: Vs, k2: Vs, i1: int, i2: int|
                        #![trigger m[k1][i1], m[k2][i2]]
                        m.dom().contains(k1) && m.dom().contains(k2) && 0 <= i1 < m[k1].len() && 0
                            <= i2 < m[k2].len() && m[k1][i1] == m[k2][i2] implies k1 == k2 && i1
                        == i2 by {}
                }
            }
        }
    }
}

} // verus!
