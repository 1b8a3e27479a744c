//! The query executor: per-field comparator chains, the search entrance
//! choice, the point-wise filter, ordering and pagination.

use vstd::prelude::*;
use crate::value::Value;
use crate::value::Vs;
use crate::value::Id;
use crate::value::is_key;
use crate::value::key_lt;
use crate::value::clone_chars;
use crate::value::lex_compare;
use crate::query::Order;
use crate::query::OrderBy;
use crate::query::QueryType;
use super::comparision::Comparision;
use super::comparision::chain_meets;
use super::comparision::meets;
use super::node::group_view;
use super::node::adds;
use super::node::matching_ids;
use super::store_tree::Tree;
use super::store_tree::rec_key;
use super::store_tree::pair_lookup;
use super::store_tree::index_pairs;
use super::store_tree::pairs_view;
use super::store_tree::derive_pairs;
use super::store_tree::pairs_wf;

verus! {

/// One field's share of a query: the comparator chain that constrains it.
pub struct Sub {
    pub field_int: Vec<char>,
    pub comparisions: Vec<Comparision>,
    pub order: Option<Order>,
    pub stopped: bool,
}

/// A parsed query ready to execute: one `Sub` per constrained field,
/// the ordering clauses, offset and limit, and whether records or only a
/// count is wanted.
pub struct Task {
    pub subs: Vec<Sub>,
    pub orders: Vec<OrderBy>,
    pub offset: usize,
    pub limit: Option<usize>,
    pub query_type: QueryType,
}

/// Whether a record satisfies one comparator: the record must carry the
/// comparator's field as an indexable value that meets it.
pub open spec fn cond_matched(rec: Vs, c: Comparision) -> bool {
    match rec_key(rec, c.field_int@) {
        Option::Some(k) => meets(k, c.cmp, c.other@),
        Option::None => false,
    }
}

/// Whether a record satisfies every condition of a query.
pub open spec fn cond_matches(rec: Vs, conds: Seq<Comparision>) -> bool {
    forall|i: int| 0 <= i < conds.len() ==> cond_matched(rec, #[trigger] conds[i])
}

/// The ids of the records satisfying every condition, in storage order.
pub open spec fn matched_seq(items: Seq<(Seq<char>, Vs)>, conds: Seq<Comparision>) -> Seq<
    Seq<char>,
>
    decreases items.len(),
{
    if items.len() == 0 {
        Seq::empty()
    } else {
        matched_seq(items.drop_last(), conds) + (if cond_matches(items.last().1, conds) {
            seq![items.last().0]
        } else {
            Seq::empty()
        })
    }
}

/// The record stored under an id, when one is.
pub open spec fn rec_of(items: Seq<(Seq<char>, Vs)>, idv: Seq<char>) -> Vs {
    if exists|i: int| 0 <= i < items.len() && (#[trigger] items[i]).0 == idv {
        items[choose|i: int| 0 <= i < items.len() && (#[trigger] items[i]).0 == idv].1
    } else {
        Vs::Null
    }
}

/// Three-way comparison of two optional keys: an absent key sorts first.
pub open spec fn key_cmp3(x: Option<Vs>, y: Option<Vs>) -> int {
    match (x, y) {
        (Option::None, Option::None) => 0,
        (Option::None, Option::Some(_)) => -1,
        (Option::Some(_), Option::None) => 1,
        (Option::Some(a), Option::Some(b)) => if key_lt(a, b) {
            -1
        } else if a == b {
            0
        } else {
            1
        },
    }
}

/// The mathematical view of ordering clauses: field-id text with the
/// direction.
pub open spec fn ov(orders: Seq<OrderBy>) -> Seq<(Seq<char>, Order)> {
    Seq::new(
        orders.len(),
        |i: int|
            if 0 <= i < orders.len() {
                (orders[i].field_int@, orders[i].order)
            } else {
                (Seq::empty(), Order::Asc)
            },
    )
}

/// Three-way comparison of two records under the ordering clauses: the
/// first clause dominates, later clauses break ties, `Desc` reverses.
pub open spec fn ord_cmp(a: Vs, b: Vs, orders: Seq<(Seq<char>, Order)>) -> int
    decreases orders.len(),
{
    if orders.len() == 0 {
        0
    } else {
        let c0 = key_cmp3(rec_key(a, orders[0].0), rec_key(b, orders[0].0));
        let c = if orders[0].1 is Desc {
            -c0
        } else {
            c0
        };
        if c != 0 {
            c
        } else {
            ord_cmp(a, b, orders.drop_first())
        }
    }
}

/// Stable insertion of an id into a sorted candidate list: it lands after
/// every candidate it does not strictly precede.
pub open spec fn sorted_insert(
    s: Seq<Seq<char>>,
    idv: Seq<char>,
    items: Seq<(Seq<char>, Vs)>,
    orders: Seq<(Seq<char>, Order)>,
) -> Seq<Seq<char>>
    decreases s.len(),
{
    if s.len() == 0 {
        seq![idv]
    } else if ord_cmp(rec_of(items, s[0]), rec_of(items, idv), orders) <= 0 {
        seq![s[0]] + sorted_insert(s.drop_first(), idv, items, orders)
    } else {
        seq![idv] + s
    }
}

/// The stable sort of a candidate list under the ordering clauses.
pub open spec fn sort_ids(
    cand: Seq<Seq<char>>,
    items: Seq<(Seq<char>, Vs)>,
    orders: Seq<(Seq<char>, Order)>,
) -> Seq<Seq<char>>
    decreases cand.len(),
{
    if cand.len() == 0 {
        Seq::empty()
    } else {
        sorted_insert(sort_ids(cand.drop_last(), items, orders), cand.last(), items, orders)
    }
}

/// A successful lookup at position `i` after `i` misses is what the pair
/// lookup returns.
proof fn lemma_pair_lookup_at(ps: Seq<(Seq<char>, Vs)>, f: Seq<char>, i: int)
    requires
        0 <= i < ps.len(),
        forall|j: int| 0 <= j < i ==> (#[trigger] ps[j]).0 != f,
        ps[i].0 == f,
    ensures
        pair_lookup(ps, f) == Option::Some(ps[i].1),
    decreases i,
{
    if i > 0 {
        assert forall|j: int| 0 <= j < i - 1 implies (#[trigger] ps.drop_first()[j]).0 != f by {
            assert(ps[j + 1].0 != f);
        }
        lemma_pair_lookup_at(ps.drop_first(), f, i - 1);
    }
}

/// A lookup that misses everywhere returns nothing.
proof fn lemma_pair_lookup_misses(ps: Seq<(Seq<char>, Vs)>, f: Seq<char>)
    requires
        forall|j: int| 0 <= j < ps.len() ==> (#[trigger] ps[j]).0 != f,
    ensures
        pair_lookup(ps, f).is_none(),
    decreases ps.len(),
{
    if ps.len() > 0 {
        assert forall|j: int| 0 <= j < ps.len() - 1 implies (#[trigger] ps.drop_first()[j]).0
            != f by {
            assert(ps[j + 1].0 != f);
        }
        lemma_pair_lookup_misses(ps.drop_first(), f);
    }
}

/// The key a record is indexed under for one field, as the index sees it.
pub fn rec_key_exec(value: &Value, f: &Vec<char>) -> (r: Option<Value>)
    ensures
        r.is_some() == rec_key(value@, f@).is_some(),
        r.is_some() ==> r.unwrap()@ == rec_key(value@, f@).unwrap(),
        r.is_some() && pairs_wf(index_pairs(value@)) ==> is_key(r.unwrap()@),
{
    let mut pairs = derive_pairs(value);
    let ghost pv = pairs_view(pairs@);
    let mut i: usize = 0;
    while i < pairs.len()
        invariant
            pv == pairs_view(pairs@),
            pv =~= index_pairs(value@),
            0 <= i <= pairs@.len(),
            forall|j: int| 0 <= j < i ==> (#[trigger] pv[j]).0 != f@,
        decreases pairs@.len() - i,
    {
        if lex_compare(&pairs[i].field_int, f) == 0 {
            proof {
                lemma_pair_lookup_at(pv, f@, i as int);
            }
            let p = pairs.remove(i);
            return Some(p.key);
        }
        i = i + 1;
    }
    proof {
        lemma_pair_lookup_misses(pv, f@);
    }
    None
}

/// Whether a record passes one comparator, the point-wise test the
/// executor applies to every candidate.
pub fn cond_match_exec(value: &Value, c: &Comparision) -> (r: bool)
    requires
        pairs_wf(index_pairs(value@)),
    ensures
        r == cond_matched(value@, *c),
{
    match rec_key_exec(value, &c.field_int) {
        Some(k) => c._match(&k),
        None => false,
    }
}

/// Whether a record passes every condition of a query.
pub fn conds_match_exec(value: &Value, conds: &Vec<Comparision>) -> (r: bool)
    requires
        pairs_wf(index_pairs(value@)),
    ensures
        r == cond_matches(value@, conds@),
{
    let mut i: usize = 0;
    while i < conds.len()
        invariant
            pairs_wf(index_pairs(value@)),
            0 <= i <= conds@.len(),
            forall|j: int| 0 <= j < i ==> cond_matched(value@, #[trigger] conds@[j]),
        decreases conds@.len() - i,
    {
        if !cond_match_exec(value, &conds[i]) {
            return false;
        }
        i = i + 1;
    }
    true
}

/// Three-way comparison of two optional keys.
fn key_cmp3_exec(x: &Option<Value>, y: &Option<Value>) -> (r: i8)
    requires
        x.is_some() ==> is_key(x.unwrap()@),
        y.is_some() ==> is_key(y.unwrap()@),
    ensures
        r as int == key_cmp3(
            match x {
                Option::Some(v) => Option::Some(v@),
                Option::None => Option::None,
            },
            match y {
                Option::Some(v) => Option::Some(v@),
                Option::None => Option::None,
            },
        ),
{
    match (x, y) {
        (None, None) => 0,
        (None, Some(_)) => -1,
        (Some(_), None) => 1,
        (Some(a), Some(b)) => {
            proof {
                crate::value::lemma_key_order_total(a@, b@);
            }
            crate::value::key_compare(a, b)
        },
    }
}

/// Three-way comparison of two records under the ordering clauses.
pub fn ord_cmp_exec(a: &Value, b: &Value, orders: &Vec<OrderBy>) -> (r: i8)
    requires
        pairs_wf(index_pairs(a@)),
        pairs_wf(index_pairs(b@)),
    ensures
        r as int == ord_cmp(a@, b@, ov(orders@)),
{
    let mut i: usize = 0;
    proof {
        assert(ov(orders@).skip(0) =~= ov(orders@));
    }
    while i < orders.len()
        invariant
            pairs_wf(index_pairs(a@)),
            pairs_wf(index_pairs(b@)),
            0 <= i <= orders@.len(),
            ord_cmp(a@, b@, ov(orders@)) == ord_cmp(a@, b@, ov(orders@).skip(i as int)),
        decreases orders@.len() - i,
    {
        proof {
            assert(ov(orders@).skip(i as int)[0] == ov(orders@)[i as int]);
            assert(ov(orders@).skip(i as int).drop_first() =~= ov(orders@).skip(i + 1));
        }
        let ka = rec_key_exec(a, &orders[i].field_int);
        let kb = rec_key_exec(b, &orders[i].field_int);
        proof {
            if ka.is_some() {
                lemma_rec_key_is_key(a@, orders@[i as int].field_int@);
            }
            if kb.is_some() {
                lemma_rec_key_is_key(b@, orders@[i as int].field_int@);
            }
        }
        let c0 = key_cmp3_exec(&ka, &kb);
        let c: i8 = match orders[i].order {
            Order::Desc => -c0,
            Order::Asc => c0,
        };
        if c != 0 {
            return c;
        }
        i = i + 1;
    }
    proof {
        assert(ov(orders@).skip(orders@.len() as int) =~= Seq::<(Seq<char>, Order)>::empty());
    }
    0
}

/// A key a record is indexed under is a number or string.
proof fn lemma_rec_key_is_key(rec: Vs, f: Seq<char>)
    requires
        pairs_wf(index_pairs(rec)),
        rec_key(rec, f).is_some(),
    ensures
        is_key(rec_key(rec, f).unwrap()),
{
    lemma_pair_lookup_some_member(index_pairs(rec), f);
}

/// A successful lookup names a member of the list.
proof fn lemma_pair_lookup_some_member(ps: Seq<(Seq<char>, Vs)>, f: Seq<char>)
    requires
        pair_lookup(ps, f).is_some(),
        forall|i: int| 0 <= i < ps.len() ==> is_key((#[trigger] ps[i]).1),
    ensures
        is_key(pair_lookup(ps, f).unwrap()),
    decreases ps.len(),
{
    if ps.len() > 0 && ps[0].0 != f {
        assert forall|i: int| 0 <= i < ps.drop_first().len() implies is_key(
            (#[trigger] ps.drop_first()[i]).1,
        ) by {
            assert(ps[i + 1].1 == ps.drop_first()[i].1);
        }
        lemma_pair_lookup_some_member(ps.drop_first(), f);
    }
}

/// Two comparators with the same meaning.
pub open spec fn cmp_eqv(a: Comparision, b: Comparision) -> bool {
    a.field_int@ == b.field_int@ && a.cmp == b.cmp && a.other@ == b.other@
}

/// Every comparator of every sub restates one of the query's conditions
/// on the sub's own field, no sub is empty, and a constrained query has
/// at least one sub.
pub open spec fn subs_cover_weak(subs: Seq<Sub>, conds: Seq<Comparision>) -> bool {
    &&& (forall|s: int, j: int|
        0 <= s < subs.len() && 0 <= j < subs[s].comparisions@.len() ==> (#[trigger] subs[s].comparisions@[j]).field_int@
            == subs[s].field_int@ && exists|i: int|
            0 <= i < conds.len() && cmp_eqv(#[trigger] conds[i], subs[s].comparisions@[j]))
    &&& (forall|s: int| 0 <= s < subs.len() ==> (#[trigger] subs[s]).comparisions@.len() > 0)
}

pub open spec fn subs_cover(subs: Seq<Sub>, conds: Seq<Comparision>) -> bool {
    &&& subs_cover_weak(subs, conds)
    &&& (conds.len() > 0 ==> subs.len() > 0)
    &&& (forall|s1: int, s2: int|
        0 <= s1 < s2 < subs.len() ==> (#[trigger] subs[s1]).field_int@
            != (#[trigger] subs[s2]).field_int@)
    &&& (forall|i: int|
        0 <= i < conds.len() ==> exists|s: int, j: int|
            #![auto]
            0 <= s < subs.len() && 0 <= j < subs[s].comparisions@.len() && subs[s].field_int@
                == (#[trigger] conds[i]).field_int@ && cmp_eqv(conds[i], subs[s].comparisions@[j]))
}

/// A record that satisfies every condition satisfies every sub's chain
/// at its own indexed key.
proof fn lemma_cover_matches(rec: Vs, subs: Seq<Sub>, conds: Seq<Comparision>, s: int)
    requires
        subs_cover(subs, conds),
        cond_matches(rec, conds),
        0 <= s < subs.len(),
    ensures
        rec_key(rec, subs[s].field_int@).is_some(),
        chain_meets(subs[s].comparisions@, rec_key(rec, subs[s].field_int@).unwrap()),
{
    let chain = subs[s].comparisions@;
    let i0 = choose|i: int| 0 <= i < conds.len() && cmp_eqv(#[trigger] conds[i], chain[0]);
    assert(cond_matched(rec, conds[i0]));
    assert(rec_key(rec, subs[s].field_int@).is_some());
    let k = rec_key(rec, subs[s].field_int@).unwrap();
    assert forall|j: int| 0 <= j < chain.len() implies meets(
        k,
        chain[j].cmp,
        #[trigger] chain[j].other@,
    ) by {
        let ij = choose|i: int| 0 <= i < conds.len() && cmp_eqv(#[trigger] conds[i], chain[j]);
        assert(cond_matched(rec, conds[ij]));
    }
}

/// A copy of one comparator.
fn clone_cmp(c: &Comparision) -> (r: Comparision)
    ensures
        cmp_eqv(*c, r),
{
    Comparision { field_int: clone_chars(&c.field_int), cmp: c.cmp, other: c.other.duplicate() }
}

impl Task {
    /// Parses a query into one sub per constrained field, with the
    /// duplicate-free ordering clauses, offset and limit.
    pub fn new(
        conds: &Vec<Comparision>,
        orders: &Vec<OrderBy>,
        offset: usize,
        limit: Option<usize>,
        query_type: QueryType,
    ) -> (t: Task)
        ensures
            subs_cover(t.subs@, conds@),
            ov(t.orders@) == dedup_orders(ov(orders@)),
            t.offset == offset,
            t.limit == limit,
            t.query_type == query_type,
    {
        let t_orders = Self::create_orders(orders);
        let subs = Self::create_subs(conds, &t_orders);
        Task { subs, orders: t_orders, offset, limit, query_type }
    }

    /// Keeps the first ordering clause of each field.
    fn create_orders(orders: &Vec<OrderBy>) -> (r: Vec<OrderBy>)
        ensures
            ov(r@) == dedup_orders(ov(orders@)),
    {
        let mut out: Vec<OrderBy> = Vec::new();
        let mut i: usize = 0;
        proof {
            assert(ov(orders@).take(0) =~= Seq::<(Seq<char>, Order)>::empty());
            assert(ov(out@) =~= dedup_orders(ov(orders@).take(0)));
        }
        while i < orders.len()
            invariant
                0 <= i <= orders@.len(),
                ov(out@) == dedup_orders(ov(orders@).take(i as int)),
            decreases orders@.len() - i,
        {
            proof {
                assert(ov(orders@).take(i + 1).drop_last() =~= ov(orders@).take(i as int));
                assert(ov(orders@).take(i + 1).last() == ov(orders@)[i as int]);
            }
            let mut j: usize = 0;
            let mut seen = false;
            while j < i && !seen
                invariant
                    0 <= j <= i < orders@.len(),
                    seen ==> j < i && orders@[j as int].field_int@ == orders@[i as int].field_int@,
                    !seen ==> forall|m: int|
                        0 <= m < j ==> (#[trigger] orders@[m]).field_int@
                            != orders@[i as int].field_int@,
                decreases i - j, (if seen { 0int } else { 1int }),
            {
                if lex_compare(&orders[j].field_int, &orders[i].field_int) == 0 {
                    seen = true;
                } else {
                    j = j + 1;
                }
            }
            let ghost ovs = ov(orders@);
            proof {
                if seen {
                    assert(ovs.take(i + 1)[j as int].0 == ovs.take(i + 1).last().0);
                    assert(exists|m: int|
                        0 <= m < ovs.take(i + 1).len() - 1 && (#[trigger] ovs.take(i + 1)[m]).0
                            == ovs.take(i + 1).last().0);
                    assert(dedup_orders(ovs.take(i + 1)) =~= dedup_orders(ovs.take(i as int)));
                } else {
                    assert forall|m: int|
                        0 <= m < i implies (#[trigger] ovs.take(i + 1)[m]).0 != ovs.take(
                        i + 1,
                    ).last().0 by {
                        assert(orders@[m].field_int@ != orders@[i as int].field_int@);
                    }
                    assert(dedup_orders(ovs.take(i + 1)) =~= dedup_orders(ovs.take(i as int))
                        + seq![ovs[i as int]]);
                }
            }
            if !seen {
                let ghost out0 = out@;
                out.push(
                    OrderBy {
                        field_int: clone_chars(&orders[i].field_int),
                        order: orders[i].order,
                    },
                );
                proof {
                    assert(ov(out@) =~= ov(out0) + seq![ovs[i as int]]);
                    assert(ov(out@) =~= dedup_orders(ovs.take(i + 1)));
                }
            }
            i = i + 1;
        }
        proof {
            assert(ov(orders@).take(orders@.len() as int) =~= ov(orders@));
        }
        out
    }

    /// Groups the conditions of a query by their field.
    fn create_subs(conds: &Vec<Comparision>, orders: &Vec<OrderBy>) -> (subs: Vec<Sub>)
        ensures
            subs_cover(subs@, conds@),
    {
        let mut subs: Vec<Sub> = Vec::new();
        let mut i: usize = 0;
        while i < conds.len()
            invariant
                0 <= i <= conds@.len(),
                subs_cover_weak(subs@, conds@),
                i > 0 ==> subs@.len() > 0,
                forall|s1: int, s2: int|
                    0 <= s1 < s2 < subs@.len() ==> (#[trigger] subs@[s1]).field_int@
                        != (#[trigger] subs@[s2]).field_int@,
                forall|m: int|
                    0 <= m < i ==> exists|s: int, j: int|
                        #![auto]
                        0 <= s < subs@.len() && 0 <= j < subs@[s].comparisions@.len()
                            && subs@[s].field_int@ == (#[trigger] conds@[m]).field_int@ && cmp_eqv(
                            conds@[m],
                            subs@[s].comparisions@[j],
                        ),
            decreases conds@.len() - i,
        {
            let mut s: usize = 0;
            let mut found = false;
            while s < subs.len() && !found
                invariant
                    0 <= s <= subs@.len(),
                    i < conds@.len(),
                    found ==> s < subs@.len() && subs@[s as int].field_int@
                        == conds@[i as int].field_int@,
                    !found ==> forall|j: int|
                        0 <= j < s ==> (#[trigger] subs@[j]).field_int@
                            != conds@[i as int].field_int@,
                decreases subs@.len() - s, (if found { 0int } else { 1int }),
            {
                if lex_compare(&subs[s].field_int, &conds[i].field_int) == 0 {
                    found = true;
                } else {
                    s = s + 1;
                }
            }
            if found {
                let ghost subs0 = subs@;
                let mut sb = subs.swap_remove(s);
                sb.comparisions.push(clone_cmp(&conds[i]));
                subs.push(sb);
                proof {
                    let ghost smap = |s2: int|
                        if s2 == subs@.len() - 1 {
                            s as int
                        } else if s2 == s as int {
                            subs0.len() - 1
                        } else {
                            s2
                        };
                    assert forall|s1: int, s2: int|
                        0 <= s1 < s2 < subs@.len() implies (#[trigger] subs@[s1]).field_int@
                        != (#[trigger] subs@[s2]).field_int@ by {
                        let a1 = smap(s1);
                        let a2 = smap(s2);
                        assert(subs@[s1].field_int@ == subs0[a1].field_int@);
                        assert(subs@[s2].field_int@ == subs0[a2].field_int@);
                        if a1 < a2 {
                            assert(subs0[a1].field_int@ != subs0[a2].field_int@);
                        } else if a2 < a1 {
                            assert(subs0[a2].field_int@ != subs0[a1].field_int@);
                        }
                    }
                    assert forall|m: int| 0 <= m < i + 1 implies exists|s2: int, j: int|
                        #![auto]
                        0 <= s2 < subs@.len() && 0 <= j < subs@[s2].comparisions@.len()
                            && subs@[s2].field_int@ == (#[trigger] conds@[m]).field_int@
                            && cmp_eqv(conds@[m], subs@[s2].comparisions@[j]) by {
                        if m < i as int {
                            let (s0, j0) = choose|s0: int, j0: int|
                                #![auto]
                                0 <= s0 < subs0.len() && 0 <= j0 < subs0[s0].comparisions@.len()
                                    && subs0[s0].field_int@ == conds@[m].field_int@ && cmp_eqv(
                                    conds@[m],
                                    subs0[s0].comparisions@[j0],
                                );
                            if s0 == s as int {
                                assert(subs@[subs@.len() - 1].field_int@
                                    == subs0[s0].field_int@);
                                assert(subs@[subs@.len() - 1].comparisions@[j0]
                                    == subs0[s0].comparisions@[j0]);
                            } else if s0 == subs0.len() - 1 {
                                assert(subs@[s as int] == subs0[s0]);
                            } else {
                                assert(subs@[s0] == subs0[s0]);
                            }
                        } else {
                            assert(cmp_eqv(
                                conds@[i as int],
                                subs@[subs@.len() - 1].comparisions@.last(),
                            ));
                        }
                    }
                    assert forall|s2: int, j: int|
                        0 <= s2 < subs@.len() && 0 <= j
                            < subs@[s2].comparisions@.len() implies (#[trigger] subs@[s2].comparisions@[j]).field_int@
                        == subs@[s2].field_int@ && exists|ci: int|
                        0 <= ci < conds@.len() && cmp_eqv(
                            #[trigger] conds@[ci],
                            subs@[s2].comparisions@[j],
                        ) by {
                        let old_s2 = if s2 == subs@.len() - 1 {
                            s as int
                        } else if s2 == s as int {
                            subs0.len() - 1
                        } else {
                            s2
                        };
                        if s2 == subs@.len() - 1 && j == subs@[s2].comparisions@.len() - 1 {
                            assert(cmp_eqv(conds@[i as int], subs@[s2].comparisions@[j]));
                        } else {
                            assert(subs0[old_s2].comparisions@[j] == subs@[s2].comparisions@[j]);
                            assert(subs0[old_s2].field_int@ == subs@[s2].field_int@);
                        }
                    }
                }
            } else {
                let mut chain: Vec<Comparision> = Vec::new();
                chain.push(clone_cmp(&conds[i]));
                let mut order: Option<Order> = None;
                if orders.len() > 0 {
                    if lex_compare(&orders[0].field_int, &conds[i].field_int) == 0 {
                        order = Some(orders[0].order);
                    }
                }
                let sb = Sub {
                    field_int: clone_chars(&conds[i].field_int),
                    comparisions: chain,
                    order,
                    stopped: false,
                };
                let ghost subs_before = subs@;
                subs.push(sb);
                proof {
                    let ghost subs1 = subs@;
                    assert forall|s2: int, j: int|
                        0 <= s2 < subs1.len() && 0 <= j
                            < subs1[s2].comparisions@.len() implies (#[trigger] subs1[s2].comparisions@[j]).field_int@
                        == subs1[s2].field_int@ && exists|ci: int|
                        0 <= ci < conds@.len() && cmp_eqv(
                            #[trigger] conds@[ci],
                            subs1[s2].comparisions@[j],
                        ) by {
                        if s2 == subs1.len() - 1 {
                            assert(subs1[s2].comparisions@[j] == subs1[s2].comparisions@[0]);
                            assert(cmp_eqv(conds@[i as int], subs1[s2].comparisions@[j]));
                        }
                    }
                    assert forall|s1: int, s2: int|
                        0 <= s1 < s2 < subs1.len() implies (#[trigger] subs1[s1]).field_int@
                        != (#[trigger] subs1[s2]).field_int@ by {
                        if s2 == subs1.len() - 1 {
                            assert(subs1[s1] == subs@[s1]);
                        }
                    }
                    assert forall|m: int| 0 <= m < i + 1 implies exists|s2: int, j: int|
                        #![auto]
                        0 <= s2 < subs1.len() && 0 <= j < subs1[s2].comparisions@.len()
                            && subs1[s2].field_int@ == (#[trigger] conds@[m]).field_int@
                            && cmp_eqv(conds@[m], subs1[s2].comparisions@[j]) by {
                        if m < i as int {
                            let (s0, j0) = choose|s0: int, j0: int|
                                #![auto]
                                0 <= s0 < subs_before.len() && 0 <= j0
                                    < subs_before[s0].comparisions@.len()
                                    && subs_before[s0].field_int@ == conds@[m].field_int@
                                    && cmp_eqv(conds@[m], subs_before[s0].comparisions@[j0]);
                            assert(subs1[s0] == subs_before[s0]);
                        } else {
                            assert(subs1[subs1.len() - 1].field_int@ == conds@[i as int].field_int@);
                            assert(cmp_eqv(conds@[i as int], subs1[subs1.len() - 1].comparisions@[0]));
                        }
                    }
                }
            }
            i = i + 1;
        }
        subs
    }
}

/// The first ordering clause of each field, in first-appearance order.
pub open spec fn dedup_orders(orders: Seq<(Seq<char>, Order)>) -> Seq<(Seq<char>, Order)>
    decreases orders.len(),
{
    if orders.len() == 0 {
        Seq::empty()
    } else {
        dedup_orders(orders.drop_last()) + (if exists|j: int|
            0 <= j < orders.len() - 1 && (#[trigger] orders[j]).0 == orders.last().0 {
            Seq::empty()
        } else {
            seq![orders.last()]
        })
    }
}

impl Task {
    /// Whether an ordering clause is present.
    pub fn has_order(&self) -> (r: bool)
        ensures
            r == (self.orders@.len() > 0),
    {
        self.orders.len() > 0
    }

    /// The dominating order field.
    pub fn get_order_field(&self) -> (r: &Vec<char>)
        requires
            self.orders@.len() > 0,
        ensures
            r@ == self.orders@[0].field_int@,
    {
        &self.orders[0].field_int
    }
}


/// Three-way comparison of two stored candidates under the ordering
/// clauses; an id no longer stored compares as an empty record.
fn cmp_ids(tree: &Tree, a: &Id, b: &Id, orders: &Vec<OrderBy>) -> (r: i8)
    ensures
        r as int == ord_cmp(
            rec_of(tree.items(), a@),
            rec_of(tree.items(), b@),
            ov(orders@),
        ),
{
    tree.index_facts();
    let na = tree.find_item(a);
    let null_a = Value::Null;
    let va: &Value = match &na {
        Some(it) => &it.value,
        None => &null_a,
    };
    proof {
        lemma_rec_of_agrees(tree, a@, va@);
        if va@ is Null {
            assert(index_pairs(va@) =~= Seq::<(Seq<char>, Vs)>::empty());
        }
    }
    let nb = tree.find_item(b);
    let null_b = Value::Null;
    let vb: &Value = match &nb {
        Some(it) => &it.value,
        None => &null_b,
    };
    proof {
        lemma_rec_of_agrees(tree, b@, vb@);
        if vb@ is Null {
            assert(index_pairs(vb@) =~= Seq::<(Seq<char>, Vs)>::empty());
        }
    }
    ord_cmp_exec(va, vb, orders)
}

/// What `find_item` hands out is what `rec_of` names.
pub proof fn lemma_rec_of_agrees(tree: &Tree, idv: Seq<char>, got: Vs)
    requires
        tree.contains_id(idv) ==> got == tree.items()[tree.items_idx(idv)].1,
        !tree.contains_id(idv) ==> got == Vs::Null,
        forall|i: int, j: int|
            0 <= i < j < tree.items().len() ==> (#[trigger] tree.items()[i]).0
                != (#[trigger] tree.items()[j]).0,
    ensures
        got == rec_of(tree.items(), idv),
{
    let items = tree.items();
    if tree.contains_id(idv) {
        let w1 = tree.items_idx(idv);
        let w2 = choose|i: int| 0 <= i < items.len() && (#[trigger] items[i]).0 == idv;
        assert(0 <= w1 < items.len() && items[w1].0 == idv);
        assert(0 <= w2 < items.len() && items[w2].0 == idv);
        if w1 != w2 {
            if w1 < w2 {
                assert(items[w1].0 != items[w2].0);
            } else {
                assert(items[w2].0 != items[w1].0);
            }
        }
    } else {
        if exists|i: int| 0 <= i < items.len() && (#[trigger] items[i]).0 == idv {
            let w = choose|i: int| 0 <= i < items.len() && (#[trigger] items[i]).0 == idv;
            assert(tree.contains_id(idv));
        }
    }
}

/// Inserting into a sorted list at the first position whose candidate
/// strictly follows the new id is the stable sorted insertion.
proof fn lemma_sorted_insert_at(
    s: Seq<Seq<char>>,
    idv: Seq<char>,
    items: Seq<(Seq<char>, Vs)>,
    orders: Seq<(Seq<char>, Order)>,
    p: int,
)
    requires
        0 <= p <= s.len(),
        forall|j: int|
            0 <= j < p ==> ord_cmp(rec_of(items, #[trigger] s[j]), rec_of(items, idv), orders)
                <= 0,
        p < s.len() ==> ord_cmp(rec_of(items, s[p]), rec_of(items, idv), orders) > 0,
    ensures
        sorted_insert(s, idv, items, orders) =~= s.take(p) + seq![idv] + s.skip(p),
    decreases p,
{
    if s.len() == 0 {
        assert(sorted_insert(s, idv, items, orders) =~= seq![idv]);
    } else if p == 0 {
        assert(sorted_insert(s, idv, items, orders) == seq![idv] + s);
        assert(s.take(0) =~= Seq::<Seq<char>>::empty());
        assert(s.skip(0) =~= s);
    } else {
        assert(ord_cmp(rec_of(items, s[0]), rec_of(items, idv), orders) <= 0);
        assert forall|j: int|
            0 <= j < p - 1 implies ord_cmp(
            rec_of(items, #[trigger] s.drop_first()[j]),
            rec_of(items, idv),
            orders,
        ) <= 0 by {
            assert(s[j + 1] == s.drop_first()[j]);
            assert(ord_cmp(rec_of(items, s[j + 1]), rec_of(items, idv), orders) <= 0);
        }
        if p - 1 < s.drop_first().len() {
            assert(s.drop_first()[p - 1] == s[p]);
        }
        lemma_sorted_insert_at(s.drop_first(), idv, items, orders, p - 1);
        assert(sorted_insert(s, idv, items, orders) == seq![s[0]] + sorted_insert(
            s.drop_first(),
            idv,
            items,
            orders,
        ));
        assert(s.drop_first().take(p - 1) =~= s.take(p).drop_first());
        assert(s.drop_first().skip(p - 1) =~= s.skip(p));
        assert(seq![s[0]] + (s.take(p).drop_first() + seq![idv] + s.skip(p)) =~= s.take(p)
            + seq![idv] + s.skip(p));
    }
}

/// Stable sorted insertion of one candidate.
fn insert_sorted(tree: &Tree, out: &mut Vec<Id>, id: Id, orders: &Vec<OrderBy>)
    ensures
        group_view(final(out)@) =~= sorted_insert(
            group_view(old(out)@),
            id@,
            tree.items(),
            ov(orders@),
        ),
{
    let ghost s0 = group_view(out@);
    let ghost idv = id@;
    let mut p: usize = 0;
    let mut placed = false;
    while p < out.len() && !placed
        invariant
            0 <= p <= out@.len(),
            out@ == old(out)@,
            s0 == group_view(out@),
            id@ == idv,
            forall|j: int|
                0 <= j < p ==> ord_cmp(
                    rec_of(tree.items(), #[trigger] s0[j]),
                    rec_of(tree.items(), idv),
                    ov(orders@),
                ) <= 0,
            placed ==> p < out@.len() && ord_cmp(
                rec_of(tree.items(), s0[p as int]),
                rec_of(tree.items(), idv),
                ov(orders@),
            ) > 0,
        decreases out@.len() - p, (if placed { 0int } else { 1int }),
    {
        if cmp_ids(tree, &out[p], &id, orders) <= 0 {
            proof {
                assert(s0[p as int] == out@[p as int]@);
            }
            p = p + 1;
        } else {
            placed = true;
        }
    }
    proof {
        lemma_sorted_insert_at(s0, idv, tree.items(), ov(orders@), p as int);
    }
    out.insert(p, id);
    proof {
        assert(group_view(out@) =~= s0.take(p as int) + seq![idv] + s0.skip(p as int));
    }
}

/// Sorts the candidates stably by the ordering clauses.
pub fn sort_candidates(tree: &Tree, cand: Vec<Id>, orders: &Vec<OrderBy>) -> (r: Vec<Id>)
    ensures
        group_view(r@) =~= sort_ids(group_view(cand@), tree.items(), ov(orders@)),
{
    let mut out: Vec<Id> = Vec::new();
    let mut i: usize = 0;
    proof {
        assert(group_view(cand@).take(0) =~= Seq::<Seq<char>>::empty());
        assert(group_view(out@) =~= sort_ids(group_view(cand@).take(0), tree.items(), ov(orders@)));
    }
    while i < cand.len()
        invariant
            0 <= i <= cand@.len(),
            group_view(out@) =~= sort_ids(
                group_view(cand@).take(i as int),
                tree.items(),
                ov(orders@),
            ),
        decreases cand@.len() - i,
    {
        let ghost gv0 = group_view(out@);
        proof {
            assert(group_view(cand@).take(i + 1).drop_last() =~= group_view(cand@).take(i as int));
            assert(group_view(cand@).take(i + 1).last() == cand@[i as int]@);
        }
        insert_sorted(tree, &mut out, clone_chars(&cand[i]), orders);
        i = i + 1;
    }
    proof {
        assert(group_view(cand@).take(cand@.len() as int) =~= group_view(cand@));
    }
    out
}

/// Whether a candidate list holds an id.
fn contains_id_vec(v: &Vec<Id>, id: &Id) -> (r: bool)
    ensures
        r == group_view(v@).contains(id@),
{
    let mut i: usize = 0;
    while i < v.len()
        invariant
            0 <= i <= v@.len(),
            forall|j: int| 0 <= j < i ==> group_view(v@)[j] != id@,
        decreases v@.len() - i,
    {
        if lex_compare(&v[i], id) == 0 {
            proof {
                assert(group_view(v@)[i as int] == id@);
            }
            return true;
        }
        i = i + 1;
    }
    proof {
        if group_view(v@).contains(id@) {
            let j = choose|j: int| 0 <= j < group_view(v@).len() && group_view(v@)[j] == id@;
        }
    }
    false
}


/// The final result ids of a query over the stored items: the matching
/// ids in storage order, sorted when an ordering is present, then cut to
/// the offset and limit.
pub open spec fn sliced_ids(
    items: Seq<(Seq<char>, Vs)>,
    conds: Seq<Comparision>,
    orders: Seq<(Seq<char>, Order)>,
    offset: int,
    limit: Option<usize>,
) -> Seq<Seq<char>> {
    let cand = matched_seq(items, conds);
    let ordered = if orders.len() == 0 {
        cand
    } else {
        sort_ids(cand, items, orders)
    };
    let off = if offset > ordered.len() {
        ordered.len() as int
    } else {
        offset
    };
    let rest = ordered.skip(off);
    match limit {
        Option::Some(l) => if (l as int) < rest.len() {
            rest.take(l as int)
        } else {
            rest
        },
        Option::None => rest,
    }
}

/// The concurrent query executor, run as one schedule: each constrained
/// field's tree is searched for its candidates, the field that ran out
/// of candidates first supplies the base set, every condition is applied
/// point-wise, and the result is ordered and paginated.
pub struct Exectuor {}

impl Exectuor {
    /// The cut result ids of a parsed query, in result order.
    pub fn exec_ids(tree: &Tree, task: &Task, conds: &Vec<Comparision>) -> (r: Vec<Id>)
        requires
            subs_cover(task.subs@, conds@),
        ensures
            group_view(r@) == sliced_ids(
                tree.items(),
                conds@,
                ov(task.orders@),
                task.offset as int,
                task.limit,
            ),
    {
        Self::gather(tree, task, conds)
    }

    /// Runs a parsed query against the store's index.  Returns how many
    /// records the cut result holds and, for a find, their records.
    pub fn exec(tree: &Tree, task: &Task, conds: &Vec<Comparision>) -> (r: (usize, Vec<Value>))
        requires
            subs_cover(task.subs@, conds@),
        ensures
            ({
                let s = sliced_ids(
                    tree.items(),
                    conds@,
                    ov(task.orders@),
                    task.offset as int,
                    task.limit,
                );
                &&& r.0 == s.len()
                &&& (task.query_type is Find ==> r.1@.len() == s.len() && (forall|j: int|
                    0 <= j < s.len() ==> r.1@[j]@ == rec_of(tree.items(), #[trigger] s[j])))
                &&& (task.query_type is Count ==> r.1@.len() == 0)
            }),
    {
        tree.index_facts();
        let ghost items = tree.items();
        let ghost s = sliced_ids(items, conds@, ov(task.orders@), task.offset as int, task.limit);
        let ids = Self::gather(tree, task, conds);
        let count = ids.len();
        let mut values: Vec<Value> = Vec::new();
        match task.query_type {
            QueryType::Count => {
            },
            QueryType::Find => {
                let mut j: usize = 0;
                while j < ids.len()
                    invariant
                        items == tree.items(),
                        0 <= j <= ids@.len(),
                        s == group_view(ids@),
                        values@.len() == j,
                        forall|m: int|
                            0 <= m < values@.len() ==> values@[m]@ == rec_of(
                                items,
                                #[trigger] s[m],
                            ),
                        forall|i: int, jj: int|
                            0 <= i < jj < tree.items().len() ==> (#[trigger] tree.items()[i]).0
                                != (#[trigger] tree.items()[jj]).0,
                    decreases ids@.len() - j,
                {
                    let na = tree.find_item(&ids[j]);
                    let got: Value = match na {
                        Some(itm) => itm.value.duplicate(),
                        None => Value::Null,
                    };
                    proof {
                        lemma_rec_of_agrees(tree, ids@[j as int]@, got@);
                        assert(s[j as int] == group_view(ids@)[j as int]);
                    }
                    values.push(got);
                    j = j + 1;
                }
            },
        }
        (count, values)
    }

    /// Computes the cut result ids of a parsed query.
    fn gather(tree: &Tree, task: &Task, conds: &Vec<Comparision>) -> (r: Vec<Id>)
        requires
            subs_cover(task.subs@, conds@),
        ensures
            group_view(r@) == sliced_ids(
                tree.items(),
                conds@,
                ov(task.orders@),
                task.offset as int,
                task.limit,
            ),
    {
        tree.index_facts();
        let ghost items = tree.items();
        let mut base: Vec<Id> = Vec::new();
        let mut have_base = false;
        let ghost mut base_field: Seq<char> = Seq::empty();
        let ghost mut base_chain: Seq<Comparision> = Seq::empty();
        let ghost mut base_sub: int = 0;
        if task.subs.len() > 0 {
            let mut outs: Vec<Vec<Id>> = Vec::new();
            let mut stops: Vec<bool> = Vec::new();
            let mut si: usize = 0;
            while si < task.subs.len()
                invariant
                    subs_cover(task.subs@, conds@),
                    0 <= si <= task.subs@.len(),
                    outs@.len() == si,
                    stops@.len() == si,
                    forall|m: int, idv: Seq<char>|
                        #![trigger group_view(outs@[m]@).contains(idv)]
                        0 <= m < si ==> (group_view(outs@[m]@).contains(idv) <==> matching_ids(
                            tree.field_map(task.subs@[m].field_int@),
                            task.subs@[m].comparisions@,
                        ).contains(idv)),
                decreases task.subs@.len() - si,
            {
                let mut o: Vec<Id> = Vec::new();
                proof {
                    assert(task.subs@[si as int].comparisions@.len() > 0);
                }
                let st = tree.search_field(
                    &task.subs[si].field_int,
                    &task.subs[si].comparisions,
                    &task.subs[si].comparisions[0].other,
                    &mut o,
                );
                proof {
                    assert(group_view(o@).skip(0) =~= group_view(o@));
                }
                outs.push(o);
                stops.push(st);
                si = si + 1;
            }
            let mut pick: usize = 0;
            if task.orders.len() > 0 {
                let mut m: usize = 0;
                let mut found = false;
                while m < task.subs.len() && !found
                    invariant
                        0 <= m <= task.subs@.len(),
                        stops@.len() == task.subs@.len(),
                        found ==> m < task.subs@.len(),
                        task.orders@.len() > 0,
                    decreases task.subs@.len() - m, (if found { 0int } else { 1int }),
                {
                    if stops[m] {
                        if lex_compare(&task.subs[m].field_int, &task.orders[0].field_int) == 0 {
                            found = true;
                        } else {
                            m = m + 1;
                        }
                    } else {
                        m = m + 1;
                    }
                }
                if found {
                    pick = m;
                }
            }
            if pick == 0 {
                let mut m: usize = 0;
                let mut found = false;
                while m < task.subs.len() && !found
                    invariant
                        0 <= m <= task.subs@.len(),
                        stops@.len() == task.subs@.len(),
                        found ==> m < task.subs@.len(),
                    decreases task.subs@.len() - m, (if found { 0int } else { 1int }),
                {
                    if stops[m] {
                        found = true;
                    } else {
                        m = m + 1;
                    }
                }
                if found {
                    pick = m;
                }
            }
            proof {
                base_sub = pick as int;
                base_field = task.subs@[pick as int].field_int@;
                base_chain = task.subs@[pick as int].comparisions@;
            }
            base = outs.swap_remove(pick);
            have_base = true;
        }
        let mut matched: Vec<Id> = Vec::new();
        let n = tree.len();
        let mut idx: usize = 0;
        proof {
            assert(items.take(0) =~= Seq::<(Seq<char>, Vs)>::empty());
            assert(group_view(matched@) =~= matched_seq(items.take(0), conds@));
        }
        while idx < n
            invariant
                subs_cover(task.subs@, conds@),
                items == tree.items(),
                n == items.len(),
                0 <= idx <= n,
                group_view(matched@) =~= matched_seq(items.take(idx as int), conds@),
                have_base == (task.subs@.len() > 0),
                have_base ==> 0 <= base_sub < task.subs@.len() && base_field
                    == task.subs@[base_sub].field_int@ && base_chain
                    == task.subs@[base_sub].comparisions@,
                have_base ==> (forall|idv: Seq<char>|
                    #![trigger group_view(base@).contains(idv)]
                    group_view(base@).contains(idv) <==> matching_ids(
                        tree.field_map(base_field),
                        base_chain,
                    ).contains(idv)),
                forall|i: int, f: Seq<char>|
                    #![trigger rec_key(tree.items()[i].1, f)]
                    (0 <= i < tree.items().len() && rec_key(tree.items()[i].1, f).is_some())
                        ==> tree.field_map(f).dom().contains(
                        rec_key(tree.items()[i].1, f).unwrap(),
                    ) && tree.field_map(f)[rec_key(tree.items()[i].1, f).unwrap()].contains(
                        tree.items()[i].0,
                    ),
                forall|i: int|
                    0 <= i < tree.items().len() ==> pairs_wf(
                        index_pairs((#[trigger] tree.items()[i]).1),
                    ),
            decreases n - idx,
        {
            let it = tree.item_at(idx);
            proof {
                assert(items.take(idx + 1).drop_last() =~= items.take(idx as int));
                assert(items.take(idx + 1).last() == items[idx as int]);
            }
            let cm = conds_match_exec(&it.value, conds);
            let keep = if have_base {
                if cm {
                    proof {
                        lemma_cover_matches(it.value@, task.subs@, conds@, base_sub);
                        let k = rec_key(it.value@, base_field).unwrap();
                        assert(tree.field_map(base_field)[k].contains(items[idx as int].0));
                        assert(matching_ids(tree.field_map(base_field), base_chain).contains(
                            items[idx as int].0,
                        )) by {
                            assert(chain_meets(base_chain, k));
                            assert(tree.field_map(base_field).dom().contains(k)
                                && tree.field_map(base_field)[k].contains(items[idx as int].0));
                        }
                    }
                    let inb = contains_id_vec(&base, &it.id);
                    proof {
                        assert(inb);
                    }
                    inb
                } else {
                    false
                }
            } else {
                cm
            };
            if keep {
                let ghost gm0 = group_view(matched@);
                matched.push(clone_chars(&it.id));
                proof {
                    assert(group_view(matched@) =~= gm0.push(items[idx as int].0));
                    assert(matched_seq(items.take(idx + 1), conds@) =~= matched_seq(
                        items.take(idx as int),
                        conds@,
                    ) + seq![items[idx as int].0]);
                }
            } else {
                proof {
                    assert(matched_seq(items.take(idx + 1), conds@) =~= matched_seq(
                        items.take(idx as int),
                        conds@,
                    ));
                }
            }
            idx = idx + 1;
        }
        proof {
            assert(items.take(items.len() as int) =~= items);
        }
        let ordered: Vec<Id>;
        if task.orders.len() > 0 {
            ordered = sort_candidates(tree, matched, &task.orders);
        } else {
            ordered = matched;
        }
        let ghost ordseq = if ov(task.orders@).len() == 0 {
            matched_seq(items, conds@)
        } else {
            sort_ids(matched_seq(items, conds@), items, ov(task.orders@))
        };
        proof {
            assert(group_view(ordered@) =~= ordseq);
        }
        let total = ordered.len();
        let off = if task.offset < total {
            task.offset
        } else {
            total
        };
        let end: usize = match task.limit {
            Some(l) => if l < total - off {
                off + l
            } else {
                total
            },
            None => total,
        };
        let ghost s = sliced_ids(items, conds@, ov(task.orders@), task.offset as int, task.limit);
        proof {
            assert(s =~= group_view(ordered@).subrange(off as int, end as int));
        }
        let mut out: Vec<Id> = Vec::new();
        let mut j: usize = off;
        while j < end
            invariant
                off <= j <= end <= ordered@.len(),
                s == group_view(ordered@).subrange(off as int, end as int),
                out@.len() == j - off,
                forall|m: int| 0 <= m < out@.len() ==> (#[trigger] out@[m]@) == s[m],
            decreases end - j,
        {
            out.push(clone_chars(&ordered[j]));
            proof {
                assert(s[j - off] == group_view(ordered@)[j as int]);
            }
            j = j + 1;
        }
        proof {
            assert(group_view(out@) =~= s);
        }
        out
    }
}


/// Range and equality queries are exact: the result candidates of a
/// condition set are precisely the stored records satisfying every
/// condition — independent of insertion order, each id once, in storage
/// order.
pub proof fn lemma_matched_seq_exact(items: Seq<(Seq<char>, Vs)>, conds: Seq<Comparision>)
    requires
        forall|i: int, j: int|
            0 <= i < j < items.len() ==> (#[trigger] items[i]).0 != (#[trigger] items[j]).0,
    ensures
        forall|idv: Seq<char>|
            #[trigger] matched_seq(items, conds).contains(idv) <==> exists|i: int|
                0 <= i < items.len() && (#[trigger] items[i]).0 == idv && cond_matches(
                    items[i].1,
                    conds,
                ),
        matched_seq(items, conds).no_duplicates(),
    decreases items.len(),
{
    if items.len() == 0 {
        assert forall|idv: Seq<char>| !(#[trigger] matched_seq(items, conds).contains(idv)) by {}
    } else {
        let front = items.drop_last();
        assert forall|i: int, j: int|
            0 <= i < j < front.len() implies (#[trigger] front[i]).0 != (#[trigger] front[j]).0 by {
            assert(items[i].0 != items[j].0);
        }
        lemma_matched_seq_exact(front, conds);
        let ms = matched_seq(items, conds);
        let msf = matched_seq(front, conds);
        assert forall|idv: Seq<char>| #[trigger] ms.contains(idv) implies exists|i: int|
            0 <= i < items.len() && (#[trigger] items[i]).0 == idv && cond_matches(
                items[i].1,
                conds,
            ) by {
            let p = choose|p: int| 0 <= p < ms.len() && ms[p] == idv;
            if p < msf.len() {
                assert(msf.contains(idv));
                let i = choose|i: int|
                    0 <= i < front.len() && (#[trigger] front[i]).0 == idv && cond_matches(
                        front[i].1,
                        conds,
                    );
                assert(items[i].0 == idv && cond_matches(items[i].1, conds));
            } else {
                assert(cond_matches(items.last().1, conds));
                assert(items[items.len() - 1].0 == idv && cond_matches(
                    items[items.len() - 1].1,
                    conds,
                ));
            }
        }
        assert forall|idv: Seq<char>|
            (exists|i: int|
                0 <= i < items.len() && (#[trigger] items[i]).0 == idv && cond_matches(
                    items[i].1,
                    conds,
                )) implies #[trigger] ms.contains(idv) by {
            let i = choose|i: int|
                0 <= i < items.len() && (#[trigger] items[i]).0 == idv && cond_matches(
                    items[i].1,
                    conds,
                );
            if i < items.len() - 1 {
                assert(front[i].0 == idv && cond_matches(front[i].1, conds));
                assert(msf.contains(idv));
                let p = choose|p: int| 0 <= p < msf.len() && msf[p] == idv;
                assert(ms[p] == idv);
            } else {
                assert(ms[ms.len() - 1] == idv);
            }
        }
        assert(ms.no_duplicates()) by {
            assert forall|a: int, b: int|
                0 <= a < ms.len() && 0 <= b < ms.len() && a != b implies ms[a] != ms[b] by {
                if a < msf.len() && b < msf.len() {
                } else {
                    let (x, y) = if a < msf.len() {
                        (a, b)
                    } else {
                        (b, a)
                    };
                    if x < msf.len() && y >= msf.len() {
                        assert(cond_matches(items.last().1, conds));
                        assert(ms[y] == items.last().0);
                        assert(msf.contains(ms[x]));
                        let i = choose|i: int|
                            0 <= i < front.len() && (#[trigger] front[i]).0 == ms[x]
                                && cond_matches(front[i].1, conds);
                        if ms[x] == ms[y] {
                            assert(items[i].0 == items[items.len() - 1].0);
                        }
                    }
                }
            }
        }
    }
}

} // verus!
