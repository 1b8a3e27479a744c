//! One registered type's in-memory state: its schema, its whole-store
//! index, and the write-ahead journal its mutations append to.

use vstd::prelude::*;
use crate::value::Value;
use crate::value::Vs;
use crate::value::Id;
use crate::value::clone_chars;
use crate::value::lex_compare;
use crate::schema::Schema;
use crate::schema::ColumnDef;
use crate::schema::len_marker;
use crate::tree::Tree;
use crate::tree::Comparision;
use crate::tree::store_tree::derive_pairs;
use crate::tree::store_tree::pairs_view;
use crate::tree::store_tree::pairs_wf;
use crate::tree::store_tree::index_pairs;
use crate::tree::searcher::Task;
use crate::tree::searcher::Exectuor;
use crate::tree::searcher::sliced_ids;
use crate::tree::searcher::rec_of;
use crate::tree::searcher::ov;
use crate::tree::searcher::dedup_orders;
use crate::tree::node::group_view;
use crate::query::Query;
use crate::query::QueryType;
use crate::persistence::Line;
use crate::persistence::Action;
use crate::error::Error;

verus! {

/// A condition may name a declared field or its derived length.
pub open spec fn field_known(f: Seq<char>, cols: Seq<ColumnDef>) -> bool {
    exists|j: int|
        0 <= j < cols.len() && ((#[trigger] cols[j]).id@ == f || len_marker(cols[j].id@) == f)
}

/// Every condition of a query names a declared field or a derived length.
pub open spec fn query_fields_known(conds: Seq<Comparision>, cols: Seq<ColumnDef>) -> bool {
    forall|i: int| 0 <= i < conds.len() ==> field_known((#[trigger] conds[i]).field_int@, cols)
}

/// One registered type's in-memory state.
pub struct Memory {
    schema: Schema,
    tree: Tree,
    journal: Vec<Line>,
    persist: bool,
}

impl Memory {
    /// The stored records, in insertion order.
    pub closed spec fn items(&self) -> Seq<(Seq<char>, Vs)> {
        self.tree.items()
    }

    /// How many journal lines the mutations have appended.
    pub closed spec fn journal_len(&self) -> int {
        self.journal@.len() as int
    }

    pub closed spec fn spec_schema(&self) -> Schema {
        self.schema
    }

    pub closed spec fn spec_persist(&self) -> bool {
        self.persist
    }

    /// A fresh store for a registered type.  `persist` says whether
    /// mutations are journalled, decided when the type is first touched.
    pub fn new(schema: Schema, persist: bool) -> (m: Memory)
        ensures
            m.items() =~= Seq::<(Seq<char>, Vs)>::empty(),
            m.journal_len() == 0,
            m.spec_schema() == schema,
            m.spec_persist() == persist,
    {
        Memory { schema, tree: Tree::new(), journal: Vec::new(), persist }
    }

    /// The schema this type was registered with.
    pub fn schema(&self) -> (r: &Schema)
        ensures
            *r == self.spec_schema(),
    {
        &self.schema
    }

    /// Hands the journalled log lines over for writing and forgets them.
    pub fn take_journal(&mut self) -> (r: Vec<Line>)
        ensures
            final(self).journal_len() == 0,
            final(self).items() == old(self).items(),
            final(self).spec_schema() == old(self).spec_schema(),
            final(self).spec_persist() == old(self).spec_persist(),
    {
        let mut out: Vec<Line> = Vec::new();
        core::mem::swap(&mut out, &mut self.journal);
        out
    }

    /// Rejects a query that names a field the schema does not declare,
    /// either literally or as a derived length.
    pub fn check_query_field(&self, query: &Query) -> (r: Result<(), Error>)
        ensures
            r.is_ok() <==> query_fields_known(
                query.conditions@,
                self.spec_schema().spec_columns(),
            ),
            r.is_err() ==> r.get_Err_0() == Error::FieldNotFound,
    {
        let cols = self.schema.columns();
        let mut i: usize = 0;
        while i < query.conditions.len()
            invariant
                cols@ == self.spec_schema().spec_columns(),
                0 <= i <= query.conditions@.len(),
                forall|m: int|
                    0 <= m < i ==> field_known((#[trigger] query.conditions@[m]).field_int@, cols@),
            decreases query.conditions@.len() - i,
        {
            let f = &query.conditions[i].field_int;
            let mut j: usize = 0;
            let mut ok = false;
            while j < cols.len() && !ok
                invariant
                    cols@ == self.spec_schema().spec_columns(),
                    0 <= j <= cols@.len(),
                    i < query.conditions@.len(),
                    *f == query.conditions@[i as int].field_int,
                    ok ==> field_known(query.conditions@[i as int].field_int@, cols@),
                    !ok ==> forall|m: int|
                        0 <= m < j ==> (#[trigger] cols@[m]).id@ != query.conditions@[i as int].field_int@
                            && len_marker(cols@[m].id@) != query.conditions@[i as int].field_int@,
                decreases cols@.len() - j, (if ok { 0int } else { 1int }),
            {
                if lex_compare(&cols[j].id, f) == 0 {
                    ok = true;
                } else {
                    let lm = crate::schema::get_len_field_int(&cols[j].id);
                    if lex_compare(&lm, f) == 0 {
                        ok = true;
                    } else {
                        j = j + 1;
                    }
                }
            }
            if !ok {
                proof {
                    assert(!field_known(query.conditions@[i as int].field_int@, cols@)) by {
                        if field_known(query.conditions@[i as int].field_int@, cols@) {
                            let w = choose|w: int|
                                0 <= w < cols@.len() && ((#[trigger] cols@[w]).id@
                                    == query.conditions@[i as int].field_int@ || len_marker(
                                    cols@[w].id@,
                                ) == query.conditions@[i as int].field_int@);
                        }
                    }
                }
                return Err(Error::FieldNotFound);
            }
            i = i + 1;
        }
        Ok(())
    }

    /// Stores an encoded record under an id: the record joins the id map
    /// and every field tree, replacing any record already stored under
    /// the id; a single-instance type first clears the whole collection.
    /// A mutation journal line is appended when persistence is on.
    /// A record whose columns do not form a well-formed pair list is
    /// rejected.
    pub fn insert_encoded_value(&mut self, id: Id, value: Value) -> (r: Result<(), Error>)
        ensures
            r.is_ok() <==> pairs_wf(index_pairs(value@)),
            r.is_err() ==> r.get_Err_0() == Error::Serialize && *final(self) == *old(self),
            r.is_ok() ==> {
                &&& (old(self).spec_schema().spec_is_one() ==> final(self).items() =~= seq![
                    (id@, value@),
                ])
                &&& (!old(self).spec_schema().spec_is_one() ==> final(self).items() =~= (
                if old(self).tree_contains(id@) {
                    old(self).items().remove(old(self).items_idx(id@))
                } else {
                    old(self).items()
                }).push((id@, value@)))
                &&& final(self).spec_persist() ==> final(self).journal_len() > old(
                    self,
                ).journal_len()
            },
            final(self).spec_schema() == old(self).spec_schema(),
            final(self).spec_persist() == old(self).spec_persist(),
    {
        let pairs = derive_pairs(&value);
        if !check_pairs_wf(&pairs) {
            return Err(Error::Serialize);
        }
        self.tree.index_facts();
        let ghost items0 = self.tree.items();
        if self.schema.is_one() {
            self.tree.clear();
            if self.persist {
                self.journal.push(Line::new(Action::Clear));
            }
            proof {
                assert(!self.tree.contains_id(id@)) by {
                    if self.tree.contains_id(id@) {
                        let w = choose|i: int|
                            0 <= i < self.tree.items().len() && (#[trigger] self.tree.items()[i]).0
                                == id@;
                    }
                }
            }
        } else {
            if self.tree.find_item(&id).is_some() {
                let ghost w = self.tree.items_idx(id@);
                self.tree.delete(&id);
                if self.persist {
                    self.journal.push(Line::new(Action::Delete).id(clone_chars(&id)));
                }
                proof {
                    assert(!self.tree.contains_id(id@)) by {
                        if self.tree.contains_id(id@) {
                            let w2 = choose|i: int|
                                0 <= i < self.tree.items().len() && (
                                #[trigger] self.tree.items()[i]).0 == id@;
                            let orig = if w2 < w {
                                w2
                            } else {
                                w2 + 1
                            };
                            assert(items0[orig].0 == id@);
                            assert(items0[w].0 == id@);
                            if orig < w {
                                assert(items0[orig].0 != items0[w].0);
                            } else {
                                assert(items0[w].0 != items0[orig].0);
                            }
                        }
                    }
                }
            }
        }
        let jid = clone_chars(&id);
        let jvalue = value.duplicate();
        self.tree.insert(id, value, pairs);
        if self.persist {
            self.journal.push(Line::new(Action::Insert).id(jid).value(jvalue));
        }
        Ok(())
    }

    /// Whether an id is stored.
    pub closed spec fn tree_contains(&self, idv: Seq<char>) -> bool {
        self.tree.contains_id(idv)
    }

    /// The position of a stored id.
    pub closed spec fn items_idx(&self, idv: Seq<char>) -> int {
        self.tree.items_idx(idv)
    }

    /// What `tree_contains` and `items_idx` mean over the stored records.
    pub proof fn lemma_contains(&self, idv: Seq<char>)
        ensures
            self.tree_contains(idv) == exists|i: int|
                0 <= i < self.items().len() && (#[trigger] self.items()[i]).0 == idv,
            self.tree_contains(idv) ==> 0 <= self.items_idx(idv) < self.items().len() && (
            self.items()[self.items_idx(idv)]).0 == idv,
    {
    }
}

/// Checks that a pair list carries distinct fields and indexable keys.
pub fn check_pairs_wf(pairs: &Vec<crate::tree::IndexPair>) -> (r: bool)
    ensures
        r == pairs_wf(pairs_view(pairs@)),
{
    let ghost pv = pairs_view(pairs@);
    let mut i: usize = 0;
    while i < pairs.len()
        invariant
            pv == pairs_view(pairs@),
            0 <= i <= pairs@.len(),
            forall|a: int, b: int| 0 <= a < b < i ==> (#[trigger] pv[a]).0 != (#[trigger] pv[b]).0,
            forall|a: int| 0 <= a < i ==> crate::value::is_key((#[trigger] pv[a]).1),
        decreases pairs@.len() - i,
    {
        if !pairs[i].key.can_index() {
            proof {
                assert(!crate::value::is_key(pv[i as int].1));
            }
            return false;
        }
        let mut j: usize = 0;
        while j < i
            invariant
                pv == pairs_view(pairs@),
                0 <= j <= i < pairs@.len(),
                forall|a: int| 0 <= a < j ==> (#[trigger] pv[a]).0 != pv[i as int].0,
            decreases i - j,
        {
            if lex_compare(&pairs[j].field_int, &pairs[i].field_int) == 0 {
                proof {
                    assert(pv[j as int].0 == pv[i as int].0);
                }
                return false;
            }
            j = j + 1;
        }
        i = i + 1;
    }
    true
}


impl Memory {
    /// The result ids a query cuts out of this store, before records are
    /// fetched: the matching ids in storage order, sorted when ordering
    /// clauses are present, then cut to offset and limit.
    pub open spec fn spec_result_ids(&self, q: Query) -> Seq<Seq<char>> {
        if q.id.is_some() {
            if (q.offset.is_none() || q.offset.unwrap() == 0) && self.tree_contains(
                q.id.unwrap()@,
            ) {
                seq![q.id.unwrap()@]
            } else {
                Seq::empty()
            }
        } else {
            sliced_ids(
                self.items(),
                q.conditions@,
                dedup_orders(ov(q.orders@)),
                q.offset.unwrap_or(0) as int,
                q.limit,
            )
        }
    }

    /// The record stored under an id.
    pub open spec fn spec_rec_of(&self, idv: Seq<char>) -> Vs {
        rec_of(self.items(), idv)
    }

    /// Runs a query and returns the matching encoded records, in result
    /// order.  A query naming an undeclared field is rejected.
    pub fn find(&self, query: &Query) -> (r: Result<Vec<Value>, Error>)
        ensures
            r.is_ok() <==> query_fields_known(
                query.conditions@,
                self.spec_schema().spec_columns(),
            ),
            r.is_err() ==> r.get_Err_0() == Error::FieldNotFound,
            r.is_ok() ==> {
                &&& r.get_Ok_0()@.len() == self.spec_result_ids(*query).len()
                &&& (forall|j: int|
                    0 <= j < r.get_Ok_0()@.len() ==> r.get_Ok_0()@[j]@ == self.spec_rec_of(
                        #[trigger] self.spec_result_ids(*query)[j],
                    ))
            },
    {
        let r = self.check_query_field(query)?;
        let (_, values) = self.search(query, QueryType::Find);
        Ok(values)
    }

    /// Runs a query and returns how many records it cuts out.
    pub fn count(&self, query: &Query) -> (r: Result<usize, Error>)
        ensures
            r.is_ok() <==> query_fields_known(
                query.conditions@,
                self.spec_schema().spec_columns(),
            ),
            r.is_err() ==> r.get_Err_0() == Error::FieldNotFound,
            r.is_ok() ==> r.get_Ok_0() == self.spec_result_ids(*query).len(),
    {
        let r = self.check_query_field(query)?;
        let (count, _) = self.search(query, QueryType::Count);
        Ok(count)
    }

    /// Runs a query and returns its first record, if any.
    pub fn find_one(&self, query: &Query) -> (r: Result<Option<Value>, Error>)
        ensures
            r.is_ok() <==> query_fields_known(
                query.conditions@,
                self.spec_schema().spec_columns(),
            ),
            r.is_err() ==> r.get_Err_0() == Error::FieldNotFound,
            r.is_ok() ==> {
                &&& (self.spec_result_ids(*query).len() > 0 ==> r.get_Ok_0().is_some()
                    && r.get_Ok_0().unwrap()@ == self.spec_rec_of(self.spec_result_ids(*query)[0]))
                &&& (self.spec_result_ids(*query).len() == 0 && !self.spec_schema().spec_is_one()
                    ==> r.get_Ok_0().is_none())
                &&& (self.spec_result_ids(*query).len() == 0 && self.spec_schema().spec_is_one()
                    ==> r.get_Ok_0().is_some() && r.get_Ok_0().unwrap()@
                    == self.spec_schema().spec_empty_item())
            },
    {
        let r = self.check_query_field(query)?;
        let (_, mut values) = self.search(query, QueryType::Find);
        if values.len() > 0 {
            let first = values.remove(0);
            Ok(Some(first))
        } else if self.schema.is_one() {
            Ok(Some(self.schema.empty_item().duplicate()))
        } else {
            Ok(None)
        }
    }

    /// Removes every record a query matches, returning them in result
    /// order; each removal is journalled when persistence is on.
    pub fn delete(&mut self, query: &Query) -> (r: Result<Vec<Value>, Error>)
        ensures
            r.is_ok() <==> query_fields_known(
                query.conditions@,
                old(self).spec_schema().spec_columns(),
            ),
            r.is_err() ==> r.get_Err_0() == Error::FieldNotFound && *final(self) == *old(self),
            r.is_ok() ==> {
                &&& r.get_Ok_0()@.len() == old(self).spec_result_ids(*query).len()
                &&& (forall|j: int|
                    0 <= j < r.get_Ok_0()@.len() ==> r.get_Ok_0()@[j]@ == old(self).spec_rec_of(
                        #[trigger] old(self).spec_result_ids(*query)[j],
                    ))
                &&& (forall|idv: Seq<char>|
                    #[trigger] final(self).tree_contains(idv) <==> (old(self).tree_contains(idv)
                        && !old(self).spec_result_ids(*query).contains(idv)))
            },
            final(self).spec_schema() == old(self).spec_schema(),
            final(self).spec_persist() == old(self).spec_persist(),
    {
        let r = self.check_query_field(query)?;
        let (_, values) = self.search(query, QueryType::Find);
        let ids = self.result_ids(query);
        let ghost rids = old(self).spec_result_ids(*query);
        proof {
            assert(group_view(ids@) == rids);
        }
        let mut i: usize = 0;
        while i < ids.len()
            invariant
                0 <= i <= ids@.len(),
                group_view(ids@) == rids,
                self.spec_schema() == old(self).spec_schema(),
                self.spec_persist() == old(self).spec_persist(),
                forall|idv: Seq<char>|
                    #[trigger] self.tree_contains(idv) <==> (old(self).tree_contains(idv) && !(
                    exists|j: int| 0 <= j < i && rids[j] == idv)),
            decreases ids@.len() - i,
        {
            self.remove_one(&ids[i]);
            proof {
                assert(group_view(ids@)[i as int] == ids@[i as int]@);
                assert forall|idv: Seq<char>| #[trigger] self.tree_contains(idv) <==> (old(
                    self,
                ).tree_contains(idv) && !(exists|j: int| 0 <= j < i + 1 && rids[j] == idv)) by {
                    if exists|j: int| 0 <= j < i + 1 && rids[j] == idv {
                        let j = choose|j: int| 0 <= j < i + 1 && rids[j] == idv;
                    }
                }
            }
            i = i + 1;
        }
        proof {
            assert forall|idv: Seq<char>| #[trigger] final(self).tree_contains(idv) <==> (old(
                self,
            ).tree_contains(idv) && !rids.contains(idv)) by {
                if rids.contains(idv) {
                    let j = choose|j: int| 0 <= j < rids.len() && rids[j] == idv;
                }
                if exists|j: int| 0 <= j < ids@.len() && rids[j] == idv {
                    let j = choose|j: int| 0 <= j < ids@.len() && rids[j] == idv;
                    assert(rids.contains(idv));
                }
            }
        }
        Ok(values)
    }

    /// Removes one record by id and journals the removal.
    fn remove_one(&mut self, id: &Id)
        ensures
            forall|idv: Seq<char>|
                #[trigger] final(self).tree_contains(idv) <==> (old(self).tree_contains(idv)
                    && idv != id@),
            final(self).spec_schema() == old(self).spec_schema(),
            final(self).spec_persist() == old(self).spec_persist(),
    {
        self.tree.index_facts();
        let ghost items0 = self.tree.items();
        if self.tree.find_item(id).is_some() {
            let ghost w = self.tree.items_idx(id@);
            self.tree.delete(id);
            if self.persist {
                self.journal.push(Line::new(Action::Delete).id(clone_chars(id)));
            }
            proof {
                let items1 = self.tree.items();
                assert(items1 =~= items0.remove(w));
                assert(0 <= w < items0.len() && items0[w].0 == id@);
                assert forall|idv: Seq<char>| #[trigger] self.tree_contains(idv) implies (old(
                    self,
                ).tree_contains(idv) && idv != id@) by {
                    let w2 = choose|i: int|
                        0 <= i < items1.len() && (#[trigger] items1[i]).0 == idv;
                    let orig: int = if w2 < w {
                        w2
                    } else {
                        w2 + 1
                    };
                    assert(items1[w2] == items0[orig]);
                    assert(items0[orig].0 == idv);
                    assert(old(self).items() == items0);
                    assert((old(self).items()[orig]).0 == idv);
                    assert(old(self).tree_contains(idv));
                    if idv == id@ {
                        if orig < w {
                            assert(items0[orig].0 != items0[w].0);
                        } else {
                            assert(items0[w].0 != items0[orig].0);
                        }
                    }
                }
                assert forall|idv: Seq<char>|
                    (old(self).tree_contains(idv) && idv != id@) implies #[trigger] self.tree_contains(
                    idv,
                ) by {
                    assert(old(self).items() == items0);
                    assert(exists|i: int|
                        0 <= i < items0.len() && (#[trigger] items0[i]).0 == idv);
                    let orig = choose|i: int|
                        0 <= i < items0.len() && (#[trigger] items0[i]).0 == idv;
                    assert(orig != w);
                    let now: int = if orig < w {
                        orig
                    } else {
                        orig - 1
                    };
                    assert(items1[now] == items0[orig]);
                    assert(self.items() == items1);
                    assert((self.items()[now]).0 == idv);
                }
            }
        } else {
            proof {
                assert forall|idv: Seq<char>| #[trigger] self.tree_contains(idv) <==> (old(
                    self,
                ).tree_contains(idv) && idv != id@) by {}
            }
        }
    }

    /// The result ids a query cuts out, materialized.
    fn result_ids(&self, query: &Query) -> (r: Vec<Id>)
        ensures
            group_view(r@) == self.spec_result_ids(*query),
    {
        match &query.id {
            Some(idq) => {
                let skip = match query.offset {
                    Some(o) => o >= 1,
                    None => false,
                };
                let mut out: Vec<Id> = Vec::new();
                let present = self.tree.find_item(idq).is_some();
                proof {
                    assert(present == self.tree_contains(idq@));
                    assert(idq@ == query.id.unwrap()@);
                }
                if !skip && present {
                    out.push(clone_chars(idq));
                    proof {
                        assert(group_view(out@) =~= seq![idq@]);
                        assert(self.spec_result_ids(*query) == seq![query.id.unwrap()@]);
                    }
                } else {
                    proof {
                        assert(group_view(out@) =~= Seq::<Seq<char>>::empty());
                        assert(self.spec_result_ids(*query) =~= Seq::<Seq<char>>::empty());
                    }
                }
                out
            },
            None => {
                let task = Task::new(
                    &query.conditions,
                    &query.orders,
                    match query.offset {
                        Some(o) => o,
                        None => 0,
                    },
                    query.limit,
                    QueryType::Find,
                );
                let ids = Exectuor::exec_ids(&self.tree, &task, &query.conditions);
                proof {
                    assert(group_view(ids@) == self.spec_result_ids(*query));
                }
                ids
            },
        }
    }

    /// Runs the executor for a query, honoring the id fast path.
    fn search(&self, query: &Query, query_type: QueryType) -> (r: (usize, Vec<Value>))
        ensures
            r.0 == self.spec_result_ids(*query).len(),
            query_type is Find ==> r.1@.len() == self.spec_result_ids(*query).len() && (
            forall|j: int|
                0 <= j < r.1@.len() ==> r.1@[j]@ == self.spec_rec_of(
                    #[trigger] self.spec_result_ids(*query)[j],
                )),
            query_type is Count ==> r.1@.len() == 0,
    {
        match &query.id {
            Some(idq) => {
                let skip = match query.offset {
                    Some(o) => o >= 1,
                    None => false,
                };
                let mut values: Vec<Value> = Vec::new();
                let mut count: usize = 0;
                if !skip {
                    match self.tree.find_item(idq) {
                        Some(it) => {
                            count = 1;
                            self.tree.index_facts();
                            proof {
                                crate::tree::searcher::lemma_rec_of_agrees(
                                    &self.tree,
                                    idq@,
                                    it.value@,
                                );
                            }
                            match query_type {
                                QueryType::Find => {
                                    values.push(it.value.duplicate());
                                },
                                QueryType::Count => {
                                },
                            }
                        },
                        None => {
                        },
                    }
                }
                (count, values)
            },
            None => {
                let task = Task::new(
                    &query.conditions,
                    &query.orders,
                    match query.offset {
                        Some(o) => o,
                        None => 0,
                    },
                    query.limit,
                    query_type,
                );
                Exectuor::exec(&self.tree, &task, &query.conditions)
            },
        }
    }
}


impl Memory {
    /// Stores a record: it is wrapped with its id (drawn fresh when the
    /// record carries none), encoded, and filed in the id map and every
    /// field tree.  Returns the id the record is stored under; success is
    /// owed exactly when the record has the registered shape.
    pub fn insert(&mut self, item: Value) -> (r: Result<Id, Error>)
        ensures
            r.is_ok() <==> crate::schema::conforms(item@, old(self).spec_schema().spec_shape()),
            r.is_err() ==> r.get_Err_0() == Error::Serialize && *final(self) == *old(self),
            r.is_ok() ==> r.get_Ok_0()@.len() > 0,
            r.is_ok() ==> {
                &&& r.get_Ok_0()@ == crate::item::wrapper_item(
                    item@,
                    old(self).spec_schema().spec_has_id(),
                    r.get_Ok_0()@,
                ).0
                &&& final(self).items().len() > 0
                &&& final(self).items().last() == (
                    r.get_Ok_0()@,
                    crate::encoder::spec_encode(
                        crate::item::wrapper_item(
                            item@,
                            old(self).spec_schema().spec_has_id(),
                            r.get_Ok_0()@,
                        ).1,
                        old(self).spec_schema().spec_shape(),
                        old(self).spec_schema().spec_columns(),
                    ),
                )
            },
            final(self).spec_schema() == old(self).spec_schema(),
            final(self).spec_persist() == old(self).spec_persist(),
    {
        self.schema.wf_facts();
        let ghost shape = self.spec_schema().spec_shape();
        let ghost itemv = item@;
        if !crate::encoder::check_conforms(&item, self.schema.shape()) {
            return Err(Error::Serialize);
        }
        let fresh = crate::item::create_id(self.counter());
        let wrapper = crate::item::ItemWrapper::new(item, self.schema.has_id(), fresh);
        proof {
            // wrapping keeps the shape: the record is kept as it is, or
            // its scalar identity field takes the fresh id
            if self.spec_schema().spec_has_id() && crate::item::own_id(itemv).is_none() {
                crate::encoder::lemma_with_id_conforms(itemv, shape, fresh@);
            }
            assert(crate::schema::conforms(wrapper.item@, shape));
        }
        if !crate::encoder::check_conforms(&wrapper.item, self.schema.shape()) {
            proof {
                assert(false);
            }
            return Err(Error::Serialize);
        }
        let encoded = crate::encoder::encode(&wrapper.item, &self.schema);
        proof {
            let cols = self.spec_schema().spec_columns();
            let paths = crate::schema::leaf_paths(shape, Seq::empty());
            assert forall|j: int|
                0 <= j < cols.len() implies (#[trigger] cols[j]).id@.len() > 0
                    && crate::schema::is_digit(cols[j].id@[0]) by {
                assert(crate::schema::col_matches(cols[j], paths[j]));
                crate::schema::lemma_dec_str_digits(
                    crate::schema::path_hash(paths[j]) as nat,
                );
            }
            crate::encoder::lemma_encode_pairs_wf(wrapper.item@, shape, cols);
        }
        let rid = clone_chars(&wrapper.id);
        let res = self.insert_encoded_value(wrapper.id, encoded);
        match res {
            Ok(_) => Ok(rid),
            Err(e) => {
                proof {
                    assert(false);
                }
                Err(e)
            },
        }
    }

    /// A counter for fall-back id generation.
    fn counter(&self) -> (r: u64)
    {
        if self.journal.len() as u64 > self.tree.len() as u64 {
            self.journal.len() as u64
        } else {
            self.tree.len() as u64
        }
    }

    /// Replaces the record stored under an id with the given record:
    /// a supplied query id is written into the record's identity field
    /// first, as the stored id.  Only a type with an identity field
    /// supports it; success is owed exactly when the adjusted record has
    /// the registered shape.
    pub fn replace(&mut self, query: &Query, item: Value) -> (r: Result<(), Error>)
        ensures
            !old(self).spec_schema().spec_has_id() ==> r == Result::<(), Error>::Err(
                Error::CanNotReplace,
            ) && *final(self) == *old(self),
            old(self).spec_schema().spec_has_id() ==> {
                let item2 = if query.id.is_some() {
                    crate::item::with_own_id(item@, query.id.unwrap()@)
                } else {
                    item@
                };
                &&& (r.is_ok() <==> crate::schema::conforms(
                    item2,
                    old(self).spec_schema().spec_shape(),
                ))
                &&& (r.is_err() ==> *final(self) == *old(self))
                &&& (r.is_ok() && query.id.is_some() && query.id.unwrap()@.len() > 0
                    ==> final(self).items().len() > 0 && final(self).items().last() == (
                    query.id.unwrap()@,
                    crate::encoder::spec_encode(
                        item2,
                        old(self).spec_schema().spec_shape(),
                        old(self).spec_schema().spec_columns(),
                    ),
                ))
            },
            final(self).spec_schema() == old(self).spec_schema(),
            final(self).spec_persist() == old(self).spec_persist(),
    {
        self.schema.wf_facts();
        if !self.schema.has_id() {
            return Err(Error::CanNotReplace);
        }
        let mut item = item;
        let ghost had_qid = query.id.is_some();
        match &query.id {
            Some(idq) => {
                item = crate::item::force_id(item, idq);
            },
            None => {
            },
        }
        let ghost item2 = item@;
        let res = self.insert(item);
        match res {
            Ok(rid) => {
                proof {
                    if had_qid && query.id.unwrap()@.len() > 0 {
                        // the adjusted record carries the query id, so it
                        // was stored under it
                        crate::encoder::lemma_conforms_id_present(
                            item2,
                            self.spec_schema().spec_shape(),
                        );
                        lemma_with_id_own(item2, query.id.unwrap()@);
                        assert(crate::item::wrapper_item(item2, true, rid@) == (
                            query.id.unwrap()@,
                            item2,
                        ));
                    }
                }
                Ok(())
            },
            Err(e) => Err(e),
        }
    }

    /// Applies a caller-supplied change to every record a query matches:
    /// each matched record is removed, decoded, passed through the
    /// change, and stored again.  Returns how many records changed.
    pub fn update<F: Fn(Value) -> Value>(&mut self, query: &Query, updater: F) -> (r: Result<
        usize,
        Error,
    >)
        requires
            forall|v: Value| #[trigger] updater.requires((v,)),
        ensures
            r.is_ok() <==> query_fields_known(
                query.conditions@,
                old(self).spec_schema().spec_columns(),
            ),
            r.is_err() ==> r.get_Err_0() == Error::FieldNotFound && *final(self) == *old(self),
            r.is_ok() ==> r.get_Ok_0() == old(self).spec_result_ids(*query).len(),
            final(self).spec_schema() == old(self).spec_schema(),
            final(self).spec_persist() == old(self).spec_persist(),
    {
        let r = self.check_query_field(query)?;
        let mut ids = self.result_ids(query);
        let removed = self.delete(query)?;
        let count = removed.len();
        let mut i: usize = 0;
        let mut items = removed;
        while i < items.len()
            invariant
                forall|v: Value| #[trigger] updater.requires((v,)),
                self.spec_schema() == old(self).spec_schema(),
                self.spec_persist() == old(self).spec_persist(),
                0 <= i <= items@.len(),
            decreases items@.len() - i,
        {
            let enc = items.remove(i);
            let dec = match crate::encoder::decode(&enc, &self.schema) {
                Ok(d) => d,
                Err(_) => {
                    // a record that cannot be decoded is put back as it
                    // was rather than lost
                    let rid = if i < ids.len() {
                        crate::value::clone_chars(&ids[i])
                    } else {
                        Vec::new()
                    };
                    let _ = self.insert_encoded_value(rid, enc.duplicate());
                    items.insert(i, enc);
                    i = i + 1;
                    continue ;
                },
            };
            let changed = updater(dec);
            let _ = self.insert(changed);
            items.insert(i, enc);
            i = i + 1;
        }
        let _ = ids.len();
        Ok(count)
    }
}


impl Memory {
    /// Decodes one stored record with this type's schema; decoding
    /// inverts encoding on every record the store holds.
    pub fn decode_record(&self, encoded: &Value) -> (r: Result<Value, Error>)
        ensures
            forall|w: Vs|
                crate::schema::conforms(w, self.spec_schema().spec_shape()) && encoded@
                    == crate::encoder::spec_encode(
                    w,
                    self.spec_schema().spec_shape(),
                    self.spec_schema().spec_columns(),
                ) ==> r.is_ok() && r.get_Ok_0()@ == w,
    {
        crate::encoder::decode(encoded, &self.schema)
    }

}


/// A record whose identity field was just written carries that id.
proof fn lemma_with_id_own(item2: Vs, idv: Seq<char>)
    requires
        item2 is Obj,
        crate::item::obj_find(item2->Obj_0, crate::schema::id_field_name()).is_some(),
        exists|orig: Vs, qid: Seq<char>|
            qid == idv && item2 == crate::item::with_own_id(orig, qid),
        idv.len() > 0,
    ensures
        crate::item::own_id(item2) == Option::Some(idv),
{
    let (orig, qid) = choose|orig: Vs, qid: Seq<char>|
        qid == idv && item2 == crate::item::with_own_id(orig, qid);
    if orig is Obj {
        lemma_put_find(orig->Obj_0, crate::schema::id_field_name(), Vs::Str(idv));
        if crate::item::obj_find(orig->Obj_0, crate::schema::id_field_name()).is_none() {
            assert(crate::item::obj_find(
                item2->Obj_0,
                crate::schema::id_field_name(),
            ).is_none());
        }
    } else {
        assert(item2 == orig);
    }
}

/// After a field write, the field reads back as written when it was
/// present, and as before when it was not.
proof fn lemma_put_find(es: Seq<(Seq<char>, Vs)>, name: Seq<char>, v: Vs)
    ensures
        crate::item::obj_find(es, name).is_some() ==> crate::item::obj_find(
            crate::item::obj_put(es, name, v),
            name,
        ) == Option::Some(v),
        crate::item::obj_find(es, name).is_none() ==> crate::item::obj_find(
            crate::item::obj_put(es, name, v),
            name,
        ).is_none(),
    decreases es.len(),
{
    if es.len() > 0 {
        if es[0].0 == name {
            let out = seq![(name, v)] + es.drop_first();
            assert(out[0] == (name, v));
        } else {
            lemma_put_find(es.drop_first(), name, v);
            let out = seq![es[0]] + crate::item::obj_put(es.drop_first(), name, v);
            assert(out[0] == es[0]);
            assert(out.drop_first() =~= crate::item::obj_put(es.drop_first(), name, v));
        }
    }
}

} // verus!
