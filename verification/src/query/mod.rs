//! The composable query builder: field conditions, ordering clauses,
//! offset and limit, collected into a description the executor runs.

use vstd::prelude::*;
use crate::value::Value;
use crate::value::Id;
use crate::tree::Cmp;
use crate::tree::Comparision;
use crate::schema::MAX_PATH_CHARS;
use crate::schema::get_unique_int_str;
use crate::schema::get_len_field_int;
use crate::schema::unique_int_str;
use crate::schema::len_marker;
use crate::store::Store;
use crate::store::entry_idx;
use crate::value::Vs;
use crate::memory::query_fields_known;
use crate::error::Error;

verus! {

/// The direction of an ordering clause.
#[derive(Clone, Copy, PartialEq, Eq, Debug)]
pub enum Order {
    Asc,
    Desc,
}

/// Whether a search materializes records or only counts them.
#[derive(Clone, Copy, PartialEq, Eq, Debug)]
pub enum QueryType {
    Find,
    Count,
}

/// What a query was built to do.
#[derive(Clone, Copy, PartialEq, Eq, Debug)]
pub enum Action {
    Insert,
    Find,
    FindOne,
    Count,
    Replace,
    Update,
    Remove,
}

/// One ordering clause: a field id and a direction.
pub struct OrderBy {
    pub field_int: Vec<char>,
    pub order: Order,
}

/// An immutable-once-built description of a query: conditions, ordering,
/// offset and limit, plus the record or id the mutating calls carry.
pub struct Query {
    pub item: Option<Value>,
    pub id: Option<Id>,
    pub limit: Option<usize>,
    pub offset: Option<usize>,
    pub field: Option<Vec<char>>,
    pub len: Option<Vec<char>>,
    pub conditions: Vec<Comparision>,
    pub orders: Vec<OrderBy>,
}

impl Query {
    /// A fresh, unconstrained query.
    pub fn new() -> (q: Query)
        ensures
            q.item.is_none(),
            q.id.is_none(),
            q.limit.is_none(),
            q.offset.is_none(),
            q.field.is_none(),
            q.len.is_none(),
            q.conditions@.len() == 0,
            q.orders@.len() == 0,
    {
        Query {
            item: None,
            id: None,
            limit: None,
            offset: None,
            field: None,
            len: None,
            conditions: Vec::new(),
            orders: Vec::new(),
        }
    }

    /// Constrains the query to one record id.
    pub fn id(self, id: Id) -> (q: Query)
        ensures
            q == (Query { id: Some(id), ..self }),
    {
        Query { id: Some(id), ..self }
    }

    /// Caps how many records the query returns.
    pub fn limit(self, limit: usize) -> (q: Query)
        ensures
            q == (Query { limit: Some(limit), ..self }),
    {
        Query { limit: Some(limit), ..self }
    }

    /// Skips the first records of the result.
    pub fn offset(self, offset: usize) -> (q: Query)
        ensures
            q == (Query { offset: Some(offset), ..self }),
    {
        Query { offset: Some(offset), ..self }
    }

    /// Names the field the next comparator constrains.
    pub fn field(self, field: Vec<char>) -> (q: Query)
        requires
            field@.len() <= MAX_PATH_CHARS,
        ensures
            q == (Query { field: Some(field), ..self }),
    {
        Query { field: Some(field), ..self }
    }

    /// Names the field whose derived length the next comparator
    /// constrains.
    pub fn len(self, field: Vec<char>) -> (q: Query)
        requires
            field@.len() <= MAX_PATH_CHARS,
        ensures
            q == (Query { len: Some(field), ..self }),
    {
        Query { len: Some(field), ..self }
    }

    /// The field id the pending comparator applies to: the named field's
    /// id, or the named field's derived length id.
    pub open spec fn pending_field_int(self) -> Seq<char> {
        if self.field.is_some() {
            unique_int_str(self.field.unwrap()@)
        } else {
            len_marker(unique_int_str(self.len.unwrap()@))
        }
    }

    /// Files one comparator against the pending field and clears it.
    fn compare(self, cmp: Cmp, other: Value) -> (q: Query)
        requires
            self.field.is_some() || self.len.is_some(),
            self.field.is_some() ==> self.field.unwrap()@.len() <= MAX_PATH_CHARS,
            self.field.is_none() ==> self.len.unwrap()@.len() <= MAX_PATH_CHARS,
        ensures
            q.conditions@.len() == self.conditions@.len() + 1,
            q.conditions@.take(self.conditions@.len() as int) == self.conditions@,
            q.conditions@.last().field_int@ == self.pending_field_int(),
            q.conditions@.last().cmp == cmp,
            q.conditions@.last().other == other,
            q.item == self.item,
            q.id == self.id,
            q.limit == self.limit,
            q.offset == self.offset,
            q.orders == self.orders,
            q.field.is_none(),
            q.len.is_none(),
    {
        let mut me = self;
        let field_int: Vec<char>;
        match me.field.take() {
            Some(f) => {
                field_int = get_unique_int_str(&f);
            },
            None => {
                let f = me.len.take().unwrap();
                let plain = get_unique_int_str(&f);
                field_int = get_len_field_int(&plain);
            },
        }
        me.len = None;
        let c = Comparision::new(field_int, cmp, other);
        me.conditions.push(c);
        me
    }

    /// Keeps records whose field equals the literal.
    pub fn eq(self, other: Value) -> (q: Query)
        requires
            self.field.is_some() || self.len.is_some(),
            self.field.is_some() ==> self.field.unwrap()@.len() <= MAX_PATH_CHARS,
            self.field.is_none() ==> self.len.unwrap()@.len() <= MAX_PATH_CHARS,
        ensures
            q.conditions@.len() == self.conditions@.len() + 1,
            q.conditions@.take(self.conditions@.len() as int) == self.conditions@,
            q.conditions@.last().field_int@ == self.pending_field_int(),
            q.conditions@.last().cmp == Cmp::Eq,
            q.conditions@.last().other == other,
            q.item == self.item && q.id == self.id && q.limit == self.limit && q.offset
                == self.offset && q.orders == self.orders,
    {
        let q = self.compare(Cmp::Eq, other);
        proof {
            assert(q.conditions@.take(q.conditions@.len() - 1) =~= self.conditions@);
        }
        q
    }

    /// Keeps records whose field differs from the literal.
    pub fn ne(self, other: Value) -> (q: Query)
        requires
            self.field.is_some() || self.len.is_some(),
            self.field.is_some() ==> self.field.unwrap()@.len() <= MAX_PATH_CHARS,
            self.field.is_none() ==> self.len.unwrap()@.len() <= MAX_PATH_CHARS,
        ensures
            q.conditions@.len() == self.conditions@.len() + 1,
            q.conditions@.take(self.conditions@.len() as int) == self.conditions@,
            q.conditions@.last().field_int@ == self.pending_field_int(),
            q.conditions@.last().cmp == Cmp::Ne,
            q.conditions@.last().other == other,
            q.item == self.item && q.id == self.id && q.limit == self.limit && q.offset
                == self.offset && q.orders == self.orders,
    {
        let q = self.compare(Cmp::Ne, other);
        proof {
            assert(q.conditions@.take(q.conditions@.len() - 1) =~= self.conditions@);
        }
        q
    }

    /// Keeps records whose field is greater than the literal.
    pub fn gt(self, other: Value) -> (q: Query)
        requires
            self.field.is_some() || self.len.is_some(),
            self.field.is_some() ==> self.field.unwrap()@.len() <= MAX_PATH_CHARS,
            self.field.is_none() ==> self.len.unwrap()@.len() <= MAX_PATH_CHARS,
        ensures
            q.conditions@.len() == self.conditions@.len() + 1,
            q.conditions@.take(self.conditions@.len() as int) == self.conditions@,
            q.conditions@.last().field_int@ == self.pending_field_int(),
            q.conditions@.last().cmp == Cmp::Gt,
            q.conditions@.last().other == other,
            q.item == self.item && q.id == self.id && q.limit == self.limit && q.offset
                == self.offset && q.orders == self.orders,
    {
        let q = self.compare(Cmp::Gt, other);
        proof {
            assert(q.conditions@.take(q.conditions@.len() - 1) =~= self.conditions@);
        }
        q
    }

    /// Keeps records whose field is less than the literal.
    pub fn lt(self, other: Value) -> (q: Query)
        requires
            self.field.is_some() || self.len.is_some(),
            self.field.is_some() ==> self.field.unwrap()@.len() <= MAX_PATH_CHARS,
            self.field.is_none() ==> self.len.unwrap()@.len() <= MAX_PATH_CHARS,
        ensures
            q.conditions@.len() == self.conditions@.len() + 1,
            q.conditions@.take(self.conditions@.len() as int) == self.conditions@,
            q.conditions@.last().field_int@ == self.pending_field_int(),
            q.conditions@.last().cmp == Cmp::Lt,
            q.conditions@.last().other == other,
            q.item == self.item && q.id == self.id && q.limit == self.limit && q.offset
                == self.offset && q.orders == self.orders,
    {
        let q = self.compare(Cmp::Lt, other);
        proof {
            assert(q.conditions@.take(q.conditions@.len() - 1) =~= self.conditions@);
        }
        q
    }

    /// Keeps records whose field is at least the literal.
    pub fn ge(self, other: Value) -> (q: Query)
        requires
            self.field.is_some() || self.len.is_some(),
            self.field.is_some() ==> self.field.unwrap()@.len() <= MAX_PATH_CHARS,
            self.field.is_none() ==> self.len.unwrap()@.len() <= MAX_PATH_CHARS,
        ensures
            q.conditions@.len() == self.conditions@.len() + 1,
            q.conditions@.take(self.conditions@.len() as int) == self.conditions@,
            q.conditions@.last().field_int@ == self.pending_field_int(),
            q.conditions@.last().cmp == Cmp::Ge,
            q.conditions@.last().other == other,
            q.item == self.item && q.id == self.id && q.limit == self.limit && q.offset
                == self.offset && q.orders == self.orders,
    {
        let q = self.compare(Cmp::Ge, other);
        proof {
            assert(q.conditions@.take(q.conditions@.len() - 1) =~= self.conditions@);
        }
        q
    }

    /// Keeps records whose field is at most the literal.
    pub fn le(self, other: Value) -> (q: Query)
        requires
            self.field.is_some() || self.len.is_some(),
            self.field.is_some() ==> self.field.unwrap()@.len() <= MAX_PATH_CHARS,
            self.field.is_none() ==> self.len.unwrap()@.len() <= MAX_PATH_CHARS,
        ensures
            q.conditions@.len() == self.conditions@.len() + 1,
            q.conditions@.take(self.conditions@.len() as int) == self.conditions@,
            q.conditions@.last().field_int@ == self.pending_field_int(),
            q.conditions@.last().cmp == Cmp::Le,
            q.conditions@.last().other == other,
            q.item == self.item && q.id == self.id && q.limit == self.limit && q.offset
                == self.offset && q.orders == self.orders,
    {
        let q = self.compare(Cmp::Le, other);
        proof {
            assert(q.conditions@.take(q.conditions@.len() - 1) =~= self.conditions@);
        }
        q
    }

    /// Adds a descending ordering clause on a field.
    pub fn desc(self, field: Vec<char>) -> (q: Query)
        requires
            field@.len() <= MAX_PATH_CHARS,
        ensures
            q.orders@.len() == self.orders@.len() + 1,
            q.orders@.take(self.orders@.len() as int) == self.orders@,
            q.orders@.last().field_int@ == unique_int_str(field@),
            q.orders@.last().order == Order::Desc,
            q.item == self.item && q.id == self.id && q.limit == self.limit && q.offset
                == self.offset && q.conditions == self.conditions,
    {
        let mut me = self;
        let fi = get_unique_int_str(&field);
        me.orders.push(OrderBy { field_int: fi, order: Order::Desc });
        proof {
            assert(me.orders@.take(me.orders@.len() - 1) =~= self.orders@);
        }
        me
    }

    /// Adds an ascending ordering clause on a field.
    pub fn asc(self, field: Vec<char>) -> (q: Query)
        requires
            field@.len() <= MAX_PATH_CHARS,
        ensures
            q.orders@.len() == self.orders@.len() + 1,
            q.orders@.take(self.orders@.len() as int) == self.orders@,
            q.orders@.last().field_int@ == unique_int_str(field@),
            q.orders@.last().order == Order::Asc,
            q.item == self.item && q.id == self.id && q.limit == self.limit && q.offset
                == self.offset && q.conditions == self.conditions,
    {
        let mut me = self;
        let fi = get_unique_int_str(&field);
        me.orders.push(OrderBy { field_int: fi, order: Order::Asc });
        proof {
            assert(me.orders@.take(me.orders@.len() - 1) =~= self.orders@);
        }
        me
    }
}


impl Query {
    /// Stores a record in the named type's collection and returns the
    /// nonempty id it is stored under.  Success is owed exactly when the
    /// type is registered and the record has its shape.
    pub fn insert(self, store: &mut Store, struct_name: &Vec<char>, item: Value) -> (r: Result<
        Id,
        Error,
    >)
        ensures
            entry_idx(old(store).memories@, struct_name@).is_none() ==> r == Result::<
                Id,
                Error,
            >::Err(Error::Serialize) && *final(store) == *old(store),
            entry_idx(old(store).memories@, struct_name@).is_some() ==> ({
                let e = entry_idx(old(store).memories@, struct_name@).unwrap();
                let m = old(store).memories@[e].memory;
                let fm = final(store).memories@[e].memory;
                &&& final(store).memories@.len() == old(store).memories@.len()
                &&& (forall|j: int|
                    0 <= j < old(store).memories@.len() && j != e ==> final(store).memories@[j]
                        == old(store).memories@[j])
                &&& final(store).memories@[e].name == old(store).memories@[e].name
                &&& final(store).config == old(store).config
                &&& (r.is_ok() <==> crate::schema::conforms(item@, m.spec_schema().spec_shape()))
                &&& (r.is_err() ==> r.get_Err_0() == Error::Serialize && fm == m)
                &&& (r.is_ok() ==> r.get_Ok_0()@.len() > 0 && fm.items().len() > 0
                    && fm.items().last() == (
                    r.get_Ok_0()@,
                    crate::encoder::spec_encode(
                        crate::item::wrapper_item(
                            item@,
                            m.spec_schema().spec_has_id(),
                            r.get_Ok_0()@,
                        ).1,
                        m.spec_schema().spec_shape(),
                        m.spec_schema().spec_columns(),
                    ),
                ))
            }),
    {
        let pos = store.entry_pos(struct_name);
        match pos {
            Some(i) => {
                let m = &mut store.memories[i].memory;
                m.insert(item)
            },
            None => Err(Error::Serialize),
        }
    }

    /// Runs the query and returns the matching records, decoded, in
    /// result order: each returned record re-encodes to its stored form.
    /// Success is owed when the type is registered, every condition
    /// names a declared field, and every matched stored record is the
    /// encoding of some conforming record.
    pub fn find(self, store: &Store, struct_name: &Vec<char>) -> (r: Result<Vec<Value>, Error>)
        ensures
            entry_idx(store.memories@, struct_name@).is_none() ==> r == Result::<
                Vec<Value>,
                Error,
            >::Err(Error::Serialize),
            entry_idx(store.memories@, struct_name@).is_some() ==> ({
                let m = store.memories@[entry_idx(store.memories@, struct_name@).unwrap()].memory;
                &&& (!query_fields_known(self.conditions@, m.spec_schema().spec_columns()) ==> r
                    == Result::<Vec<Value>, Error>::Err(Error::FieldNotFound))
                &&& (r.is_ok() ==> query_fields_known(
                    self.conditions@,
                    m.spec_schema().spec_columns(),
                ) && r.get_Ok_0()@.len() == m.spec_result_ids(self).len() && (forall|
                    j: int,
                    w: Vs,
                |
                    #![trigger m.spec_result_ids(self)[j], crate::encoder::spec_encode(w, m.spec_schema().spec_shape(), m.spec_schema().spec_columns())]
                    0 <= j < r.get_Ok_0()@.len() && crate::schema::conforms(
                        w,
                        m.spec_schema().spec_shape(),
                    ) && m.spec_rec_of(m.spec_result_ids(self)[j]) == crate::encoder::spec_encode(
                        w,
                        m.spec_schema().spec_shape(),
                        m.spec_schema().spec_columns(),
                    ) ==> (r.get_Ok_0()@[j])@ == w))
                &&& ((query_fields_known(self.conditions@, m.spec_schema().spec_columns())
                    && (forall|j: int|
                    0 <= j < m.spec_result_ids(self).len() ==> exists|w: Vs|
                        crate::schema::conforms(w, m.spec_schema().spec_shape()) && m.spec_rec_of(
                            #[trigger] m.spec_result_ids(self)[j],
                        ) == crate::encoder::spec_encode(
                            w,
                            m.spec_schema().spec_shape(),
                            m.spec_schema().spec_columns(),
                        ))) ==> r.is_ok())
            }),
    {
        let pos = store.entry_pos(struct_name);
        let i = match pos {
            Some(i) => i,
            None => {
                return Err(Error::Serialize);
            },
        };
        let m = &store.memories[i].memory;
        let encoded = match m.find(&self) {
            Ok(v) => v,
            Err(e) => {
                return Err(e);
            },
        };
        let ghost mm = store.memories@[i as int].memory;
        let mut out: Vec<Value> = Vec::new();
        let mut k: usize = 0;
        while k < encoded.len()
            invariant
                0 <= k <= encoded@.len(),
                mm == store.memories@[i as int].memory,
                0 <= i < store.memories@.len(),
                Option::Some(i as int) == entry_idx(store.memories@, struct_name@),
                query_fields_known(self.conditions@, mm.spec_schema().spec_columns()),
                encoded@.len() == mm.spec_result_ids(self).len(),
                forall|j: int|
                    0 <= j < encoded@.len() ==> (#[trigger] encoded@[j]@) == mm.spec_rec_of(
                        mm.spec_result_ids(self)[j],
                    ),
                out@.len() == k,
                forall|j: int, w: Vs|
                    #![trigger mm.spec_result_ids(self)[j], crate::encoder::spec_encode(w, mm.spec_schema().spec_shape(), mm.spec_schema().spec_columns())]
                    0 <= j < k && crate::schema::conforms(w, mm.spec_schema().spec_shape())
                        && mm.spec_rec_of(mm.spec_result_ids(self)[j])
                        == crate::encoder::spec_encode(
                        w,
                        mm.spec_schema().spec_shape(),
                        mm.spec_schema().spec_columns(),
                    ) ==> (out@[j])@ == w,
            decreases encoded@.len() - k,
        {
            let m2 = &store.memories[i].memory;
            let res = m2.decode_record(&encoded[k]);
            let d = match res {
                Ok(d) => d,
                Err(e) => {
                    proof {
                        // a stored record outside the encoding's image:
                        // the image hypothesis of the owed-success clause
                        // cannot hold
                        if exists|w: Vs|
                            crate::schema::conforms(w, mm.spec_schema().spec_shape())
                                && mm.spec_rec_of(#[trigger] mm.spec_result_ids(self)[k as int])
                                == crate::encoder::spec_encode(
                                w,
                                mm.spec_schema().spec_shape(),
                                mm.spec_schema().spec_columns(),
                            ) {
                            let w = choose|w: Vs|
                                crate::schema::conforms(w, mm.spec_schema().spec_shape())
                                    && mm.spec_rec_of(mm.spec_result_ids(self)[k as int])
                                    == crate::encoder::spec_encode(
                                    w,
                                    mm.spec_schema().spec_shape(),
                                    mm.spec_schema().spec_columns(),
                                );
                            assert(encoded@[k as int]@ == crate::encoder::spec_encode(
                                w,
                                mm.spec_schema().spec_shape(),
                                mm.spec_schema().spec_columns(),
                            ));
                            assert(res.is_ok());
                        }
                        assert(!(exists|w: Vs|
                            crate::schema::conforms(w, mm.spec_schema().spec_shape())
                                && mm.spec_rec_of(mm.spec_result_ids(self)[k as int])
                                == crate::encoder::spec_encode(
                                w,
                                mm.spec_schema().spec_shape(),
                                mm.spec_schema().spec_columns(),
                            )));
                        assert(!(forall|j: int|
                            0 <= j < mm.spec_result_ids(self).len() ==> exists|w: Vs|
                                crate::schema::conforms(w, mm.spec_schema().spec_shape())
                                    && mm.spec_rec_of(
                                    #[trigger] mm.spec_result_ids(self)[j],
                                ) == crate::encoder::spec_encode(
                                    w,
                                    mm.spec_schema().spec_shape(),
                                    mm.spec_schema().spec_columns(),
                                )));
                    }
                    return Err(Error::Serialize);
                },
            };
            out.push(d);
            k = k + 1;
        }
        Ok(out)
    }

    /// Runs the query, cut to one record, and returns it decoded if any;
    /// a single-instance type falls back to its canonical empty record.
    pub fn find_one(self, store: &Store, struct_name: &Vec<char>) -> (r: Result<
        Option<Value>,
        Error,
    >)
        ensures
            entry_idx(store.memories@, struct_name@).is_none() ==> r == Result::<
                Option<Value>,
                Error,
            >::Err(Error::Serialize),
            entry_idx(store.memories@, struct_name@).is_some() ==> ({
                let m = store.memories@[entry_idx(store.memories@, struct_name@).unwrap()].memory;
                let limited = (Query { limit: Some(1usize), ..self });
                &&& (!query_fields_known(self.conditions@, m.spec_schema().spec_columns()) ==> r
                    == Result::<Option<Value>, Error>::Err(Error::FieldNotFound))
                &&& (r.is_ok() && m.spec_result_ids(limited).len() == 0
                    && !m.spec_schema().spec_is_one() ==> r.get_Ok_0().is_none())
                &&& (r.is_ok() && m.spec_result_ids(limited).len() == 0
                    && m.spec_schema().spec_is_one() ==> r.get_Ok_0().is_some()
                    && r.get_Ok_0().unwrap()@ == m.spec_schema().spec_empty_item())
                &&& (r.is_ok() && m.spec_result_ids(limited).len() > 0 ==> r.get_Ok_0().is_some()
                    && (forall|w: Vs|
                    crate::schema::conforms(w, m.spec_schema().spec_shape()) && m.spec_rec_of(
                        m.spec_result_ids(limited)[0],
                    ) == crate::encoder::spec_encode(
                        w,
                        m.spec_schema().spec_shape(),
                        m.spec_schema().spec_columns(),
                    ) ==> r.get_Ok_0().unwrap()@ == w))
            }),
    {
        let pos = store.entry_pos(struct_name);
        let i = match pos {
            Some(i) => i,
            None => {
                return Err(Error::Serialize);
            },
        };
        let m = &store.memories[i].memory;
        let me = self.limit(1);
        let mut got = match m.find(&me) {
            Ok(v) => v,
            Err(e) => {
                return Err(e);
            },
        };
        if got.len() > 0 {
            let first = got.remove(0);
            let d = match m.decode_record(&first) {
                Ok(d) => d,
                Err(e) => {
                    return Err(e);
                },
            };
            Ok(Some(d))
        } else if m.schema().is_one() {
            Ok(Some(m.schema().empty_item().duplicate()))
        } else {
            Ok(None)
        }
    }

    /// Runs the query and returns how many records it cuts out.  Success
    /// is owed exactly when the type is registered and every condition
    /// names a declared field.
    pub fn count(self, store: &Store, struct_name: &Vec<char>) -> (r: Result<usize, Error>)
        ensures
            entry_idx(store.memories@, struct_name@).is_none() ==> r == Result::<
                usize,
                Error,
            >::Err(Error::Serialize),
            entry_idx(store.memories@, struct_name@).is_some() ==> ({
                let m = store.memories@[entry_idx(store.memories@, struct_name@).unwrap()].memory;
                &&& (r.is_ok() <==> query_fields_known(
                    self.conditions@,
                    m.spec_schema().spec_columns(),
                ))
                &&& (r.is_err() ==> r.get_Err_0() == Error::FieldNotFound)
                &&& (r.is_ok() ==> r.get_Ok_0() == m.spec_result_ids(self).len())
            }),
    {
        let pos = store.entry_pos(struct_name);
        match pos {
            Some(i) => store.memories[i].memory.count(&self),
            None => Err(Error::Serialize),
        }
    }

    /// Removes every record the query matches and returns them, decoded,
    /// in result order; afterwards none of the matched ids is stored.
    pub fn remove(self, store: &mut Store, struct_name: &Vec<char>) -> (r: Result<
        Vec<Value>,
        Error,
    >)
        ensures
            entry_idx(old(store).memories@, struct_name@).is_none() ==> r == Result::<
                Vec<Value>,
                Error,
            >::Err(Error::Serialize) && *final(store) == *old(store),
            entry_idx(old(store).memories@, struct_name@).is_some() ==> ({
                let e = entry_idx(old(store).memories@, struct_name@).unwrap();
                let m = old(store).memories@[e].memory;
                let fm = final(store).memories@[e].memory;
                &&& final(store).memories@.len() == old(store).memories@.len()
                &&& (forall|j: int|
                    0 <= j < old(store).memories@.len() && j != e ==> final(store).memories@[j]
                        == old(store).memories@[j])
                &&& final(store).memories@[e].name == old(store).memories@[e].name
                &&& final(store).config == old(store).config
                &&& (!query_fields_known(self.conditions@, m.spec_schema().spec_columns()) ==> r
                    == Result::<Vec<Value>, Error>::Err(Error::FieldNotFound) && fm == m)
                &&& (r.is_ok() ==> query_fields_known(
                    self.conditions@,
                    m.spec_schema().spec_columns(),
                ) && r.get_Ok_0()@.len() == m.spec_result_ids(self).len() && (forall|idv: Seq<char>|
                    #[trigger] fm.tree_contains(idv) <==> (m.tree_contains(idv)
                        && !m.spec_result_ids(self).contains(idv))) && (forall|j: int, w: Vs|
                    #![trigger m.spec_result_ids(self)[j], crate::encoder::spec_encode(w, m.spec_schema().spec_shape(), m.spec_schema().spec_columns())]
                    0 <= j < r.get_Ok_0()@.len() && crate::schema::conforms(
                        w,
                        m.spec_schema().spec_shape(),
                    ) && m.spec_rec_of(m.spec_result_ids(self)[j]) == crate::encoder::spec_encode(
                        w,
                        m.spec_schema().spec_shape(),
                        m.spec_schema().spec_columns(),
                    ) ==> (r.get_Ok_0()@[j])@ == w))
            }),
    {
        let pos = store.entry_pos(struct_name);
        let i = match pos {
            Some(i) => i,
            None => {
                return Err(Error::Serialize);
            },
        };
        let ghost mm = old(store).memories@[i as int].memory;
        let m = &mut store.memories[i].memory;
        let encoded = match m.delete(&self) {
            Ok(v) => v,
            Err(e) => {
                return Err(e);
            },
        };
        let m2 = &store.memories[i].memory;
        let mut out: Vec<Value> = Vec::new();
        let mut k: usize = 0;
        while k < encoded.len()
            invariant
                0 <= k <= encoded@.len(),
                0 <= i < store.memories@.len(),
                store.memories@[i as int].memory.spec_schema() == mm.spec_schema(),
                encoded@.len() == mm.spec_result_ids(self).len(),
                forall|j: int|
                    0 <= j < encoded@.len() ==> (#[trigger] encoded@[j]@) == mm.spec_rec_of(
                        mm.spec_result_ids(self)[j],
                    ),
                out@.len() == k,
                forall|j: int, w: Vs|
                    #![trigger mm.spec_result_ids(self)[j], crate::encoder::spec_encode(w, mm.spec_schema().spec_shape(), mm.spec_schema().spec_columns())]
                    0 <= j < k && crate::schema::conforms(w, mm.spec_schema().spec_shape())
                        && mm.spec_rec_of(mm.spec_result_ids(self)[j])
                        == crate::encoder::spec_encode(
                        w,
                        mm.spec_schema().spec_shape(),
                        mm.spec_schema().spec_columns(),
                    ) ==> (out@[j])@ == w,
            decreases encoded@.len() - k,
        {
            let m3 = &store.memories[i].memory;
            let d = match m3.decode_record(&encoded[k]) {
                Ok(d) => d,
                Err(_) => encoded[k].duplicate(),
            };
            out.push(d);
            k = k + 1;
        }
        Ok(out)
    }

    /// Applies a change to every record the query matches, returning how
    /// many changed.  Success is owed exactly when the type is
    /// registered and every condition names a declared field.
    pub fn update<F: Fn(Value) -> Value>(
        self,
        store: &mut Store,
        struct_name: &Vec<char>,
        updater: F,
    ) -> (r: Result<usize, Error>)
        requires
            forall|v: Value| #[trigger] updater.requires((v,)),
        ensures
            entry_idx(old(store).memories@, struct_name@).is_none() ==> r == Result::<
                usize,
                Error,
            >::Err(Error::Serialize) && *final(store) == *old(store),
            entry_idx(old(store).memories@, struct_name@).is_some() ==> ({
                let e = entry_idx(old(store).memories@, struct_name@).unwrap();
                let m = old(store).memories@[e].memory;
                &&& (r.is_ok() <==> query_fields_known(
                    self.conditions@,
                    m.spec_schema().spec_columns(),
                ))
                &&& (r.is_err() ==> r.get_Err_0() == Error::FieldNotFound)
                &&& (r.is_ok() ==> r.get_Ok_0() == m.spec_result_ids(self).len())
            }),
    {
        let pos = store.entry_pos(struct_name);
        match pos {
            Some(i) => {
                let m = &mut store.memories[i].memory;
                m.update(&self, updater)
            },
            None => Err(Error::Serialize),
        }
    }

    /// Replaces the record stored under the query's id (or the record's
    /// own) with the given record.  A type without an identity field
    /// refuses; a call carrying no id at all is refused too.
    pub fn replace(self, store: &mut Store, struct_name: &Vec<char>, item: Value) -> (r: Result<
        (),
        Error,
    >)
        ensures
            entry_idx(old(store).memories@, struct_name@).is_none() ==> r == Result::<
                (),
                Error,
            >::Err(Error::Serialize) && *final(store) == *old(store),
            entry_idx(old(store).memories@, struct_name@).is_some() ==> ({
                let e = entry_idx(old(store).memories@, struct_name@).unwrap();
                let m = old(store).memories@[e].memory;
                let fm = final(store).memories@[e].memory;
                let item2 = if self.id.is_some() {
                    crate::item::with_own_id(item@, self.id.unwrap()@)
                } else {
                    item@
                };
                &&& final(store).config == old(store).config
                &&& (!m.spec_schema().spec_has_id() ==> r == Result::<(), Error>::Err(
                    Error::CanNotReplace,
                ) && fm == m)
                &&& (m.spec_schema().spec_has_id() && self.id.is_none() && crate::item::own_id(
                    item@,
                ).is_none() ==> r == Result::<(), Error>::Err(Error::RequiresId) && fm == m)
                &&& (m.spec_schema().spec_has_id() && (self.id.is_some() || crate::item::own_id(
                    item@,
                ).is_some()) ==> {
                    &&& (r.is_ok() <==> crate::schema::conforms(
                        item2,
                        m.spec_schema().spec_shape(),
                    ))
                    &&& (r.is_ok() && self.id.is_some() && self.id.unwrap()@.len() > 0
                        ==> fm.items().len() > 0 && fm.items().last() == (
                        self.id.unwrap()@,
                        crate::encoder::spec_encode(
                            item2,
                            m.spec_schema().spec_shape(),
                            m.spec_schema().spec_columns(),
                        ),
                    ))
                })
            }),
    {
        let pos = store.entry_pos(struct_name);
        let i = match pos {
            Some(i) => i,
            None => {
                return Err(Error::Serialize);
            },
        };
        let has_own = crate::item::has_own_id(&item);
        let m = &mut store.memories[i].memory;
        if !m.schema().has_id() {
            return Err(Error::CanNotReplace);
        }
        if self.id.is_none() && !has_own {
            return Err(Error::RequiresId);
        }
        m.replace(&self, item)
    }
}

} // verus!
