//! The path/value codec: flattens a record of the declared shape into one
//! scalar column per leaf path, keyed by the stable field ids, and
//! rebuilds the record from its columns.

use vstd::prelude::*;
use crate::value::Value;
use crate::value::Entry;
use crate::value::Vs;
use crate::value::lex_lt;
use crate::value::lex_compare;
use crate::value::clone_chars;
use crate::schema::FieldType;
use crate::schema::FieldDecl;
use crate::schema::Schema;
use crate::schema::ColumnDef;
use crate::schema::conforms;
use crate::schema::struct_conforms;
use crate::schema::shape_wf;
use crate::schema::struct_fields_wf;
use crate::schema::leaf_count;
use crate::schema::struct_leaf_count;
use crate::error::Error;

verus! {

/// The scalar columns a value of a shape flattens into, one per leaf
/// path, in leaf order.  A struct contributes its fields' columns in
/// order; an array or map of structs wraps each of its element's columns
/// in one array or map layer; anything else is one column, stored whole.
pub open spec fn leaf_cols(v: Vs, shape: FieldType) -> Seq<Vs>
    decreases shape, 0nat,
{
    match shape {
        FieldType::Atomic => seq![v],
        FieldType::Array(inner) => if *inner is Struct {
            Seq::new(
                leaf_count(*inner),
                |j: int|
                    Vs::Arr(
                        Seq::new(
                            v->Arr_0.len(),
                            |k: int|
                                if 0 <= k < v->Arr_0.len() && 0 <= j < leaf_count(*inner) {
                                    leaf_cols(v->Arr_0[k], *inner)[j]
                                } else {
                                    Vs::Null
                                },
                        ),
                    ),
            )
        } else {
            seq![v]
        },
        FieldType::Object(inner) => if *inner is Struct {
            Seq::new(
                leaf_count(*inner),
                |j: int|
                    Vs::Obj(
                        Seq::new(
                            v->Obj_0.len(),
                            |k: int|
                                if 0 <= k < v->Obj_0.len() && 0 <= j < leaf_count(*inner) {
                                    (v->Obj_0[k].0, leaf_cols(v->Obj_0[k].1, *inner)[j])
                                } else {
                                    (Seq::empty(), Vs::Null)
                                },
                        ),
                    ),
            )
        } else {
            seq![v]
        },
        FieldType::Struct(fields) => struct_leaf_cols(fields@, v->Obj_0, 0),
    }
}

pub open spec fn struct_leaf_cols(
    fields: Seq<FieldDecl>,
    entries: Seq<(Seq<char>, Vs)>,
    i: int,
) -> Seq<Vs>
    decreases fields, fields.len() - i,
{
    if i < 0 || i >= fields.len() {
        Seq::empty()
    } else {
        leaf_cols(entries[i].1, fields[i].shape) + struct_leaf_cols(fields, entries, i + 1)
    }
}

/// The columns of the fields before index `i`, from the front.
pub open spec fn struct_leaf_cols_front(
    fields: Seq<FieldDecl>,
    entries: Seq<(Seq<char>, Vs)>,
    i: int,
) -> Seq<Vs>
    decreases i,
{
    if i <= 0 {
        Seq::empty()
    } else {
        struct_leaf_cols_front(fields, entries, i - 1) + leaf_cols(
            entries[i - 1].1,
            fields[i - 1].shape,
        )
    }
}

pub proof fn lemma_struct_leaf_cols_split(
    fields: Seq<FieldDecl>,
    entries: Seq<(Seq<char>, Vs)>,
    i: int,
)
    requires
        0 <= i <= fields.len(),
    ensures
        struct_leaf_cols_front(fields, entries, i) + struct_leaf_cols(fields, entries, i)
            == struct_leaf_cols(fields, entries, 0),
    decreases i,
{
    if i == 0 {
        assert(struct_leaf_cols_front(fields, entries, 0) + struct_leaf_cols(fields, entries, 0)
            =~= struct_leaf_cols(fields, entries, 0));
    } else {
        lemma_struct_leaf_cols_split(fields, entries, i - 1);
        assert(struct_leaf_cols_front(fields, entries, i) + struct_leaf_cols(fields, entries, i)
            =~= struct_leaf_cols_front(fields, entries, i - 1) + struct_leaf_cols(
            fields,
            entries,
            i - 1,
        ));
    }
}

/// A conforming value has exactly one column per leaf.
pub proof fn lemma_leaf_cols_count(v: Vs, shape: FieldType)
    requires
        conforms(v, shape),
    ensures
        leaf_cols(v, shape).len() == leaf_count(shape),
    decreases shape, 0nat,
{
    match shape {
        FieldType::Atomic => {},
        FieldType::Array(inner) => {},
        FieldType::Object(inner) => {},
        FieldType::Struct(fields) => {
            lemma_struct_leaf_cols_count(fields@, v->Obj_0, 0);
        },
    }
}

pub proof fn lemma_struct_leaf_cols_count(
    fields: Seq<FieldDecl>,
    entries: Seq<(Seq<char>, Vs)>,
    i: int,
)
    requires
        struct_conforms(fields, entries, i),
    ensures
        struct_leaf_cols(fields, entries, i).len() == struct_leaf_count(fields, i),
    decreases fields, fields.len() - i,
{
    if 0 <= i < fields.len() {
        lemma_leaf_cols_count(entries[i].1, fields[i].shape);
        lemma_struct_leaf_cols_count(fields, entries, i + 1);
    }
}

/// The entries of a flat object after filing one column under its id:
/// strictly sorted by id, an equal id replaced in place.
pub open spec fn obj_insert_sorted(
    es: Seq<(Seq<char>, Vs)>,
    k: Seq<char>,
    val: Vs,
) -> Seq<(Seq<char>, Vs)>
    decreases es.len(),
{
    if es.len() == 0 {
        seq![(k, val)]
    } else if lex_lt(k, es[0].0) {
        seq![(k, val)] + es
    } else if k == es[0].0 {
        seq![(k, val)] + es.drop_first()
    } else {
        seq![es[0]] + obj_insert_sorted(es.drop_first(), k, val)
    }
}

/// The flat entries of the first `n` columns, filed in order.
pub open spec fn enc_fold(
    cols: Seq<ColumnDef>,
    vals: Seq<Vs>,
    n: int,
) -> Seq<(Seq<char>, Vs)>
    decreases n,
{
    if n <= 0 {
        Seq::empty()
    } else {
        obj_insert_sorted(enc_fold(cols, vals, n - 1), cols[n - 1].id@, vals[n - 1])
    }
}

/// The flat encoded form of a conforming record: one entry per leaf,
/// keyed by the leaf's stable id, sorted by id.
pub open spec fn spec_encode(v: Vs, shape: FieldType, cols: Seq<ColumnDef>) -> Vs {
    Vs::Obj(enc_fold(cols, leaf_cols(v, shape), cols.len() as int))
}

/// The view of a built entry list.
pub open spec fn ev(es: Seq<Entry>) -> Seq<(Seq<char>, Vs)> {
    Seq::new(
        es.len(),
        |i: int|
            if 0 <= i < es.len() {
                (es[i].key@, es[i].value@)
            } else {
                (Seq::empty(), Vs::Null)
            },
    )
}

/// Files one column into a flat object under construction, keeping the
/// entries sorted by id.
pub fn obj_set(es: &mut Vec<Entry>, k: Vec<char>, val: Value)
    ensures
        ev(final(es)@) =~= obj_insert_sorted(ev(old(es)@), k@, val@),
{
    let ghost s0 = ev(es@);
    let mut p: usize = 0;
    let mut stop = false;
    while p < es.len() && !stop
        invariant
            0 <= p <= es@.len(),
            es@ == old(es)@,
            s0 == ev(es@),
            stop ==> p < es@.len() && !lex_lt(s0[p as int].0, k@),
            forall|j: int| 0 <= j < p ==> lex_lt((#[trigger] s0[j]).0, k@),
        decreases es@.len() - p, (if stop { 0int } else { 1int }),
    {
        if lex_compare(&es[p].key, &k) == -1 {
            proof {
                assert(s0[p as int].0 == es@[p as int].key@);
            }
            p = p + 1;
        } else {
            stop = true;
        }
    }
    proof {
        lemma_obj_insert_at(s0, k@, val@, p as int);
    }
    if stop {
        let same = lex_compare(&es[p].key, &k) == 0;
        if same {
            let _old = es.remove(p);
            es.insert(p, Entry { key: k, value: val });
            proof {
                assert(ev(es@) =~= s0.take(p as int) + seq![(k@, val@)] + s0.skip(p + 1));
            }
        } else {
            es.insert(p, Entry { key: k, value: val });
            proof {
                assert(ev(es@) =~= s0.take(p as int) + seq![(k@, val@)] + s0.skip(p as int));
            }
        }
    } else {
        es.insert(p, Entry { key: k, value: val });
        proof {
            assert(ev(es@) =~= s0.take(p as int) + seq![(k@, val@)] + s0.skip(p as int));
        }
    }
}

/// Where the scan stops is where the sorted insertion lands: before the
/// first entry not below the id, replacing it when the ids are equal.
proof fn lemma_obj_insert_at(s: Seq<(Seq<char>, Vs)>, k: Seq<char>, val: Vs, p: int)
    requires
        0 <= p <= s.len(),
        forall|j: int| 0 <= j < p ==> lex_lt((#[trigger] s[j]).0, k),
        p < s.len() ==> !lex_lt(s[p].0, k),
    ensures
        p < s.len() && s[p].0 == k ==> obj_insert_sorted(s, k, val) =~= s.take(p) + seq![(k, val)]
            + s.skip(p + 1),
        !(p < s.len() && s[p].0 == k) ==> obj_insert_sorted(s, k, val) =~= s.take(p) + seq![
            (k, val),
        ] + s.skip(p),
    decreases p,
{
    if s.len() == 0 {
    } else if p == 0 {
        crate::value::lemma_lex_trichotomy(k, s[0].0);
        if s[0].0 == k {
        } else {
            assert(lex_lt(k, s[0].0));
            assert(s.take(0) =~= Seq::<(Seq<char>, Vs)>::empty());
            assert(s.skip(0) =~= s);
        }
    } else {
        assert(lex_lt(s[0].0, k));
        crate::value::lemma_lex_trichotomy(k, s[0].0);
        assert(!lex_lt(k, s[0].0) && k != s[0].0);
        assert forall|j: int| 0 <= j < p - 1 implies lex_lt(
            (#[trigger] s.drop_first()[j]).0,
            k,
        ) by {
            assert(s[j + 1].0 == s.drop_first()[j].0);
            assert(lex_lt(s[j + 1].0, k));
        }
        if p - 1 < s.drop_first().len() {
            assert(s.drop_first()[p - 1] == s[p]);
        }
        lemma_obj_insert_at(s.drop_first(), k, val, p - 1);
        assert(obj_insert_sorted(s, k, val) == seq![s[0]] + obj_insert_sorted(
            s.drop_first(),
            k,
            val,
        ));
        assert(s.drop_first().take(p - 1) =~= s.take(p).drop_first());
        if p < s.len() && s[p].0 == k {
            assert(s.drop_first().skip(p) =~= s.skip(p + 1));
            assert(seq![s[0]] + (s.take(p).drop_first() + seq![(k, val)] + s.skip(p + 1))
                =~= s.take(p) + seq![(k, val)] + s.skip(p + 1));
        } else {
            assert(s.drop_first().skip(p - 1) =~= s.skip(p));
            assert(seq![s[0]] + (s.take(p).drop_first() + seq![(k, val)] + s.skip(p)) =~= s.take(
                p,
            ) + seq![(k, val)] + s.skip(p));
        }
    }
}


/// Checks that a value has the declared shape.
pub fn check_conforms(v: &Value, shape: &FieldType) -> (b: bool)
    ensures
        b == conforms(v@, *shape),
    decreases *shape,
{
    match shape {
        FieldType::Atomic => true,
        FieldType::Array(inner) => {
            if !crate::schema::is_struct_shape(inner) {
                true
            } else {
                match v {
                    Value::Arr(items) => {
                        let mut k: usize = 0;
                        let mut ok = true;
                        while k < items.len() && ok
                            invariant
                                *shape is Array,
                                shape->Array_0 == *inner,
                                **inner is Struct,
                                v is Arr,
                                *items == v->Arr_0,
                                v@->Arr_0.len() == items@.len(),
                                forall|m: int|
                                    0 <= m < items@.len() ==> #[trigger] v@->Arr_0[m] == items@[m]@,
                                0 <= k <= items@.len(),
                                ok ==> forall|m: int|
                                    0 <= m < k ==> conforms(#[trigger] v@->Arr_0[m], **inner),
                                !ok ==> !conforms(v@, *shape),
                            decreases items@.len() - k, (if ok { 1int } else { 0int }),
                        {
                            proof {
                                assert(decreases_to!(*shape => shape->Array_0));
                            }
                            if !check_conforms(&items[k], inner) {
                                proof {
                                    assert(!conforms(v@->Arr_0[k as int], **inner));
                                }
                                ok = false;
                            } else {
                                k = k + 1;
                            }
                        }
                        ok
                    },
                    _ => false,
                }
            }
        },
        FieldType::Object(inner) => {
            if !crate::schema::is_struct_shape(inner) {
                true
            } else {
                match v {
                    Value::Obj(entries) => {
                        let mut k: usize = 0;
                        let mut ok = true;
                        while k < entries.len() && ok
                            invariant
                                *shape is Object,
                                shape->Object_0 == *inner,
                                **inner is Struct,
                                v is Obj,
                                *entries == v->Obj_0,
                                v@->Obj_0.len() == entries@.len(),
                                forall|m: int|
                                    0 <= m < entries@.len() ==> #[trigger] v@->Obj_0[m] == (
                                    entries@[m].key@,
                                    entries@[m].value@,
                                    ),
                                0 <= k <= entries@.len(),
                                ok ==> forall|m: int|
                                    0 <= m < k ==> conforms(#[trigger] v@->Obj_0[m].1, **inner),
                                !ok ==> !conforms(v@, *shape),
                            decreases entries@.len() - k, (if ok { 1int } else { 0int }),
                        {
                            proof {
                                assert(decreases_to!(*shape => shape->Object_0));
                            }
                            if !check_conforms(&entries[k].value, inner) {
                                proof {
                                    assert(!conforms(v@->Obj_0[k as int].1, **inner));
                                }
                                ok = false;
                            } else {
                                k = k + 1;
                            }
                        }
                        ok
                    },
                    _ => false,
                }
            }
        },
        FieldType::Struct(fields) => {
            match v {
                Value::Obj(entries) => {
                    if entries.len() != fields.len() {
                        proof {
                            assert(v@->Obj_0.len() == entries@.len());
                        }
                        return false;
                    }
                    let mut k: usize = fields.len();
                    let mut ok = true;
                    while k > 0 && ok
                        invariant
                            *shape is Struct,
                            shape->Struct_0 == *fields,
                            v is Obj,
                            *entries == v->Obj_0,
                            v@->Obj_0.len() == entries@.len(),
                            entries@.len() == fields@.len(),
                            forall|m: int|
                                0 <= m < entries@.len() ==> #[trigger] v@->Obj_0[m] == (
                                entries@[m].key@,
                                entries@[m].value@,
                                ),
                            0 <= k <= fields@.len(),
                            ok ==> struct_conforms(fields@, v@->Obj_0, k as int),
                            !ok ==> !conforms(v@, *shape),
                        decreases k, (if ok { 1int } else { 0int }),
                    {
                        let k1 = k - 1;
                        proof {
                            assert(decreases_to!(*shape => shape->Struct_0));
                            assert(decreases_to!(shape->Struct_0 => shape->Struct_0@));
                            assert(decreases_to!(shape->Struct_0@ => shape->Struct_0@[k1 as int]));
                            assert(decreases_to!(shape->Struct_0@[k1 as int] => shape->Struct_0@[k1 as int].shape));
                        }
                        if lex_compare(&entries[k1].key, &fields[k1].name) != 0 {
                            proof {
                                lemma_struct_conforms_fail(fields@, v@->Obj_0, k1 as int);
                            }
                            ok = false;
                        } else if !check_conforms(&entries[k1].value, &fields[k1].shape) {
                            proof {
                                lemma_struct_conforms_fail(fields@, v@->Obj_0, k1 as int);
                            }
                            ok = false;
                        } else {
                            k = k1;
                        }
                    }
                    ok
                },
                _ => false,
            }
        },
    }
}

/// A mismatch at one field refutes conformance.
proof fn lemma_struct_conforms_fail(fields: Seq<FieldDecl>, entries: Seq<(Seq<char>, Vs)>, k: int)
    requires
        0 <= k < fields.len(),
        k < entries.len() ==> (entries[k].0 != fields[k].name@ || !conforms(
            entries[k].1,
            fields[k].shape,
        )),
    ensures
        !struct_conforms(fields, entries, 0),
    decreases k,
{
    if struct_conforms(fields, entries, 0) {
        lemma_struct_conforms_index(fields, entries, 0, k);
    }
}

/// Conformance from a position covers every later field.
proof fn lemma_struct_conforms_index(
    fields: Seq<FieldDecl>,
    entries: Seq<(Seq<char>, Vs)>,
    i: int,
    k: int,
)
    requires
        struct_conforms(fields, entries, i),
        0 <= i <= k < fields.len(),
    ensures
        k < entries.len(),
        entries[k].0 == fields[k].name@,
        conforms(entries[k].1, fields[k].shape),
    decreases k - i,
{
    if i < k {
        lemma_struct_conforms_index(fields, entries, i + 1, k);
    }
}



/// Flattens a conforming value into its leaf columns, in leaf order.
pub fn encode_cols(v: &Value, shape: &FieldType) -> (out: Vec<Value>)
    requires
        conforms(v@, *shape),
        leaf_count(*shape) <= usize::MAX,
    ensures
        out@.len() == leaf_cols(v@, *shape).len(),
        forall|j: int| 0 <= j < out@.len() ==> (#[trigger] out@[j]@) == leaf_cols(v@, *shape)[j],
    decreases *shape,
{
    match shape {
        FieldType::Atomic => {
            let mut out: Vec<Value> = Vec::new();
            out.push(v.duplicate());
            out
        },
        FieldType::Array(inner) => {
            if !crate::schema::is_struct_shape(inner) {
                let mut out: Vec<Value> = Vec::new();
                out.push(v.duplicate());
                out
            } else {
                match v {
                    Value::Arr(items) => {
                        let mut subs: Vec<Vec<Value>> = Vec::new();
                        let mut k: usize = 0;
                        while k < items.len()
                            invariant
                                *shape is Array,
                                shape->Array_0 == *inner,
                                **inner is Struct,
                                v is Arr,
                                *items == v->Arr_0,
                                conforms(v@, *shape),
                                leaf_count(*shape) <= usize::MAX,
                                v@->Arr_0.len() == items@.len(),
                                forall|m: int|
                                    0 <= m < items@.len() ==> #[trigger] v@->Arr_0[m] == items@[m]@,
                                0 <= k <= items@.len(),
                                subs@.len() == k,
                                forall|m: int|
                                    0 <= m < k ==> (#[trigger] subs@[m])@.len() == leaf_cols(
                                        v@->Arr_0[m],
                                        **inner,
                                    ).len(),
                                forall|m: int, j: int|
                                    0 <= m < k && 0 <= j < subs@[m]@.len()
                                        ==> (#[trigger] subs@[m]@[j])@ == leaf_cols(
                                        v@->Arr_0[m],
                                        **inner,
                                    )[j],
                            decreases items@.len() - k,
                        {
                            proof {
                                assert(decreases_to!(*shape => shape->Array_0));
                                assert(conforms(v@->Arr_0[k as int], **inner));
                            }
                            let sub = encode_cols(&items[k], inner);
                            subs.push(sub);
                            k = k + 1;
                        }
                        let cnt = crate::schema::count_leaves(inner);
                        let ghost lc = leaf_cols(v@, *shape);
                        proof {
                            assert(lc.len() == leaf_count(**inner));
                            assert forall|m: int| 0 <= m < items@.len() implies leaf_cols(
                                v@->Arr_0[m],
                                **inner,
                            ).len() == leaf_count(**inner) by {
                                lemma_leaf_cols_count(v@->Arr_0[m], **inner);
                            }
                        }
                        let mut out: Vec<Value> = Vec::new();
                        let mut j: usize = 0;
                        while j < cnt
                            invariant
                                *shape is Array,
                                shape->Array_0 == *inner,
                                **inner is Struct,
                                v is Arr,
                                conforms(v@, *shape),
                                cnt == leaf_count(**inner),
                                lc == leaf_cols(v@, *shape),
                                lc.len() == leaf_count(**inner),
                                subs@.len() == v@->Arr_0.len(),
                                forall|m: int|
                                    0 <= m < subs@.len() ==> (#[trigger] subs@[m])@.len()
                                        == leaf_count(**inner),
                                forall|m: int, jj: int|
                                    0 <= m < subs@.len() && 0 <= jj < subs@[m]@.len()
                                        ==> (#[trigger] subs@[m]@[jj])@ == leaf_cols(
                                        v@->Arr_0[m],
                                        **inner,
                                    )[jj],
                                0 <= j <= cnt,
                                out@.len() == j,
                                forall|jj: int|
                                    0 <= jj < j ==> (#[trigger] out@[jj]@) == lc[jj],
                            decreases cnt - j,
                        {
                            let mut col: Vec<Value> = Vec::new();
                            let mut m: usize = 0;
                            while m < subs.len()
                                invariant
                                    0 <= m <= subs@.len(),
                                    j < cnt,
                                    cnt == leaf_count(**inner),
                                    col@.len() == m,
                                    forall|mm: int|
                                        0 <= mm < subs@.len() ==> (#[trigger] subs@[mm])@.len()
                                            == leaf_count(**inner),
                                    forall|mm: int, jj: int|
                                        0 <= mm < subs@.len() && 0 <= jj < subs@[mm]@.len()
                                            ==> (#[trigger] subs@[mm]@[jj])@ == leaf_cols(
                                            v@->Arr_0[mm],
                                            **inner,
                                        )[jj],
                                    forall|mm: int|
                                        0 <= mm < m ==> (#[trigger] col@[mm]@) == leaf_cols(
                                            v@->Arr_0[mm],
                                            **inner,
                                        )[j as int],
                                decreases subs@.len() - m,
                            {
                                col.push(subs[m][j].duplicate());
                                m = m + 1;
                            }
                            let cv = Value::Arr(col);
                            proof {
                                assert(lc[j as int] is Arr);
                                assert(lc[j as int]->Arr_0.len() == v@->Arr_0.len());
                                assert forall|kk: int| 0 <= kk < col@.len() implies #[trigger] cv@->Arr_0[kk]
                                    == lc[j as int]->Arr_0[kk] by {
                                    assert(cv@->Arr_0[kk] == col@[kk]@);
                                    assert(col@[kk]@ == leaf_cols(v@->Arr_0[kk], **inner)[j as int]);
                                }
                                assert(cv@->Arr_0 =~= lc[j as int]->Arr_0);
                                assert(cv@ == lc[j as int]);
                            }
                            out.push(cv);
                            j = j + 1;
                        }
                        out
                    },
                    _ => {
                        proof {
                            assert(false);
                        }
                        Vec::new()
                    },
                }
            }
        },
        FieldType::Object(inner) => {
            if !crate::schema::is_struct_shape(inner) {
                let mut out: Vec<Value> = Vec::new();
                out.push(v.duplicate());
                out
            } else {
                match v {
                    Value::Obj(entries) => {
                        let mut subs: Vec<Vec<Value>> = Vec::new();
                        let mut k: usize = 0;
                        while k < entries.len()
                            invariant
                                *shape is Object,
                                shape->Object_0 == *inner,
                                **inner is Struct,
                                v is Obj,
                                *entries == v->Obj_0,
                                conforms(v@, *shape),
                                leaf_count(*shape) <= usize::MAX,
                                v@->Obj_0.len() == entries@.len(),
                                forall|m: int|
                                    0 <= m < entries@.len() ==> #[trigger] v@->Obj_0[m] == (
                                    entries@[m].key@,
                                    entries@[m].value@,
                                    ),
                                0 <= k <= entries@.len(),
                                subs@.len() == k,
                                forall|m: int|
                                    0 <= m < k ==> (#[trigger] subs@[m])@.len() == leaf_cols(
                                        v@->Obj_0[m].1,
                                        **inner,
                                    ).len(),
                                forall|m: int, j: int|
                                    0 <= m < k && 0 <= j < subs@[m]@.len()
                                        ==> (#[trigger] subs@[m]@[j])@ == leaf_cols(
                                        v@->Obj_0[m].1,
                                        **inner,
                                    )[j],
                            decreases entries@.len() - k,
                        {
                            proof {
                                assert(decreases_to!(*shape => shape->Object_0));
                                assert(conforms(v@->Obj_0[k as int].1, **inner));
                            }
                            let sub = encode_cols(&entries[k].value, inner);
                            subs.push(sub);
                            k = k + 1;
                        }
                        let cnt = crate::schema::count_leaves(inner);
                        let ghost lc = leaf_cols(v@, *shape);
                        proof {
                            assert(lc.len() == leaf_count(**inner));
                            assert forall|m: int| 0 <= m < entries@.len() implies leaf_cols(
                                v@->Obj_0[m].1,
                                **inner,
                            ).len() == leaf_count(**inner) by {
                                lemma_leaf_cols_count(v@->Obj_0[m].1, **inner);
                            }
                        }
                        let mut out: Vec<Value> = Vec::new();
                        let mut j: usize = 0;
                        while j < cnt
                            invariant
                                *shape is Object,
                                shape->Object_0 == *inner,
                                **inner is Struct,
                                v is Obj,
                                *entries == v->Obj_0,
                                conforms(v@, *shape),
                                v@->Obj_0.len() == entries@.len(),
                                forall|m: int|
                                    0 <= m < entries@.len() ==> #[trigger] v@->Obj_0[m] == (
                                    entries@[m].key@,
                                    entries@[m].value@,
                                    ),
                                cnt == leaf_count(**inner),
                                lc == leaf_cols(v@, *shape),
                                lc.len() == leaf_count(**inner),
                                subs@.len() == v@->Obj_0.len(),
                                forall|m: int|
                                    0 <= m < subs@.len() ==> (#[trigger] subs@[m])@.len()
                                        == leaf_count(**inner),
                                forall|m: int, jj: int|
                                    0 <= m < subs@.len() && 0 <= jj < subs@[m]@.len()
                                        ==> (#[trigger] subs@[m]@[jj])@ == leaf_cols(
                                        v@->Obj_0[m].1,
                                        **inner,
                                    )[jj],
                                0 <= j <= cnt,
                                out@.len() == j,
                                forall|jj: int|
                                    0 <= jj < j ==> (#[trigger] out@[jj]@) == lc[jj],
                            decreases cnt - j,
                        {
                            let mut col: Vec<Entry> = Vec::new();
                            let mut m: usize = 0;
                            while m < subs.len()
                                invariant
                                    0 <= m <= subs@.len(),
                                    j < cnt,
                                    cnt == leaf_count(**inner),
                                    v is Obj,
                                    *entries == v->Obj_0,
                                    v@->Obj_0.len() == entries@.len(),
                                    subs@.len() == v@->Obj_0.len(),
                                    forall|mm: int|
                                        0 <= mm < entries@.len() ==> #[trigger] v@->Obj_0[mm] == (
                                        entries@[mm].key@,
                                        entries@[mm].value@,
                                        ),
                                    col@.len() == m,
                                    forall|mm: int|
                                        0 <= mm < subs@.len() ==> (#[trigger] subs@[mm])@.len()
                                            == leaf_count(**inner),
                                    forall|mm: int, jj: int|
                                        0 <= mm < subs@.len() && 0 <= jj < subs@[mm]@.len()
                                            ==> (#[trigger] subs@[mm]@[jj])@ == leaf_cols(
                                            v@->Obj_0[mm].1,
                                            **inner,
                                        )[jj],
                                    forall|mm: int|
                                        0 <= mm < m ==> (#[trigger] col@[mm].key@) == v@->Obj_0[mm].0
                                            && col@[mm].value@ == leaf_cols(
                                            v@->Obj_0[mm].1,
                                            **inner,
                                        )[j as int],
                                decreases subs@.len() - m,
                            {
                                let ghost pre = col@;
                                let e = Entry {
                                    key: clone_chars(&entries[m].key),
                                    value: subs[m][j].duplicate(),
                                };
                                col.push(e);
                                proof {
                                    assert(col@[m as int].key@ == entries@[m as int].key@);
                                    assert(v@->Obj_0[m as int].0 == entries@[m as int].key@);
                                    assert(col@[m as int].value@ == subs@[m as int]@[j as int]@);
                                    assert(col@[m as int].value@ == leaf_cols(
                                        v@->Obj_0[m as int].1,
                                        **inner,
                                    )[j as int]);
                                    assert forall|mm: int|
                                        0 <= mm < m + 1 implies (#[trigger] col@[mm].key@)
                                        == v@->Obj_0[mm].0 && col@[mm].value@ == leaf_cols(
                                        v@->Obj_0[mm].1,
                                        **inner,
                                    )[j as int] by {
                                        if mm < m as int {
                                            assert(col@[mm] == pre[mm]);
                                        }
                                    }
                                }
                                m = m + 1;
                            }
                            let cv = Value::Obj(col);
                            proof {
                                assert(lc[j as int] is Obj);
                                assert(lc[j as int]->Obj_0.len() == v@->Obj_0.len());
                                assert forall|kk: int| 0 <= kk < col@.len() implies #[trigger] cv@->Obj_0[kk]
                                    == lc[j as int]->Obj_0[kk] by {
                                    assert(cv@->Obj_0[kk] == (col@[kk].key@, col@[kk].value@));
                                    assert(col@[kk].key@ == v@->Obj_0[kk].0);
                                    assert(col@[kk].value@ == leaf_cols(v@->Obj_0[kk].1, **inner)[j as int]);
                                }
                                assert(cv@->Obj_0 =~= lc[j as int]->Obj_0);
                                assert(cv@ == lc[j as int]);
                            }
                            out.push(cv);
                            j = j + 1;
                        }
                        out
                    },
                    _ => {
                        proof {
                            assert(false);
                        }
                        Vec::new()
                    },
                }
            }
        },
        FieldType::Struct(fields) => {
            match v {
                Value::Obj(entries) => {
                    let mut out: Vec<Value> = Vec::new();
                    let mut i: usize = 0;
                    let ghost ev0 = v@->Obj_0;
                    while i < fields.len()
                        invariant
                            *shape is Struct,
                            shape->Struct_0 == *fields,
                            v is Obj,
                            *entries == v->Obj_0,
                            conforms(v@, *shape),
                            leaf_count(*shape) <= usize::MAX,
                            ev0 == v@->Obj_0,
                            v@->Obj_0.len() == entries@.len(),
                            entries@.len() == fields@.len(),
                            forall|m: int|
                                0 <= m < entries@.len() ==> #[trigger] v@->Obj_0[m] == (
                                entries@[m].key@,
                                entries@[m].value@,
                                ),
                            0 <= i <= fields@.len(),
                            out@.len() == struct_leaf_cols_front(fields@, ev0, i as int).len(),
                            forall|jj: int|
                                0 <= jj < out@.len() ==> (#[trigger] out@[jj]@)
                                    == struct_leaf_cols_front(fields@, ev0, i as int)[jj],
                        decreases fields@.len() - i,
                    {
                        proof {
                            assert(decreases_to!(*shape => shape->Struct_0));
                            assert(decreases_to!(shape->Struct_0 => shape->Struct_0@));
                            assert(decreases_to!(shape->Struct_0@ => shape->Struct_0@[i as int]));
                            assert(decreases_to!(shape->Struct_0@[i as int] => shape->Struct_0@[i as int].shape));
                            lemma_struct_conforms_at(fields@, ev0, i as int);
                            crate::schema::lemma_struct_count_bound(fields@, i as int, 0);
                        }
                        let sub = encode_cols(&entries[i].value, &fields[i].shape);
                        let ghost outp = out@;
                        let mut m: usize = 0;
                        let ghost subl = leaf_cols(ev0[i as int].1, fields@[i as int].shape);
                        while m < sub.len()
                            invariant
                                0 <= m <= sub@.len(),
                                sub@.len() == subl.len(),
                                forall|jj: int|
                                    0 <= jj < sub@.len() ==> (#[trigger] sub@[jj]@) == subl[jj],
                                out@.len() == outp.len() + m,
                                forall|jj: int| 0 <= jj < outp.len() ==> #[trigger] out@[jj] == outp[jj],
                                forall|jj: int|
                                    0 <= jj < m ==> (#[trigger] out@[outp.len() + jj]@)
                                        == subl[jj],
                            decreases sub@.len() - m,
                        {
                            out.push(sub[m].duplicate());
                            m = m + 1;
                        }
                        i = i + 1;
                        proof {
                            assert(struct_leaf_cols_front(fields@, ev0, i as int)
                                =~= struct_leaf_cols_front(fields@, ev0, i as int - 1) + subl);
                            assert forall|jj: int|
                                0 <= jj < out@.len() implies (#[trigger] out@[jj]@)
                                == struct_leaf_cols_front(fields@, ev0, i as int)[jj] by {
                                if jj < outp.len() {
                                    assert(out@[jj] == outp[jj]);
                                } else {
                                    let d = jj - outp.len();
                                    assert(out@[outp.len() + d]@ == subl[d]);
                                }
                            }
                        }
                    }
                    proof {
                        lemma_struct_leaf_cols_split(fields@, ev0, fields@.len() as int);
                        assert(struct_leaf_cols_front(fields@, ev0, fields@.len() as int)
                            =~= struct_leaf_cols(fields@, ev0, 0));
                    }
                    out
                },
                _ => {
                    proof {
                        assert(false);
                    }
                    Vec::new()
                },
            }
        },
    }
}

/// Conformance of the whole struct gives conformance at each field.
proof fn lemma_struct_conforms_at(fields: Seq<FieldDecl>, entries: Seq<(Seq<char>, Vs)>, k: int)
    requires
        struct_conforms(fields, entries, 0),
        0 <= k < fields.len(),
    ensures
        k < entries.len(),
        entries[k].0 == fields[k].name@,
        conforms(entries[k].1, fields[k].shape),
{
    lemma_struct_conforms_index(fields, entries, 0, k);
}


/// Looking up an id after filing a column finds the new column for the
/// same id and the old entries otherwise.
proof fn lemma_insert_lookup(es: Seq<(Seq<char>, Vs)>, k: Seq<char>, val: Vs, k2: Seq<char>)
    ensures
        crate::tree::store_tree::pair_lookup(obj_insert_sorted(es, k, val), k2) == (if k2 == k {
            Option::Some(val)
        } else {
            crate::tree::store_tree::pair_lookup(es, k2)
        }),
    decreases es.len(),
{
    if es.len() == 0 {
        assert(obj_insert_sorted(es, k, val) == seq![(k, val)]);
        assert(obj_insert_sorted(es, k, val)[0] == (k, val));
        if k2 != k {
            assert(obj_insert_sorted(es, k, val).drop_first()
                =~= Seq::<(Seq<char>, Vs)>::empty());
            assert(crate::tree::store_tree::pair_lookup(
                Seq::<(Seq<char>, Vs)>::empty(),
                k2,
            ).is_none());
        }
    } else if lex_lt(k, es[0].0) {
        let out = seq![(k, val)] + es;
        assert(out[0] == (k, val));
        if k2 != k {
            assert(out.drop_first() =~= es);
        }
    } else if k == es[0].0 {
        let out = seq![(k, val)] + es.drop_first();
        assert(out[0] == (k, val));
        if k2 != k {
            assert(out.drop_first() =~= es.drop_first());
        }
    } else {
        let out = seq![es[0]] + obj_insert_sorted(es.drop_first(), k, val);
        assert(out[0] == es[0]);
        assert(out.drop_first() =~= obj_insert_sorted(es.drop_first(), k, val));
        lemma_insert_lookup(es.drop_first(), k, val, k2);
    }
}

/// In the flat encoding of distinct-id columns, each id finds its own
/// column.
proof fn lemma_enc_fold_lookup(cols: Seq<ColumnDef>, vals: Seq<Vs>, n: int, j: int)
    requires
        0 <= j < n <= cols.len(),
        forall|a: int, b: int|
            0 <= a < b < cols.len() ==> (#[trigger] cols[a]).id@ != (#[trigger] cols[b]).id@,
    ensures
        crate::tree::store_tree::pair_lookup(enc_fold(cols, vals, n), cols[j].id@)
            == Option::Some(vals[j]),
    decreases n,
{
    lemma_insert_lookup(enc_fold(cols, vals, n - 1), cols[n - 1].id@, vals[n - 1], cols[j].id@);
    if j < n - 1 {
        assert(cols[j].id@ != cols[n - 1].id@);
        lemma_enc_fold_lookup(cols, vals, n - 1, j);
    }
}

/// Every column of a set of distinct values matches its record's column
/// slice.
pub open spec fn cols_match(cols: Seq<Value>, start: int, w: Vs, shape: FieldType) -> bool {
    forall|j: int|
        0 <= j < leaf_count(shape) ==> (#[trigger] cols[start + j])@ == leaf_cols(w, shape)[j]
}

/// Flattens a conforming record into its flat encoded form: one entry per
/// leaf, keyed by the leaf's stable id, sorted by id.
pub fn encode(item: &Value, schema: &Schema) -> (r: Value)
    requires
        conforms(item@, schema.spec_shape()),
    ensures
        r@ == spec_encode(item@, schema.spec_shape(), schema.spec_columns()),
{
    schema.wf_facts();
    let cols = schema.columns();
    let ncols = cols.len();
    proof {
        crate::schema::lemma_leaf_paths_count(schema.spec_shape(), Seq::empty());
        lemma_leaf_cols_count(item@, schema.spec_shape());
        assert(leaf_count(schema.spec_shape()) == ncols as int);
    }
    let vals = encode_cols(item, schema.shape());
    let ghost lc = leaf_cols(item@, schema.spec_shape());
    let mut es: Vec<Entry> = Vec::new();
    let mut j: usize = 0;
    proof {
        assert(ev(es@) =~= enc_fold(schema.spec_columns(), lc, 0));
    }
    while j < cols.len()
        invariant
            cols@ == schema.spec_columns(),
            lc == leaf_cols(item@, schema.spec_shape()),
            vals@.len() == lc.len(),
            cols@.len() == lc.len(),
            forall|m: int| 0 <= m < vals@.len() ==> (#[trigger] vals@[m]@) == lc[m],
            0 <= j <= cols@.len(),
            ev(es@) == enc_fold(cols@, lc, j as int),
        decreases cols@.len() - j,
    {
        obj_set(&mut es, clone_chars(&cols[j].id), vals[j].duplicate());
        j = j + 1;
    }
    let r = Value::Obj(es);
    proof {
        assert(r@->Obj_0 =~= ev(es@));
        assert(r@ == spec_encode(item@, schema.spec_shape(), schema.spec_columns()));
    }
    r
}

/// One element column slice entry lines up with its source column.
pub open spec fn ecol_arr_ok(
    cols: Seq<Value>,
    start: int,
    k: int,
    n: int,
    ecols: Seq<Value>,
    m: int,
) -> bool {
    cols[start + m]@ is Arr && cols[start + m]@->Arr_0.len() == n && ecols[m]@ == cols[start
        + m]@->Arr_0[k]
}

pub open spec fn ecol_obj_ok(
    cols: Seq<Value>,
    start: int,
    k: int,
    n: int,
    ecols: Seq<Value>,
    m: int,
) -> bool {
    cols[start + m]@ is Obj && cols[start + m]@->Obj_0.len() == n && ecols[m]@ == cols[start
        + m]@->Obj_0[k].1
}

/// Rebuilds the record whose columns sit at `start` in the column list.
/// Whenever the columns are exactly those of a conforming record, that
/// record comes back.
fn rebuild(cols: &Vec<Value>, start: usize, shape: &FieldType) -> (r: Result<Value, Error>)
    requires
        shape_wf(*shape),
        leaf_count(*shape) <= usize::MAX,
        start + leaf_count(*shape) <= cols@.len(),
    ensures
        forall|w: Vs|
            conforms(w, *shape) && #[trigger] cols_match(cols@, start as int, w, *shape)
                ==> r.is_ok() && r.get_Ok_0()@ == w,
    decreases *shape,
{
    let cols_total = cols.len();
    proof {
        crate::schema::lemma_leaf_count_pos(*shape);
    }
    match shape {
        FieldType::Atomic => {
            let got = cols[start].duplicate();
            proof {
                assert forall|w: Vs|
                    conforms(w, *shape) && #[trigger] cols_match(
                        cols@,
                        start as int,
                        w,
                        *shape,
                    ) implies got@ == w by {
                    assert(cols@[start as int + 0]@ == leaf_cols(w, *shape)[0]);
                    assert(cols@[start as int]@ == leaf_cols(w, *shape)[0]);
                }
            }
            Ok(got)
        },
        FieldType::Array(inner) => {
            if !crate::schema::is_struct_shape(inner) {
                let got = cols[start].duplicate();
                proof {
                    assert forall|w: Vs|
                        conforms(w, *shape) && #[trigger] cols_match(
                            cols@,
                            start as int,
                            w,
                            *shape,
                        ) implies got@ == w by {
                        assert(cols@[start as int + 0]@ == leaf_cols(w, *shape)[0]);
                        assert(cols@[start as int]@ == leaf_cols(w, *shape)[0]);
                    }
                }
                return Ok(got);
            }
            let cnt = crate::schema::count_leaves(inner);
            let n: usize;
            match &cols[start] {
                Value::Arr(items0) => {
                    n = items0.len();
                    proof {
                        assert(cols@[start as int] is Arr);
                        assert(*items0 == cols@[start as int]->Arr_0);
                        assert(cols@[start as int]@ is Arr);
                        assert(cols@[start as int]@->Arr_0.len() == items0@.len());
                    }
                },
                _ => {
                    proof {
                        assert forall|w: Vs|
                            conforms(w, *shape) && #[trigger] cols_match(
                                cols@,
                                start as int,
                                w,
                                *shape,
                            ) implies false by {
                            assert(cols@[start as int + 0]@ == leaf_cols(w, *shape)[0]);
                            assert(cols@[start as int]@ == leaf_cols(w, *shape)[0]);
                            assert(leaf_cols(w, *shape)[0] is Arr);
                        }
                    }
                    return Err(Error::Serialize);
                },
            }
            proof {
                assert forall|w: Vs|
                    conforms(w, *shape) && #[trigger] cols_match(
                        cols@,
                        start as int,
                        w,
                        *shape,
                    ) implies n == w->Arr_0.len() by {
                    assert(cols@[start as int + 0]@ == leaf_cols(w, *shape)[0]);
                }
            }
            let mut elems: Vec<Value> = Vec::new();
            let mut k: usize = 0;
            while k < n
                invariant
                    *shape is Array,
                    shape->Array_0 == *inner,
                    **inner is Struct,
                    shape_wf(*shape),
                    cnt == leaf_count(**inner),
                    cnt == leaf_count(*shape),
                    1 <= cnt,
                    start + cnt <= cols@.len(),
                    cols@.len() == cols_total,
                    cols@[start as int]@ is Arr,
                    n == cols@[start as int]@->Arr_0.len(),
                    0 <= k <= n,
                    elems@.len() == k,
                    forall|w: Vs|
                        conforms(w, *shape) && #[trigger] cols_match(
                            cols@,
                            start as int,
                            w,
                            *shape,
                        ) ==> n == w->Arr_0.len() && (forall|m: int|
                            0 <= m < k ==> (#[trigger] elems@[m]@) == w->Arr_0[m]),
                decreases n - k,
            {
                let mut ecols: Vec<Value> = Vec::new();
                let mut j: usize = 0;
                while j < cnt
                    invariant
                        *shape is Array,
                        shape->Array_0 == *inner,
                        **inner is Struct,
                        cnt == leaf_count(**inner),
                        cnt == leaf_count(*shape),
                        start + cnt <= cols@.len(),
                        cols@.len() == cols_total,
                        cols@[start as int]@ is Arr,
                        n == cols@[start as int]@->Arr_0.len(),
                        k < n,
                        0 <= j <= cnt,
                        ecols@.len() == j,
                        forall|m: int|
                            0 <= m < j ==> #[trigger] ecol_arr_ok(
                                cols@,
                                start as int,
                                k as int,
                                n as int,
                                ecols@,
                                m,
                            ),
                    decreases cnt - j,
                {
                    match &cols[start + j] {
                        Value::Arr(it) => {
                            proof {
                                assert(cols@[start + j] is Arr);
                                assert(*it == cols@[start + j]->Arr_0);
                                assert(cols@[start + j]@ is Arr);
                                assert(cols@[start + j]@->Arr_0.len() == it@.len());
                            }
                            if it.len() != n {
                                proof {
                                    lemma_arr_col_mismatch(cols@, start as int, j as int, *shape, **inner, n as int);
                                }
                                return Err(Error::Serialize);
                            }
                            let ghost pre = ecols@;
                            ecols.push(it[k].duplicate());
                            proof {
                                assert(cols@[start + j]@->Arr_0[k as int] == it@[k as int]@);
                                assert(ecols@[j as int]@ == cols@[start + j as int]@->Arr_0[
                                    k as int
                                ]);
                                assert forall|m: int|
                                    0 <= m < j + 1 implies #[trigger] ecol_arr_ok(
                                    cols@,
                                    start as int,
                                    k as int,
                                    n as int,
                                    ecols@,
                                    m,
                                ) by {
                                    if m < j as int {
                                        assert(ecol_arr_ok(cols@, start as int, k as int, n as int, pre, m));
                                        assert(ecols@[m] == pre[m]);
                                    } else {
                                        assert(m == j as int);
                                    }
                                }
                            }
                        },
                        _ => {
                            proof {
                                lemma_arr_col_not_arr(cols@, start as int, j as int, *shape, **inner);
                            }
                            return Err(Error::Serialize);
                        },
                    }
                    j = j + 1;
                }
                proof {
                    assert(decreases_to!(*shape => shape->Array_0));
                }
                let elem = match rebuild(&ecols, 0, inner) {
                    Ok(e) => e,
                    Err(e) => {
                        proof {
                            assert forall|w: Vs|
                                conforms(w, *shape) && #[trigger] cols_match(
                                    cols@,
                                    start as int,
                                    w,
                                    *shape,
                                ) implies false by {
                                assert forall|m: int|
                                    0 <= m < ecols@.len() implies #[trigger] ecol_arr_ok(
                                    cols@,
                                    start as int,
                                    k as int,
                                    cols@[start as int]@->Arr_0.len() as int,
                                    ecols@,
                                    m,
                                ) by {
                                    assert(ecol_arr_ok(cols@, start as int, k as int, n as int, ecols@, m));
                                }
                                lemma_arr_elem_match(cols@, start as int, w, *shape, **inner, ecols@, k as int);
                            }
                        }
                        return Err(e);
                    },
                };
                elems.push(elem);
                k = k + 1;
                proof {
                    assert forall|w: Vs|
                        conforms(w, *shape) && #[trigger] cols_match(
                            cols@,
                            start as int,
                            w,
                            *shape,
                        ) implies n == w->Arr_0.len() && (forall|m: int|
                        0 <= m < k ==> (#[trigger] elems@[m]@) == w->Arr_0[m]) by {
                        assert forall|m: int|
                            0 <= m < ecols@.len() implies #[trigger] ecol_arr_ok(
                            cols@,
                            start as int,
                            k as int - 1,
                            cols@[start as int]@->Arr_0.len() as int,
                            ecols@,
                            m,
                        ) by {
                            assert(ecol_arr_ok(cols@, start as int, k as int - 1, n as int, ecols@, m));
                        }
                        lemma_arr_elem_match(cols@, start as int, w, *shape, **inner, ecols@, k as int - 1);
                        assert(elems@[k - 1]@ == w->Arr_0[k - 1]);
                        assert forall|m: int| 0 <= m < k implies (#[trigger] elems@[m]@)
                            == w->Arr_0[m] by {}
                    }
                }
            }
            let got = Value::Arr(elems);
            proof {
                assert forall|w: Vs|
                    conforms(w, *shape) && #[trigger] cols_match(
                        cols@,
                        start as int,
                        w,
                        *shape,
                    ) implies got@ == w by {
                    assert(got@->Arr_0.len() == elems@.len());
                    assert forall|m: int| 0 <= m < elems@.len() implies #[trigger] got@->Arr_0[m]
                        == w->Arr_0[m] by {
                        assert(got@->Arr_0[m] == elems@[m]@);
                        assert(elems@[m]@ == w->Arr_0[m]);
                    }
                    assert(got@->Arr_0 =~= w->Arr_0);
                    assert(w is Arr);
                }
            }
            Ok(got)
        },
        FieldType::Object(inner) => {
            if !crate::schema::is_struct_shape(inner) {
                let got = cols[start].duplicate();
                proof {
                    assert forall|w: Vs|
                        conforms(w, *shape) && #[trigger] cols_match(
                            cols@,
                            start as int,
                            w,
                            *shape,
                        ) implies got@ == w by {
                        assert(cols@[start as int + 0]@ == leaf_cols(w, *shape)[0]);
                        assert(cols@[start as int]@ == leaf_cols(w, *shape)[0]);
                    }
                }
                return Ok(got);
            }
            let cnt = crate::schema::count_leaves(inner);
            let n: usize;
            match &cols[start] {
                Value::Obj(es0) => {
                    n = es0.len();
                    proof {
                        assert(cols@[start as int] is Obj);
                        assert(*es0 == cols@[start as int]->Obj_0);
                        assert(cols@[start as int]@ is Obj);
                        assert(cols@[start as int]@->Obj_0.len() == es0@.len());
                    }
                },
                _ => {
                    proof {
                        assert forall|w: Vs|
                            conforms(w, *shape) && #[trigger] cols_match(
                                cols@,
                                start as int,
                                w,
                                *shape,
                            ) implies false by {
                            assert(cols@[start as int + 0]@ == leaf_cols(w, *shape)[0]);
                            assert(cols@[start as int]@ == leaf_cols(w, *shape)[0]);
                            assert(leaf_cols(w, *shape)[0] is Obj);
                        }
                    }
                    return Err(Error::Serialize);
                },
            }
            proof {
                assert forall|w: Vs|
                    conforms(w, *shape) && #[trigger] cols_match(
                        cols@,
                        start as int,
                        w,
                        *shape,
                    ) implies n == w->Obj_0.len() by {
                    assert(cols@[start as int + 0]@ == leaf_cols(w, *shape)[0]);
                }
            }
            let mut elems: Vec<Entry> = Vec::new();
            let mut k: usize = 0;
            while k < n
                invariant
                    *shape is Object,
                    shape->Object_0 == *inner,
                    **inner is Struct,
                    shape_wf(*shape),
                    cnt == leaf_count(**inner),
                    cnt == leaf_count(*shape),
                    1 <= cnt,
                    start + cnt <= cols@.len(),
                    cols@.len() == cols_total,
                    cols@[start as int]@ is Obj,
                    n == cols@[start as int]@->Obj_0.len(),
                    0 <= k <= n,
                    elems@.len() == k,
                    forall|w: Vs|
                        conforms(w, *shape) && #[trigger] cols_match(
                            cols@,
                            start as int,
                            w,
                            *shape,
                        ) ==> n == w->Obj_0.len() && (forall|m: int|
                            0 <= m < k ==> ((#[trigger] elems@[m]).key@, elems@[m].value@)
                                == w->Obj_0[m]),
                decreases n - k,
            {
                let key = match &cols[start] {
                    Value::Obj(es0) => clone_chars(&es0[k].key),
                    _ => {
                        proof {
                            assert(false);
                        }
                        Vec::new()
                    },
                };
                let mut ecols: Vec<Value> = Vec::new();
                let mut j: usize = 0;
                while j < cnt
                    invariant
                        *shape is Object,
                        shape->Object_0 == *inner,
                        **inner is Struct,
                        cnt == leaf_count(**inner),
                        cnt == leaf_count(*shape),
                        start + cnt <= cols@.len(),
                        cols@.len() == cols_total,
                        cols@[start as int]@ is Obj,
                        n == cols@[start as int]@->Obj_0.len(),
                        k < n,
                        0 <= j <= cnt,
                        ecols@.len() == j,
                        forall|m: int|
                            0 <= m < j ==> #[trigger] ecol_obj_ok(
                                cols@,
                                start as int,
                                k as int,
                                n as int,
                                ecols@,
                                m,
                            ),
                    decreases cnt - j,
                {
                    match &cols[start + j] {
                        Value::Obj(it) => {
                            proof {
                                assert(cols@[start + j] is Obj);
                                assert(*it == cols@[start + j]->Obj_0);
                                assert(cols@[start + j]@ is Obj);
                                assert(cols@[start + j]@->Obj_0.len() == it@.len());
                            }
                            if it.len() != n {
                                proof {
                                    lemma_obj_col_mismatch(cols@, start as int, j as int, *shape, **inner, n as int);
                                }
                                return Err(Error::Serialize);
                            }
                            let ghost pre = ecols@;
                            ecols.push(it[k].value.duplicate());
                            proof {
                                assert(cols@[start + j]@->Obj_0[k as int].1 == it@[k as int].value@);
                                assert(ecols@[j as int]@ == cols@[start + j as int]@->Obj_0[
                                    k as int
                                ].1);
                                assert forall|m: int|
                                    0 <= m < j + 1 implies #[trigger] ecol_obj_ok(
                                    cols@,
                                    start as int,
                                    k as int,
                                    n as int,
                                    ecols@,
                                    m,
                                ) by {
                                    if m < j as int {
                                        assert(ecol_obj_ok(cols@, start as int, k as int, n as int, pre, m));
                                        assert(ecols@[m] == pre[m]);
                                    } else {
                                        assert(m == j as int);
                                    }
                                }
                            }
                        },
                        _ => {
                            proof {
                                lemma_obj_col_not_obj(cols@, start as int, j as int, *shape, **inner);
                            }
                            return Err(Error::Serialize);
                        },
                    }
                    j = j + 1;
                }
                proof {
                    assert(decreases_to!(*shape => shape->Object_0));
                }
                let elem = match rebuild(&ecols, 0, inner) {
                    Ok(e) => e,
                    Err(e) => {
                        proof {
                            assert forall|w: Vs|
                                conforms(w, *shape) && #[trigger] cols_match(
                                    cols@,
                                    start as int,
                                    w,
                                    *shape,
                                ) implies false by {
                                assert forall|m: int|
                                    0 <= m < ecols@.len() implies #[trigger] ecol_obj_ok(
                                    cols@,
                                    start as int,
                                    k as int,
                                    cols@[start as int]@->Obj_0.len() as int,
                                    ecols@,
                                    m,
                                ) by {
                                    assert(ecol_obj_ok(cols@, start as int, k as int, n as int, ecols@, m));
                                }
                                lemma_obj_elem_match(cols@, start as int, w, *shape, **inner, ecols@, k as int);
                            }
                        }
                        return Err(e);
                    },
                };
                elems.push(Entry { key, value: elem });
                k = k + 1;
                proof {
                    assert forall|w: Vs|
                        conforms(w, *shape) && #[trigger] cols_match(
                            cols@,
                            start as int,
                            w,
                            *shape,
                        ) implies n == w->Obj_0.len() && (forall|m: int|
                        0 <= m < k ==> ((#[trigger] elems@[m]).key@, elems@[m].value@)
                            == w->Obj_0[m]) by {
                        assert forall|m: int|
                            0 <= m < ecols@.len() implies #[trigger] ecol_obj_ok(
                            cols@,
                            start as int,
                            k as int - 1,
                            cols@[start as int]@->Obj_0.len() as int,
                            ecols@,
                            m,
                        ) by {
                            assert(ecol_obj_ok(cols@, start as int, k as int - 1, n as int, ecols@, m));
                        }
                        lemma_obj_elem_match(cols@, start as int, w, *shape, **inner, ecols@, k as int - 1);
                        assert(cols@[start as int + 0]@ == leaf_cols(w, *shape)[0]);
                        assert(cols@[start as int]@ == leaf_cols(w, *shape)[0]);
                        assert((elems@[k - 1].key@, elems@[k - 1].value@) == w->Obj_0[k - 1]);
                    }
                }
            }
            let got = Value::Obj(elems);
            proof {
                assert forall|w: Vs|
                    conforms(w, *shape) && #[trigger] cols_match(
                        cols@,
                        start as int,
                        w,
                        *shape,
                    ) implies got@ == w by {
                    assert(got@->Obj_0.len() == elems@.len());
                    assert forall|m: int| 0 <= m < elems@.len() implies #[trigger] got@->Obj_0[m]
                        == w->Obj_0[m] by {
                        assert(got@->Obj_0[m] == (elems@[m].key@, elems@[m].value@));
                        assert((elems@[m].key@, elems@[m].value@) == w->Obj_0[m]);
                    }
                    assert(got@->Obj_0 =~= w->Obj_0);
                    assert(w is Obj);
                }
            }
            Ok(got)
        },
        FieldType::Struct(fields) => {
            let mut entries: Vec<Entry> = Vec::new();
            let mut i: usize = 0;
            let mut acc: usize = 0;
            proof {
                crate::schema::lemma_struct_count_front_split(fields@, 0);
            }
            while i < fields.len()
                invariant
                    *shape is Struct,
                    shape->Struct_0 == *fields,
                    shape_wf(*shape),
                    leaf_count(*shape) <= usize::MAX,
                    start + leaf_count(*shape) <= cols@.len(),
                    cols@.len() == cols_total,
                    0 <= i <= fields@.len(),
                    acc == crate::schema::struct_count_front(fields@, i as int),
                    acc <= leaf_count(*shape),
                    entries@.len() == i,
                    forall|w: Vs|
                        conforms(w, *shape) && #[trigger] cols_match(
                            cols@,
                            start as int,
                            w,
                            *shape,
                        ) ==> (forall|m: int|
                            0 <= m < i ==> ((#[trigger] entries@[m]).key@, entries@[m].value@)
                                == w->Obj_0[m]),
                decreases fields@.len() - i,
            {
                proof {
                    assert(decreases_to!(*shape => shape->Struct_0));
                    assert(decreases_to!(shape->Struct_0 => shape->Struct_0@));
                    assert(decreases_to!(shape->Struct_0@ => shape->Struct_0@[i as int]));
                    assert(decreases_to!(shape->Struct_0@[i as int] => shape->Struct_0@[i as int].shape));
                    crate::schema::lemma_struct_fields_wf_at(fields@, i as int);
                    crate::schema::lemma_struct_count_front_split(fields@, i as int);
                    crate::schema::lemma_struct_count_front_split(fields@, i as int + 1);
                    crate::schema::lemma_struct_count_split(fields@, i as int);
                }
                let fc = crate::schema::count_leaves(&fields[i].shape);
                let sub = match rebuild(cols, start + acc, &fields[i].shape) {
                    Ok(sv) => sv,
                    Err(e) => {
                        proof {
                            assert forall|w: Vs|
                                conforms(w, *shape) && #[trigger] cols_match(
                                    cols@,
                                    start as int,
                                    w,
                                    *shape,
                                ) implies false by {
                                lemma_struct_field_match(cols@, start as int, w, *shape, i as int, acc as int);
                            }
                        }
                        return Err(e);
                    },
                };
                entries.push(Entry { key: clone_chars(&fields[i].name), value: sub });
                acc = acc + fc;
                i = i + 1;
                proof {
                    assert forall|w: Vs|
                        conforms(w, *shape) && #[trigger] cols_match(
                            cols@,
                            start as int,
                            w,
                            *shape,
                        ) implies (forall|m: int|
                        0 <= m < i ==> ((#[trigger] entries@[m]).key@, entries@[m].value@)
                            == w->Obj_0[m]) by {
                        lemma_struct_field_match(cols@, start as int, w, *shape, i as int - 1, acc as int - fc as int);
                        assert((entries@[i - 1].key@, entries@[i - 1].value@) == w->Obj_0[i - 1]);
                    }
                }
            }
            let got = Value::Obj(entries);
            proof {
                assert forall|w: Vs|
                    conforms(w, *shape) && #[trigger] cols_match(
                        cols@,
                        start as int,
                        w,
                        *shape,
                    ) implies got@ == w by {
                    assert(got@->Obj_0 =~= w->Obj_0);
                    assert(w is Obj);
                }
            }
            Ok(got)
        },
    }
}

/// Under a matching record, an array field's columns are arrays of the
/// record's length, and the element columns picked at a position are the
/// element's own columns.
proof fn lemma_arr_elem_match(
    cols: Seq<Value>,
    start: int,
    w: Vs,
    shape: FieldType,
    inner: FieldType,
    ecols: Seq<Value>,
    k: int,
)
    requires
        shape is Array,
        *shape->Array_0 == inner,
        inner is Struct,
        conforms(w, shape),
        cols_match(cols, start, w, shape),
        0 <= k < w->Arr_0.len(),
        ecols.len() == leaf_count(inner),
        leaf_count(inner) >= 1,
        start + leaf_count(shape) <= cols.len(),
        forall|m: int|
            0 <= m < ecols.len() ==> #[trigger] ecol_arr_ok(
                cols,
                start,
                k,
                cols[start]@->Arr_0.len() as int,
                ecols,
                m,
            ),
    ensures
        conforms(w->Arr_0[k], inner),
        cols_match(ecols, 0, w->Arr_0[k], inner),
        cols[start]@->Arr_0.len() == w->Arr_0.len(),
{
    assert(cols[start + 0]@ == leaf_cols(w, shape)[0]);
    assert(cols[start]@ == leaf_cols(w, shape)[0]);
    lemma_leaf_cols_count(w->Arr_0[k], inner);
    assert forall|j: int| 0 <= j < leaf_count(inner) implies (#[trigger] ecols[0 + j])@
        == leaf_cols(w->Arr_0[k], inner)[j] by {
        assert(ecol_arr_ok(cols, start, k, cols[start]@->Arr_0.len() as int, ecols, j));
        assert(cols[start + j]@ == leaf_cols(w, shape)[j]);
        assert(leaf_cols(w, shape)[j]->Arr_0[k] == leaf_cols(w->Arr_0[k], inner)[j]);
        assert(ecols[j]@ == cols[start + j]@->Arr_0[k]);
    }
}

/// Under a matching record, a map field's columns line up the same way.
proof fn lemma_obj_elem_match(
    cols: Seq<Value>,
    start: int,
    w: Vs,
    shape: FieldType,
    inner: FieldType,
    ecols: Seq<Value>,
    k: int,
)
    requires
        shape is Object,
        *shape->Object_0 == inner,
        inner is Struct,
        conforms(w, shape),
        cols_match(cols, start, w, shape),
        0 <= k < w->Obj_0.len(),
        ecols.len() == leaf_count(inner),
        leaf_count(inner) >= 1,
        start + leaf_count(shape) <= cols.len(),
        forall|m: int|
            0 <= m < ecols.len() ==> #[trigger] ecol_obj_ok(
                cols,
                start,
                k,
                cols[start]@->Obj_0.len() as int,
                ecols,
                m,
            ),
    ensures
        conforms(w->Obj_0[k].1, inner),
        cols_match(ecols, 0, w->Obj_0[k].1, inner),
        cols[start]@->Obj_0.len() == w->Obj_0.len(),
        cols[start]@->Obj_0[k].0 == w->Obj_0[k].0,
{
    assert(cols[start + 0]@ == leaf_cols(w, shape)[0]);
    assert(cols[start]@ == leaf_cols(w, shape)[0]);
    lemma_leaf_cols_count(w->Obj_0[k].1, inner);
    assert forall|j: int| 0 <= j < leaf_count(inner) implies (#[trigger] ecols[0 + j])@
        == leaf_cols(w->Obj_0[k].1, inner)[j] by {
        assert(ecol_obj_ok(cols, start, k, cols[start]@->Obj_0.len() as int, ecols, j));
        assert(cols[start + j]@ == leaf_cols(w, shape)[j]);
        assert(leaf_cols(w, shape)[j]->Obj_0[k].1 == leaf_cols(w->Obj_0[k].1, inner)[j]);
        assert(ecols[j]@ == cols[start + j]@->Obj_0[k].1);
    }
}

/// No matching record exists when an array field's column is no array.
proof fn lemma_arr_col_not_arr(
    cols: Seq<Value>,
    start: int,
    j: int,
    shape: FieldType,
    inner: FieldType,
)
    requires
        shape is Array,
        *shape->Array_0 == inner,
        inner is Struct,
        0 <= j < leaf_count(shape),
        start + j < cols.len(),
        !(cols[start + j]@ is Arr),
    ensures
        forall|w: Vs|
            conforms(w, shape) ==> !(#[trigger] cols_match(cols, start, w, shape)),
{
    assert forall|w: Vs| conforms(w, shape) implies !(#[trigger] cols_match(
        cols,
        start,
        w,
        shape,
    )) by {
        if cols_match(cols, start, w, shape) {
            assert(cols[start + j]@ == leaf_cols(w, shape)[j]);
            assert(leaf_cols(w, shape)[j] is Arr);
        }
    }
}

/// No matching record exists when an array field's columns disagree on
/// length.
proof fn lemma_arr_col_mismatch(
    cols: Seq<Value>,
    start: int,
    j: int,
    shape: FieldType,
    inner: FieldType,
    n: int,
)
    requires
        shape is Array,
        *shape->Array_0 == inner,
        inner is Struct,
        0 <= j < leaf_count(shape),
        start + j < cols.len(),
        start < cols.len(),
        cols[start]@ is Arr,
        n == cols[start]@->Arr_0.len(),
        cols[start + j]@ is Arr,
        cols[start + j]@->Arr_0.len() != n,
    ensures
        forall|w: Vs|
            conforms(w, shape) ==> !(#[trigger] cols_match(cols, start, w, shape)),
{
    assert forall|w: Vs| conforms(w, shape) implies !(#[trigger] cols_match(
        cols,
        start,
        w,
        shape,
    )) by {
        if cols_match(cols, start, w, shape) {
            assert(cols[start + 0]@ == leaf_cols(w, shape)[0]);
            assert(cols[start + j]@ == leaf_cols(w, shape)[j]);
            assert(leaf_cols(w, shape)[0]->Arr_0.len() == w->Arr_0.len());
            assert(leaf_cols(w, shape)[j]->Arr_0.len() == w->Arr_0.len());
        }
    }
}

/// No matching record exists when a map field's column is no map.
proof fn lemma_obj_col_not_obj(
    cols: Seq<Value>,
    start: int,
    j: int,
    shape: FieldType,
    inner: FieldType,
)
    requires
        shape is Object,
        *shape->Object_0 == inner,
        inner is Struct,
        0 <= j < leaf_count(shape),
        start + j < cols.len(),
        !(cols[start + j]@ is Obj),
    ensures
        forall|w: Vs|
            conforms(w, shape) ==> !(#[trigger] cols_match(cols, start, w, shape)),
{
    assert forall|w: Vs| conforms(w, shape) implies !(#[trigger] cols_match(
        cols,
        start,
        w,
        shape,
    )) by {
        if cols_match(cols, start, w, shape) {
            assert(cols[start + j]@ == leaf_cols(w, shape)[j]);
            assert(leaf_cols(w, shape)[j] is Obj);
        }
    }
}

/// No matching record exists when a map field's columns disagree on
/// length.
proof fn lemma_obj_col_mismatch(
    cols: Seq<Value>,
    start: int,
    j: int,
    shape: FieldType,
    inner: FieldType,
    n: int,
)
    requires
        shape is Object,
        *shape->Object_0 == inner,
        inner is Struct,
        0 <= j < leaf_count(shape),
        start + j < cols.len(),
        start < cols.len(),
        cols[start]@ is Obj,
        n == cols[start]@->Obj_0.len(),
        cols[start + j]@ is Obj,
        cols[start + j]@->Obj_0.len() != n,
    ensures
        forall|w: Vs|
            conforms(w, shape) ==> !(#[trigger] cols_match(cols, start, w, shape)),
{
    assert forall|w: Vs| conforms(w, shape) implies !(#[trigger] cols_match(
        cols,
        start,
        w,
        shape,
    )) by {
        if cols_match(cols, start, w, shape) {
            assert(cols[start + 0]@ == leaf_cols(w, shape)[0]);
            assert(cols[start + j]@ == leaf_cols(w, shape)[j]);
            assert(leaf_cols(w, shape)[0]->Obj_0.len() == w->Obj_0.len());
            assert(leaf_cols(w, shape)[j]->Obj_0.len() == w->Obj_0.len());
        }
    }
}

/// Under a matching record, a struct field's column slice is the field
/// value's own columns.
proof fn lemma_struct_field_match(
    cols: Seq<Value>,
    start: int,
    w: Vs,
    shape: FieldType,
    i: int,
    acc: int,
)
    requires
        shape is Struct,
        conforms(w, shape),
        cols_match(cols, start, w, shape),
        0 <= i < shape->Struct_0@.len(),
        acc == crate::schema::struct_count_front(shape->Struct_0@, i),
    ensures
        conforms(w->Obj_0[i].1, shape->Struct_0@[i].shape),
        w->Obj_0[i].0 == shape->Struct_0@[i].name@,
        cols_match(cols, start + acc, w->Obj_0[i].1, shape->Struct_0@[i].shape),
{
    let fields = shape->Struct_0@;
    let entries = w->Obj_0;
    lemma_struct_conforms_at(fields, entries, i);
    lemma_struct_leaf_cols_split(fields, entries, i);
    crate::schema::lemma_struct_count_front_split(fields, i);
    lemma_front_cols_count(fields, entries, i);
    let sub = leaf_cols(entries[i].1, fields[i].shape);
    lemma_leaf_cols_count(entries[i].1, fields[i].shape);
    assert(struct_leaf_cols(fields, entries, i) == sub + struct_leaf_cols(fields, entries, i + 1));
    assert forall|j: int|
        0 <= j < leaf_count(fields[i].shape) implies (#[trigger] cols[start + acc + j])@
        == sub[j] by {
        assert(cols[start + (acc + j)]@ == leaf_cols(w, shape)[acc + j]);
        assert(leaf_cols(w, shape)[acc + j] == struct_leaf_cols(fields, entries, 0)[acc + j]);
        assert(struct_leaf_cols(fields, entries, 0)[acc + j] == struct_leaf_cols(
            fields,
            entries,
            i,
        )[j]) by {
            lemma_struct_leaf_cols_split(fields, entries, i);
        }
        assert(struct_leaf_cols(fields, entries, i)[j] == sub[j]);
    }
}

/// The columns of the fields before a position number their leaf count.
proof fn lemma_front_cols_count(fields: Seq<FieldDecl>, entries: Seq<(Seq<char>, Vs)>, i: int)
    requires
        struct_conforms(fields, entries, 0),
        0 <= i <= fields.len(),
    ensures
        struct_leaf_cols_front(fields, entries, i).len() == crate::schema::struct_count_front(
            fields,
            i,
        ),
    decreases i,
{
    if i > 0 {
        lemma_front_cols_count(fields, entries, i - 1);
        lemma_struct_conforms_at(fields, entries, i - 1);
        lemma_leaf_cols_count(entries[i - 1].1, fields[i - 1].shape);
    }
}


/// A lookup hit at a position after misses is the lookup's result.
proof fn lemma_flat_lookup_at(ps: Seq<(Seq<char>, Vs)>, f: Seq<char>, i: int)
    requires
        0 <= i < ps.len(),
        forall|j: int| 0 <= j < i ==> (#[trigger] ps[j]).0 != f,
        ps[i].0 == f,
    ensures
        crate::tree::store_tree::pair_lookup(ps, f) == Option::Some(ps[i].1),
    decreases i,
{
    if i > 0 {
        assert forall|j: int| 0 <= j < i - 1 implies (#[trigger] ps.drop_first()[j]).0 != f by {
            assert(ps[j + 1].0 != f);
        }
        lemma_flat_lookup_at(ps.drop_first(), f, i - 1);
    }
}

/// A lookup that misses everywhere finds nothing.
proof fn lemma_flat_lookup_misses(ps: Seq<(Seq<char>, Vs)>, f: Seq<char>)
    requires
        forall|j: int| 0 <= j < ps.len() ==> (#[trigger] ps[j]).0 != f,
    ensures
        crate::tree::store_tree::pair_lookup(ps, f).is_none(),
    decreases ps.len(),
{
    if ps.len() > 0 {
        assert forall|j: int| 0 <= j < ps.len() - 1 implies (#[trigger] ps.drop_first()[j]).0
            != f by {
            assert(ps[j + 1].0 != f);
        }
        lemma_flat_lookup_misses(ps.drop_first(), f);
    }
}

/// Rebuilds a record from its flat encoded form.  Whenever the input is
/// exactly the encoding of a conforming record, that record comes back:
/// decoding inverts encoding.
pub fn decode(flat: &Value, schema: &Schema) -> (r: Result<Value, Error>)
    ensures
        forall|w: Vs|
            conforms(w, schema.spec_shape()) && flat@ == spec_encode(
                w,
                schema.spec_shape(),
                schema.spec_columns(),
            ) ==> r.is_ok() && r.get_Ok_0()@ == w,
{
    schema.wf_facts();
    let cols = schema.columns();
    let ncols = cols.len();
    proof {
        crate::schema::lemma_leaf_paths_count(schema.spec_shape(), Seq::empty());
        assert forall|a: int, b: int|
            0 <= a < b < schema.spec_columns().len() implies (#[trigger] schema.spec_columns()[a]).id@
            != (#[trigger] schema.spec_columns()[b]).id@ by {
            let paths = crate::schema::leaf_paths(schema.spec_shape(), Seq::empty());
            assert(schema.spec_columns()[a].id@ == crate::schema::unique_int_str(paths[a]));
            assert(schema.spec_columns()[b].id@ == crate::schema::unique_int_str(paths[b]));
        }
    }
    match flat {
        Value::Obj(es) => {
            proof {
                assert(flat is Obj);
                assert(*es == flat->Obj_0);
                assert(flat@->Obj_0.len() == es@.len());
                assert forall|m: int| 0 <= m < es@.len() implies #[trigger] flat@->Obj_0[m] == (
                es@[m].key@,
                es@[m].value@,
                ) by {}
            }
            let mut colvals: Vec<Value> = Vec::new();
            let mut j: usize = 0;
            while j < ncols
                invariant
                    ncols == cols@.len(),
                    cols@ == schema.spec_columns(),
                    flat is Obj,
                    *es == flat->Obj_0,
                    flat@->Obj_0.len() == es@.len(),
                    forall|m: int|
                        0 <= m < es@.len() ==> #[trigger] flat@->Obj_0[m] == (
                        es@[m].key@,
                        es@[m].value@,
                        ),
                    0 <= j <= ncols,
                    colvals@.len() == j,
                    forall|a: int, b: int|
                        0 <= a < b < cols@.len() ==> (#[trigger] cols@[a]).id@
                            != (#[trigger] cols@[b]).id@,
                    forall|m: int|
                        0 <= m < j ==> crate::tree::store_tree::pair_lookup(
                            flat@->Obj_0,
                            (#[trigger] cols@[m]).id@,
                        ) == Option::Some(colvals@[m]@),
                decreases ncols - j,
            {
                let mut p: usize = 0;
                let mut hit = false;
                while p < es.len() && !hit
                    invariant
                        j < cols@.len(),
                        flat is Obj,
                        *es == flat->Obj_0,
                        flat@->Obj_0.len() == es@.len(),
                        forall|m: int|
                            0 <= m < es@.len() ==> #[trigger] flat@->Obj_0[m] == (
                            es@[m].key@,
                            es@[m].value@,
                            ),
                        0 <= p <= es@.len(),
                        hit ==> p < es@.len() && flat@->Obj_0[p as int].0 == cols@[j as int].id@,
                        forall|m: int|
                            0 <= m < p ==> (#[trigger] flat@->Obj_0[m]).0 != cols@[j as int].id@,
                    decreases es@.len() - p, (if hit { 0int } else { 1int }),
                {
                    if lex_compare(&es[p].key, &cols[j].id) == 0 {
                        hit = true;
                    } else {
                        p = p + 1;
                    }
                }
                if !hit {
                    proof {
                        lemma_flat_lookup_misses(flat@->Obj_0, cols@[j as int].id@);
                        assert forall|w: Vs|
                            conforms(w, schema.spec_shape()) && flat@ == spec_encode(
                                w,
                                schema.spec_shape(),
                                schema.spec_columns(),
                            ) implies false by {
                            lemma_leaf_cols_count(w, schema.spec_shape());
                            lemma_enc_fold_lookup(
                                schema.spec_columns(),
                                leaf_cols(w, schema.spec_shape()),
                                ncols as int,
                                j as int,
                            );
                        }
                    }
                    return Err(Error::Serialize);
                }
                proof {
                    lemma_flat_lookup_at(flat@->Obj_0, cols@[j as int].id@, p as int);
                }
                colvals.push(es[p].value.duplicate());
                j = j + 1;
            }
            proof {
                crate::schema::lemma_leaf_count_pos(schema.spec_shape());
            }
            let out = rebuild(&colvals, 0, schema.shape());
            proof {
                assert forall|w: Vs|
                    conforms(w, schema.spec_shape()) && flat@ == spec_encode(
                        w,
                        schema.spec_shape(),
                        schema.spec_columns(),
                    ) implies out.is_ok() && out.get_Ok_0()@ == w by {
                    lemma_leaf_cols_count(w, schema.spec_shape());
                    assert forall|m: int|
                        0 <= m < leaf_count(schema.spec_shape()) implies (#[trigger] colvals@[0
                        + m])@ == leaf_cols(w, schema.spec_shape())[m] by {
                        lemma_enc_fold_lookup(
                            schema.spec_columns(),
                            leaf_cols(w, schema.spec_shape()),
                            ncols as int,
                            m,
                        );
                        assert(crate::tree::store_tree::pair_lookup(
                            flat@->Obj_0,
                            cols@[m].id@,
                        ) == Option::Some(colvals@[m]@));
                    }
                    assert(cols_match(colvals@, 0, w, schema.spec_shape()));
                }
            }
            out
        },
        _ => {
            proof {
                assert forall|w: Vs|
                    conforms(w, schema.spec_shape()) && flat@ == spec_encode(
                        w,
                        schema.spec_shape(),
                        schema.spec_columns(),
                    ) implies false by {
                    assert(flat@ is Obj);
                }
            }
            Err(Error::Serialize)
        },
    }
}

/// The id text of the wrapped form.
pub open spec fn wrap_id_key() -> Seq<char> {
    seq!['i', 'd']
}

pub open spec fn wrap_item_key() -> Seq<char> {
    seq!['i', 't', 'e', 'm']
}

/// The wire form of one persisted record: its id and its flat item.
pub open spec fn wrapper_of(idv: Seq<char>, flat_item: Vs) -> Vs {
    Vs::Obj(seq![(wrap_id_key(), Vs::Str(idv)), (wrap_item_key(), flat_item)])
}

/// Wraps an encoded record with its id, in the wire form.
pub fn encode_wrapper(item: &Value, id: &Vec<char>, schema: &Schema) -> (r: Value)
    requires
        conforms(item@, schema.spec_shape()),
    ensures
        r@ == wrapper_of(
            id@,
            spec_encode(item@, schema.spec_shape(), schema.spec_columns()),
        ),
{
    let flat = encode(item, schema);
    let mut es: Vec<Entry> = Vec::new();
    let mut idk: Vec<char> = Vec::new();
    idk.push('i');
    idk.push('d');
    let mut itemk: Vec<char> = Vec::new();
    itemk.push('i');
    itemk.push('t');
    itemk.push('e');
    itemk.push('m');
    proof {
        assert(idk@ =~= wrap_id_key());
        assert(itemk@ =~= wrap_item_key());
    }
    let idstr = Value::Str(clone_chars(id));
    proof {
        assert(idstr@ == Vs::Str(id@));
    }
    es.push(Entry { key: idk, value: idstr });
    es.push(Entry { key: itemk, value: flat });
    proof {
        assert(es@[0].key@ == wrap_id_key());
        assert(es@[0].value@ == Vs::Str(id@));
        assert(es@[1].key@ == wrap_item_key());
    }
    let ghost flatv = spec_encode(item@, schema.spec_shape(), schema.spec_columns());
    let r = Value::Obj(es);
    proof {
        assert(r@->Obj_0.len() == 2);
        assert(r@->Obj_0[0] == (wrap_id_key(), Vs::Str(id@)));
        assert(r@->Obj_0[1] == (wrap_item_key(), flatv));
        assert(r@->Obj_0 =~= wrapper_of(id@, flatv)->Obj_0);
    }
    r
}

/// Unwraps the wire form back into the id and the decoded record:
/// unwrapping inverts wrapping.
pub fn decode_wrapper(wrapped: &Value, schema: &Schema) -> (r: Result<(Vec<char>, Value), Error>)
    ensures
        forall|w: Vs, idv: Seq<char>|
            conforms(w, schema.spec_shape()) && wrapped@ == wrapper_of(
                idv,
                spec_encode(w, schema.spec_shape(), schema.spec_columns()),
            ) ==> r.is_ok() && r.get_Ok_0().0@ == idv && r.get_Ok_0().1@ == w,
{
    match wrapped {
        Value::Obj(es) => {
            proof {
                assert(wrapped is Obj);
                assert(*es == wrapped->Obj_0);
                assert(wrapped@->Obj_0.len() == es@.len());
                assert forall|m: int|
                    0 <= m < es@.len() implies #[trigger] wrapped@->Obj_0[m] == (
                    es@[m].key@,
                    es@[m].value@,
                    ) by {}
            }
            if es.len() != 2 {
                return Err(Error::Serialize);
            }
            let idval = match &es[0].value {
                Value::Str(s) => clone_chars(s),
                _ => {
                    return Err(Error::Serialize);
                },
            };
            let item = decode(&es[1].value, schema)?;
            proof {
                assert forall|w: Vs, idv: Seq<char>|
                    conforms(w, schema.spec_shape()) && wrapped@ == wrapper_of(
                        idv,
                        spec_encode(w, schema.spec_shape(), schema.spec_columns()),
                    ) implies idval@ == idv && item@ == w by {
                    assert(wrapped@->Obj_0[0].1 == Vs::Str(idv));
                    assert(wrapped@->Obj_0[1].1 == spec_encode(
                        w,
                        schema.spec_shape(),
                        schema.spec_columns(),
                    ));
                    assert(es@[1].value@ == spec_encode(
                        w,
                        schema.spec_shape(),
                        schema.spec_columns(),
                    ));
                }
            }
            Ok((idval, item))
        },
        _ => {
            proof {
                assert forall|w: Vs, idv: Seq<char>|
                    conforms(w, schema.spec_shape()) && wrapped@ == wrapper_of(
                        idv,
                        spec_encode(w, schema.spec_shape(), schema.spec_columns()),
                    ) implies false by {
                    assert(wrapped@ is Obj);
                }
            }
            Err(Error::Serialize)
        },
    }
}


/// Entries in strictly increasing key order.
pub open spec fn sorted_keys(es: Seq<(Seq<char>, Vs)>) -> bool {
    forall|a: int, b: int| 0 <= a < b < es.len() ==> lex_lt((#[trigger] es[a]).0, (#[trigger] es[b]).0)
}

/// Filing a column keeps the entries sorted, and every key afterwards is
/// the filed id or one already present.
proof fn lemma_obj_insert_sorted_props(es: Seq<(Seq<char>, Vs)>, k: Seq<char>, v: Vs)
    requires
        sorted_keys(es),
    ensures
        sorted_keys(obj_insert_sorted(es, k, v)),
        forall|m: int|
            0 <= m < obj_insert_sorted(es, k, v).len() ==> (#[trigger] obj_insert_sorted(
                es,
                k,
                v,
            )[m]).0 == k || exists|a: int| 0 <= a < es.len() && (#[trigger] es[a]).0
                == obj_insert_sorted(es, k, v)[m].0,
    decreases es.len(),
{
    let out = obj_insert_sorted(es, k, v);
    if es.len() == 0 {
    } else if lex_lt(k, es[0].0) {
        assert forall|a: int, b: int|
            0 <= a < b < out.len() implies lex_lt((#[trigger] out[a]).0, (#[trigger] out[b]).0) by {
            if a == 0 {
                if b == 1 {
                } else {
                    crate::value::lemma_lex_trans(k, es[0].0, es[b - 1].0);
                }
            } else {
                assert(out[a] == es[a - 1] && out[b] == es[b - 1]);
            }
        }
        assert forall|m: int| 0 <= m < out.len() implies (#[trigger] out[m]).0 == k || exists|a: int|
            0 <= a < es.len() && (#[trigger] es[a]).0 == out[m].0 by {
            if m > 0 {
                assert(es[m - 1].0 == out[m].0);
            }
        }
    } else if k == es[0].0 {
        assert forall|a: int, b: int|
            0 <= a < b < out.len() implies lex_lt((#[trigger] out[a]).0, (#[trigger] out[b]).0) by {
            if a == 0 {
                assert(out[b] == es.drop_first()[b - 1]);
                assert(es.drop_first()[b - 1] == es[b]);
                assert(lex_lt(es[0].0, es[b].0));
            } else {
                assert(out[a] == es[a] && out[b] == es[b]);
            }
        }
        assert forall|m: int| 0 <= m < out.len() implies (#[trigger] out[m]).0 == k || exists|a: int|
            0 <= a < es.len() && (#[trigger] es[a]).0 == out[m].0 by {
            if m > 0 {
                assert(es[m].0 == out[m].0);
            }
        }
    } else {
        crate::value::lemma_lex_trichotomy(k, es[0].0);
        assert(lex_lt(es[0].0, k));
        assert forall|a: int, b: int|
            0 <= a < b < es.drop_first().len() implies lex_lt(
            (#[trigger] es.drop_first()[a]).0,
            (#[trigger] es.drop_first()[b]).0,
        ) by {
            assert(es[a + 1] == es.drop_first()[a]);
            assert(es[b + 1] == es.drop_first()[b]);
        }
        lemma_obj_insert_sorted_props(es.drop_first(), k, v);
        let rec = obj_insert_sorted(es.drop_first(), k, v);
        assert forall|a: int, b: int|
            0 <= a < b < out.len() implies lex_lt((#[trigger] out[a]).0, (#[trigger] out[b]).0) by {
            if a == 0 {
                assert(out[b] == rec[b - 1]);
                if rec[b - 1].0 == k {
                } else {
                    let w = choose|w: int|
                        0 <= w < es.drop_first().len() && (#[trigger] es.drop_first()[w]).0
                            == rec[b - 1].0;
                    assert(es[w + 1].0 == rec[b - 1].0);
                    assert(lex_lt(es[0].0, es[w + 1].0));
                }
            } else {
                assert(out[a] == rec[a - 1] && out[b] == rec[b - 1]);
            }
        }
        assert forall|m: int| 0 <= m < out.len() implies (#[trigger] out[m]).0 == k || exists|a: int|
            0 <= a < es.len() && (#[trigger] es[a]).0 == out[m].0 by {
            if m == 0 {
                assert(es[0].0 == out[0].0);
            } else {
                assert(out[m] == rec[m - 1]);
                if rec[m - 1].0 != k {
                    let w = choose|w: int|
                        0 <= w < es.drop_first().len() && (#[trigger] es.drop_first()[w]).0
                            == rec[m - 1].0;
                    assert(es[w + 1].0 == out[m].0);
                }
            }
        }
    }
}

/// The flat encoding's entries are sorted by id, and every key is one of
/// the filed column ids.
proof fn lemma_enc_fold_props(cols: Seq<ColumnDef>, vals: Seq<Vs>, n: int)
    requires
        0 <= n <= cols.len(),
    ensures
        sorted_keys(enc_fold(cols, vals, n)),
        forall|m: int|
            0 <= m < enc_fold(cols, vals, n).len() ==> exists|j: int|
                0 <= j < n && (#[trigger] enc_fold(cols, vals, n)[m]).0 == cols[j].id@,
    decreases n,
{
    if n > 0 {
        lemma_enc_fold_props(cols, vals, n - 1);
        lemma_obj_insert_sorted_props(
            enc_fold(cols, vals, n - 1),
            cols[n - 1].id@,
            vals[n - 1],
        );
        let prev = enc_fold(cols, vals, n - 1);
        let out = enc_fold(cols, vals, n);
        assert forall|m: int| 0 <= m < out.len() implies exists|j: int|
            0 <= j < n && (#[trigger] out[m]).0 == cols[j].id@ by {
            if out[m].0 == cols[n - 1].id@ {
            } else {
                let a = choose|a: int| 0 <= a < prev.len() && (#[trigger] prev[a]).0 == out[m].0;
                let j = choose|j: int| 0 <= j < n - 1 && (#[trigger] prev[a]).0 == cols[j].id@;
                assert(out[m].0 == cols[j].id@);
            }
        }
    }
}

/// The length pseudo-field id is injective and never collides with a
/// digit-headed field id.
proof fn lemma_len_marker_facts(a: Seq<char>, b: Seq<char>)
    ensures
        crate::schema::len_marker(a) == crate::schema::len_marker(b) ==> a == b,
        b.len() > 0 && crate::schema::is_digit(b[0]) ==> crate::schema::len_marker(a) != b,
{
    let la = crate::schema::len_marker(a);
    let lb = crate::schema::len_marker(b);
    if la == lb {
        assert(la.len() == a.len() + 5);
        assert(lb.len() == b.len() + 5);
        assert(a.len() == b.len());
        assert(a =~= b) by {
            assert forall|i: int| 0 <= i < a.len() implies a[i] == b[i] by {
                assert((seq!['l', 'e', 'n', '('] + a)[4 + i] == a[i]);
                assert((seq!['l', 'e', 'n', '('] + b)[4 + i] == b[i]);
                assert(la[4 + i] == (seq!['l', 'e', 'n', '('] + a)[4 + i]);
                assert(lb[4 + i] == (seq!['l', 'e', 'n', '('] + b)[4 + i]);
            }
        }
    }
    if b.len() > 0 && crate::schema::is_digit(b[0]) {
        assert(la[0] == 'l');
        if la == b {
            assert(b[0] == 'l');
        }
    }
}

/// Every field an entry contributes to the index pairs is its own key or
/// that key's length marker.
proof fn lemma_entry_pairs_fields(es: Seq<(Seq<char>, Vs)>)
    ensures
        forall|m: int|
            0 <= m < crate::tree::store_tree::entry_pairs(es).len() ==> exists|a: int|
                0 <= a < es.len() && ((#[trigger] crate::tree::store_tree::entry_pairs(es)[m]).0
                    == es[a].0 || crate::tree::store_tree::entry_pairs(es)[m].0
                    == crate::schema::len_marker(es[a].0)),
    decreases es.len(),
{
    if es.len() > 0 {
        lemma_entry_pairs_fields(es.drop_last());
        let front = crate::tree::store_tree::entry_pairs(es.drop_last());
        let out = crate::tree::store_tree::entry_pairs(es);
        assert forall|m: int| 0 <= m < out.len() implies exists|a: int|
            0 <= a < es.len() && ((#[trigger] out[m]).0 == es[a].0 || out[m].0
                == crate::schema::len_marker(es[a].0)) by {
            if m < front.len() {
                let a = choose|a: int|
                    0 <= a < es.drop_last().len() && ((#[trigger] front[m]).0
                        == es.drop_last()[a].0 || front[m].0 == crate::schema::len_marker(
                        es.drop_last()[a].0,
                    ));
                assert(es[a] == es.drop_last()[a]);
                assert(out[m] == front[m]);
            } else {
                assert(out[m] == crate::tree::store_tree::head_pairs(es.last())[m - front.len()]);
                assert(out[m].0 == es[es.len() - 1].0 || out[m].0 == crate::schema::len_marker(
                    es[es.len() - 1].0,
                ));
            }
        }
    }
}

/// Entries with distinct, digit-headed keys yield a well-formed pair
/// list: distinct fields, indexable keys.
proof fn lemma_entry_pairs_wf(es: Seq<(Seq<char>, Vs)>)
    requires
        forall|a: int, b: int| 0 <= a < b < es.len() ==> (#[trigger] es[a]).0 != (#[trigger] es[b]).0,
        forall|a: int|
            0 <= a < es.len() ==> (#[trigger] es[a]).0.len() > 0 && crate::schema::is_digit(
                es[a].0[0],
            ),
    ensures
        crate::tree::store_tree::pairs_wf(crate::tree::store_tree::entry_pairs(es)),
    decreases es.len(),
{
    let ep = |s: Seq<(Seq<char>, Vs)>| crate::tree::store_tree::entry_pairs(s);
    if es.len() > 0 {
        let dl = es.drop_last();
        assert forall|a: int, b: int|
            0 <= a < b < dl.len() implies (#[trigger] dl[a]).0 != (#[trigger] dl[b]).0 by {
            assert(es[a].0 != es[b].0);
        }
        assert forall|a: int|
            0 <= a < dl.len() implies (#[trigger] dl[a]).0.len() > 0 && crate::schema::is_digit(
            dl[a].0[0],
        ) by {
            assert(es[a].0.len() > 0 && crate::schema::is_digit(es[a].0[0]));
        }
        lemma_entry_pairs_wf(dl);
        lemma_entry_pairs_fields(dl);
        let front = crate::tree::store_tree::entry_pairs(dl);
        let head = crate::tree::store_tree::head_pairs(es.last());
        let out = crate::tree::store_tree::entry_pairs(es);
        let lastk = es[es.len() - 1].0;
        // the new fields differ from each other and from every earlier field
        assert forall|x: int, y: int|
            0 <= x < y < out.len() implies (#[trigger] out[x]).0 != (#[trigger] out[y]).0 by {
            if y < front.len() {
                assert(out[x] == front[x] && out[y] == front[y]);
            } else if x >= front.len() {
                // both within the head: at most (key, len(key))
                assert(out[x] == head[x - front.len()]);
                assert(out[y] == head[y - front.len()]);
                assert(out[x].0 == lastk && out[y].0 == crate::schema::len_marker(lastk));
                lemma_len_marker_facts(lastk, lastk);
            } else {
                assert(out[x] == front[x]);
                assert(out[y] == head[y - front.len()]);
                let a = choose|a: int|
                    0 <= a < dl.len() && ((#[trigger] front[x]).0 == dl[a].0 || front[x].0
                        == crate::schema::len_marker(dl[a].0));
                assert(es[a].0 != lastk);
                if out[y].0 == lastk {
                    if front[x].0 == dl[a].0 {
                    } else {
                        lemma_len_marker_facts(dl[a].0, lastk);
                    }
                } else {
                    assert(out[y].0 == crate::schema::len_marker(lastk));
                    if front[x].0 == dl[a].0 {
                        lemma_len_marker_facts(lastk, dl[a].0);
                    } else {
                        lemma_len_marker_facts(dl[a].0, lastk);
                        lemma_len_marker_facts(lastk, dl[a].0);
                        if crate::schema::len_marker(dl[a].0) == crate::schema::len_marker(
                            lastk,
                        ) {
                            assert(dl[a].0 == lastk);
                        }
                    }
                }
            }
        }
        assert forall|x: int| 0 <= x < out.len() implies crate::value::is_key(
            (#[trigger] out[x]).1,
        ) by {
            if x < front.len() {
                assert(out[x] == front[x]);
                assert(crate::value::is_key(front[x].1));
            } else {
                assert(out[x] == head[x - front.len()]);
            }
        }
    } else {
        assert forall|x: int| 0 <= x < ep(es).len() implies crate::value::is_key(
            (#[trigger] ep(es)[x]).1,
        ) by {}
    }
}

/// The flat encoding of any record under a schema table of digit-headed
/// ids is indexed under well-formed pairs: distinct fields, each an id or
/// a length marker, each key a number or string.
pub proof fn lemma_encode_pairs_wf(v: Vs, shape: FieldType, cols: Seq<ColumnDef>)
    requires
        forall|j: int|
            0 <= j < cols.len() ==> (#[trigger] cols[j]).id@.len() > 0 && crate::schema::is_digit(
                cols[j].id@[0],
            ),
    ensures
        crate::tree::store_tree::pairs_wf(
            crate::tree::store_tree::index_pairs(spec_encode(v, shape, cols)),
        ),
{
    let entries = enc_fold(cols, leaf_cols(v, shape), cols.len() as int);
    lemma_enc_fold_props(cols, leaf_cols(v, shape), cols.len() as int);
    assert forall|a: int, b: int|
        0 <= a < b < entries.len() implies (#[trigger] entries[a]).0
        != (#[trigger] entries[b]).0 by {
        assert(lex_lt(entries[a].0, entries[b].0));
        crate::value::lemma_lex_trichotomy(entries[a].0, entries[b].0);
    }
    assert forall|a: int|
        0 <= a < entries.len() implies (#[trigger] entries[a]).0.len() > 0
            && crate::schema::is_digit(entries[a].0[0]) by {
        let j = choose|j: int| 0 <= j < cols.len() && (#[trigger] entries[a]).0 == cols[j].id@;
    }
    lemma_entry_pairs_wf(entries);
}


/// Writing a string into a record's identity field keeps its shape, the
/// identity field being a scalar leaf.
pub proof fn lemma_with_id_conforms(item: Vs, shape: FieldType, idv: Seq<char>)
    requires
        conforms(item, shape),
        shape is Struct,
        crate::schema::id_field_atomic(shape),
    ensures
        conforms(crate::item::with_own_id(item, idv), shape),
{
    let entries = item->Obj_0;
    let entries2 = crate::item::obj_put(entries, crate::schema::id_field_name(), Vs::Str(idv));
    lemma_obj_put_shape(entries, crate::schema::id_field_name(), Vs::Str(idv));
    let out = crate::item::with_own_id(item, idv);
    assert(out->Obj_0 == entries2);
    lemma_struct_conforms_put(shape->Struct_0@, entries, entries2, shape, 0);
}

/// Writing a field keeps the entry keys and touches at most the values
/// of entries carrying that field's name.
proof fn lemma_obj_put_shape(es: Seq<(Seq<char>, Vs)>, name: Seq<char>, v: Vs)
    ensures
        crate::item::obj_put(es, name, v).len() == es.len(),
        forall|i: int|
            0 <= i < es.len() ==> (#[trigger] crate::item::obj_put(es, name, v)[i]).0 == es[i].0
                && (crate::item::obj_put(es, name, v)[i].1 == es[i].1 || (es[i].0 == name
                && crate::item::obj_put(es, name, v)[i].1 == v)),
    decreases es.len(),
{
    let out = crate::item::obj_put(es, name, v);
    if es.len() > 0 && es[0].0 != name {
        lemma_obj_put_shape(es.drop_first(), name, v);
        assert forall|i: int|
            0 <= i < es.len() implies (#[trigger] out[i]).0 == es[i].0 && (out[i].1 == es[i].1
                || (es[i].0 == name && out[i].1 == v)) by {
            if i > 0 {
                assert(out[i] == crate::item::obj_put(es.drop_first(), name, v)[i - 1]);
                assert(es.drop_first()[i - 1] == es[i]);
            }
        }
    }
}

/// Field-wise conformance survives the identity write.
proof fn lemma_struct_conforms_put(
    fields: Seq<crate::schema::FieldDecl>,
    entries: Seq<(Seq<char>, Vs)>,
    entries2: Seq<(Seq<char>, Vs)>,
    shape: FieldType,
    i: int,
)
    requires
        shape is Struct,
        shape->Struct_0@ == fields,
        crate::schema::id_field_atomic(shape),
        crate::schema::struct_conforms(fields, entries, i),
        entries2.len() == entries.len(),
        forall|m: int|
            0 <= m < entries.len() ==> (#[trigger] entries2[m]).0 == entries[m].0 && (entries2[m].1
                == entries[m].1 || entries[m].0 == crate::schema::id_field_name()),
        0 <= i,
    ensures
        crate::schema::struct_conforms(fields, entries2, i),
    decreases fields.len() - i,
{
    if i < fields.len() {
        lemma_struct_conforms_put(fields, entries, entries2, shape, i + 1);
        assert(entries2[i].0 == fields[i].name@);
        if entries2[i].1 == entries[i].1 {
        } else {
            assert(entries[i].0 == crate::schema::id_field_name());
            assert(fields[i].name@ == crate::schema::id_field_name());
            assert(shape->Struct_0@[i].shape is Atomic);
            assert(conforms(entries2[i].1, fields[i].shape));
        }
    }
}


/// A conforming record of a type with an identity field carries that
/// field.
pub proof fn lemma_conforms_id_present(w: Vs, shape: FieldType)
    requires
        conforms(w, shape),
        shape is Struct,
        shape_wf(shape),
        crate::schema::has_id_field(shape),
    ensures
        crate::item::obj_find(w->Obj_0, crate::schema::id_field_name()).is_some(),
        crate::item::obj_find(w->Obj_0, crate::schema::id_field_name())
            == Option::Some(w->Obj_0[choose|i: int|
            0 <= i < shape->Struct_0@.len() && (#[trigger] shape->Struct_0@[i].name@)
                == crate::schema::id_field_name()].1),
{
    let fields = shape->Struct_0@;
    let entries = w->Obj_0;
    let i = choose|i: int|
        0 <= i < fields.len() && (#[trigger] fields[i].name@)
            == crate::schema::id_field_name();
    lemma_struct_conforms_index(fields, entries, 0, i);
    assert forall|j: int| 0 <= j < i implies (#[trigger] entries[j]).0
        != crate::schema::id_field_name() by {
        lemma_struct_conforms_index(fields, entries, 0, j);
        assert(entries[j].0 == fields[j].name@);
        assert(lex_lt(fields[j].name@, fields[i].name@));
        crate::value::lemma_lex_trichotomy(fields[j].name@, fields[i].name@);
    }
    lemma_obj_find_hits(entries, crate::schema::id_field_name(), i);
}

/// A hit after misses is what the field lookup finds.
proof fn lemma_obj_find_hits(es: Seq<(Seq<char>, Vs)>, name: Seq<char>, i: int)
    requires
        0 <= i < es.len(),
        forall|j: int| 0 <= j < i ==> (#[trigger] es[j]).0 != name,
        es[i].0 == name,
    ensures
        crate::item::obj_find(es, name) == Option::Some(es[i].1),
    decreases i,
{
    if i > 0 {
        assert forall|j: int| 0 <= j < i - 1 implies (#[trigger] es.drop_first()[j]).0 != name by {
            assert(es[j + 1].0 != name);
        }
        lemma_obj_find_hits(es.drop_first(), name, i - 1);
    }
}

} // verus!
