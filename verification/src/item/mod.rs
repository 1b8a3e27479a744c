//! The persisted unit: a record paired with its id, and the drawing of
//! fresh ids.

use vstd::prelude::*;
use crate::value::Value;
use crate::value::Entry;
use crate::value::Vs;
use crate::value::Id;
use crate::value::clone_chars;
use crate::value::lex_compare;
use crate::schema::id_field_name;

verus! {

/// A record with the id it is stored under.
pub struct ItemWrapper {
    pub item: Value,
    pub id: Id,
}

/// The id a record carries in its identity field, when it is a nonempty
/// string.
pub open spec fn own_id(item: Vs) -> Option<Seq<char>> {
    if item is Obj {
        match obj_find(item->Obj_0, id_field_name()) {
            Option::Some(v) => if v is Str && v->Str_0.len() > 0 {
                Option::Some(v->Str_0)
            } else {
                Option::None
            },
            Option::None => Option::None,
        }
    } else {
        Option::None
    }
}

pub open spec fn obj_find(es: Seq<(Seq<char>, Vs)>, name: Seq<char>) -> Option<Vs>
    decreases es.len(),
{
    if es.len() == 0 {
        Option::None
    } else if es[0].0 == name {
        Option::Some(es[0].1)
    } else {
        obj_find(es.drop_first(), name)
    }
}

/// The record with its identity field set to an id, when it has one.
pub open spec fn with_own_id(item: Vs, idv: Seq<char>) -> Vs {
    if item is Obj {
        Vs::Obj(obj_put(item->Obj_0, id_field_name(), Vs::Str(idv)))
    } else {
        item
    }
}

pub open spec fn obj_put(es: Seq<(Seq<char>, Vs)>, name: Seq<char>, v: Vs) -> Seq<(Seq<char>, Vs)>
    decreases es.len(),
{
    if es.len() == 0 {
        es
    } else if es[0].0 == name {
        seq![(name, v)] + es.drop_first()
    } else {
        seq![es[0]] + obj_put(es.drop_first(), name, v)
    }
}

/// The id and stored form a record takes: a type with an identity field
/// keeps its own nonempty id, else takes the fresh one and records it in
/// its identity field; a type without one just takes the fresh id.
pub open spec fn wrapper_item(item: Vs, has_id: bool, fresh: Seq<char>) -> (Seq<char>, Vs) {
    if has_id {
        match own_id(item) {
            Option::Some(idv) => (idv, item),
            Option::None => (fresh, with_own_id(item, fresh)),
        }
    } else {
        (fresh, item)
    }
}

impl ItemWrapper {
    /// Wraps a record with its id, drawing the given fresh id when the
    /// record does not carry one of its own.
    pub fn new(item: Value, has_id: bool, fresh: Id) -> (r: ItemWrapper)
        ensures
            (r.id@, r.item@) == wrapper_item(item@, has_id, fresh@),
    {
        if !has_id {
            return ItemWrapper { item, id: fresh };
        }
        match item {
            Value::Obj(mut es) => {
                let ghost es0v = Value::Obj(es)@->Obj_0;
                proof {
                    assert forall|m: int| 0 <= m < es@.len() implies #[trigger] es0v[m] == (
                    es@[m].key@,
                    es@[m].value@,
                    ) by {}
                }
                let mut idname: Vec<char> = Vec::new();
                idname.push('_');
                idname.push('i');
                idname.push('d');
                proof {
                    assert(idname@ =~= id_field_name());
                }
                let mut p: usize = 0;
                let mut hit = false;
                while p < es.len() && !hit
                    invariant
                        idname@ == id_field_name(),
                        0 <= p <= es@.len(),
                        es0v.len() == es@.len(),
                        forall|m: int|
                            0 <= m < es@.len() ==> #[trigger] es0v[m] == (
                            es@[m].key@,
                            es@[m].value@,
                            ),
                        hit ==> p < es@.len() && es0v[p as int].0 == id_field_name(),
                        forall|m: int| 0 <= m < p ==> (#[trigger] es0v[m]).0 != id_field_name(),
                    decreases es@.len() - p, (if hit { 0int } else { 1int }),
                {
                    if lex_compare(&es[p].key, &idname) == 0 {
                        hit = true;
                    } else {
                        p = p + 1;
                    }
                }
                if !hit {
                    proof {
                        lemma_obj_find_misses(es0v, id_field_name());
                        lemma_obj_put_misses(es0v, id_field_name(), Vs::Str(fresh@));
                        assert(Value::Obj(es)@->Obj_0 =~= es0v);
                        assert(with_own_id(Value::Obj(es)@, fresh@) == Value::Obj(es)@);
                    }
                    return ItemWrapper { item: Value::Obj(es), id: fresh };
                }
                proof {
                    lemma_obj_find_at(es0v, id_field_name(), p as int);
                }
                let keep: bool = match &es[p].value {
                    Value::Str(s) => s.len() > 0,
                    _ => false,
                };
                if keep {
                    let idv = match &es[p].value {
                        Value::Str(s) => clone_chars(s),
                        _ => Vec::new(),
                    };
                    return ItemWrapper { item: Value::Obj(es), id: idv };
                }
                // take the fresh id and write it into the identity field
                let ghost before = es0v;
                let e = es.remove(p);
                let nv = Value::Str(clone_chars(&fresh));
                proof {
                    assert(nv@ == Vs::Str(fresh@));
                }
                es.insert(p, Entry { key: e.key, value: nv });
                let out = Value::Obj(es);
                proof {
                    lemma_obj_put_at(before, id_field_name(), Vs::Str(fresh@), p as int);
                    assert(out@->Obj_0.len() == es@.len());
                    assert forall|m: int| 0 <= m < es@.len() implies #[trigger] out@->Obj_0[m] == (
                    es@[m].key@,
                    es@[m].value@,
                    ) by {}
                    assert(es@[p as int].key@ == id_field_name());
                    assert(es@[p as int].value@ == Vs::Str(fresh@));
                    assert forall|m: int|
                        0 <= m < es@.len() && m != p implies #[trigger] out@->Obj_0[m]
                        == before[m] by {}
                    assert(out@->Obj_0 =~= obj_put(before, id_field_name(), Vs::Str(fresh@)));
                }
                ItemWrapper { item: out, id: fresh }
            },
            other => ItemWrapper { item: other, id: fresh },
        }
    }
}

/// A find that misses every entry finds nothing.
proof fn lemma_obj_find_misses(es: Seq<(Seq<char>, Vs)>, name: Seq<char>)
    requires
        forall|m: int| 0 <= m < es.len() ==> (#[trigger] es[m]).0 != name,
    ensures
        obj_find(es, name).is_none(),
    decreases es.len(),
{
    if es.len() > 0 {
        assert forall|m: int| 0 <= m < es.len() - 1 implies (#[trigger] es.drop_first()[m]).0
            != name by {
            assert(es[m + 1].0 != name);
        }
        lemma_obj_find_misses(es.drop_first(), name);
    }
}

/// Writing an absent field changes nothing.
proof fn lemma_obj_put_misses(es: Seq<(Seq<char>, Vs)>, name: Seq<char>, v: Vs)
    requires
        forall|m: int| 0 <= m < es.len() ==> (#[trigger] es[m]).0 != name,
    ensures
        obj_put(es, name, v) =~= es,
    decreases es.len(),
{
    if es.len() > 0 {
        assert forall|m: int| 0 <= m < es.len() - 1 implies (#[trigger] es.drop_first()[m]).0
            != name by {
            assert(es[m + 1].0 != name);
        }
        lemma_obj_put_misses(es.drop_first(), name, v);
        assert(seq![es[0]] + es.drop_first() =~= es);
    }
}

/// A hit after misses is the find's result.
proof fn lemma_obj_find_at(es: Seq<(Seq<char>, Vs)>, name: Seq<char>, p: int)
    requires
        0 <= p < es.len(),
        forall|m: int| 0 <= m < p ==> (#[trigger] es[m]).0 != name,
        es[p].0 == name,
    ensures
        obj_find(es, name) == Option::Some(es[p].1),
    decreases p,
{
    if p > 0 {
        assert forall|m: int| 0 <= m < p - 1 implies (#[trigger] es.drop_first()[m]).0 != name by {
            assert(es[m + 1].0 != name);
        }
        lemma_obj_find_at(es.drop_first(), name, p - 1);
    }
}

/// Writing a field at its found position is the put's result.
proof fn lemma_obj_put_at(es: Seq<(Seq<char>, Vs)>, name: Seq<char>, v: Vs, p: int)
    requires
        0 <= p < es.len(),
        forall|m: int| 0 <= m < p ==> (#[trigger] es[m]).0 != name,
        es[p].0 == name,
    ensures
        obj_put(es, name, v) =~= es.take(p) + seq![(name, v)] + es.skip(p + 1),
    decreases p,
{
    if p == 0 {
        assert(es.take(0) =~= Seq::<(Seq<char>, Vs)>::empty());
    } else {
        assert forall|m: int| 0 <= m < p - 1 implies (#[trigger] es.drop_first()[m]).0 != name by {
            assert(es[m + 1].0 != name);
        }
        lemma_obj_put_at(es.drop_first(), name, v, p - 1);
        assert(es.drop_first().take(p - 1) =~= es.take(p).drop_first());
        assert(es.drop_first().skip(p) =~= es.skip(p + 1));
        assert(seq![es[0]] + (es.take(p).drop_first() + seq![(name, v)] + es.skip(p + 1))
            =~= es.take(p) + seq![(name, v)] + es.skip(p + 1));
    }
}

/// Relies on objectid's `ObjectId::new`, which draws a fresh object id
/// from the clock, the machine and a process counter, and on its
/// `Display` form, the id's 24 hexadecimal digits.  The result depends
/// on machine state, so nothing more is promised of a success; an error
/// from the generator comes back as nothing.  One caveat: the
/// generator's machine-id path unwraps its hostname lookup, so a failed
/// `gethostname` panics inside the call rather than erring; that is
/// environmental, beyond any `requires` here.
#[verifier::external_body]
fn gen_object_id() -> (r: Option<Vec<char>>)
    ensures
        r.is_some() ==> r.unwrap()@.len() == 24,
{
    match objectid::ObjectId::new() {
        Ok(oid) => Some(oid.to_string().chars().collect()),
        Err(_) => None,
    }
}

/// Draws a fresh id: an object id when the machine yields one, else a
/// decimal fallback from the given counter.
pub fn create_id(counter: u64) -> (r: Id)
    ensures
        r@.len() == 24 || r@ == crate::schema::dec_str(counter as nat),
        r@.len() > 0,
{
    match gen_object_id() {
        Some(id) => id,
        None => crate::schema::u64_to_dec_pub(counter),
    }
}


/// Writes an id into a record's identity field, leaving a record without
/// one untouched.
pub fn force_id(item: Value, id: &Id) -> (r: Value)
    ensures
        r@ == with_own_id(item@, id@),
{
    match item {
        Value::Obj(mut es) => {
            let ghost es0v = Value::Obj(es)@->Obj_0;
            proof {
                assert forall|m: int| 0 <= m < es@.len() implies #[trigger] es0v[m] == (
                es@[m].key@,
                es@[m].value@,
                ) by {}
            }
            let mut idname: Vec<char> = Vec::new();
            idname.push('_');
            idname.push('i');
            idname.push('d');
            proof {
                assert(idname@ =~= id_field_name());
            }
            let mut p: usize = 0;
            let mut hit = false;
            while p < es.len() && !hit
                invariant
                    idname@ == id_field_name(),
                    0 <= p <= es@.len(),
                    es0v.len() == es@.len(),
                    forall|m: int|
                        0 <= m < es@.len() ==> #[trigger] es0v[m] == (
                        es@[m].key@,
                        es@[m].value@,
                        ),
                    hit ==> p < es@.len() && es0v[p as int].0 == id_field_name(),
                    forall|m: int| 0 <= m < p ==> (#[trigger] es0v[m]).0 != id_field_name(),
                decreases es@.len() - p, (if hit { 0int } else { 1int }),
            {
                if lex_compare(&es[p].key, &idname) == 0 {
                    hit = true;
                } else {
                    p = p + 1;
                }
            }
            if !hit {
                proof {
                    lemma_obj_put_misses(es0v, id_field_name(), Vs::Str(id@));
                    assert(Value::Obj(es)@->Obj_0 =~= es0v);
                }
                return Value::Obj(es);
            }
            let e = es.remove(p);
            let nv = Value::Str(clone_chars(id));
            proof {
                assert(nv@ == Vs::Str(id@));
            }
            es.insert(p, Entry { key: e.key, value: nv });
            let out = Value::Obj(es);
            proof {
                lemma_obj_put_at(es0v, id_field_name(), Vs::Str(id@), p as int);
                assert(out@->Obj_0.len() == es@.len());
                assert forall|m: int| 0 <= m < es@.len() implies #[trigger] out@->Obj_0[m] == (
                es@[m].key@,
                es@[m].value@,
                ) by {}
                assert(es@[p as int].key@ == id_field_name());
                assert(es@[p as int].value@ == Vs::Str(id@));
                assert forall|m: int|
                    0 <= m < es@.len() && m != p implies #[trigger] out@->Obj_0[m]
                    == es0v[m] by {}
                assert(out@->Obj_0 =~= obj_put(es0v, id_field_name(), Vs::Str(id@)));
            }
            out
        },
        other => other,
    }
}

/// Whether a record carries a nonempty id of its own.
pub fn has_own_id(item: &Value) -> (r: bool)
    ensures
        r == own_id(item@).is_some(),
{
    match item {
        Value::Obj(es) => {
            let ghost es0v = item@->Obj_0;
            proof {
                assert(*es == item->Obj_0);
                assert(es0v.len() == es@.len());
                assert forall|m: int| 0 <= m < es@.len() implies #[trigger] es0v[m] == (
                es@[m].key@,
                es@[m].value@,
                ) by {}
            }
            let mut idname: Vec<char> = Vec::new();
            idname.push('_');
            idname.push('i');
            idname.push('d');
            proof {
                assert(idname@ =~= id_field_name());
            }
            let mut p: usize = 0;
            while p < es.len()
                invariant
                    idname@ == id_field_name(),
                    item is Obj,
                    *es == item->Obj_0,
                    0 <= p <= es@.len(),
                    es0v == item@->Obj_0,
                    es0v.len() == es@.len(),
                    forall|m: int|
                        0 <= m < es@.len() ==> #[trigger] es0v[m] == (
                        es@[m].key@,
                        es@[m].value@,
                        ),
                    forall|m: int| 0 <= m < p ==> (#[trigger] es0v[m]).0 != id_field_name(),
                decreases es@.len() - p,
            {
                if lex_compare(&es[p].key, &idname) == 0 {
                    proof {
                        lemma_obj_find_at(es0v, id_field_name(), p as int);
                    }
                    return match &es[p].value {
                        Value::Str(sv) => sv.len() > 0,
                        _ => false,
                    };
                }
                p = p + 1;
            }
            proof {
                lemma_obj_find_misses(es0v, id_field_name());
            }
            false
        },
        _ => false,
    }
}

} // verus!
