//! The generic tree-shaped record value, its mathematical view, and the
//! total order on indexable (number / string) values.

use vstd::prelude::*;

verus! {

/// A record identifier: the characters of an id string.
pub type Id = Vec<char>;

/// The shape of a value, as the store distinguishes them.
#[derive(Clone, Copy, PartialEq, Eq, Debug)]
pub enum DataType {
    String,
    Number,
    Bool,
    Array,
    Object,
    Null,
}

/// A generic tree-shaped value: what a record looks like to the store after
/// the caller's serialization layer has turned it into plain data.
/// Numbers are held as signed 64-bit integers; an object is a list of
/// entries whose keys are kept strictly sorted, so that two objects with the
/// same entries are structurally equal.
#[derive(Debug, PartialEq, Eq)]
pub enum Value {
    Null,
    Bool(bool),
    Int(i64),
    Str(Vec<char>),
    Arr(Vec<Value>),
    Obj(Vec<Entry>),
}

/// One `key: value` entry of an object value.
#[derive(Debug, PartialEq, Eq)]
pub struct Entry {
    pub key: Vec<char>,
    pub value: Value,
}

/// The mathematical shape of a `Value`, used by all contracts.
pub enum Vs {
    Null,
    Bool(bool),
    Int(int),
    Str(Seq<char>),
    Arr(Seq<Vs>),
    Obj(Seq<(Seq<char>, Vs)>),
}

/// The mathematical view of a value.
pub open spec fn vw(v: Value) -> Vs
    decreases v,
{
    match v {
            Value::Null => Vs::Null,
            Value::Bool(b) => Vs::Bool(b),
            Value::Int(i) => Vs::Int(i as int),
            Value::Str(s) => Vs::Str(s@),
            Value::Arr(items) => Vs::Arr(
                Seq::new(
                    items.len() as nat,
                    |i: int|
                        if 0 <= i < items.len() {
                            vw(items[i])
                        } else {
                            Vs::Null
                        },
                ),
            ),
            Value::Obj(entries) => Vs::Obj(
                Seq::new(
                    entries.len() as nat,
                    |i: int|
                        if 0 <= i < entries.len() {
                            (entries[i].key@, vw(entries[i].value))
                        } else {
                            (Seq::empty(), Vs::Null)
                        },
                ),
            ),
    }
}

impl View for Value {
    type V = Vs;

    open spec fn view(&self) -> Vs {
        vw(*self)
    }
}

impl Value {
    pub open spec fn spec_data_type(&self) -> DataType {
        match self {
            Value::Null => DataType::Null,
            Value::Bool(_) => DataType::Bool,
            Value::Int(_) => DataType::Number,
            Value::Str(_) => DataType::String,
            Value::Arr(_) => DataType::Array,
            Value::Obj(_) => DataType::Object,
        }
    }

    /// The `DataType` of this value.
    pub fn data_type(&self) -> (t: DataType)
        ensures
            t == self.spec_data_type(),
    {
        match self {
            Value::Null => DataType::Null,
            Value::Bool(_) => DataType::Bool,
            Value::Int(_) => DataType::Number,
            Value::Str(_) => DataType::String,
            Value::Arr(_) => DataType::Array,
            Value::Obj(_) => DataType::Object,
        }
    }

    /// Only numbers and strings enter the index tree.
    pub fn can_index(&self) -> (b: bool)
        ensures
            b == is_key(self@),
    {
        match self {
            Value::Int(_) => true,
            Value::Str(_) => true,
            _ => false,
        }
    }
}

/// Copies a character sequence.
pub fn clone_chars(s: &Vec<char>) -> (r: Vec<char>)
    ensures
        r@ == s@,
{
    let mut r: Vec<char> = Vec::new();
    let mut i: usize = 0;
    while i < s.len()
        invariant
            0 <= i <= s.len(),
            r@ == s@.take(i as int),
        decreases s.len() - i,
    {
        proof {
            assert(s@.take(i + 1) =~= s@.take(i as int).push(s@[i as int]));
        }
        r.push(s[i]);
        i = i + 1;
    }
    proof {
        assert(s@.take(s.len() as int) =~= s@);
    }
    r
}

impl Value {
    /// Deep copy of a value.
    pub fn duplicate(&self) -> (r: Value)
        ensures
            r@ == self@,
        decreases self,
    {
        match self {
            Value::Null => Value::Null,
            Value::Bool(b) => Value::Bool(*b),
            Value::Int(i) => Value::Int(*i),
            Value::Str(s) => Value::Str(clone_chars(s)),
            Value::Arr(items) => {
                let mut out: Vec<Value> = Vec::new();
                let mut i: usize = 0;
                while i < items.len()
                    invariant
                        self is Arr,
                        *items == self->Arr_0,
                        0 <= i <= items.len(),
                        out.len() == i,
                        forall|j: int| 0 <= j < i ==> out[j]@ == items[j]@,
                    decreases items.len() - i,
                {
                    proof {
                        assert(decreases_to!(*self => self->Arr_0));
                        assert(decreases_to!(self->Arr_0 => self->Arr_0@));
                        assert(decreases_to!(self->Arr_0@ => self->Arr_0@[i as int]));
                        assert(decreases_to!(*self => items@[i as int]));
                    }
                    out.push(items[i].duplicate());
                    i = i + 1;
                }
                let r = Value::Arr(out);
                proof {
                    assert(r@->Arr_0 =~= self@->Arr_0);
                }
                r
            },
            Value::Obj(entries) => {
                let mut out: Vec<Entry> = Vec::new();
                let mut i: usize = 0;
                while i < entries.len()
                    invariant
                        self is Obj,
                        *entries == self->Obj_0,
                        0 <= i <= entries.len(),
                        out.len() == i,
                        forall|j: int|
                            0 <= j < i ==> out[j].key@ == entries[j].key@ && out[j].value@
                                == entries[j].value@,
                    decreases entries.len() - i,
                {
                    proof {
                        assert(decreases_to!(*self => self->Obj_0));
                        assert(decreases_to!(self->Obj_0 => self->Obj_0@));
                        assert(decreases_to!(self->Obj_0@ => self->Obj_0@[i as int]));
                        assert(decreases_to!(self->Obj_0@[i as int] => self->Obj_0@[i as int].value));
                        assert(decreases_to!(*self => entries@[i as int].value));
                    }
                    let e = Entry {
                        key: clone_chars(&entries[i].key),
                        value: entries[i].value.duplicate(),
                    };
                    out.push(e);
                    i = i + 1;
                }
                let r = Value::Obj(out);
                proof {
                    assert(r@->Obj_0 =~= self@->Obj_0);
                }
                r
            },
        }
    }
}

/// Whether a value may stand as a key in an index tree.
pub open spec fn is_key(v: Vs) -> bool {
    v is Int || v is Str
}

/// Lexicographic order on character sequences, by code point.
pub open spec fn lex_lt(a: Seq<char>, b: Seq<char>) -> bool
    decreases a.len(),
{
    if b.len() == 0 {
        false
    } else if a.len() == 0 {
        true
    } else if a[0] != b[0] {
        a[0] < b[0]
    } else {
        lex_lt(a.drop_first(), b.drop_first())
    }
}

/// The strict order on index keys: numbers by magnitude, strings
/// lexicographically, and every number before every string (values of
/// different kinds never share one field in practice, so the cross-kind
/// case only makes the order total).
pub open spec fn key_lt(a: Vs, b: Vs) -> bool {
    match (a, b) {
        (Vs::Int(x), Vs::Int(y)) => x < y,
        (Vs::Int(_), Vs::Str(_)) => true,
        (Vs::Str(_), Vs::Int(_)) => false,
        (Vs::Str(x), Vs::Str(y)) => lex_lt(x, y),
        _ => false,
    }
}

pub open spec fn key_le(a: Vs, b: Vs) -> bool {
    key_lt(a, b) || a == b
}

pub proof fn lemma_lex_trichotomy(a: Seq<char>, b: Seq<char>)
    ensures
        lex_lt(a, b) || lex_lt(b, a) || a == b,
        !(lex_lt(a, b) && lex_lt(b, a)),
        lex_lt(a, b) ==> a != b,
    decreases a.len(),
{
    if b.len() == 0 || a.len() == 0 {
        if a.len() == 0 && b.len() == 0 {
            assert(a =~= b);
        }
    } else if a[0] != b[0] {
    } else {
        lemma_lex_trichotomy(a.drop_first(), b.drop_first());
        if a.drop_first() == b.drop_first() {
            assert(a =~= b) by {
                assert forall|i: int| 0 <= i < a.len() implies a[i] == b[i] by {
                    if i > 0 {
                        assert(a.drop_first()[i - 1] == b.drop_first()[i - 1]);
                    }
                }
            }
        }
        if a == b {
            assert(a.drop_first() =~= b.drop_first());
        }
    }
}

pub proof fn lemma_lex_trans(a: Seq<char>, b: Seq<char>, c: Seq<char>)
    requires
        lex_lt(a, b),
        lex_lt(b, c),
    ensures
        lex_lt(a, c),
    decreases a.len(),
{
    if c.len() == 0 {
    } else if a.len() == 0 {
    } else {
        if a[0] == b[0] && b[0] == c[0] {
            lemma_lex_trans(a.drop_first(), b.drop_first(), c.drop_first());
        }
    }
}

/// The key order is total: any two keys are ordered or equal, and never
/// both ways at once.
pub proof fn lemma_key_order_total(a: Vs, b: Vs)
    requires
        is_key(a),
        is_key(b),
    ensures
        key_lt(a, b) || key_lt(b, a) || a == b,
        !(key_lt(a, b) && key_lt(b, a)),
        key_lt(a, b) ==> a != b,
{
    if a is Str && b is Str {
        lemma_lex_trichotomy(a->Str_0, b->Str_0);
    }
}

/// The key order never holds both ways, whatever the operands are.
pub proof fn lemma_key_asym(a: Vs, b: Vs)
    requires
        key_lt(a, b),
    ensures
        !key_lt(b, a),
        a != b,
{
    if a is Str && b is Str {
        lemma_lex_trichotomy(a->Str_0, b->Str_0);
    }
}

/// The key order is transitive.
pub proof fn lemma_key_lt_trans(a: Vs, b: Vs, c: Vs)
    requires
        key_lt(a, b),
        key_lt(b, c),
    ensures
        key_lt(a, c),
{
    if a is Str && b is Str && c is Str {
        lemma_lex_trans(a->Str_0, b->Str_0, c->Str_0);
    }
}

/// Compares two character sequences; `-1`, `0` and `1` stand for less,
/// equal and greater.
pub fn lex_compare(a: &Vec<char>, b: &Vec<char>) -> (o: i8)
    ensures
        o == -1 <==> lex_lt(a@, b@),
        o == 1 <==> lex_lt(b@, a@),
        o == 0 <==> a@ == b@,
{
    proof {
        lemma_lex_trichotomy(a@, b@);
        lemma_lex_trichotomy(b@, a@);
    }
    let mut i: usize = 0;
    loop
        invariant
            0 <= i <= a.len(),
            i <= b.len(),
            forall|j: int| 0 <= j < i ==> a@[j] == b@[j],
        decreases a.len() - i,
    {
        if i >= a.len() || i >= b.len() {
            proof {
                lemma_lex_skip(a@, b@, i as int);
                lemma_lex_skip(b@, a@, i as int);
            }
            if a.len() == b.len() {
                assert(a@ =~= b@);
                return 0;
            } else if a.len() < b.len() {
                return -1;
            } else {
                return 1;
            }
        }
        let ca = a[i];
        let cb = b[i];
        if ca != cb {
            proof {
                lemma_lex_skip(a@, b@, i as int);
                lemma_lex_skip(b@, a@, i as int);
            }
            assert(a@.skip(i as int)[0] == a@[i as int]);
            assert(b@.skip(i as int)[0] == b@[i as int]);
            if ca < cb {
                return -1;
            } else {
                return 1;
            }
        }
        i = i + 1;
    }
}

/// When the first `i` characters agree, the lexicographic order is decided
/// by what follows them.
proof fn lemma_lex_skip(a: Seq<char>, b: Seq<char>, i: int)
    requires
        0 <= i <= a.len(),
        i <= b.len(),
        forall|j: int| 0 <= j < i ==> a[j] == b[j],
    ensures
        lex_lt(a, b) == lex_lt(a.skip(i), b.skip(i)),
    decreases i,
{
    if i > 0 {
        assert(a.len() > 0 && b.len() > 0);
        assert(a[0] == b[0]);
        assert(a.drop_first().skip(i - 1) =~= a.skip(i));
        assert(b.drop_first().skip(i - 1) =~= b.skip(i));
        assert forall|j: int| 0 <= j < i - 1 implies a.drop_first()[j] == b.drop_first()[j] by {
            assert(a[j + 1] == b[j + 1]);
        }
        lemma_lex_skip(a.drop_first(), b.drop_first(), i - 1);
    } else {
        assert(a.skip(0) =~= a);
        assert(b.skip(0) =~= b);
    }
}

/// Compares two index keys in the `key_lt` order; `-1`, `0` and `1` stand
/// for less, equal and greater.
pub fn key_compare(a: &Value, b: &Value) -> (o: i8)
    requires
        is_key(a@),
        is_key(b@),
    ensures
        o == -1 <==> key_lt(a@, b@),
        o == 1 <==> key_lt(b@, a@),
        o == 0 <==> a@ == b@,
{
    proof {
        lemma_key_order_total(a@, b@);
        lemma_key_order_total(b@, a@);
    }
    match (a, b) {
        (Value::Int(x), Value::Int(y)) => {
            if *x < *y {
                -1
            } else if *x == *y {
                0
            } else {
                1
            }
        },
        (Value::Int(_), Value::Str(_)) => -1,
        (Value::Str(_), Value::Int(_)) => 1,
        (Value::Str(x), Value::Str(y)) => lex_compare(x, y),
        _ => 0,
    }
}

} // verus!
