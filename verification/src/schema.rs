//! The schema descriptor: a record type's declared field shapes, the
//! stable integer-string field ids derived from field paths, and the flat
//! path-to-id table that the codec and the persistence engine share.

use vstd::prelude::*;
use crate::value::Value;
use crate::value::Vs;
use crate::value::lex_lt;
use crate::value::lex_compare;
use crate::value::clone_chars;

verus! {

/// The longest field path the id derivation accepts.
pub const MAX_PATH_CHARS: usize = 65536;

/// The weighted character sum a field id is derived from: each character
/// contributes its code point times its position.
pub open spec fn path_hash(s: Seq<char>) -> int
    decreases s.len(),
{
    if s.len() == 0 {
        0
    } else {
        path_hash(s.drop_last()) + (s.len() - 1) * (s.last() as u32)
    }
}

pub open spec fn digit_char(d: int) -> char {
    ((48 + d) as u8) as char
}

/// The decimal digits of `n`.
pub open spec fn dec_str(n: nat) -> Seq<char>
    decreases n,
{
    if n < 10 {
        seq![digit_char(n as int)]
    } else {
        dec_str(n / 10).push(digit_char((n % 10) as int))
    }
}

/// The stable field id of a path: the decimal form of its weighted
/// character sum.
pub open spec fn unique_int_str(s: Seq<char>) -> Seq<char> {
    dec_str(path_hash(s) as nat)
}

/// The id of the derived length pseudo-field of a field id.
pub open spec fn len_marker(id: Seq<char>) -> Seq<char> {
    seq!['l', 'e', 'n', '('] + id + seq![')']
}

proof fn lemma_path_hash_bounds(s: Seq<char>)
    ensures
        0 <= path_hash(s),
        path_hash(s) <= s.len() * s.len() * 0x110000,
    decreases s.len(),
{
    if s.len() > 0 {
        lemma_path_hash_bounds(s.drop_last());
        vstd::utf8::char_is_scalar(s.last());
        let n = s.len() as int;
        assert((n - 1) * (n - 1) * 0x110000 + (n - 1) * 0x110000 <= n * n * 0x110000)
            by (nonlinear_arith)
            requires n >= 1;
        let m = (s.last() as u32) as int;
        assert((n - 1) * m <= (n - 1) * 0x110000) by (nonlinear_arith)
            requires
                n >= 1,
                0 <= m < 0x110000,
        ;
    }
}

proof fn lemma_path_hash_take(s: Seq<char>, i: int)
    requires
        0 <= i < s.len(),
    ensures
        path_hash(s.take(i + 1)) == path_hash(s.take(i)) + i * (s[i] as u32),
{
    let t = s.take(i + 1);
    assert(t.drop_last() =~= s.take(i));
    assert(t.last() == s[i]);
}

/// Derives the stable integer-string id of a field path.  The same path
/// always yields the same id, which is what makes rename-aware migration
/// possible.
pub fn get_unique_int_str(field: &Vec<char>) -> (r: Vec<char>)
    requires
        field@.len() <= MAX_PATH_CHARS,
    ensures
        r@ == unique_int_str(field@),
{
    let mut acc: u64 = 0;
    let mut i: usize = 0;
    proof {
        assert(field@.take(0) =~= Seq::<char>::empty());
    }
    while i < field.len()
        invariant
            0 <= i <= field@.len(),
            field@.len() <= MAX_PATH_CHARS,
            acc == path_hash(field@.take(i as int)),
            acc <= i * i * 0x110000,
        decreases field@.len() - i,
    {
        let c = field[i] as u32;
        proof {
            lemma_path_hash_take(field@, i as int);
            vstd::utf8::char_is_scalar(field@[i as int]);
            let n = i as int;
            assert(n * n * 0x110000 + n * 0x110000 <= (n + 1) * (n + 1) * 0x110000)
                by (nonlinear_arith)
                requires n >= 0;
            let m = (field@[n] as u32) as int;
            assert(n * m <= n * 0x110000) by (nonlinear_arith)
                requires
                    n >= 0,
                    0 <= m < 0x110000,
            ;
            assert((MAX_PATH_CHARS as int) * (MAX_PATH_CHARS as int) * 0x110000 < 0x8000_0000_0000_0000)
                by (nonlinear_arith);
            assert((n + 1) * (n + 1) * 0x110000 <= (MAX_PATH_CHARS as int) * (MAX_PATH_CHARS as int)
                * 0x110000) by (nonlinear_arith)
                requires 0 <= n, n + 1 <= MAX_PATH_CHARS as int;
        }
        acc = acc + (i as u64) * (c as u64);
        i = i + 1;
    }
    proof {
        assert(field@.take(field@.len() as int) =~= field@);
    }
    u64_to_dec(acc)
}

/// Writes `n` in decimal.
fn u64_to_dec(n: u64) -> (r: Vec<char>)
    ensures
        r@ == dec_str(n as nat),
    decreases n,
{
    if n < 10 {
        let mut v: Vec<char> = Vec::new();
        v.push((48 + n as u8) as char);
        proof {
            assert(v@ =~= seq![digit_char(n as int)]);
        }
        v
    } else {
        let mut v = u64_to_dec(n / 10);
        v.push((48 + (n % 10) as u8) as char);
        v
    }
}

/// The declared shape of a field: a scalar leaf, an array, a string-keyed
/// map, or a nested struct.  Arrays and maps are walked through (adding a
/// `[]` or `{}` path segment) only when their element is itself a struct;
/// any other element kind is stored whole, as one scalar column.
pub enum FieldType {
    Atomic,
    Array(Box<FieldType>),
    Object(Box<FieldType>),
    Struct(Vec<FieldDecl>),
}

/// One named field of a struct shape.
pub struct FieldDecl {
    pub name: Vec<char>,
    pub shape: FieldType,
}

/// Appends one path segment to a (possibly empty) dotted path prefix.
pub open spec fn joined(prefix: Seq<char>, seg: Seq<char>) -> Seq<char> {
    if prefix.len() == 0 {
        seg
    } else {
        prefix + seq!['.'] + seg
    }
}

/// The dotted paths of every scalar leaf of a shape, in declaration order.
pub open spec fn leaf_paths(shape: FieldType, prefix: Seq<char>) -> Seq<Seq<char>>
    decreases shape, 0nat,
{
    match shape {
        FieldType::Atomic => seq![prefix],
        FieldType::Array(inner) => if *inner is Struct {
            leaf_paths(*inner, joined(prefix, seq!['[', ']']))
        } else {
            seq![prefix]
        },
        FieldType::Object(inner) => if *inner is Struct {
            leaf_paths(*inner, joined(prefix, seq!['{', '}']))
        } else {
            seq![prefix]
        },
        FieldType::Struct(fields) => struct_leaf_paths(fields@, prefix, 0),
    }
}

pub open spec fn struct_leaf_paths(fields: Seq<FieldDecl>, prefix: Seq<char>, i: int) -> Seq<
    Seq<char>,
>
    decreases fields, fields.len() - i,
{
    if i < 0 || i >= fields.len() {
        Seq::empty()
    } else {
        leaf_paths(fields[i].shape, joined(prefix, fields[i].name@)) + struct_leaf_paths(
            fields,
            prefix,
            i + 1,
        )
    }
}

/// How many scalar columns a shape flattens into.
pub open spec fn leaf_count(shape: FieldType) -> nat
    decreases shape, 0nat,
{
    match shape {
        FieldType::Atomic => 1,
        FieldType::Array(inner) => if *inner is Struct {
            leaf_count(*inner)
        } else {
            1
        },
        FieldType::Object(inner) => if *inner is Struct {
            leaf_count(*inner)
        } else {
            1
        },
        FieldType::Struct(fields) => struct_leaf_count(fields@, 0),
    }
}

pub open spec fn struct_leaf_count(fields: Seq<FieldDecl>, i: int) -> nat
    decreases fields, fields.len() - i,
{
    if i < 0 || i >= fields.len() {
        0
    } else {
        leaf_count(fields[i].shape) + struct_leaf_count(fields, i + 1)
    }
}

/// Whether a value has the given shape: structs are objects carrying
/// exactly the declared fields in order, arrays and maps of structs hold
/// conforming elements, and anything stored whole conforms as it is.
pub open spec fn conforms(v: Vs, shape: FieldType) -> bool
    decreases shape, 0nat,
{
    match shape {
        FieldType::Atomic => true,
        FieldType::Array(inner) => if *inner is Struct {
            v is Arr && (forall|k: int|
                0 <= k < v->Arr_0.len() ==> conforms(#[trigger] v->Arr_0[k], *inner))
        } else {
            true
        },
        FieldType::Object(inner) => if *inner is Struct {
            v is Obj && (forall|k: int|
                0 <= k < v->Obj_0.len() ==> conforms(#[trigger] v->Obj_0[k].1, *inner))
        } else {
            true
        },
        FieldType::Struct(fields) => {
            &&& v is Obj
            &&& v->Obj_0.len() == fields.len()
            &&& struct_conforms(fields@, v->Obj_0, 0)
        },
    }
}

pub open spec fn struct_conforms(
    fields: Seq<FieldDecl>,
    entries: Seq<(Seq<char>, Vs)>,
    i: int,
) -> bool
    decreases fields, fields.len() - i,
{
    if i < 0 || i >= fields.len() {
        true
    } else {
        &&& i < entries.len()
        &&& entries[i].0 == fields[i].name@
        &&& conforms(entries[i].1, fields[i].shape)
        &&& struct_conforms(fields, entries, i + 1)
    }
}

/// A shape is well-formed when every struct in it has at least one field,
/// lists its fields in strictly increasing name order, and every name is
/// short enough for the id derivation.
pub open spec fn shape_wf(shape: FieldType) -> bool
    decreases shape, 0nat,
{
    match shape {
        FieldType::Atomic => true,
        FieldType::Array(inner) => shape_wf(*inner),
        FieldType::Object(inner) => shape_wf(*inner),
        FieldType::Struct(fields) => {
            &&& fields@.len() > 0
            &&& (forall|i: int, j: int|
                0 <= i < j < fields@.len() ==> lex_lt(
                    fields@[i].name@,
                    fields@[j].name@,
                ))
            &&& struct_fields_wf(fields@, 0)
        },
    }
}

pub open spec fn struct_fields_wf(fields: Seq<FieldDecl>, i: int) -> bool
    decreases fields, fields.len() - i,
{
    if i < 0 || i >= fields.len() {
        true
    } else {
        shape_wf(fields[i].shape) && struct_fields_wf(fields, i + 1)
    }
}

/// The leaves of the fields before index `i`, from the front.
pub open spec fn struct_leaf_paths_front(fields: Seq<FieldDecl>, prefix: Seq<char>, i: int) -> Seq<
    Seq<char>,
>
    decreases i,
{
    if i <= 0 {
        Seq::empty()
    } else {
        struct_leaf_paths_front(fields, prefix, i - 1) + leaf_paths(
            fields[i - 1].shape,
            joined(prefix, fields[i - 1].name@),
        )
    }
}

pub proof fn lemma_struct_leaf_paths_split(fields: Seq<FieldDecl>, prefix: Seq<char>, i: int)
    requires
        0 <= i <= fields.len(),
    ensures
        struct_leaf_paths_front(fields, prefix, i) + struct_leaf_paths(fields, prefix, i)
            == struct_leaf_paths(fields, prefix, 0),
    decreases i,
{
    if i == 0 {
        assert(struct_leaf_paths_front(fields, prefix, 0) + struct_leaf_paths(fields, prefix, 0)
            =~= struct_leaf_paths(fields, prefix, 0));
    } else {
        lemma_struct_leaf_paths_split(fields, prefix, i - 1);
        assert(struct_leaf_paths_front(fields, prefix, i) + struct_leaf_paths(fields, prefix, i)
            =~= struct_leaf_paths_front(fields, prefix, i - 1) + struct_leaf_paths(
            fields,
            prefix,
            i - 1,
        ));
    }
}

/// The number of leaves below a shape does not depend on the path prefix.
pub proof fn lemma_leaf_paths_count(shape: FieldType, prefix: Seq<char>)
    ensures
        leaf_paths(shape, prefix).len() == leaf_count(shape),
    decreases shape, 0nat,
{
    match shape {
        FieldType::Atomic => {},
        FieldType::Array(inner) => {
            if *inner is Struct {
                lemma_leaf_paths_count(*inner, joined(prefix, seq!['[', ']']));
            }
        },
        FieldType::Object(inner) => {
            if *inner is Struct {
                lemma_leaf_paths_count(*inner, joined(prefix, seq!['{', '}']));
            }
        },
        FieldType::Struct(fields) => {
            lemma_struct_leaf_paths_count(fields@, prefix, 0);
        },
    }
}

pub proof fn lemma_struct_leaf_paths_count(fields: Seq<FieldDecl>, prefix: Seq<char>, i: int)
    ensures
        struct_leaf_paths(fields, prefix, i).len() == struct_leaf_count(fields, i),
    decreases fields, fields.len() - i,
{
    if 0 <= i < fields.len() {
        lemma_leaf_paths_count(fields[i].shape, joined(prefix, fields[i].name@));
        lemma_struct_leaf_paths_count(fields, prefix, i + 1);
    }
}

/// Appends one segment to a dotted path prefix.
pub fn join_path(prefix: &Vec<char>, seg: &Vec<char>) -> (r: Vec<char>)
    ensures
        r@ == joined(prefix@, seg@),
{
    if prefix.len() == 0 {
        clone_chars(seg)
    } else {
        let mut r = clone_chars(prefix);
        r.push('.');
        let mut i: usize = 0;
        while i < seg.len()
            invariant
                0 <= i <= seg@.len(),
                r@ == prefix@ + seq!['.'] + seg@.take(i as int),
            decreases seg@.len() - i,
        {
            proof {
                assert(seg@.take(i + 1) =~= seg@.take(i as int).push(seg@[i as int]));
                assert((prefix@ + seq!['.'] + seg@.take(i as int)).push(seg@[i as int]) =~= prefix@
                    + seq!['.'] + seg@.take(i + 1));
            }
            r.push(seg[i]);
            i = i + 1;
        }
        proof {
            assert(seg@.take(seg@.len() as int) =~= seg@);
        }
        r
    }
}

/// One line of the flat schema table: a leaf path and its stable id.
pub struct ColumnDef {
    pub path: Vec<char>,
    pub id: Vec<char>,
}

/// Whether a table line carries the given path and its derived id.
pub open spec fn col_matches(c: ColumnDef, p: Seq<char>) -> bool {
    c.path@ == p && c.id@ == unique_int_str(p)
}

/// All leaf paths of a shape are short enough for the id derivation.
pub open spec fn paths_short(shape: FieldType, prefix: Seq<char>) -> bool {
    forall|j: int|
        0 <= j < leaf_paths(shape, prefix).len() ==> #[trigger] leaf_paths(shape, prefix)[j].len()
            <= MAX_PATH_CHARS
}

/// Builds the flat path-to-id table of a shape.
pub fn collect_columns(shape: &FieldType, prefix: &Vec<char>, out: &mut Vec<ColumnDef>)
    requires
        paths_short(*shape, prefix@),
    ensures
        final(out)@.len() == old(out)@.len() + leaf_paths(*shape, prefix@).len(),
        forall|j: int| 0 <= j < old(out)@.len() ==> final(out)@[j] == old(out)@[j],
        forall|j: int|
            0 <= j < leaf_paths(*shape, prefix@).len() ==> col_matches(
                #[trigger] final(out)@[old(out)@.len() + j],
                leaf_paths(*shape, prefix@)[j],
            ),
    decreases *shape,
{
    match shape {
        FieldType::Atomic => {
            assert(leaf_paths(*shape, prefix@)[0] == prefix@);
            let id = get_unique_int_str(prefix);
            out.push(ColumnDef { path: clone_chars(prefix), id });
            assert forall|j: int| 0 <= j < leaf_paths(*shape, prefix@).len() implies col_matches(
                #[trigger] out@[old(out)@.len() + j],
                leaf_paths(*shape, prefix@)[j],
            ) by {
                assert(j == 0);
            }
        },
        FieldType::Array(inner) => {
            if is_struct_shape(inner) {
                let mut seg: Vec<char> = Vec::new();
                seg.push('[');
                seg.push(']');
                proof {
                    assert(seg@ =~= seq!['[', ']']);
                }
                let p = join_path(prefix, &seg);
                collect_columns(inner, &p, out);
            } else {
                assert(leaf_paths(*shape, prefix@)[0] == prefix@);
                let id = get_unique_int_str(prefix);
                out.push(ColumnDef { path: clone_chars(prefix), id });
                assert forall|j: int|
                    0 <= j < leaf_paths(*shape, prefix@).len() implies col_matches(
                    #[trigger] out@[old(out)@.len() + j],
                    leaf_paths(*shape, prefix@)[j],
                ) by {
                    assert(j == 0);
                }
            }
        },
        FieldType::Object(inner) => {
            if is_struct_shape(inner) {
                let mut seg: Vec<char> = Vec::new();
                seg.push('{');
                seg.push('}');
                proof {
                    assert(seg@ =~= seq!['{', '}']);
                }
                let p = join_path(prefix, &seg);
                collect_columns(inner, &p, out);
            } else {
                assert(leaf_paths(*shape, prefix@)[0] == prefix@);
                let id = get_unique_int_str(prefix);
                out.push(ColumnDef { path: clone_chars(prefix), id });
                assert forall|j: int|
                    0 <= j < leaf_paths(*shape, prefix@).len() implies col_matches(
                    #[trigger] out@[old(out)@.len() + j],
                    leaf_paths(*shape, prefix@)[j],
                ) by {
                    assert(j == 0);
                }
            }
        },
        FieldType::Struct(fields) => {
            let ghost base = out@.len() as int;
            let mut i: usize = 0;
            while i < fields.len()
                invariant
                    *shape is Struct,
                    *fields == shape->Struct_0,
                    paths_short(*shape, prefix@),
                    0 <= i <= fields@.len(),
                    out@.len() == base + struct_leaf_paths_front(fields@, prefix@, i as int).len(),
                    base == old(out)@.len(),
                    forall|j: int| 0 <= j < base ==> out@[j] == old(out)@[j],
                    forall|j: int|
                        0 <= j < struct_leaf_paths_front(fields@, prefix@, i as int).len()
                            ==> col_matches(
                            #[trigger] out@[base + j],
                            struct_leaf_paths_front(fields@, prefix@, i as int)[j],
                        ),
                decreases fields@.len() - i,
            {
                let ghost fi = i as int;
                let ghost sub = leaf_paths(fields@[fi].shape, joined(prefix@, fields@[fi].name@));
                let ghost front = struct_leaf_paths_front(fields@, prefix@, fi);
                let ghost whole = leaf_paths(*shape, prefix@);
                proof {
                    assert(decreases_to!(*shape => shape->Struct_0));
                    assert(decreases_to!(shape->Struct_0 => shape->Struct_0@));
                    assert(decreases_to!(shape->Struct_0@ => shape->Struct_0@[fi]));
                    assert(decreases_to!(shape->Struct_0@[fi] => shape->Struct_0@[fi].shape));
                    lemma_struct_leaf_paths_split(fields@, prefix@, fi);
                    assert(struct_leaf_paths(fields@, prefix@, fi) == sub + struct_leaf_paths(
                        fields@,
                        prefix@,
                        fi + 1,
                    ));
                    assert(whole == front + struct_leaf_paths(fields@, prefix@, fi));
                    assert forall|j: int| 0 <= j < sub.len() implies #[trigger] sub[j].len()
                        <= MAX_PATH_CHARS by {
                        assert(sub[j] == whole[front.len() + j]);
                        assert(whole[front.len() + j].len() <= MAX_PATH_CHARS);
                    }
                }
                let p = join_path(prefix, &fields[i].name);
                let ghost before = out@;
                collect_columns(&fields[i].shape, &p, out);
                i = i + 1;
                proof {
                    let nfront = struct_leaf_paths_front(fields@, prefix@, fi + 1);
                    assert(nfront =~= front + sub);
                    assert forall|j: int| 0 <= j < nfront.len() implies col_matches(
                        #[trigger] out@[base + j],
                        nfront[j],
                    ) by {
                        if j < front.len() {
                            assert(out@[base + j] == before[base + j]);
                            assert(col_matches(before[base + j], front[j]));
                        } else {
                            let k = j - front.len();
                            assert(col_matches(out@[before.len() + k], sub[k]));
                            assert(base + j == before.len() + k);
                            assert(nfront[j] == sub[k]);
                        }
                    }
                }
            }
            proof {
                lemma_struct_leaf_paths_split(fields@, prefix@, fields@.len() as int);
            }
        },
    }
}

/// Whether a shape is a struct.
pub fn is_struct_shape(shape: &FieldType) -> (b: bool)
    ensures
        b == (*shape is Struct),
{
    match shape {
        FieldType::Struct(_) => true,
        _ => false,
    }
}

/// A rename of one field path between schema versions: values stored under
/// `from` are carried over to `to` when the schema changes.
pub struct Rename {
    pub from: Vec<char>,
    pub to: Vec<char>,
}

/// The name of the identity field.
pub open spec fn id_field_name() -> Seq<char> {
    seq!['_', 'i', 'd']
}

/// Whether a shape declares a top-level identity field.
pub open spec fn has_id_field(shape: FieldType) -> bool {
    shape is Struct && exists|i: int|
        0 <= i < shape->Struct_0@.len() && (#[trigger] shape->Struct_0@[i].name@)
            == id_field_name()
}

/// A declared identity field is a scalar leaf, so that writing an id
/// string into it keeps the record's shape.
pub open spec fn id_field_atomic(shape: FieldType) -> bool {
    shape is Struct ==> forall|i: int|
        0 <= i < shape->Struct_0@.len() && (#[trigger] shape->Struct_0@[i].name@)
            == id_field_name() ==> shape->Struct_0@[i].shape is Atomic
}

/// All leaf ids of a shape are distinct.
pub open spec fn distinct_ids(shape: FieldType) -> bool {
    forall|i: int, j: int|
        0 <= i < j < leaf_paths(shape, Seq::empty()).len() ==> unique_int_str(
            #[trigger] leaf_paths(shape, Seq::empty())[i],
        ) != unique_int_str(#[trigger] leaf_paths(shape, Seq::empty())[j])
}

/// The schema descriptor of a registered record type: its declared shape,
/// whether it has an identity field, whether at most one instance is stored,
/// the rename table for migration, a canonical empty record, and the flat
/// path-to-id table derived from the shape.
///
/// The reflection layer that derives shapes from record types is the
/// caller's; this type takes its output as given, which is what the
/// `requires` of [`Schema::new`] states.
pub struct Schema {
    struct_name: Vec<char>,
    shape: FieldType,
    is_one: bool,
    has_id: bool,
    renames: Vec<Rename>,
    empty_item: Value,
    columns: Vec<ColumnDef>,
}

impl Schema {
    pub closed spec fn spec_shape(&self) -> FieldType {
        self.shape
    }

    pub closed spec fn spec_is_one(&self) -> bool {
        self.is_one
    }

    pub closed spec fn spec_has_id(&self) -> bool {
        self.has_id
    }

    pub closed spec fn spec_struct_name(&self) -> Seq<char> {
        self.struct_name@
    }

    pub closed spec fn spec_columns(&self) -> Seq<ColumnDef> {
        self.columns@
    }

    pub closed spec fn spec_empty_item(&self) -> Vs {
        self.empty_item@
    }

    pub closed spec fn spec_renames(&self) -> Seq<Rename> {
        self.renames@
    }

    #[verifier::type_invariant]
    closed spec fn wf(&self) -> bool {
        &&& self.shape is Struct
        &&& shape_wf(self.shape)
        &&& paths_short(self.shape, Seq::empty())
        &&& distinct_ids(self.shape)
        &&& id_field_atomic(self.shape)
        &&& conforms(self.empty_item@, self.shape)
        &&& self.has_id == has_id_field(self.shape)
        &&& self.columns@.len() == leaf_paths(self.shape, Seq::empty()).len()
        &&& forall|j: int|
            0 <= j < self.columns@.len() ==> col_matches(
                #[trigger] self.columns@[j],
                leaf_paths(self.shape, Seq::empty())[j],
            )
    }

    /// What every schema guarantees about itself.
    #[inline]
    pub fn wf_facts(&self)
        ensures
            self.spec_shape() is Struct,
            shape_wf(self.spec_shape()),
            paths_short(self.spec_shape(), Seq::empty()),
            distinct_ids(self.spec_shape()),
            id_field_atomic(self.spec_shape()),
            conforms(self.spec_empty_item(), self.spec_shape()),
            self.spec_has_id() == has_id_field(self.spec_shape()),
            self.spec_columns().len() == leaf_paths(self.spec_shape(), Seq::empty()).len(),
            forall|j: int|
                0 <= j < self.spec_columns().len() ==> col_matches(
                    #[trigger] self.spec_columns()[j],
                    leaf_paths(self.spec_shape(), Seq::empty())[j],
                ),
    {
        proof {
            use_type_invariant(self);
        }
    }

    /// Builds a schema descriptor from the reflection layer's output.  The
    /// preconditions state what that layer guarantees: a well-formed struct
    /// shape whose leaf paths are short and collision-free, and a canonical
    /// empty record of that shape.
    pub fn new(
        struct_name: Vec<char>,
        shape: FieldType,
        is_one: bool,
        renames: Vec<Rename>,
        empty_item: Value,
    ) -> (s: Schema)
        requires
            shape is Struct,
            shape_wf(shape),
            paths_short(shape, Seq::empty()),
            distinct_ids(shape),
            id_field_atomic(shape),
            conforms(empty_item@, shape),
        ensures
            s.spec_shape() == shape,
            s.spec_is_one() == is_one,
            s.spec_has_id() == has_id_field(shape),
            s.spec_struct_name() == struct_name@,
            s.spec_empty_item() == empty_item@,
            s.spec_renames() == renames@,
    {
        let mut columns: Vec<ColumnDef> = Vec::new();
        let empty_prefix: Vec<char> = Vec::new();
        proof {
            assert(empty_prefix@ =~= Seq::<char>::empty());
        }
        collect_columns(&shape, &empty_prefix, &mut columns);
        let mut id_name: Vec<char> = Vec::new();
        id_name.push('_');
        id_name.push('i');
        id_name.push('d');
        proof {
            assert(id_name@ =~= id_field_name());
        }
        let mut has_id = false;
        match &shape {
            FieldType::Struct(fields) => {
                let mut i: usize = 0;
                while i < fields.len()
                    invariant
                        shape is Struct,
                        *fields == shape->Struct_0,
                        id_name@ == id_field_name(),
                        0 <= i <= fields@.len(),
                        has_id == exists|k: int|
                            0 <= k < i && (#[trigger] fields@[k].name@) == id_field_name(),
                    decreases fields@.len() - i,
                {
                    if lex_compare(&fields[i].name, &id_name) == 0 {
                        has_id = true;
                    }
                    i = i + 1;
                }
            },
            _ => {},
        }
        proof {
            assert(shape is Struct);
            assert(shape_wf(shape));
            assert(paths_short(shape, Seq::empty()));
            assert(distinct_ids(shape));
            assert(id_field_atomic(shape));
            assert(conforms(empty_item@, shape));
            assert(has_id == has_id_field(shape));
            assert(columns@.len() == leaf_paths(shape, Seq::empty()).len());
            assert forall|j: int| 0 <= j < columns@.len() implies col_matches(
                #[trigger] columns@[j],
                leaf_paths(shape, Seq::empty())[j],
            ) by {
                assert(col_matches(columns@[0 + j], leaf_paths(shape, empty_prefix@)[j]));
            }
        }
        Schema { struct_name, shape, is_one, has_id, renames, empty_item, columns }
    }

    /// The declared shape.
    pub fn shape(&self) -> (r: &FieldType)
        ensures
            *r == self.spec_shape(),
    {
        &self.shape
    }

    /// The flat path-to-id table.
    pub fn columns(&self) -> (r: &Vec<ColumnDef>)
        ensures
            r@ == self.spec_columns(),
    {
        &self.columns
    }

    /// Whether the type stores at most one instance.
    pub fn is_one(&self) -> (r: bool)
        ensures
            r == self.spec_is_one(),
    {
        self.is_one
    }

    /// Whether the type declares an identity field.
    pub fn has_id(&self) -> (r: bool)
        ensures
            r == self.spec_has_id(),
    {
        self.has_id
    }

    /// The registered type's name.
    pub fn struct_name(&self) -> (r: &Vec<char>)
        ensures
            r@ == self.spec_struct_name(),
    {
        &self.struct_name
    }

    /// The canonical empty record used to back-fill newly added fields.
    pub fn empty_item(&self) -> (r: &Value)
        ensures
            r@ == self.spec_empty_item(),
    {
        &self.empty_item
    }

    /// The rename table used by schema migration.
    pub fn renames(&self) -> (r: &Vec<Rename>)
        ensures
            r@ == self.spec_renames(),
    {
        &self.renames
    }
}

/// Writes a number in decimal; the fall-back id form.
pub fn u64_to_dec_pub(n: u64) -> (r: Vec<char>)
    ensures
        r@ == dec_str(n as nat),
        r@.len() > 0,
{
    proof {
        lemma_dec_str_len(n as nat);
    }
    u64_to_dec(n)
}

proof fn lemma_dec_str_len(n: nat)
    ensures
        dec_str(n).len() > 0,
    decreases n,
{
    if n >= 10 {
        lemma_dec_str_len(n / 10);
    }
}

/// Whether a character is a decimal digit.
pub open spec fn is_digit(c: char) -> bool {
    48 <= (c as u32) <= 57
}

/// A decimal form is nonempty and holds digits only.
pub proof fn lemma_dec_str_digits(n: nat)
    ensures
        dec_str(n).len() > 0,
        forall|j: int| 0 <= j < dec_str(n).len() ==> is_digit(#[trigger] dec_str(n)[j]),
    decreases n,
{
    if n < 10 {
        assert(is_digit(digit_char(n as int)));
    } else {
        lemma_dec_str_digits(n / 10);
        assert(is_digit(digit_char((n % 10) as int)));
        assert forall|j: int| 0 <= j < dec_str(n).len() implies is_digit(
            #[trigger] dec_str(n)[j],
        ) by {
            if j < dec_str(n / 10).len() {
                assert(dec_str(n)[j] == dec_str(n / 10)[j]);
            }
        }
    }
}

/// The id under which a field's derived length pseudo-field is indexed.
pub fn get_len_field_int(field_int: &Vec<char>) -> (r: Vec<char>)
    ensures
        r@ == len_marker(field_int@),
{
    let mut r: Vec<char> = Vec::new();
    r.push('l');
    r.push('e');
    r.push('n');
    r.push('(');
    let mut i: usize = 0;
    while i < field_int.len()
        invariant
            0 <= i <= field_int@.len(),
            r@ == seq!['l', 'e', 'n', '('] + field_int@.take(i as int),
        decreases field_int@.len() - i,
    {
        proof {
            assert(field_int@.take(i + 1) =~= field_int@.take(i as int).push(field_int@[i as int]));
        }
        r.push(field_int[i]);
        i = i + 1;
    }
    r.push(')');
    proof {
        assert(field_int@.take(field_int@.len() as int) =~= field_int@);
        assert(r@ =~= len_marker(field_int@));
    }
    r
}


/// Splitting the leaf count of a struct's fields at a position.
pub proof fn lemma_struct_count_split(fields: Seq<FieldDecl>, i: int)
    requires
        0 <= i < fields.len(),
    ensures
        struct_leaf_count(fields, i) == leaf_count(fields[i].shape) + struct_leaf_count(
            fields,
            i + 1,
        ),
{
}

/// Counts the scalar columns a shape flattens into.
pub fn count_leaves(shape: &FieldType) -> (n: usize)
    requires
        leaf_count(*shape) <= usize::MAX,
    ensures
        n == leaf_count(*shape),
    decreases *shape,
{
    match shape {
        FieldType::Atomic => 1,
        FieldType::Array(inner) => {
            if is_struct_shape(inner) {
                proof {
                    assert(decreases_to!(*shape => shape->Array_0));
                }
                count_leaves(inner)
            } else {
                1
            }
        },
        FieldType::Object(inner) => {
            if is_struct_shape(inner) {
                proof {
                    assert(decreases_to!(*shape => shape->Object_0));
                }
                count_leaves(inner)
            } else {
                1
            }
        },
        FieldType::Struct(fields) => {
            let mut total: usize = 0;
            let mut i: usize = 0;
            while i < fields.len()
                invariant
                    *shape is Struct,
                    shape->Struct_0 == *fields,
                    leaf_count(*shape) <= usize::MAX,
                    0 <= i <= fields@.len(),
                    total + struct_leaf_count(fields@, i as int) == struct_leaf_count(fields@, 0),
                decreases fields@.len() - i,
            {
                proof {
                    assert(decreases_to!(*shape => shape->Struct_0));
                    assert(decreases_to!(shape->Struct_0 => shape->Struct_0@));
                    assert(decreases_to!(shape->Struct_0@ => shape->Struct_0@[i as int]));
                    assert(decreases_to!(shape->Struct_0@[i as int] => shape->Struct_0@[i as int].shape));
                    lemma_struct_count_split(fields@, i as int);
                }
                let c = count_leaves(&fields[i].shape);
                total = total + c;
                i = i + 1;
            }
            total
        },
    }
}

/// One field's count never exceeds the whole struct's, counted from any
/// earlier position.
pub proof fn lemma_struct_count_bound(fields: Seq<FieldDecl>, i: int, j: int)
    requires
        0 <= j <= i < fields.len(),
    ensures
        leaf_count(fields[i].shape) <= struct_leaf_count(fields, j),
    decreases i - j,
{
    if j < i {
        lemma_struct_count_bound(fields, i, j + 1);
    }
}


/// A well-formed shape flattens into at least one column.
pub proof fn lemma_leaf_count_pos(shape: FieldType)
    requires
        shape_wf(shape),
    ensures
        leaf_count(shape) >= 1,
    decreases shape, 0nat,
{
    match shape {
        FieldType::Atomic => {},
        FieldType::Array(inner) => {
            if *inner is Struct {
                lemma_leaf_count_pos(*inner);
            }
        },
        FieldType::Object(inner) => {
            if *inner is Struct {
                lemma_leaf_count_pos(*inner);
            }
        },
        FieldType::Struct(fields) => {
            lemma_struct_fields_wf_at(fields@, 0);
            lemma_leaf_count_pos(fields@[0].shape);
            lemma_struct_count_bound(fields@, 0, 0);
        },
    }
}

/// Well-formedness of a struct's fields holds at each field.
pub proof fn lemma_struct_fields_wf_at(fields: Seq<FieldDecl>, k: int)
    requires
        struct_fields_wf(fields, 0),
        0 <= k < fields.len(),
    ensures
        shape_wf(fields[k].shape),
{
    lemma_struct_fields_wf_from(fields, 0, k);
}

proof fn lemma_struct_fields_wf_from(fields: Seq<FieldDecl>, i: int, k: int)
    requires
        struct_fields_wf(fields, i),
        0 <= i <= k < fields.len(),
    ensures
        shape_wf(fields[k].shape),
    decreases k - i,
{
    if i < k {
        lemma_struct_fields_wf_from(fields, i + 1, k);
    }
}

/// The columns of the fields before a position.
pub open spec fn struct_count_front(fields: Seq<FieldDecl>, i: int) -> nat
    decreases i,
{
    if i <= 0 {
        0
    } else {
        struct_count_front(fields, i - 1) + leaf_count(fields[i - 1].shape)
    }
}

pub proof fn lemma_struct_count_front_split(fields: Seq<FieldDecl>, i: int)
    requires
        0 <= i <= fields.len(),
    ensures
        struct_count_front(fields, i) + struct_leaf_count(fields, i) == struct_leaf_count(
            fields,
            0,
        ),
    decreases i,
{
    if i > 0 {
        lemma_struct_count_front_split(fields, i - 1);
    }
}

} // verus!
