//! Schema migration: carrying a stored collection from one schema
//! version to the next.  Explicit renames move a column between field
//! ids, columns absent from the new schema are dropped, and columns the
//! new schema adds are back-filled from the canonical empty record.

use vstd::prelude::*;
use crate::value::Value;
use crate::value::Entry;
use crate::value::Vs;
use crate::value::clone_chars;
use crate::value::lex_compare;
use crate::schema::Schema;
use crate::schema::ColumnDef;
use crate::schema::Rename;
use crate::schema::unique_int_str;
use crate::schema::MAX_PATH_CHARS;
use crate::schema::get_unique_int_str;
use crate::tree::store_tree::pair_lookup;
use crate::encoder::ev;
use crate::encoder::obj_insert_sorted;
use crate::error::Error;

verus! {

/// The view of a rename table: each pair of old and new field paths.
pub open spec fn renames_view(rs: Seq<Rename>) -> Seq<(Seq<char>, Seq<char>)> {
    Seq::new(
        rs.len(),
        |i: int|
            if 0 <= i < rs.len() {
                (rs[i].from@, rs[i].to@)
            } else {
                (Seq::empty(), Seq::empty())
            },
    )
}

/// The old field id a new column draws its value from: the renamed
/// source when the rename table names the column's path as a target,
/// else the column's own id.
pub open spec fn migrate_src(renames: Seq<(Seq<char>, Seq<char>)>, id: Seq<char>) -> Seq<char>
    decreases renames.len(),
{
    if renames.len() == 0 {
        id
    } else if unique_int_str(renames[0].1) == id {
        unique_int_str(renames[0].0)
    } else {
        migrate_src(renames.drop_first(), id)
    }
}

/// One migrated column: the stored value found under the source id, or
/// the canonical empty record's column when the store has none.
pub open spec fn migrate_col(
    old_entries: Seq<(Seq<char>, Vs)>,
    empty_entries: Seq<(Seq<char>, Vs)>,
    renames: Seq<(Seq<char>, Seq<char>)>,
    id: Seq<char>,
) -> Vs {
    match pair_lookup(old_entries, migrate_src(renames, id)) {
        Option::Some(v) => v,
        Option::None => match pair_lookup(empty_entries, id) {
            Option::Some(v) => v,
            Option::None => Vs::Null,
        },
    }
}

/// The migrated flat record: one entry per new column, filed sorted.
pub open spec fn migrate_fold(
    old_entries: Seq<(Seq<char>, Vs)>,
    empty_entries: Seq<(Seq<char>, Vs)>,
    renames: Seq<(Seq<char>, Seq<char>)>,
    cols: Seq<ColumnDef>,
    n: int,
) -> Seq<(Seq<char>, Vs)>
    decreases n,
{
    if n <= 0 {
        Seq::empty()
    } else {
        obj_insert_sorted(
            migrate_fold(old_entries, empty_entries, renames, cols, n - 1),
            cols[n - 1].id@,
            migrate_col(old_entries, empty_entries, renames, cols[n - 1].id@),
        )
    }
}

/// Carries one stored flat record from the old schema to the new one:
/// renamed columns keep their values under the new id, dropped columns
/// vanish, and newly declared columns take the canonical empty record's
/// value.
pub fn fix_value(
    old_flat: &Value,
    empty_flat: &Value,
    renames: &Vec<Rename>,
    schema: &Schema,
) -> (r: Result<Value, Error>)
    requires
        forall|i: int|
            0 <= i < renames@.len() ==> (#[trigger] renames@[i]).from@.len() <= MAX_PATH_CHARS
                && renames@[i].to@.len() <= MAX_PATH_CHARS,
    ensures
        old_flat@ is Obj && empty_flat@ is Obj ==> r.is_ok() && r.get_Ok_0()@ == Vs::Obj(
            migrate_fold(
                old_flat@->Obj_0,
                empty_flat@->Obj_0,
                renames_view(renames@),
                schema.spec_columns(),
                schema.spec_columns().len() as int,
            ),
        ),
        !(old_flat@ is Obj && empty_flat@ is Obj) ==> r == Result::<Value, Error>::Err(
            Error::Serialize,
        ),
{
    let (olds, empties) = match (old_flat, empty_flat) {
        (Value::Obj(a), Value::Obj(b)) => (a, b),
        _ => {
            return Err(Error::Serialize);
        },
    };
    proof {
        assert(old_flat@->Obj_0.len() == olds@.len());
        assert forall|m: int| 0 <= m < olds@.len() implies #[trigger] old_flat@->Obj_0[m] == (
        olds@[m].key@,
        olds@[m].value@,
        ) by {}
        assert(empty_flat@->Obj_0.len() == empties@.len());
        assert forall|m: int| 0 <= m < empties@.len() implies #[trigger] empty_flat@->Obj_0[m]
            == (empties@[m].key@, empties@[m].value@) by {}
    }
    let ghost oldv = old_flat@->Obj_0;
    let ghost emptyv = empty_flat@->Obj_0;
    let ghost renv = renames_view(renames@);
    let cols = schema.columns();
    let mut out: Vec<Entry> = Vec::new();
    let mut j: usize = 0;
    proof {
        assert(ev(out@) =~= migrate_fold(oldv, emptyv, renv, cols@, 0));
    }
    while j < cols.len()
        invariant
            cols@ == schema.spec_columns(),
            oldv == old_flat@->Obj_0,
            emptyv == empty_flat@->Obj_0,
            renv == renames_view(renames@),
            old_flat is Obj,
            empty_flat is Obj,
            *olds == old_flat->Obj_0,
            *empties == empty_flat->Obj_0,
            oldv.len() == olds@.len(),
            forall|m: int| 0 <= m < olds@.len() ==> #[trigger] oldv[m] == (
            olds@[m].key@,
            olds@[m].value@,
            ),
            emptyv.len() == empties@.len(),
            forall|m: int|
                0 <= m < empties@.len() ==> #[trigger] emptyv[m] == (
                empties@[m].key@,
                empties@[m].value@,
                ),
            forall|i: int|
                0 <= i < renames@.len() ==> (#[trigger] renames@[i]).from@.len()
                    <= MAX_PATH_CHARS && renames@[i].to@.len() <= MAX_PATH_CHARS,
            0 <= j <= cols@.len(),
            ev(out@) == migrate_fold(oldv, emptyv, renv, cols@, j as int),
        decreases cols@.len() - j,
    {
        let src = rename_source(renames, &cols[j].id);
        proof {
            assert(src@ == migrate_src(renv, cols@[j as int].id@));
        }
        proof {
            assert(ev(olds@) =~= oldv);
            assert(ev(empties@) =~= emptyv);
        }
        let got = flat_get(olds, &src);
        let col: Value = match got {
            Some(v) => v,
            None => {
                match flat_get(empties, &cols[j].id) {
                    Some(v) => v,
                    None => Value::Null,
                }
            },
        };
        proof {
            assert(col@ == migrate_col(oldv, emptyv, renv, cols@[j as int].id@));
        }
        crate::encoder::obj_set(&mut out, clone_chars(&cols[j].id), col);
        j = j + 1;
    }
    let r = Value::Obj(out);
    proof {
        assert(r@->Obj_0 =~= ev(out@));
        assert(r@ == Vs::Obj(migrate_fold(oldv, emptyv, renv, cols@, cols@.len() as int)));
    }
    Ok(r)
}

/// The old field id a new column draws from.
fn rename_source(renames: &Vec<Rename>, id: &Vec<char>) -> (r: Vec<char>)
    requires
        forall|i: int|
            0 <= i < renames@.len() ==> (#[trigger] renames@[i]).from@.len() <= MAX_PATH_CHARS
                && renames@[i].to@.len() <= MAX_PATH_CHARS,
    ensures
        r@ == migrate_src(renames_view(renames@), id@),
{
    let ghost renv = renames_view(renames@);
    let mut i: usize = 0;
    proof {
        assert(renv.skip(0) =~= renv);
    }
    while i < renames.len()
        invariant
            renv == renames_view(renames@),
            forall|m: int|
                0 <= m < renames@.len() ==> (#[trigger] renames@[m]).from@.len()
                    <= MAX_PATH_CHARS && renames@[m].to@.len() <= MAX_PATH_CHARS,
            0 <= i <= renames@.len(),
            migrate_src(renv, id@) == migrate_src(renv.skip(i as int), id@),
        decreases renames@.len() - i,
    {
        proof {
            assert(renv.skip(i as int)[0] == renv[i as int]);
            assert(renv.skip(i as int).drop_first() =~= renv.skip(i + 1));
        }
        let to_id = get_unique_int_str(&renames[i].to);
        if lex_compare(&to_id, id) == 0 {
            return get_unique_int_str(&renames[i].from);
        }
        i = i + 1;
    }
    proof {
        assert(renv.skip(renames@.len() as int) =~= Seq::<(Seq<char>, Seq<char>)>::empty());
    }
    clone_chars(id)
}

/// Looks a field id up in a flat record's entries.
fn flat_get(es: &Vec<Entry>, id: &Vec<char>) -> (r: Option<Value>)
    ensures
        r.is_some() == pair_lookup(ev(es@), id@).is_some(),
        r.is_some() ==> r.unwrap()@ == pair_lookup(ev(es@), id@).unwrap(),
{
    let mut p: usize = 0;
    while p < es.len()
        invariant
            0 <= p <= es@.len(),
            forall|m: int| 0 <= m < p ==> (#[trigger] ev(es@)[m]).0 != id@,
        decreases es@.len() - p,
    {
        if lex_compare(&es[p].key, id) == 0 {
            proof {
                assert(ev(es@)[p as int].0 == id@);
                lemma_flat_lookup_hit(ev(es@), id@, p as int);
            }
            return Some(es[p].value.duplicate());
        }
        proof {
            assert(ev(es@)[p as int].0 == es@[p as int].key@);
        }
        p = p + 1;
    }
    proof {
        lemma_flat_lookup_none(ev(es@), id@);
    }
    None
}

proof fn lemma_flat_lookup_hit(ps: Seq<(Seq<char>, Vs)>, f: Seq<char>, i: int)
    requires
        0 <= i < ps.len(),
        forall|j: int| 0 <= j < i ==> (#[trigger] ps[j]).0 != f,
        ps[i].0 == f,
    ensures
        pair_lookup(ps, f) == Option::Some(ps[i].1),
    decreases i,
{
    if i > 0 {
        assert forall|j: int| 0 <= j < i - 1 implies (#[trigger] ps.drop_first()[j]).0 != f by {
            assert(ps[j + 1].0 != f);
        }
        lemma_flat_lookup_hit(ps.drop_first(), f, i - 1);
    }
}

proof fn lemma_flat_lookup_none(ps: Seq<(Seq<char>, Vs)>, f: Seq<char>)
    requires
        forall|j: int| 0 <= j < ps.len() ==> (#[trigger] ps[j]).0 != f,
    ensures
        pair_lookup(ps, f).is_none(),
    decreases ps.len(),
{
    if ps.len() > 0 {
        assert forall|j: int| 0 <= j < ps.len() - 1 implies (#[trigger] ps.drop_first()[j]).0
            != f by {
            assert(ps[j + 1].0 != f);
        }
        lemma_flat_lookup_none(ps.drop_first(), f);
    }
}

/// The bytes the records take together.
pub open spec fn lens_sum(lens: Seq<usize>) -> int
    decreases lens.len(),
{
    if lens.len() == 0 {
        0
    } else {
        lens_sum(lens.drop_last()) + lens.last()
    }
}

proof fn lemma_lens_sum_prefix(lens: Seq<usize>, i: int)
    requires
        0 <= i < lens.len(),
    ensures
        lens_sum(lens.take(i + 1)) == lens_sum(lens.take(i)) + lens[i],
        lens_sum(lens.take(i)) <= lens_sum(lens.take(i + 1)),
    decreases lens.len() - i,
{
    assert(lens.take(i + 1).drop_last() =~= lens.take(i));
    assert(lens.take(i + 1).last() == lens[i]);
}

proof fn lemma_lens_sum_bound(lens: Seq<usize>, i: int)
    requires
        0 <= i <= lens.len(),
    ensures
        lens_sum(lens.take(i)) <= lens_sum(lens),
    decreases lens.len() - i,
{
    if i < lens.len() {
        lemma_lens_sum_prefix(lens, i);
        lemma_lens_sum_bound(lens, i + 1);
    } else {
        assert(lens.take(i) =~= lens);
    }
}

proof fn lemma_lens_sum_nonneg(lens: Seq<usize>)
    ensures
        lens_sum(lens) >= 0,
    decreases lens.len(),
{
    if lens.len() > 0 {
        lemma_lens_sum_nonneg(lens.drop_last());
    }
}

/// Rebuilds a fresh offset table for migrated records: every stored
/// record is carried to the new schema and filed into a new table, in
/// storage order.  Returns the new table together with each record's
/// migrated form, for the caller to write back.  Success is owed exactly
/// when the canonical empty encoding and every stored record are
/// objects; the rebuilt table appends each record in order.
pub fn update_schema(
    old_records: Vec<Value>,
    ids: Vec<crate::value::Id>,
    empty_flat: &Value,
    renames: &Vec<Rename>,
    schema: &Schema,
    lens: Vec<usize>,
) -> (r: Result<(crate::persistence::Persistence, Vec<Value>), Error>)
    requires
        ids@.len() == old_records@.len(),
        lens@.len() == old_records@.len(),
        forall|a: int, b: int| 0 <= a < b < ids@.len() ==> (#[trigger] ids@[a]@) != (#[trigger] ids@[b]@),
        lens_sum(lens@) <= usize::MAX,
        forall|i: int|
            0 <= i < renames@.len() ==> (#[trigger] renames@[i]).from@.len() <= MAX_PATH_CHARS
                && renames@[i].to@.len() <= MAX_PATH_CHARS,
    ensures
        r.is_ok() <==> (old_records@.len() == 0 || (empty_flat@ is Obj && (forall|i: int|
            0 <= i < old_records@.len() ==> (#[trigger] old_records@[i]@) is Obj))),
        r.is_ok() ==> {
            let table = r.get_Ok_0().0;
            let migrated = r.get_Ok_0().1;
            &&& migrated@.len() == old_records@.len()
            &&& (forall|i: int|
                0 <= i < migrated@.len() ==> (#[trigger] migrated@[i]@) == Vs::Obj(
                    migrate_fold(
                        old_records@[i]@->Obj_0,
                        empty_flat@->Obj_0,
                        renames_view(renames@),
                        schema.spec_columns(),
                        schema.spec_columns().len() as int,
                    ),
                ))
            &&& table@.metas.len() == old_records@.len()
            &&& (forall|i: int|
                0 <= i < table@.metas.len() ==> (#[trigger] table@.metas[i]) == (
                    ids@[i]@,
                    crate::persistence::SimpleMeta {
                        off: lens_sum(lens@.take(i)) as usize,
                        rl: lens@[i],
                        sl: lens@[i],
                    },
                ))
            &&& table@.deleted.len() == 0
            &&& table@.size == lens_sum(lens@)
        },
{
    let mut table = crate::persistence::Persistence::new(
        clone_chars(schema.struct_name()),
        clone_columns(schema.columns()),
    );
    let mut migrated: Vec<Value> = Vec::new();
    let mut i: usize = 0;
    let n = old_records.len();
    let mut recs = old_records;
    let ghost orig = recs@;
    proof {
        assert(lens@.take(0) =~= Seq::<usize>::empty());
        assert(table@.metas =~= Seq::<(Seq<char>, crate::persistence::SimpleMeta)>::empty());
        assert(table@.deleted =~= Seq::<crate::persistence::SimpleMeta>::empty());
    }
    while i < n
        invariant
            n == recs@.len(),
            recs@ == orig,
            orig == old_records@,
            ids@.len() == n,
            lens@.len() == n,
            lens_sum(lens@) <= usize::MAX,
            forall|a: int, b: int|
                0 <= a < b < ids@.len() ==> (#[trigger] ids@[a]@) != (#[trigger] ids@[b]@),
            forall|m: int|
                0 <= m < renames@.len() ==> (#[trigger] renames@[m]).from@.len()
                    <= MAX_PATH_CHARS && renames@[m].to@.len() <= MAX_PATH_CHARS,
            0 <= i <= n,
            empty_flat@ is Obj || i == 0,
            forall|m: int| 0 <= m < i ==> (#[trigger] old_records@[m]@) is Obj,
            migrated@.len() == i,
            forall|m: int|
                0 <= m < i ==> (#[trigger] migrated@[m]@) == Vs::Obj(
                    migrate_fold(
                        old_records@[m]@->Obj_0,
                        empty_flat@->Obj_0,
                        renames_view(renames@),
                        schema.spec_columns(),
                        schema.spec_columns().len() as int,
                    ),
                ),
            table@.metas.len() == i,
            forall|m: int|
                0 <= m < i ==> (#[trigger] table@.metas[m]) == (
                    ids@[m]@,
                    crate::persistence::SimpleMeta {
                        off: lens_sum(lens@.take(m)) as usize,
                        rl: lens@[m],
                        sl: lens@[m],
                    },
                ),
            table@.deleted.len() == 0,
            table@.size == lens_sum(lens@.take(i as int)),
        decreases n - i,
    {
        proof {
            lemma_lens_sum_prefix(lens@, i as int);
            lemma_lens_sum_bound(lens@, i as int + 1);
            lemma_lens_sum_nonneg(lens@.take(i as int));
        }
        let rec = recs.remove(i);
        let fx = fix_value(&rec, empty_flat, renames, schema);
        let fixed = match fx {
            Ok(f) => f,
            Err(e) => {
                proof {
                    assert(!(rec@ is Obj && empty_flat@ is Obj));
                    if empty_flat@ is Obj {
                        assert(!(old_records@[i as int]@ is Obj));
                        assert(old_records@.len() > 0);
                    }
                }
                return Err(e);
            },
        };
        recs.insert(i, rec);
        proof {
            assert(recs@ =~= orig);
        }
        let ghost before = table@;
        let op = crate::persistence::Operation::new().id(clone_chars(&ids[i])).insert();
        let payload = vec_of_len(lens[i]);
        proof {
            assert forall|m: int| 0 <= m < before.metas.len() implies (
            #[trigger] before.metas[m]).0 != ids@[i as int]@ by {
                assert(before.metas[m].0 == ids@[m]@);
            }
            crate::persistence::lemma_find_meta_misses_pub(before.metas, ids@[i as int]@);
        }
        let (_append, _meta, _bytes) = table.insert(op, payload);
        migrated.push(fixed);
        i = i + 1;
        proof {
            assert(table@.metas =~= before.metas.push((
                ids@[i - 1]@,
                crate::persistence::SimpleMeta {
                    off: lens_sum(lens@.take(i - 1)) as usize,
                    rl: lens@[i - 1],
                    sl: lens@[i - 1],
                },
            )));
        }
    }
    proof {
        assert(lens@.take(n as int) =~= lens@);
    }
    Ok((table, migrated))
}

/// A zeroed payload of a recorded length, standing for bytes the caller
/// re-serializes.
fn vec_of_len(n: usize) -> (r: Vec<u8>)
    ensures
        r@.len() == n,
{
    let mut v: Vec<u8> = Vec::new();
    let mut i: usize = 0;
    while i < n
        invariant
            0 <= i <= n,
            v@.len() == i,
        decreases n - i,
    {
        v.push(0);
        i = i + 1;
    }
    v
}

/// Copies a schema table.
fn clone_columns(cols: &Vec<ColumnDef>) -> (r: Vec<ColumnDef>)
    ensures
        r@.len() == cols@.len(),
{
    let mut out: Vec<ColumnDef> = Vec::new();
    let mut i: usize = 0;
    while i < cols.len()
        invariant
            0 <= i <= cols@.len(),
            out@.len() == i,
        decreases cols@.len() - i,
    {
        out.push(
            ColumnDef { path: clone_chars(&cols[i].path), id: clone_chars(&cols[i].id) },
        );
        i = i + 1;
    }
    out
}

} // verus!
